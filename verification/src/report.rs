//! The whole answer for one workspace: the table of names is built from the
//! reported packages, then every workspace member is searched in turn.

use vstd::prelude::*;
use crate::graph::Resolve;
use crate::metadata::{name_table, package_views, Metadata};
use crate::render::lines_from_roots;
use crate::search::{root_ids, Search};
use crate::text::texts;

verus! {

/// Why no answer could be given.
#[derive(Debug, Clone, Copy, PartialEq, Eq, Structural)]
pub enum Error {
    /// The resolver's report holds no resolved dependency graph.
    NoResolve,
}

impl Error {
    /// The message for the user.
    pub fn message(&self) -> (text: &'static str)
        ensures
            text@ == "No dependency resolution found"@,
    {
        match self {
            Error::NoResolve => "No dependency resolution found",
        }
    }
}

/// The resolved graph of a report. Fails exactly where the report holds none.
pub fn resolved(metadata: &Metadata) -> (graph: Result<&Resolve, Error>)
    ensures
        match graph {
            Ok(resolve) => metadata.resolve == Some(*resolve),
            Err(error) => metadata.resolve is None && error == Error::NoResolve,
        },
{
    match &metadata.resolve {
        Some(resolve) => Ok(resolve),
        None => Err(Error::NoResolve),
    }
}

/// Answers why the workspace depends on `target`: one line for every route
/// from a workspace member to an edge whose declared name is `target`, the
/// members taken in order.
///
/// Fails, before anything is searched, exactly where the report holds no
/// resolved graph.
pub fn why(metadata: &Metadata, target: &str) -> (answer: Result<Vec<String>, Error>)
    ensures
        match answer {
            Ok(found) => {
                &&& metadata.resolve matches Some(resolve)
                &&& texts(found@) == lines_from_roots(
                    name_table(package_views(metadata.packages@)),
                    resolve@,
                    root_ids(metadata.workspace_members@),
                    target@,
                )
            },
            Err(error) => metadata.resolve is None && error == Error::NoResolve,
        },
{
    let resolve = match resolved(metadata) {
        Ok(resolve) => resolve,
        Err(error) => {
            return Err(error);
        },
    };
    let search = Search::with_packages(&metadata.packages);
    Ok(search.search_roots(&metadata.workspace_members, resolve, target))
}

} // verus!
