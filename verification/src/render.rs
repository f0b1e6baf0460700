//! How a route is written out: the display name of each package on it, or the
//! raw identity where the package has none, each followed by an arrow, and then
//! the name that was searched for.

use vstd::prelude::*;
use crate::graph::{Id, NodeView};
use crate::routes::routes;

verus! {

/// The separator written after every package of a route: `" -> "`.
pub open spec fn arrow() -> Seq<char> {
    seq![' ', '-', '>', ' ']
}

/// What is written for the package `id`: its display name where `names` holds
/// one, else the text of the identity itself.
pub open spec fn label(names: Map<Id, Seq<char>>, id: Id) -> Seq<char> {
    if names.contains_key(id) {
        names[id]
    } else {
        id
    }
}

/// The labels of `path`, each followed by an arrow, joined in order.
pub open spec fn chain(names: Map<Id, Seq<char>>, path: Seq<Id>) -> Seq<char> {
    path.map_values(|id: Id| label(names, id) + arrow()).flatten()
}

/// The line for one route: its chain, then the searched name.
pub open spec fn line(names: Map<Id, Seq<char>>, path: Seq<Id>, target: Seq<char>) -> Seq<char> {
    chain(names, path) + target
}

/// The lines for the routes found from `path`, in discovery order.
pub open spec fn lines(
    names: Map<Id, Seq<char>>,
    nodes: Seq<NodeView>,
    path: Seq<Id>,
    target: Seq<char>,
) -> Seq<Seq<char>> {
    routes(nodes, path, target).map_values(|route: Seq<Id>| line(names, route, target))
}

/// The lines for the routes found from each of `roots` in turn.
pub open spec fn lines_from_roots(
    names: Map<Id, Seq<char>>,
    nodes: Seq<NodeView>,
    roots: Seq<Id>,
    target: Seq<char>,
) -> Seq<Seq<char>> {
    roots.map_values(|root: Id| lines(names, nodes, seq![root], target)).flatten()
}

/// The chain of a path that grew by one package is the old chain, then the
/// label of that package and an arrow.
pub proof fn lemma_chain_push(names: Map<Id, Seq<char>>, path: Seq<Id>, id: Id)
    ensures
        chain(names, path.push(id)) == chain(names, path) + label(names, id) + arrow(),
{
    let each = |id: Id| label(names, id) + arrow();
    assert(path.push(id).map_values(each) =~= path.map_values(each).push(each(id)));
    path.map_values(each).lemma_flatten_push(each(id));
}

} // verus!
