//! What the resolver reports about a workspace, as far as the search reads it:
//! the packages with their display names, the workspace members, and the
//! resolved graph.

use vstd::prelude::*;
use crate::graph::{Id, PackageId, Resolve};

verus! {

/// The model of a reported package: what contracts say of a `Package`.
pub struct PackageView {
    /// The identity of the package.
    pub id: Id,
    /// Its display name.
    pub name: Seq<char>,
}

/// One package that the resolver reports: its identity and its display name.
#[derive(Debug)]
pub struct Package {
    /// The display name of the package.
    pub name: String,
    /// The identity of the package.
    pub id: PackageId,
}

impl View for Package {
    type V = PackageView;

    open spec fn view(&self) -> PackageView {
        PackageView { id: self.id@, name: self.name@ }
    }
}

/// The resolver's report on a workspace.
#[derive(Debug)]
pub struct Metadata {
    /// Every package that the workspace refers to.
    pub packages: Vec<Package>,
    /// The packages of the workspace itself: the roots of the search.
    pub workspace_members: Vec<PackageId>,
    /// The resolved dependency graph, where the resolver produced one.
    pub resolve: Option<Resolve>,
}

/// The models of a list of reported packages.
pub open spec fn package_views(packages: Seq<Package>) -> Seq<PackageView> {
    packages.map_values(|p: Package| p@)
}

/// Whether a package with the identity `id` is reported.
pub open spec fn is_reported(packages: Seq<PackageView>, id: Id) -> bool {
    exists|i: int| 0 <= i < packages.len() && (#[trigger] packages[i]).id == id
}

/// Whether `i` is the position of the last reported package with the identity
/// `id`.
pub open spec fn is_last_with_id(packages: Seq<PackageView>, id: Id, i: int) -> bool {
    &&& 0 <= i < packages.len()
    &&& packages[i].id == id
    &&& forall|j: int| i < j < packages.len() ==> (#[trigger] packages[j]).id != id
}

/// The table of display names for a list of reported packages: every reported
/// identity has an entry, which holds the name of the last package reported
/// with that identity.
pub open spec fn name_table(packages: Seq<PackageView>) -> Map<Id, Seq<char>> {
    Map::new(
        |id: Id| is_reported(packages, id),
        |id: Id| packages[choose|i: int| is_last_with_id(packages, id, i)].name,
    )
}

/// At most one position is the last with a given identity.
proof fn lemma_last_is_unique(packages: Seq<PackageView>, id: Id, i: int, j: int)
    requires
        is_last_with_id(packages, id, i),
        is_last_with_id(packages, id, j),
    ensures
        i == j,
{
}

/// The entry of an identity holds the name of the last package reported with
/// it.
pub proof fn lemma_name_table_entry(packages: Seq<PackageView>, i: int)
    requires
        is_last_with_id(packages, packages[i].id, i),
    ensures
        name_table(packages).contains_key(packages[i].id),
        name_table(packages)[packages[i].id] == packages[i].name,
{
    let id = packages[i].id;
    let c = choose|c: int| is_last_with_id(packages, id, c);
    lemma_last_is_unique(packages, id, i, c);
}

/// The table covers every reported package, and holds nothing else.
pub proof fn lemma_name_table_covers(packages: Seq<PackageView>, id: Id)
    ensures
        name_table(packages).contains_key(id) <==> is_reported(packages, id),
        forall|i: int| 0 <= i < packages.len() ==> name_table(packages).contains_key(
            (#[trigger] packages[i]).id,
        ),
{
}

/// Reporting one more package records its name for its identity, in place of
/// any name recorded for that identity before.
pub proof fn lemma_name_table_push(packages: Seq<PackageView>, package: PackageView)
    ensures
        name_table(packages.push(package)) == name_table(packages).insert(package.id, package.name),
{
    let more = packages.push(package);
    let n = packages.len() as int;
    assert(more[n] == package);
    assert forall|id: Id|
        is_reported(more, id) <==> (id == package.id || is_reported(packages, id)) by {
        if is_reported(packages, id) {
            let i = choose|i: int| 0 <= i < packages.len() && (#[trigger] packages[i]).id == id;
            assert(more[i].id == id);
        }
    }
    assert forall|id: Id| is_reported(more, id) implies #[trigger] name_table(more)[id]
        == name_table(packages).insert(package.id, package.name)[id] by {
        if id == package.id {
            lemma_name_table_entry(more, n);
        } else {
            let w = choose|i: int| 0 <= i < packages.len() && (#[trigger] packages[i]).id == id;
            let last = lemma_some_last(packages, id, w);
            lemma_name_table_entry(packages, last);
            lemma_name_table_entry(more, last);
        }
    }
}

proof fn lemma_some_last(packages: Seq<PackageView>, id: Id, w: int) -> (last: int)
    requires
        0 <= w < packages.len(),
        packages[w].id == id,
    ensures
        is_last_with_id(packages, id, last),
    decreases packages.len() - w,
{
    if exists|j: int| w < j < packages.len() && (#[trigger] packages[j]).id == id {
        let j = choose|j: int| w < j < packages.len() && (#[trigger] packages[j]).id == id;
        lemma_some_last(packages, id, j)
    } else {
        w
    }
}

} // verus!
