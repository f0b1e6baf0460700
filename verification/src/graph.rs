//! The resolved dependency graph as plain data, and its mathematical model.

use vstd::prelude::*;

verus! {

/// The text of a package identity, as contracts speak of it.
pub type Id = Seq<char>;

/// An opaque, globally unique key for one resolved package.
///
/// The search only compares identities and, where a package has no display
/// name, prints `repr` as it is.
#[derive(Debug, PartialEq, Eq, Hash)]
pub struct PackageId {
    /// The underlying text of the identity.
    pub repr: String,
}

impl View for PackageId {
    type V = Id;

    open spec fn view(&self) -> Id {
        self.repr@
    }
}

impl Clone for PackageId {
    fn clone(&self) -> (copy: Self)
        ensures
            copy == *self,
    {
        PackageId { repr: self.repr.clone() }
    }
}

impl PackageId {
    /// Whether two identities name the same package.
    pub fn same(&self, other: &PackageId) -> (equal: bool)
        ensures
            equal == (self@ == other@),
    {
        self.repr == other.repr
    }
}

/// The model of a dependency edge: what contracts say of a `NodeDep`.
pub struct DepView {
    /// The name under which the parent asks for the dependency.
    pub name: Seq<char>,
    /// The identity of the package that the edge leads to.
    pub pkg: Id,
}

/// One dependency edge of a node.
///
/// `name` is the name the parent declared, which differs from the published
/// name of `pkg` where the dependency was renamed.
#[derive(Debug)]
pub struct NodeDep {
    /// The declared name of the dependency.
    pub name: String,
    /// The package that the edge leads to.
    pub pkg: PackageId,
}

impl View for NodeDep {
    type V = DepView;

    open spec fn view(&self) -> DepView {
        DepView { name: self.name@, pkg: self.pkg@ }
    }
}

/// The model of a node: what contracts say of a `Node`.
pub struct NodeView {
    /// The identity of the package.
    pub id: Id,
    /// Its edges, in declaration order.
    pub deps: Seq<DepView>,
}

/// One resolved package with its direct dependency edges, in order.
#[derive(Debug)]
pub struct Node {
    /// The identity of the package.
    pub id: PackageId,
    /// Its dependency edges; their order is the order of discovery.
    pub deps: Vec<NodeDep>,
}

impl View for Node {
    type V = NodeView;

    open spec fn view(&self) -> NodeView {
        NodeView { id: self.id@, deps: self.deps@.map_values(|d: NodeDep| d@) }
    }
}

/// The resolved dependency graph: one node per resolved package.
#[derive(Debug)]
pub struct Resolve {
    /// The nodes of the graph.
    pub nodes: Vec<Node>,
}

impl View for Resolve {
    type V = Seq<NodeView>;

    open spec fn view(&self) -> Seq<NodeView> {
        self.nodes@.map_values(|n: Node| n@)
    }
}

/// Whether some node of `nodes` carries the identity `id`.
pub open spec fn has_node(nodes: Seq<NodeView>, id: Id) -> bool {
    exists|i: int| 0 <= i < nodes.len() && #[trigger] nodes[i].id == id
}

/// Whether `i` is the position of the first node that carries `id`.
pub open spec fn is_first_with_id(nodes: Seq<NodeView>, id: Id, i: int) -> bool {
    &&& 0 <= i < nodes.len()
    &&& nodes[i].id == id
    &&& forall|j: int| 0 <= j < i ==> #[trigger] nodes[j].id != id
}

/// The position of the node that answers for `id`: where several nodes carry
/// the same identity, the first of them.
pub open spec fn node_position(nodes: Seq<NodeView>, id: Id) -> Option<int> {
    if has_node(nodes, id) {
        Some(choose|i: int| is_first_with_id(nodes, id, i))
    } else {
        None
    }
}

/// The node that answers for `id`, where there is one.
pub open spec fn node_of(nodes: Seq<NodeView>, id: Id) -> Option<NodeView> {
    match node_position(nodes, id) {
        Some(i) => Some(nodes[i]),
        None => None,
    }
}

/// The edges that leave `id`: those of the node that answers for it, and none
/// where no node does.
pub open spec fn edges_of(nodes: Seq<NodeView>, id: Id) -> Seq<DepView> {
    match node_of(nodes, id) {
        Some(node) => node.deps,
        None => Seq::empty(),
    }
}

/// A position that is the first with its identity is the one that
/// `node_position` names.
pub proof fn lemma_first_is_position(nodes: Seq<NodeView>, id: Id, i: int)
    requires
        is_first_with_id(nodes, id, i),
    ensures
        has_node(nodes, id),
        node_position(nodes, id) == Some(i),
{
    let c = choose|c: int| is_first_with_id(nodes, id, c);
    assert(c == i);
}

/// Where a node carries `id`, `node_position` names the first such node.
pub proof fn lemma_position_is_first(nodes: Seq<NodeView>, id: Id)
    requires
        has_node(nodes, id),
    ensures
        node_position(nodes, id) is Some,
        is_first_with_id(nodes, id, node_position(nodes, id).unwrap()),
{
    let w = choose|i: int| 0 <= i < nodes.len() && #[trigger] nodes[i].id == id;
    lemma_some_first(nodes, id, w);
}

proof fn lemma_some_first(nodes: Seq<NodeView>, id: Id, w: int)
    requires
        0 <= w < nodes.len(),
        nodes[w].id == id,
    ensures
        exists|i: int| is_first_with_id(nodes, id, i),
    decreases w,
{
    if exists|j: int| 0 <= j < w && #[trigger] nodes[j].id == id {
        let j = choose|j: int| 0 <= j < w && #[trigger] nodes[j].id == id;
        lemma_some_first(nodes, id, j);
    } else {
        assert(is_first_with_id(nodes, id, w));
    }
}

impl Resolve {
    /// Looks up the node that answers for `id`: the first node of the graph
    /// that carries it.
    pub fn find(&self, id: &PackageId) -> (found: Option<&Node>)
        ensures
            match found {
                Some(node) => node_of(self@, id@) == Some(node@),
                None => node_of(self@, id@) is None,
            },
    {
        let mut i: usize = 0;
        while i < self.nodes.len()
            invariant
                i <= self.nodes.len(),
                forall|j: int| 0 <= j < i ==> #[trigger] self@[j].id != id@,
            decreases self.nodes.len() - i,
        {
            if self.nodes[i].id.same(id) {
                proof {
                    lemma_first_is_position(self@, id@, i as int);
                }
                return Some(&self.nodes[i]);
            }
            i += 1;
        }
        None
    }
}

} // verus!
