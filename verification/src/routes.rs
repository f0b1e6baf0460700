//! What the search finds, as mathematics: the chains of identities that lead
//! from a path to an edge asking for the target, in discovery order.

use vstd::prelude::*;
use crate::graph::{edges_of, has_node, DepView, Id, NodeView};

verus! {

/// Whether the search goes on from the end of `path`: the path is not empty,
/// its last identity does not already stand earlier in it, and a node answers
/// for that identity.
pub open spec fn expands(nodes: Seq<NodeView>, path: Seq<Id>) -> bool {
    &&& path.len() > 0
    &&& !path.drop_last().contains(path.last())
    &&& has_node(nodes, path.last())
}

/// The edges that the search looks at from the end of `path`, in order.
pub open spec fn frontier(nodes: Seq<NodeView>, path: Seq<Id>) -> Seq<DepView> {
    if expands(nodes, path) {
        edges_of(nodes, path.last())
    } else {
        Seq::empty()
    }
}

/// The identities of nodes that `prefix` has not used yet. Each step of the
/// search takes one away, which is why the search ends.
pub open spec fn unvisited(nodes: Seq<NodeView>, prefix: Seq<Id>) -> Set<Id> {
    nodes.map_values(|n: NodeView| n.id).to_set().difference(prefix.to_set())
}

/// The routes found through the first `k` edges at the end of `path`, in
/// discovery order. An edge whose declared name is `target` gives the path
/// itself; any other edge gives the routes found from the path extended by the
/// edge's package.
pub open spec fn routes_through(
    nodes: Seq<NodeView>,
    path: Seq<Id>,
    target: Seq<char>,
    k: nat,
) -> Seq<Seq<Id>>
    decreases unvisited(nodes, path.drop_last()).len(), k,
    via routes_through_decreases
{
    let edges = frontier(nodes, path);
    if k == 0 || k > edges.len() {
        Seq::empty()
    } else {
        let edge = edges[k - 1];
        let earlier = routes_through(nodes, path, target, (k - 1) as nat);
        if edge.name == target {
            earlier.push(path)
        } else {
            let longer = path.push(edge.pkg);
            earlier + routes_through(nodes, longer, target, frontier(nodes, longer).len())
        }
    }
}

#[via_fn]
proof fn routes_through_decreases(nodes: Seq<NodeView>, path: Seq<Id>, target: Seq<char>, k: nat) {
    let edges = frontier(nodes, path);
    if !(k == 0 || k > edges.len()) {
        let edge = edges[k - 1];
        if edge.name != target {
            lemma_step_uses_a_node(nodes, path, edge.pkg);
        }
    }
}

/// Extending a path from which the search goes on leaves fewer unvisited
/// nodes for the extension than the path itself had.
pub proof fn lemma_step_uses_a_node(nodes: Seq<NodeView>, path: Seq<Id>, next: Id)
    requires
        expands(nodes, path),
    ensures
        unvisited(nodes, path.drop_last()).finite(),
        unvisited(nodes, path.push(next).drop_last()).len() < unvisited(
            nodes,
            path.drop_last(),
        ).len(),
{
    let ids = nodes.map_values(|n: NodeView| n.id);
    let last = path.last();
    let before = unvisited(nodes, path.drop_last());
    let after = unvisited(nodes, path.push(next).drop_last());
    vstd::seq_lib::seq_to_set_is_finite(ids);
    assert(path.push(next).drop_last() =~= path);
    let i = choose|i: int| 0 <= i < nodes.len() && #[trigger] nodes[i].id == last;
    assert(ids[i] == last);
    assert(after =~= before.remove(last)) by {
        assert forall|x: Id| x != last && path.contains(x) implies path.drop_last().contains(x) by {
            let j = choose|j: int| 0 <= j < path.len() && path[j] == x;
            assert(path.drop_last()[j] == x);
        }
    }
}

/// The routes that the search finds from `path`: every chain that extends
/// `path` along edges whose declared names differ from `target`, never comes
/// back to an identity that it already holds, and ends at a node with an edge
/// whose declared name is `target`. A node with several such edges gives its
/// chain once for each.
pub open spec fn routes(nodes: Seq<NodeView>, path: Seq<Id>, target: Seq<char>) -> Seq<Seq<Id>> {
    routes_through(nodes, path, target, frontier(nodes, path).len())
}

/// Looking at more edges never loses a route: what is found through the
/// first `a` edges is still found through the first `b`.
pub proof fn lemma_routes_through_grow(
    nodes: Seq<NodeView>,
    path: Seq<Id>,
    target: Seq<char>,
    a: nat,
    b: nat,
)
    requires
        a <= b <= frontier(nodes, path).len(),
    ensures
        routes_through(nodes, path, target, a).is_prefix_of(routes_through(nodes, path, target, b)),
    decreases b,
{
    if a < b {
        lemma_routes_through_grow(nodes, path, target, a, (b - 1) as nat);
    }
}

} // verus!
