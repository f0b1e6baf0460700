//! What holds of every search, proved from the definitions of the routes and
//! of their lines.

use vstd::prelude::*;
use crate::graph::{
    edges_of, has_node, lemma_first_is_position, lemma_position_is_first, node_position, Id,
    NodeView,
};
use crate::render::{arrow, label, line, lines, lines_from_roots};
use crate::routes::{
    expands, frontier, lemma_routes_through_grow, lemma_step_uses_a_node, routes, routes_through,
    unvisited,
};

verus! {

/// Whether the node of `from` has an edge to the package `to`.
pub open spec fn has_edge(nodes: Seq<NodeView>, from: Id, to: Id) -> bool {
    exists|j: int|
        0 <= j < edges_of(nodes, from).len() && (#[trigger] edges_of(nodes, from)[j]).pkg == to
}

/// Whether the node of `from` has an edge to the package `to` whose declared
/// name is not `target`: an edge that the search follows.
pub open spec fn follows(nodes: Seq<NodeView>, from: Id, to: Id, target: Seq<char>) -> bool {
    exists|j: int|
        0 <= j < edges_of(nodes, from).len() && (#[trigger] edges_of(nodes, from)[j]).pkg == to
            && edges_of(nodes, from)[j].name != target
}

/// Whether the node of `id` has an edge whose declared name is `target`.
pub open spec fn asks_for(nodes: Seq<NodeView>, id: Id, target: Seq<char>) -> bool {
    exists|j: int|
        0 <= j < edges_of(nodes, id).len() && (#[trigger] edges_of(nodes, id)[j]).name == target
}

/// Whether `route` continues `path`: it begins with `path`, each later package
/// is reached from the one before it by an edge that the search follows, and
/// its last package asks for `target`.
pub open spec fn continues(
    nodes: Seq<NodeView>,
    path: Seq<Id>,
    route: Seq<Id>,
    target: Seq<char>,
) -> bool {
    &&& 0 < path.len() <= route.len()
    &&& route.take(path.len() as int) == path
    &&& forall|i: int|
        path.len() - 1 <= i < route.len() - 1 ==> follows(
            nodes,
            #[trigger] route[i],
            route[i + 1],
            target,
        )
    &&& asks_for(nodes, route.last(), target)
}

/// Every route found from `path` through its first `k` edges continues
/// `path`, and repeats no package unless `path` did so before its last one.
proof fn lemma_routes_through_continue(
    nodes: Seq<NodeView>,
    path: Seq<Id>,
    target: Seq<char>,
    k: nat,
)
    ensures
        forall|i: int|
            #![trigger routes_through(nodes, path, target, k)[i]]
            0 <= i < routes_through(nodes, path, target, k).len() ==> {
                &&& continues(nodes, path, routes_through(nodes, path, target, k)[i], target)
                &&& path.drop_last().no_duplicates() ==> routes_through(
                    nodes,
                    path,
                    target,
                    k,
                )[i].no_duplicates()
            },
    decreases unvisited(nodes, path.drop_last()).len(), k,
{
    let edges = frontier(nodes, path);
    let found = routes_through(nodes, path, target, k);
    if 0 < k <= edges.len() {
        let edge = edges[k - 1];
        let earlier = routes_through(nodes, path, target, (k - 1) as nat);
        lemma_routes_through_continue(nodes, path, target, (k - 1) as nat);
        assert(expands(nodes, path));
        assert(edges == edges_of(nodes, path.last()));
        if edge.name == target {
            assert(found == earlier.push(path));
            assert(path.take(path.len() as int) =~= path);
            assert(continues(nodes, path, path, target));
            if path.drop_last().no_duplicates() {
                lemma_fresh_last_keeps_distinct(path);
            }
        } else {
            let longer = path.push(edge.pkg);
            let deeper = routes_through(nodes, longer, target, frontier(nodes, longer).len());
            lemma_step_uses_a_node(nodes, path, edge.pkg);
            lemma_routes_through_continue(nodes, longer, target, frontier(nodes, longer).len());
            assert(found == earlier + deeper);
            assert(longer.drop_last() =~= path);
            if path.drop_last().no_duplicates() {
                lemma_fresh_last_keeps_distinct(path);
            }
            assert forall|i: int| 0 <= i < deeper.len() implies continues(
                nodes,
                path,
                #[trigger] deeper[i],
                target,
            ) by {
                let route = deeper[i];
                assert(continues(nodes, longer, route, target));
                assert(route.take(path.len() as int) =~= route.take(longer.len() as int).take(
                    path.len() as int,
                ));
                assert(longer.take(path.len() as int) =~= path);
                assert(route[path.len() - 1] == longer[path.len() - 1]);
                assert(route[path.len() as int] == longer[path.len() as int]);
                assert(follows(nodes, path.last(), edge.pkg, target));
            }
        }
    }
}

/// Every route found from `path` continues `path`: it begins with `path`,
/// goes on along edges not declared as the target, and ends at a package that
/// asks for the target.
pub proof fn lemma_route_continues_path(
    nodes: Seq<NodeView>,
    path: Seq<Id>,
    target: Seq<char>,
    i: int,
)
    requires
        0 <= i < routes(nodes, path, target).len(),
    ensures
        continues(nodes, path, routes(nodes, path, target)[i], target),
{
    lemma_routes_through_continue(nodes, path, target, frontier(nodes, path).len());
}

/// No package stands twice on a route found from a root.
pub proof fn lemma_routes_never_repeat(nodes: Seq<NodeView>, root: Id, target: Seq<char>, i: int)
    requires
        0 <= i < routes(nodes, seq![root], target).len(),
    ensures
        routes(nodes, seq![root], target)[i].no_duplicates(),
{
    let path = seq![root];
    lemma_routes_through_continue(nodes, path, target, frontier(nodes, path).len());
    assert(path.drop_last() =~= Seq::<Id>::empty());
}

/// No package stands twice on a route found from a path that repeats nothing
/// before its last package.
pub proof fn lemma_routes_keep_distinct(
    nodes: Seq<NodeView>,
    path: Seq<Id>,
    target: Seq<char>,
    i: int,
)
    requires
        path.drop_last().no_duplicates(),
        0 <= i < routes(nodes, path, target).len(),
    ensures
        routes(nodes, path, target)[i].no_duplicates(),
{
    lemma_routes_through_continue(nodes, path, target, frontier(nodes, path).len());
}

/// Whether `walk` is a chain of edges that starts at `root` and ends at a
/// package asking for `target`.
pub open spec fn leads_to(
    nodes: Seq<NodeView>,
    root: Id,
    walk: Seq<Id>,
    target: Seq<char>,
) -> bool {
    &&& walk.len() > 0
    &&& walk[0] == root
    &&& forall|i: int| 0 <= i < walk.len() - 1 ==> has_edge(nodes, #[trigger] walk[i], walk[i + 1])
    &&& asks_for(nodes, walk.last(), target)
}

/// Whether some chain of edges leads from `root` to a package asking for
/// `target`.
pub open spec fn reaches(nodes: Seq<NodeView>, root: Id, target: Seq<char>) -> bool {
    exists|walk: Seq<Id>| leads_to(nodes, root, walk, target)
}

/// Every route found from a root is a chain of edges from that root to a
/// package asking for the target.
pub proof fn lemma_route_leads_to_target(nodes: Seq<NodeView>, root: Id, target: Seq<char>, i: int)
    requires
        0 <= i < routes(nodes, seq![root], target).len(),
    ensures
        leads_to(nodes, root, routes(nodes, seq![root], target)[i], target),
{
    let path = seq![root];
    let route = routes(nodes, path, target)[i];
    lemma_routes_through_continue(nodes, path, target, frontier(nodes, path).len());
    assert(continues(nodes, path, route, target));
    assert(route.take(1)[0] == path[0]);
    assert forall|m: int| 0 <= m < route.len() - 1 implies has_edge(
        nodes,
        #[trigger] route[m],
        route[m + 1],
    ) by {
        assert(follows(nodes, route[m], route[m + 1], target));
    }
}

/// Where no chain of edges leads from `root` to a package asking for
/// `target`, the search from `root` finds nothing and writes no line.
pub proof fn lemma_unreachable_finds_nothing(
    names: Map<Id, Seq<char>>,
    nodes: Seq<NodeView>,
    root: Id,
    target: Seq<char>,
)
    requires
        !reaches(nodes, root, target),
    ensures
        routes(nodes, seq![root], target) == Seq::<Seq<Id>>::empty(),
        lines(names, nodes, seq![root], target) == Seq::<Seq<char>>::empty(),
{
    if routes(nodes, seq![root], target).len() > 0 {
        lemma_route_leads_to_target(nodes, root, target, 0);
    }
    assert(routes(nodes, seq![root], target) =~= Seq::<Seq<Id>>::empty());
    assert(lines(names, nodes, seq![root], target) =~= Seq::<Seq<char>>::empty());
}

/// Where no chain of edges leads from any of `roots` to a package asking for
/// `target`, the search over all of them writes no line.
pub proof fn lemma_unreachable_from_roots_finds_nothing(
    names: Map<Id, Seq<char>>,
    nodes: Seq<NodeView>,
    roots: Seq<Id>,
    target: Seq<char>,
)
    requires
        forall|i: int| 0 <= i < roots.len() ==> !reaches(nodes, #[trigger] roots[i], target),
    ensures
        lines_from_roots(names, nodes, roots, target) == Seq::<Seq<char>>::empty(),
    decreases roots.len(),
{
    let each = |root: Id| lines(names, nodes, seq![root], target);
    if roots.len() == 0 {
        assert(roots.map_values(each) =~= Seq::<Seq<Seq<char>>>::empty());
    } else {
        let rest = roots.drop_last();
        assert forall|i: int| 0 <= i < rest.len() implies !reaches(
            nodes,
            #[trigger] rest[i],
            target,
        ) by {
            assert(rest[i] == roots[i]);
        }
        lemma_unreachable_from_roots_finds_nothing(names, nodes, rest, target);
        lemma_unreachable_finds_nothing(names, nodes, roots.last(), target);
        assert(roots.map_values(each) =~= rest.map_values(each).push(each(roots.last())));
        rest.map_values(each).lemma_flatten_push(each(roots.last()));
    }
}

/// The search misses no chain: every chain that continues `path` and
/// repeats no package is among the routes found from `path`.
pub proof fn lemma_every_chain_is_found(
    nodes: Seq<NodeView>,
    path: Seq<Id>,
    route: Seq<Id>,
    target: Seq<char>,
)
    requires
        continues(nodes, path, route, target),
        route.no_duplicates(),
    ensures
        routes(nodes, path, target).contains(route),
    decreases route.len() - path.len(),
{
    let n = path.len() as int;
    let here = path.last();
    assert(route.take(n)[n - 1] == route[n - 1]);
    assert(!path.drop_last().contains(here)) by {
        if path.drop_last().contains(here) {
            let c = choose|c: int| 0 <= c < path.drop_last().len() && path.drop_last()[c] == here;
            assert(route.take(n)[c] == route[c]);
        }
    }
    let edges = edges_of(nodes, here);
    if route.len() > n {
        assert(follows(nodes, route[n - 1], route[n - 1 + 1], target));
    } else {
        assert(route.last() == here);
    }
    assert(edges.len() > 0);
    assert(has_node(nodes, here));
    assert(expands(nodes, path));
    let all = routes(nodes, path, target);
    if route.len() == n {
        assert(route =~= route.take(n));
        let j = choose|j: int| 0 <= j < edges.len() && (#[trigger] edges[j]).name == target;
        let upto = routes_through(nodes, path, target, (j + 1) as nat);
        lemma_routes_through_grow(nodes, path, target, (j + 1) as nat, edges.len());
        assert(upto == routes_through(nodes, path, target, j as nat).push(path));
        assert(all[upto.len() - 1] == upto[upto.len() - 1]);
    } else {
        let j = choose|j: int|
            0 <= j < edges.len() && (#[trigger] edges[j]).pkg == route[n] && edges[j].name
                != target;
        let longer = path.push(edges[j].pkg);
        assert(route.take(n + 1) =~= longer);
        assert(continues(nodes, longer, route, target));
        lemma_every_chain_is_found(nodes, longer, route, target);
        let below = routes(nodes, longer, target);
        let at = choose|at: int| 0 <= at < below.len() && below[at] == route;
        let earlier = routes_through(nodes, path, target, j as nat);
        let upto = routes_through(nodes, path, target, (j + 1) as nat);
        lemma_routes_through_grow(nodes, path, target, (j + 1) as nat, edges.len());
        assert(upto == earlier + below);
        assert(upto[earlier.len() + at] == route);
        assert(all[earlier.len() + at] == upto[earlier.len() + at]);
    }
}

/// A chain of edges to a package asking for `target` can be cut down to one
/// that passes no package twice.
proof fn lemma_shorten_walk(
    nodes: Seq<NodeView>,
    root: Id,
    walk: Seq<Id>,
    target: Seq<char>,
) -> (simple: Seq<Id>)
    requires
        leads_to(nodes, root, walk, target),
    ensures
        leads_to(nodes, root, simple, target),
        simple.no_duplicates(),
    decreases walk.len(),
{
    if walk.no_duplicates() {
        walk
    } else {
        let (i, j) = choose|i: int, j: int|
            0 <= i < walk.len() && 0 <= j < walk.len() && i != j && walk[i] == walk[j];
        let a = if i < j {
            i
        } else {
            j
        };
        let b = if i < j {
            j
        } else {
            i
        };
        let shorter = walk.take(a + 1) + walk.skip(b + 1);
        assert forall|m: int| 0 <= m < shorter.len() - 1 implies has_edge(
            nodes,
            #[trigger] shorter[m],
            shorter[m + 1],
        ) by {
            if m < a {
                assert(has_edge(nodes, walk[m], walk[m + 1]));
            } else if m == a {
                assert(has_edge(nodes, walk[b], walk[b + 1]));
            } else {
                assert(has_edge(nodes, walk[m + (b - a)], walk[m + (b - a) + 1]));
            }
        }
        assert(shorter.last() == walk.last());
        lemma_shorten_walk(nodes, root, shorter, target)
    }
}

/// Along a chain of edges that passes no package twice and ends at a package
/// asking for `target`, the search finds a route from every prefix.
proof fn lemma_simple_walk_is_found(nodes: Seq<NodeView>, walk: Seq<Id>, target: Seq<char>, m: int)
    requires
        leads_to(nodes, walk[0], walk, target),
        walk.no_duplicates(),
        1 <= m <= walk.len(),
    ensures
        routes(nodes, walk.take(m), target).len() > 0,
    decreases walk.len() - m,
{
    let path = walk.take(m);
    let here = walk[m - 1];
    assert(path.last() == here);
    assert(!path.drop_last().contains(here)) by {
        if path.drop_last().contains(here) {
            let c = choose|c: int| 0 <= c < path.drop_last().len() && path.drop_last()[c] == here;
            assert(walk[c] == walk[m - 1]);
        }
    }
    let edges = edges_of(nodes, here);
    if m == walk.len() {
        assert(walk.last() == here);
    } else {
        assert(has_edge(nodes, walk[m - 1], walk[m - 1 + 1]));
    }
    assert(edges.len() > 0);
    assert(has_node(nodes, here));
    assert(expands(nodes, path));
    assert(frontier(nodes, path) == edges);
    let j = if m == walk.len() {
        choose|j: int| 0 <= j < edges.len() && (#[trigger] edges[j]).name == target
    } else {
        choose|j: int| 0 <= j < edges.len() && (#[trigger] edges[j]).pkg == walk[m]
    };
    lemma_routes_through_grow(nodes, path, target, (j + 1) as nat, edges.len());
    if edges[j].name != target {
        assert(path.push(edges[j].pkg) =~= walk.take(m + 1));
        lemma_simple_walk_is_found(nodes, walk, target, m + 1);
    }
}

/// Where a chain of edges leads from `root` to a package asking for `target`,
/// the search from `root` finds a route and writes a line.
pub proof fn lemma_reachable_is_found(
    names: Map<Id, Seq<char>>,
    nodes: Seq<NodeView>,
    root: Id,
    target: Seq<char>,
)
    requires
        reaches(nodes, root, target),
    ensures
        routes(nodes, seq![root], target).len() > 0,
        lines(names, nodes, seq![root], target).len() > 0,
{
    let walk = choose|walk: Seq<Id>| leads_to(nodes, root, walk, target);
    let simple = lemma_shorten_walk(nodes, root, walk, target);
    lemma_simple_walk_is_found(nodes, simple, target, 1);
    assert(simple.take(1) =~= seq![root]);
}

/// A route found from a root holds no more packages than the graph has
/// nodes: this is the bound on the depth of the search.
pub proof fn lemma_route_fits_graph(nodes: Seq<NodeView>, root: Id, target: Seq<char>, i: int)
    requires
        0 <= i < routes(nodes, seq![root], target).len(),
    ensures
        routes(nodes, seq![root], target)[i].len() <= nodes.len(),
{
    let path = seq![root];
    let route = routes(nodes, path, target)[i];
    let node_ids = nodes.map_values(|n: NodeView| n.id);
    lemma_routes_through_continue(nodes, path, target, frontier(nodes, path).len());
    assert(path.drop_last() =~= Seq::<Id>::empty());
    assert(continues(nodes, path, route, target));
    assert forall|id: Id| route.to_set().contains(id) implies node_ids.to_set().contains(id) by {
        let m = choose|m: int| 0 <= m < route.len() && route[m] == id;
        if m < route.len() - 1 {
            assert(follows(nodes, route[m], route[m + 1], target));
        }
        assert(edges_of(nodes, id).len() > 0);
        let n = choose|n: int| 0 <= n < nodes.len() && #[trigger] nodes[n].id == id;
        assert(node_ids[n] == id);
    }
    vstd::seq_lib::seq_to_set_is_finite(node_ids);
    vstd::set_lib::lemma_len_subset(route.to_set(), node_ids.to_set());
    route.unique_seq_to_set();
    node_ids.lemma_cardinality_of_set();
}

/// Where the node of `root` has an edge whose declared name is `target`, the
/// line of the root alone is among the lines of the search from `root`: the
/// label of the root, an arrow, and the target.
pub proof fn lemma_direct_edge_is_reported(
    names: Map<Id, Seq<char>>,
    nodes: Seq<NodeView>,
    root: Id,
    target: Seq<char>,
)
    requires
        asks_for(nodes, root, target),
    ensures
        routes(nodes, seq![root], target).contains(seq![root]),
        lines(names, nodes, seq![root], target).contains(label(names, root) + arrow() + target),
{
    let path = seq![root];
    let edges = edges_of(nodes, root);
    let j = choose|j: int| 0 <= j < edges.len() && (#[trigger] edges[j]).name == target;
    assert(path.drop_last() =~= Seq::<Id>::empty());
    assert(has_node(nodes, root));
    assert(expands(nodes, path));
    lemma_routes_through_grow(nodes, path, target, (j + 1) as nat, edges.len());
    let upto = routes_through(nodes, path, target, (j + 1) as nat);
    let all = routes(nodes, path, target);
    assert(upto == routes_through(nodes, path, target, j as nat).push(path));
    assert(all[upto.len() - 1] == upto[upto.len() - 1]);
    assert(all[upto.len() - 1] == path);
    lemma_line_of_single(names, root, target);
    assert(lines(names, nodes, path, target)[upto.len() - 1] == line(names, path, target));
}

/// Where one edge of the root's node is declared as `target`, and no other
/// edge of that node is so declared or leads on to a route, the search from
/// `root` writes exactly one line: the label of the root, an arrow, and the
/// target.
pub proof fn lemma_direct_edge_alone_gives_one_line(
    names: Map<Id, Seq<char>>,
    nodes: Seq<NodeView>,
    root: Id,
    target: Seq<char>,
    direct: int,
)
    requires
        0 <= direct < edges_of(nodes, root).len(),
        edges_of(nodes, root)[direct].name == target,
        forall|j: int|
            0 <= j < edges_of(nodes, root).len() && j != direct ==> {
                &&& (#[trigger] edges_of(nodes, root)[j]).name != target
                &&& routes(nodes, seq![root].push(edges_of(nodes, root)[j].pkg), target).len() == 0
            },
    ensures
        routes(nodes, seq![root], target) == seq![seq![root]],
        lines(names, nodes, seq![root], target) == seq![label(names, root) + arrow() + target],
{
    let path = seq![root];
    assert(path.drop_last() =~= Seq::<Id>::empty());
    assert(has_node(nodes, root));
    assert(expands(nodes, path));
    lemma_only_the_direct_edge_counts(nodes, root, target, direct, edges_of(nodes, root).len());
    lemma_line_of_single(names, root, target);
    assert(lines(names, nodes, path, target) =~= seq![line(names, path, target)]);
}

proof fn lemma_only_the_direct_edge_counts(
    nodes: Seq<NodeView>,
    root: Id,
    target: Seq<char>,
    direct: int,
    k: nat,
)
    requires
        expands(nodes, seq![root]),
        0 <= direct < edges_of(nodes, root).len(),
        edges_of(nodes, root)[direct].name == target,
        forall|j: int|
            0 <= j < edges_of(nodes, root).len() && j != direct ==> {
                &&& (#[trigger] edges_of(nodes, root)[j]).name != target
                &&& routes(nodes, seq![root].push(edges_of(nodes, root)[j].pkg), target).len() == 0
            },
        k <= edges_of(nodes, root).len(),
    ensures
        routes_through(nodes, seq![root], target, k) == if k <= direct {
            Seq::<Seq<Id>>::empty()
        } else {
            seq![seq![root]]
        },
    decreases k,
{
    let path = seq![root];
    if k > 0 {
        lemma_only_the_direct_edge_counts(nodes, root, target, direct, (k - 1) as nat);
        let earlier = routes_through(nodes, path, target, (k - 1) as nat);
        let edge = edges_of(nodes, root)[k - 1];
        if k - 1 == direct {
            assert(earlier.push(path) =~= seq![path]);
        } else {
            let below = routes(nodes, path.push(edge.pkg), target);
            assert(below =~= Seq::<Seq<Id>>::empty());
            assert(earlier + below =~= earlier);
        }
    }
}

/// The line of a route that holds one package is the label of the package, an
/// arrow, and the target.
pub proof fn lemma_line_of_single(names: Map<Id, Seq<char>>, id: Id, target: Seq<char>)
    ensures
        line(names, seq![id], target) == label(names, id) + arrow() + target,
{
    let each = |id: Id| label(names, id) + arrow();
    assert(seq![id].map_values(each) =~= seq![each(id)]);
    seq![each(id)].lemma_flatten_one_element();
    assert(seq![each(id)].first() == each(id));
}

/// The search writes one line for each route it finds, whatever the table of
/// names holds: a package without a display name does not lose its routes.
pub proof fn lemma_one_line_per_route(
    names: Map<Id, Seq<char>>,
    nodes: Seq<NodeView>,
    path: Seq<Id>,
    target: Seq<char>,
    i: int,
)
    requires
        0 <= i < routes(nodes, path, target).len(),
    ensures
        lines(names, nodes, path, target).len() == routes(nodes, path, target).len(),
        lines(names, nodes, path, target)[i] == line(names, routes(nodes, path, target)[i], target),
{
}

/// On a route none of whose packages has a display name, the line holds the
/// text of each identity in place of a name.
pub proof fn lemma_unnamed_route_shows_identities(
    names: Map<Id, Seq<char>>,
    route: Seq<Id>,
    target: Seq<char>,
)
    requires
        forall|i: int| 0 <= i < route.len() ==> !names.contains_key(#[trigger] route[i]),
    ensures
        line(names, route, target) == route.map_values(|id: Id| id + arrow()).flatten() + target,
{
    assert(route.map_values(|id: Id| label(names, id) + arrow()) =~= route.map_values(
        |id: Id| id + arrow(),
    ));
}

/// The line of a route reads the display names of the packages on the route
/// and of no other: two tables that agree on those packages give the same line.
pub proof fn lemma_line_reads_route_names_only(
    names: Map<Id, Seq<char>>,
    others: Map<Id, Seq<char>>,
    route: Seq<Id>,
    target: Seq<char>,
)
    requires
        forall|i: int|
            0 <= i < route.len() ==> label(names, #[trigger] route[i]) == label(others, route[i]),
    ensures
        line(names, route, target) == line(others, route, target),
{
    assert(route.map_values(|id: Id| label(names, id) + arrow()) =~= route.map_values(
        |id: Id| label(others, id) + arrow(),
    ));
}

/// Whether two graphs are the same but for the packages behind edges whose
/// declared name is `target`: the same nodes in the same order, each with the
/// same declared names, and the same package behind every other edge.
pub open spec fn same_but_behind_matches(
    nodes: Seq<NodeView>,
    others: Seq<NodeView>,
    target: Seq<char>,
) -> bool {
    &&& nodes.len() == others.len()
    &&& forall|i: int|
        0 <= i < nodes.len() ==> {
            &&& (#[trigger] nodes[i]).id == others[i].id
            &&& nodes[i].deps.len() == others[i].deps.len()
            &&& forall|j: int|
                0 <= j < nodes[i].deps.len() ==> {
                    &&& (#[trigger] nodes[i].deps[j]).name == others[i].deps[j].name
                    &&& nodes[i].deps[j].name != target ==> nodes[i].deps[j].pkg
                        == others[i].deps[j].pkg
                }
        }
}

/// Two graphs with the same identities in the same order have a node for the
/// same identities, at the same positions.
proof fn lemma_same_ids_same_positions(nodes: Seq<NodeView>, others: Seq<NodeView>, id: Id)
    requires
        nodes.len() == others.len(),
        forall|i: int| 0 <= i < nodes.len() ==> (#[trigger] nodes[i]).id == others[i].id,
    ensures
        has_node(nodes, id) == has_node(others, id),
        node_position(nodes, id) == node_position(others, id),
{
    if has_node(nodes, id) {
        lemma_position_is_first(nodes, id);
        let p = node_position(nodes, id).unwrap();
        assert(others[p].id == nodes[p].id);
        assert forall|j: int| 0 <= j < p implies #[trigger] others[j].id != id by {
            assert(nodes[j].id == others[j].id);
        }
        lemma_first_is_position(others, id, p);
    } else if has_node(others, id) {
        let w = choose|i: int| 0 <= i < others.len() && #[trigger] others[i].id == id;
        assert(nodes[w].id == id);
    }
}

/// The package behind an edge whose declared name is the target is never
/// looked at: the match is made on the declared name alone, and the route ends
/// at the parent of the edge. Two graphs that differ only in the packages
/// behind such edges give the same routes.
pub proof fn lemma_matched_package_is_not_consulted(
    nodes: Seq<NodeView>,
    others: Seq<NodeView>,
    path: Seq<Id>,
    target: Seq<char>,
)
    requires
        same_but_behind_matches(nodes, others, target),
    ensures
        routes(nodes, path, target) == routes(others, path, target),
{
    lemma_same_frontier(nodes, others, path, target);
    lemma_same_routes_through(nodes, others, path, target, frontier(nodes, path).len());
}

proof fn lemma_same_frontier(
    nodes: Seq<NodeView>,
    others: Seq<NodeView>,
    path: Seq<Id>,
    target: Seq<char>,
)
    requires
        same_but_behind_matches(nodes, others, target),
    ensures
        expands(nodes, path) == expands(others, path),
        frontier(nodes, path).len() == frontier(others, path).len(),
        forall|j: int|
            0 <= j < frontier(nodes, path).len() ==> {
                &&& (#[trigger] frontier(nodes, path)[j]).name == frontier(others, path)[j].name
                &&& frontier(nodes, path)[j].name != target ==> frontier(nodes, path)[j].pkg
                    == frontier(others, path)[j].pkg
            },
{
    if path.len() > 0 {
        lemma_same_ids_same_positions(nodes, others, path.last());
        if expands(nodes, path) {
            lemma_position_is_first(nodes, path.last());
            let p = node_position(nodes, path.last()).unwrap();
            assert(nodes[p].id == others[p].id);
            assert forall|j: int| 0 <= j < frontier(nodes, path).len() implies {
                &&& (#[trigger] frontier(nodes, path)[j]).name == frontier(others, path)[j].name
                &&& frontier(nodes, path)[j].name != target ==> frontier(nodes, path)[j].pkg
                    == frontier(others, path)[j].pkg
            } by {
                assert(nodes[p].deps[j].name == others[p].deps[j].name);
            }
        }
    }
}

proof fn lemma_same_routes_through(
    nodes: Seq<NodeView>,
    others: Seq<NodeView>,
    path: Seq<Id>,
    target: Seq<char>,
    k: nat,
)
    requires
        same_but_behind_matches(nodes, others, target),
    ensures
        routes_through(nodes, path, target, k) == routes_through(others, path, target, k),
    decreases unvisited(nodes, path.drop_last()).len(), k,
{
    lemma_same_frontier(nodes, others, path, target);
    let edges = frontier(nodes, path);
    if 0 < k <= edges.len() {
        let edge = edges[k - 1];
        lemma_same_routes_through(nodes, others, path, target, (k - 1) as nat);
        if edge.name != target {
            let longer = path.push(edge.pkg);
            lemma_step_uses_a_node(nodes, path, edge.pkg);
            lemma_same_frontier(nodes, others, longer, target);
            lemma_same_routes_through(nodes, others, longer, target, frontier(nodes, longer).len());
        }
    }
}

/// A path whose last package does not stand earlier in it repeats nothing
/// where the part before the last repeats nothing.
proof fn lemma_fresh_last_keeps_distinct(path: Seq<Id>)
    requires
        path.len() > 0,
        path.drop_last().no_duplicates(),
        !path.drop_last().contains(path.last()),
    ensures
        path.no_duplicates(),
{
    assert forall|i: int, j: int|
        0 <= i < path.len() && 0 <= j < path.len() && i != j implies path[i] != path[j] by {
        if i < path.len() - 1 && j < path.len() - 1 {
            assert(path.drop_last()[i] != path.drop_last()[j]);
        } else if i < path.len() - 1 {
            assert(path.drop_last()[i] == path[i]);
        } else {
            assert(path.drop_last()[j] == path[j]);
        }
    }
}

} // verus!
