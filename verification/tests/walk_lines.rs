use cargo_why::graph::{Node, NodeDep, PackageId, Resolve};
use cargo_why::search::Search;
use cargo_why::walk::Walk;

fn id(text: &str) -> PackageId {
    PackageId { repr: text.to_string() }
}

fn dep(name: &str, pkg: &str) -> NodeDep {
    NodeDep { name: name.to_string(), pkg: id(pkg) }
}

fn node(name: &str, deps: Vec<NodeDep>) -> Node {
    Node { id: id(name), deps }
}

fn tangled() -> Resolve {
    Resolve {
        nodes: vec![
            node("r", vec![dep("x", "x"), dep("t", "t"), dep("gone", "gone"), dep("y", "y")]),
            node("x", vec![dep("z", "z"), dep("t", "t"), dep("r", "r")]),
            node("y", vec![dep("x", "x"), dep("t", "t"), dep("t", "t2")]),
            node("z", vec![dep("y", "y"), dep("z", "z")]),
            node("r", vec![dep("t", "t")]),
        ],
    }
}

fn all_lines(walk: &mut Walk) -> Vec<String> {
    let mut lines = Vec::new();
    while let Some(line) = walk.next_line() {
        lines.push(line);
    }
    lines
}

#[test]
fn walk_hands_out_lines_one_at_a_time() {
    let resolve = Resolve {
        nodes: vec![
            node("idA", vec![dep("B", "idB"), dep("target", "idT")]),
            node("idB", vec![dep("target", "idT")]),
        ],
    };
    let mut search = Search::new();
    search.insert(id("idA"), "A".to_string());
    search.insert(id("idB"), "B".to_string());
    let root = id("idA");
    let mut walk = Walk::new(&search, vec![&root], &resolve, "target");
    assert_eq!(walk.next_line(), Some("A -> B -> target".to_string()));
    assert_eq!(walk.next_line(), Some("A -> target".to_string()));
    assert_eq!(walk.next_line(), None);
    assert_eq!(walk.next_line(), None);
}

#[test]
fn walk_gives_what_search_gives() {
    let resolve = tangled();
    let mut search = Search::new();
    search.insert(id("x"), "ex".to_string());
    for start in ["r", "x", "y", "z", "gone"] {
        for target in ["t", "x", "r", "z", "none"] {
            let root = id(start);
            let mut walk = Walk::new(&search, vec![&root], &resolve, target);
            assert_eq!(all_lines(&mut walk), search.search(vec![&root], &resolve, target));
        }
    }
}

#[test]
fn walk_lines_of_a_tangled_graph_are_exact() {
    let resolve = tangled();
    let search = Search::new();
    let root = id("r");
    let mut walk = Walk::new(&search, vec![&root], &resolve, "t");
    assert_eq!(
        all_lines(&mut walk),
        vec![
            "r -> x -> z -> y -> t".to_string(),
            "r -> x -> z -> y -> t".to_string(),
            "r -> x -> t".to_string(),
            "r -> t".to_string(),
            "r -> y -> x -> t".to_string(),
            "r -> y -> t".to_string(),
            "r -> y -> t".to_string(),
        ]
    );
}

#[test]
fn walk_from_a_dead_start_is_empty() {
    let resolve = tangled();
    let search = Search::new();
    let r = id("r");
    let x = id("x");
    assert_eq!(Walk::new(&search, vec![], &resolve, "t").next_line(), None);
    assert_eq!(Walk::new(&search, vec![&r, &x, &r], &resolve, "t").next_line(), None);
    let stranger = id("stranger");
    assert_eq!(Walk::new(&search, vec![&stranger], &resolve, "t").next_line(), None);
}

#[test]
fn walk_ends_on_a_cycle_without_match() {
    let resolve = Resolve {
        nodes: vec![node("a", vec![dep("b", "b")]), node("b", vec![dep("a", "a")])],
    };
    let search = Search::new();
    let root = id("a");
    assert_eq!(Walk::new(&search, vec![&root], &resolve, "t").next_line(), None);
}

#[test]
fn drain_gives_the_lines_that_are_left() {
    let resolve = tangled();
    let search = Search::new();
    let root = id("r");
    let mut walk = Walk::new(&search, vec![&root], &resolve, "t");
    let first = walk.next_line();
    assert_eq!(first, Some("r -> x -> z -> y -> t".to_string()));
    let rest = walk.drain();
    let mut all = vec![first.unwrap()];
    all.extend(rest);
    assert_eq!(all, search.search(vec![&root], &resolve, "t"));
    assert!(walk.drain().is_empty());
    assert_eq!(walk.next_line(), None);
}

#[test]
fn walk_keeps_a_long_history_in_its_lines() {
    let resolve = tangled();
    let mut search = Search::new();
    search.insert(id("p"), "parent".to_string());
    let p = id("p");
    let y = id("y");
    let mut walk = Walk::new(&search, vec![&p, &y], &resolve, "r");
    assert_eq!(all_lines(&mut walk), vec!["parent -> y -> x -> r".to_string()]);
}
