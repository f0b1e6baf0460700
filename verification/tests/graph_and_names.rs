use cargo_why::cli::{parse, usage};
use cargo_why::graph::{Node, NodeDep, PackageId, Resolve};
use cargo_why::metadata::{Metadata, Package};
use cargo_why::report::{why, Error};
use cargo_why::search::Search;
use cargo_why::text::same_text;

fn id(text: &str) -> PackageId {
    PackageId { repr: text.to_string() }
}

fn package(key: &str, name: &str) -> Package {
    Package { id: id(key), name: name.to_string() }
}

fn args(words: &[&str]) -> Vec<String> {
    words.iter().map(|w| w.to_string()).collect()
}

#[test]
fn same_text_compares_characters() {
    assert!(same_text("", ""));
    assert!(same_text("serde", "serde"));
    assert!(!same_text("serde", "serdf"));
    assert!(!same_text("serde", "serde_json"));
    assert!(!same_text("serde_json", "serde"));
    assert!(!same_text("a", ""));
    assert!(!same_text("A", "a"));
    assert!(same_text("héllo", "héllo"));
    assert!(!same_text("héllo", "hello"));
    assert!(!same_text("é", "e\u{301}"));
}

#[test]
fn package_id_same_and_clone() {
    let a = id("a 1.0.0");
    let b = id("a 1.0.1");
    assert!(a.same(&a));
    assert!(!a.same(&b));
    let copy = a.clone();
    assert!(copy.same(&a));
    assert_eq!(copy.repr, "a 1.0.0");
    assert_eq!(copy, a);
}

#[test]
fn find_gives_the_first_node_with_the_identity() {
    let resolve = Resolve {
        nodes: vec![
            Node { id: id("a"), deps: vec![] },
            Node { id: id("b"), deps: vec![NodeDep { name: "x".to_string(), pkg: id("x") }] },
            Node { id: id("b"), deps: vec![] },
        ],
    };
    assert!(std::ptr::eq(resolve.find(&id("a")).expect("a node for a"), &resolve.nodes[0]));
    assert!(std::ptr::eq(resolve.find(&id("b")).expect("a node for b"), &resolve.nodes[1]));
    assert_eq!(resolve.find(&id("b")).map(|node| node.deps.len()), Some(1));
    assert!(resolve.find(&id("c")).is_none());
    assert!(Resolve { nodes: vec![] }.find(&id("a")).is_none());
}

#[test]
fn with_packages_covers_every_package() {
    let packages = vec![package("a", "alpha"), package("b", "beta"), package("c", "gamma")];
    let search = Search::with_packages(&packages);
    assert_eq!(search.display_name(&id("a")), "alpha");
    assert_eq!(search.display_name(&id("b")), "beta");
    assert_eq!(search.display_name(&id("c")), "gamma");
    assert_eq!(search.display_name(&id("d")), "d");
}

#[test]
fn with_packages_keeps_the_last_name_of_a_repeated_identity() {
    let packages = vec![package("a", "first"), package("b", "beta"), package("a", "second")];
    let search = Search::with_packages(&packages);
    assert_eq!(search.display_name(&id("a")), "second");
    assert_eq!(search.display_name(&id("b")), "beta");
}

#[test]
fn with_no_packages_nothing_is_named() {
    let search = Search::with_packages(&vec![]);
    assert_eq!(search.display_name(&id("a")), "a");
}

fn workspace() -> Metadata {
    Metadata {
        packages: vec![package("app 0.1.0", "app"), package("lib 0.2.0", "lib")],
        workspace_members: vec![id("app 0.1.0"), id("tool 0.1.0")],
        resolve: Some(Resolve {
            nodes: vec![
                Node {
                    id: id("app 0.1.0"),
                    deps: vec![NodeDep { name: "lib".to_string(), pkg: id("lib 0.2.0") }],
                },
                Node {
                    id: id("lib 0.2.0"),
                    deps: vec![NodeDep { name: "libc".to_string(), pkg: id("libc 0.2.0") }],
                },
                Node {
                    id: id("tool 0.1.0"),
                    deps: vec![NodeDep { name: "libc".to_string(), pkg: id("libc 0.2.0") }],
                },
            ],
        }),
    }
}

#[test]
fn why_answers_for_every_workspace_member() {
    let answer = why(&workspace(), "libc");
    assert_eq!(
        answer,
        Ok(vec!["app -> lib -> libc".to_string(), "tool 0.1.0 -> libc".to_string()])
    );
    assert_eq!(why(&workspace(), "lib"), Ok(vec!["app -> lib".to_string()]));
    assert_eq!(why(&workspace(), "unused"), Ok(vec![]));
}

#[test]
fn why_fails_without_a_resolved_graph() {
    let mut metadata = workspace();
    metadata.resolve = None;
    let answer = why(&metadata, "libc");
    assert_eq!(answer, Err(Error::NoResolve));
    assert_eq!(Error::NoResolve.message(), "No dependency resolution found");
}

#[test]
fn parse_takes_target_and_passes_flags_on() {
    let parsed = parse(&args(&["cargo-why", "why", "serde", "--offline", "--features", "x y"]));
    let invocation = parsed.expect("a well-formed command line");
    assert_eq!(invocation.target, "serde");
    assert_eq!(invocation.other_flags, args(&["--offline", "--features", "x y"]));
}

#[test]
fn parse_accepts_a_target_alone() {
    let invocation = parse(&args(&["cargo-why", "why", "serde"])).expect("a well-formed command line");
    assert_eq!(invocation.target, "serde");
    assert!(invocation.other_flags.is_empty());
}

#[test]
fn parse_keeps_help_flags_after_the_target() {
    let invocation =
        parse(&args(&["cargo-why", "why", "serde", "-h", "--help"])).expect("a well-formed command line");
    assert_eq!(invocation.target, "serde");
    assert_eq!(invocation.other_flags, args(&["-h", "--help"]));
}

#[test]
fn parse_refuses_malformed_command_lines() {
    assert!(parse(&args(&[])).is_none());
    assert!(parse(&args(&["cargo-why"])).is_none());
    assert!(parse(&args(&["cargo-why", "why"])).is_none());
    assert!(parse(&args(&["cargo-why", "serde"])).is_none());
    assert!(parse(&args(&["cargo-why", "serde", "why"])).is_none());
    assert!(parse(&args(&["cargo-why", "Why", "serde"])).is_none());
    assert!(parse(&args(&["cargo-why", "why", "-h"])).is_none());
    assert!(parse(&args(&["cargo-why", "why", "--help"])).is_none());
    assert!(parse(&args(&["cargo-why", "why", "--help", "serde"])).is_none());
    assert!(parse(&args(&["why", "serde", "x"])).is_none());
}

#[test]
fn parse_takes_other_dashed_words_as_targets() {
    let invocation = parse(&args(&["cargo-why", "why", "--offline"])).expect("a well-formed command line");
    assert_eq!(invocation.target, "--offline");
    let invocation = parse(&args(&["cargo-why", "why", "-H"])).expect("a well-formed command line");
    assert_eq!(invocation.target, "-H");
}

#[test]
fn usage_text_is_exact() {
    assert_eq!(
        usage("0.1.0"),
        "cargo-why 0.1.0\n\nUSAGE:\n    cargo why <target crate> [other cargo flags (features, offline, etc)...]\n\nFLAGS:\n    -h, --help       Prints help information\n"
    );
    assert!(usage("").starts_with("cargo-why \n\nUSAGE:"));
}

#[test]
fn resolved_gives_the_graph_or_the_error() {
    let metadata = workspace();
    let graph = cargo_why::report::resolved(&metadata).expect("a resolved graph");
    assert_eq!(graph.nodes.len(), 3);
    let mut bare = workspace();
    bare.resolve = None;
    assert_eq!(cargo_why::report::resolved(&bare).err(), Some(Error::NoResolve));
}
