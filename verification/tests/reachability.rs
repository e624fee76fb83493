use recipe_reduce::graph::{compute_transitive_members, DepGraph, GraphEntry};

fn entry(name: &str, deps: &[&str]) -> GraphEntry {
    GraphEntry {
        name: name.to_owned(),
        deps: deps.iter().map(|d| (*d).to_owned()).collect(),
    }
}

fn names(v: &[&str]) -> Vec<String> {
    v.iter().map(|n| (*n).to_owned()).collect()
}

fn sorted(mut v: Vec<String>) -> Vec<String> {
    v.sort();
    v
}

/// The chain root -> a -> b is followed to the end.
#[test]
fn test_transitive_chain() {
    let deps = DepGraph {
        entries: vec![entry("root", &["a"]), entry("a", &["b"]), entry("b", &[])],
    };

    let keep = compute_transitive_members(&names(&["root"]), &deps);

    assert_eq!(sorted(keep), names(&["a", "b", "root"]));
}

/// A member that no root reaches is left out.
#[test]
fn test_unreachable_member_left_out() {
    let deps = DepGraph { entries: vec![entry("root", &[]), entry("bar", &[])] };

    let keep = compute_transitive_members(&names(&["root"]), &deps);

    assert_eq!(sorted(keep), names(&["root"]));
}

/// A dependency cycle terminates and keeps every member on the cycle once.
#[test]
fn test_cycle_terminates() {
    let deps = DepGraph {
        entries: vec![entry("root", &["a"]), entry("a", &["b"]), entry("b", &["a", "root"])],
    };

    let keep = compute_transitive_members(&names(&["root"]), &deps);

    assert_eq!(sorted(keep), names(&["a", "b", "root"]));
}

/// Every listed root seeds the closure.
#[test]
fn test_multiple_roots() {
    let deps = DepGraph {
        entries: vec![entry("x", &["y"]), entry("y", &[]), entry("z", &[]), entry("w", &[])],
    };

    let keep = compute_transitive_members(&names(&["x", "z"]), &deps);

    assert_eq!(sorted(keep), names(&["x", "y", "z"]));
}

/// A root that has no graph node is still kept.
#[test]
fn test_root_without_node_kept() {
    let deps = DepGraph { entries: vec![entry("a", &[])] };

    let keep = compute_transitive_members(&names(&["lone-member"]), &deps);

    assert_eq!(sorted(keep), names(&["lone-member"]));
}
