//! The laws of evaluation order, on concrete graphs.

use crisol::{ModuleGraph, ModuleId};

fn build(edges: &[(&str, &[&str])]) -> (ModuleGraph, ModuleId) {
    let mut graph = ModuleGraph::new();
    let entry = graph.intern(edges[0].0);
    for (from, imports) in edges {
        let from = graph.intern(from);
        for import in *imports {
            let to = graph.intern(import);
            graph.add_import(from, to);
        }
    }
    (graph, entry)
}

fn position(order: &[ModuleId], module: ModuleId) -> usize {
    order.iter().position(|m| *m == module).expect("evaluated")
}

#[test]
fn every_reachable_module_evaluates_exactly_once() {
    let (mut graph, entry) = build(&[
        ("main", &["a", "b"]),
        ("a", &["c", "c"]),
        ("b", &["c", "a"]),
        ("c", &[]),
    ]);
    let stray = graph.intern("stray");
    let order = graph.evaluation_order(entry);
    assert_eq!(order.len(), 4);
    for name in ["main", "a", "b", "c"] {
        let id = graph.intern(name);
        assert_eq!(order.iter().filter(|m| **m == id).count(), 1, "{name}");
    }
    assert!(!order.contains(&stray));
}

#[test]
fn the_entry_evaluates_last() {
    let (graph, entry) = build(&[("main", &["a"]), ("a", &["b"]), ("b", &["main"])]);
    let order = graph.evaluation_order(entry);
    assert_eq!(order.last(), Some(&entry));
}

#[test]
fn an_import_outside_a_cycle_evaluates_before_its_importer() {
    let (mut graph, entry) = build(&[
        ("main", &["x"]),
        ("x", &["y", "leaf"]),
        ("y", &["x"]),
        ("leaf", &[]),
    ]);
    let order = graph.evaluation_order(entry);
    let x = graph.intern("x");
    let y = graph.intern("y");
    let leaf = graph.intern("leaf");
    assert!(position(&order, leaf) < position(&order, x));
    assert!(position(&order, x) < position(&order, entry));
    // `y` imports `x`, which reaches `y` back: the cycle is ordered, `x` after `y`.
    assert!(position(&order, y) < position(&order, x));
}

#[test]
fn an_entry_that_names_no_module_evaluates_nothing() {
    let (graph, _) = build(&[("main", &["a"])]);
    assert!(graph.evaluation_order(ModuleId::from_index(17)).is_empty());
}

#[test]
fn interning_twice_keeps_one_module_per_specifier() {
    let mut graph = ModuleGraph::new();
    let first = graph.intern("./shared.js");
    let other = graph.intern("./other.js");
    let again = graph.intern("./shared.js");
    assert_eq!(first, again);
    assert_ne!(first, other);
    assert_eq!(graph.len(), 2);
    assert_eq!(graph.specifier(first), Some("./shared.js"));
}
