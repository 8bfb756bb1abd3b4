use caelum::diagnostics::Result;
use caelum::model::{build_graph, build_graph_with_options, BuildOptions, ModelGraph, Value};
use caelum::sema::check_source_file;
use caelum::syntax::parse_source;

fn graph(source: &str) -> Result<ModelGraph> {
    let file = parse_source(source)?;
    check_source_file(&file)?;
    build_graph(&file)
}

#[test]
fn builds_reachable_graph_for_finite_counter() {
    let graph = graph(
        r"
        let x: 0..2
        init { x = 0 }
        transition step { x' = (x + 1) mod 3 }
        property p { □ (x >= 0) }
        ",
    )
    .expect("graph should build");

    assert_eq!(graph.variables, vec!["x"]);
    assert_eq!(graph.states.len(), 3);
    assert_eq!(graph.edge_count(), 3);
    assert_eq!(graph.initial_states.len(), 1);
}

#[test]
fn detects_deadlock() {
    let err = graph(
        r"
        let x: 0..1
        init { x = 1 }
        transition step { x' = x + 1 }
        ",
    )
    .expect_err("deadlock should fail");

    assert!(err.to_string().contains("deadlock detected"));
}

#[test]
fn constants_as_domain_bounds() {
    let graph = graph(
        r"
        const lo = 0
        const hi = 3
        let x: lo..hi
        init { x = 0 }
        transition step { x' = (x + 1) mod 4 }
        property p { □ (x >= 0) }
        ",
    )
    .expect("graph should build with constant domain bounds");

    // lo..hi = 0..3 means values 0, 1, 2, 3 => 4 states
    assert_eq!(graph.states.len(), 4);
    assert_eq!(graph.initial_states.len(), 1);
}

#[test]
fn constant_expression_as_domain_bound() {
    let graph = graph(
        r"
        const n = 2 + 1
        let x: 0..n
        init { x = 0 }
        transition step { x' = (x + 1) mod (n + 1) }
        property p { □ (x >= 0) }
        ",
    )
    .expect("graph should build with constant expression as domain bound");

    // n = 2 + 1 = 3, so 0..3 means values 0, 1, 2, 3 => 4 states
    assert_eq!(graph.states.len(), 4);
    assert_eq!(graph.initial_states.len(), 1);
}

#[test]
fn constants_in_init_and_transition_arithmetic() {
    // Constants used in init expression and transition modular arithmetic.
    // const step = 2, const max = 6 => domain 0..6 has 7 values.
    // init: x = step => x starts at 2.
    // transition: x' = (x + step) mod (max + 1) => 2, 4, 6, 1, 3, 5, 0, 2, ...
    // All 7 values are reachable.
    let graph = graph(
        r"
        const step = 2
        const max = 6
        let x: 0..max
        init { x = step }
        transition advance { x' = (x + step) mod (max + 1) }
        property p { □ (x >= 0) }
        ",
    )
    .expect("graph should build with constants in transition arithmetic");

    // Domain 0..6 = 7 values, all reachable via the mod-7 cycle with step 2
    assert_eq!(graph.states.len(), 7);
    assert_eq!(graph.initial_states.len(), 1);
    // Each state has exactly one successor (deterministic)
    assert_eq!(graph.edge_count(), 7);
}

#[test]
fn mod_in_init_expression() {
    // mod used directly in an init expression: x = 7 mod 3 evaluates to 1
    let graph = graph(
        r"
        let x: 0..3
        init { x = 7 mod 3 }
        transition step { x' = (x + 1) mod 4 }
        property p { □ (x >= 0) }
        ",
    )
    .expect("graph should build with mod in init expression");

    // 7 mod 3 = 1, so x starts at 1, cycling 1 -> 2 -> 3 -> 0 -> 1 ...
    // All 4 values reachable
    assert_eq!(graph.states.len(), 4);
    assert_eq!(graph.initial_states.len(), 1);
    // The initial state should have x = 1
    let init_idx = graph.initial_states[0];
    assert_eq!(graph.states[init_idx].values, vec![Value::Int(1)]);
}

#[test]
fn mod_wraps_counter_to_exact_cycle() {
    // Counter 0..5 with x' = (x + 1) mod 6 produces exactly 6 reachable
    // states forming a single cycle: 0 -> 1 -> 2 -> 3 -> 4 -> 5 -> 0
    let graph = graph(
        r"
        let x: 0..5
        init { x = 0 }
        transition tick { x' = (x + 1) mod 6 }
        property p { □ (x mod 3 < 3) }
        ",
    )
    .expect("graph should build for mod-6 counter");

    assert_eq!(graph.states.len(), 6);
    assert_eq!(graph.initial_states.len(), 1);
    // Deterministic: each state has exactly one successor
    assert_eq!(graph.edge_count(), 6);
}

#[test]
fn enforces_state_limit() {
    let file = parse_source(
        r"
        let x: 0..5
        init { x = 0 }
        transition step { x' = x }
        ",
    )
    .expect("parse");
    check_source_file(&file).expect("typecheck");

    let err = build_graph_with_options(&file, &BuildOptions { max_states: 2 })
        .expect_err("limit should fail");

    assert!(err.to_string().contains("exceeding --max-states"));
}
