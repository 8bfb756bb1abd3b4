use caelum::bmc::{check_with_bmc, BmcOptions, SolverBackend};
use caelum::checker::{CheckReport, CheckStatus};
use caelum::model::Value;
use caelum::sema::check_source_file;
use caelum::syntax::parse_source;

fn check(source: &str, depth: usize) -> CheckReport {
    let file = parse_source(source).expect("parse");
    check_source_file(&file).expect("sema");
    check_with_bmc(&file, &BmcOptions { depth }, SolverBackend::Varisat).expect("bmc")
}

#[test]
fn finds_safety_violation_with_counterexample() {
    // x cycles 0 -> 1 -> 2 -> 0; the invariant `x != 2` must fail.
    let report = check(
        r"
        let x: 0..2
        init { x = 0 }
        transition step { x' = (x + 1) mod 3 }
        property never_two { □ (x != 2) }
        ",
        5,
    );
    assert_eq!(report.status, CheckStatus::Fail);
    let prop = &report.properties[0];
    assert_eq!(prop.status, CheckStatus::Fail);
    let trace = prop.counterexample.as_ref().expect("counterexample");
    // The trace must reach a state with x = 2.
    let saw_two = trace
        .states
        .iter()
        .any(|s| matches!(s.values.first(), Some(Value::Int(2))));
    assert!(saw_two);
}

#[test]
fn passes_safety_within_depth() {
    let report = check(
        r"
        let x: 0..3
        init { x = 0 }
        transition step { x' = (x + 1) mod 4 }
        property in_range { □ (x >= 0 ∧ x <= 3) }
        ",
        8,
    );
    assert_eq!(report.status, CheckStatus::Pass);
    assert_eq!(report.properties[0].status, CheckStatus::Pass);
}

#[test]
fn skips_unsupported_liveness() {
    let report = check(
        r"
        let x: 0..2
        init { x = 0 }
        transition step { x' = (x + 1) mod 3 }
        property eventually_zero { ◇ (x = 0) }
        ",
        5,
    );
    let prop = &report.properties[0];
    assert_eq!(prop.status, CheckStatus::Skipped);
    assert!(prop.note.as_deref().unwrap_or("").contains("eventually"));
}

#[test]
fn invalid_block_passes_when_property_correctly_fails() {
    let report = check(
        r"
        let x: 0..2
        init { x = 0 }
        transition step { x' = (x + 1) mod 3 }
        invalid never_two { □ (x != 2) }
        ",
        5,
    );
    assert_eq!(report.properties[0].status, CheckStatus::Pass);
}

#[test]
fn next_operator_shifts_time_index() {
    // x toggles between 0 and 1; from x = 0 the next state has x = 1.
    // `□ (x = 0 → ◯ x = 1)` is true and must pass.
    let report = check(
        r"
        let x: 0..1
        init { x = 0 }
        transition step { x' = 1 - x }
        property toggles { □ (x = 0 → ◯ (x = 1)) }
        ",
        5,
    );
    assert_eq!(report.properties[0].status, CheckStatus::Pass);
}

fn check_with(source: &str, depth: usize, backend: SolverBackend) -> caelum::diagnostics::Result<CheckReport> {
    let file = parse_source(source).expect("parse");
    check_source_file(&file).expect("sema");
    check_with_bmc(&file, &BmcOptions { depth }, backend)
}

const CYCLE3: &str = r"
    let x: 0..2
    init { x = 0 }
    transition step { x' = (x + 1) mod 3 }
";

#[test]
fn cadical_backend_finds_the_same_violation() {
    let source = format!("{CYCLE3}\nproperty never_two {{ □ (x != 2) }}\nproperty in_range {{ □ (x <= 2) }}");
    let report = check_with(&source, 5, SolverBackend::Cadical).expect("bmc");
    assert_eq!(report.status, CheckStatus::Fail);
    assert_eq!(report.properties[0].status, CheckStatus::Fail);
    assert_eq!(report.properties[1].status, CheckStatus::Pass);
    let trace = report.properties[0].counterexample.as_ref().expect("counterexample");
    assert!(trace.states.iter().any(|s| s.values[0] == Value::Int(2)));
}

#[test]
fn counterexample_has_depth_plus_one_states() {
    let source = format!("{CYCLE3}\nproperty never_two {{ □ (x != 2) }}");
    let report = check_with(&source, 4, SolverBackend::Varisat).expect("bmc");
    let trace = report.properties[0].counterexample.as_ref().expect("counterexample");
    assert_eq!(trace.states.len(), 5);
    assert_eq!(trace.cycle_start, None);
    assert_eq!(trace.states[0].values, vec![Value::Int(0)]);
}

#[test]
fn violation_beyond_depth_is_not_found() {
    let source = format!("{CYCLE3}\nproperty never_two {{ □ (x != 2) }}");
    let report = check_with(&source, 1, SolverBackend::Varisat).expect("bmc");
    assert_eq!(report.properties[0].status, CheckStatus::Pass);
    assert_eq!(report.status, CheckStatus::Pass);
}

#[test]
fn skips_always_eventually_and_until_with_notes() {
    let source = format!("{CYCLE3}\nproperty a {{ □ ◇ (x = 0) }}\nproperty b {{ (x < 2) 𝒰 (x = 2) }}\nproperty c {{ □ (x = 0 → ◇ (x = 1)) }}");
    let report = check_with(&source, 3, SolverBackend::Varisat).expect("bmc");
    for property in &report.properties {
        assert_eq!(property.status, CheckStatus::Skipped);
        assert!(property.counterexample.is_none());
    }
    assert_eq!(
        report.properties[0].note.as_deref(),
        Some("BMC checks safety only: `always eventually` is a liveness property")
    );
    assert_eq!(report.properties[1].note.as_deref(), Some("BMC checks safety only: `until` is a liveness property"));
    assert_eq!(
        report.properties[2].note.as_deref(),
        Some("nested `eventually` is unsupported by BMC (only safety is checked)")
    );
    // Skipped properties do not fail the report.
    assert_eq!(report.status, CheckStatus::Pass);
}

#[test]
fn depth_below_next_nesting_is_an_error() {
    let source = format!("{CYCLE3}\nproperty p {{ □ (x = 0 → ◯ ◯ (x = 2)) }}");
    let err = check_with(&source, 1, SolverBackend::Varisat).expect_err("depth too small");
    assert!(err.to_string().contains("less than property's required next-depth 2"), "{}", err.to_string());
    assert_eq!(err.exit_code(), 5);
}

#[test]
fn state_formula_is_checked_in_the_initial_state() {
    let source = format!("{CYCLE3}\nproperty starts_at_zero {{ x = 0 }}\nproperty starts_at_one {{ x = 1 }}");
    let report = check_with(&source, 3, SolverBackend::Varisat).expect("bmc");
    assert_eq!(report.properties[0].status, CheckStatus::Pass);
    assert_eq!(report.properties[1].status, CheckStatus::Fail);
}

#[test]
fn invalid_block_fails_when_property_holds() {
    let source = format!("{CYCLE3}\nproperty holds {{ □ (x <= 2) }}\ninvalid holds_too {{ □ (x <= 2) }}");
    let report = check_with(&source, 4, SolverBackend::Varisat).expect("bmc");
    assert_eq!(report.properties[0].status, CheckStatus::Pass);
    assert_eq!(report.properties[1].status, CheckStatus::Fail);
    assert!(report.properties[1].counterexample.is_none());
}

#[test]
fn enum_variables_decode_in_traces() {
    let report = check_with(
        r"
        type Mode = enum { idle, busy }
        let m: Mode
        init { m = idle }
        transition go { m' = busy }
        property stays_idle { □ (m = idle) }
        ",
        2,
        SolverBackend::Varisat,
    )
    .expect("bmc");
    let trace = report.properties[0].counterexample.as_ref().expect("counterexample");
    assert_eq!(trace.states[0].values, vec![Value::Enum("idle".to_string())]);
    assert!(trace.states.iter().any(|s| s.values[0] == Value::Enum("busy".to_string())));
}

#[test]
fn z3_backend_agrees_with_varisat() {
    let source = format!("{CYCLE3}\nproperty never_two {{ □ (x != 2) }}\nproperty in_range {{ □ (x <= 2) }}\ninvalid bad {{ □ (x = 0) }}");
    let z3 = check_with(&source, 5, SolverBackend::Z3).expect("bmc");
    let varisat = check_with(&source, 5, SolverBackend::Varisat).expect("bmc");
    for (a, b) in z3.properties.iter().zip(&varisat.properties) {
        assert_eq!(a.status, b.status, "{}", a.name);
    }
    assert_eq!(z3.properties[0].status, CheckStatus::Fail);
    let trace = z3.properties[0].counterexample.as_ref().expect("counterexample");
    assert!(trace.states.iter().any(|s| s.values[0] == Value::Int(2)));
    assert_eq!(z3.properties[2].status, CheckStatus::Pass);
}

fn int_of(state: &caelum::model::State) -> i64 {
    match state.values.first() {
        Some(Value::Int(i)) => *i,
        other => panic!("expected an integer, got {other:?}"),
    }
}

#[test]
fn counterexample_is_a_run_of_the_system() {
    // Every reported trace starts in an initial state, takes only `step`
    // transitions, and breaks the invariant at some step.
    let source = r"
        let x: 0..3
        init { x = 0 }
        transition step { x' = (x + 1) mod 4 }
        property below_three { □ (x < 3) }
        ";
    for backend in [SolverBackend::Varisat, SolverBackend::Cadical] {
        let file = parse_source(source).expect("parse");
        check_source_file(&file).expect("sema");
        let report = check_with_bmc(&file, &BmcOptions { depth: 4 }, backend).expect("bmc");
        let trace = report.properties[0].counterexample.as_ref().expect("counterexample");
        assert_eq!(int_of(&trace.states[0]), 0);
        for pair in trace.states.windows(2).take(4) {
            assert_eq!(int_of(&pair[1]), (int_of(&pair[0]) + 1) % 4);
        }
        assert!(trace.states.iter().take(5).any(|s| int_of(s) >= 3));
    }
}
