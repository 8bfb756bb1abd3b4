use caelum::sema::elaborate::elaborate;
use caelum::syntax::ast::{FairnessStrength, Item};
use caelum::syntax::{parse_source, PrintMode, Printer};

/// Elaborate `source` and render the result with unicode operators, so tests
/// can assert on the lowered core AST.
fn elab(source: &str) -> String {
    let file = elaborate(&parse_source(source).expect("parse")).expect("elaborate");
    Printer::new(PrintMode::UnicodeOperators).print_source_file(&file)
}

fn elab_err(source: &str) -> String {
    elaborate(&parse_source(source).expect("parse"))
        .expect_err("elaboration should fail")
        .to_string()
}

fn transition_names(source: &str) -> Vec<String> {
    let file = elaborate(&parse_source(source).expect("parse")).expect("elaborate");
    file.items
        .iter()
        .filter_map(|item| match item {
            Item::Transition(block) => Some(block.name.clone()),
            _ => None,
        })
        .collect()
}

#[test]
fn unchanged_lowers_to_frame_conditions() {
    let out = elab(
        r"
        let x : 0..2
        let y : 0..2
        let z : 0..2
        transition t { x' = x ∧ unchanged(y, z) }
        ",
    );
    assert!(out.contains("y' = y ∧ z' = z"), "got: {out}");
}

#[test]
fn unchanged_deduplicates_arguments() {
    let out = elab(
        r"
        let x : 0..2
        transition t { unchanged(x, x) }
        ",
    );
    // Exactly one frame condition, no conjunction.
    assert!(out.contains("x' = x"), "got: {out}");
    assert!(!out.contains("x' = x ∧ x' = x"), "got: {out}");
}

#[test]
fn unchanged_rejects_enum_value() {
    let err = elab_err(
        r"
        type Color = enum { red, green }
        let c : Color
        transition t { unchanged(red) }
        ",
    );
    assert!(err.contains("unchanged expects a state variable"), "got: {err}");
}

#[test]
fn unchanged_rejects_constant() {
    let err = elab_err(
        r"
        const max = 3
        let x : 0..max
        transition t { unchanged(max) }
        ",
    );
    assert!(err.contains("unchanged expects a state variable"), "got: {err}");
}

#[test]
fn unchanged_except_requires_indexed_variable() {
    let err = elab_err(
        r"
        type Node = enum { n1, n2 }
        let x : 0..2
        transition t(node ∈ Node) { unchanged(x except node) }
        ",
    );
    assert!(err.contains("requires an indexed state variable"), "got: {err}");
}

#[test]
fn parameterized_transition_expands_over_domain() {
    let names = transition_names(
        r"
        let value : 0..3
        transition choose(v ∈ 0..2) { value' = v }
        ",
    );
    assert_eq!(names, vec!["choose(0)", "choose(1)", "choose(2)"]);
}

#[test]
fn parameterized_transition_expands_cartesian_product() {
    let names = transition_names(
        r"
        type Node = enum { n1, n2 }
        type Image = enum { a, b }
        let x : 0..2
        transition assign(node ∈ Node, image ∈ Image) { x' = x }
        ",
    );
    assert_eq!(
        names,
        vec![
            "assign(n1, a)",
            "assign(n1, b)",
            "assign(n2, a)",
            "assign(n2, b)",
        ]
    );
}

#[test]
fn parameter_substitution_replaces_references() {
    let out = elab(
        r"
        type Node = enum { n1, n2 }
        let leader : Node
        transition elect(node ∈ Node) { leader' = node }
        ",
    );
    assert!(out.contains("leader' = n1"), "got: {out}");
    assert!(out.contains("leader' = n2"), "got: {out}");
}

#[test]
fn priming_a_parameter_is_rejected() {
    let err = elab_err(
        r"
        type Node = enum { n1, n2 }
        let x : 0..2
        transition t(node ∈ Node) { node' = node }
        ",
    );
    assert!(
        err.contains("do not have next-state values"),
        "got: {err}"
    );
}

#[test]
fn parameter_name_clash_is_rejected() {
    let err = elab_err(
        r"
        type Node = enum { n1, n2 }
        let node : 0..2
        transition t(node ∈ Node) { node = 0 }
        ",
    );
    assert!(err.contains("conflicts with an existing declaration"), "got: {err}");
}

#[test]
fn unknown_parameter_domain_is_rejected() {
    let err = elab_err(
        r"
        let x : 0..2
        transition t(node ∈ Unknown) { x' = x }
        ",
    );
    assert!(err.contains("domain must be finite"), "got: {err}");
}

#[test]
fn indexed_variable_flattens_to_scalars() {
    let out = elab(
        r"
        type Node = enum { n1, n2 }
        type Power = enum { off, on }
        let power[node ∈ Node] ∈ Power
        init { power[n1] = off ∧ power[n2] = off }
        ",
    );
    assert!(out.contains("let power[n1] ∈ Power"), "got: {out}");
    assert!(out.contains("let power[n2] ∈ Power"), "got: {out}");
    assert!(out.contains("power[n1] = off ∧ power[n2] = off"), "got: {out}");
}

#[test]
fn indexed_reference_with_parameter_resolves() {
    let out = elab(
        r"
        type Node = enum { n1, n2 }
        type Power = enum { off, on }
        let power[node ∈ Node] ∈ Power
        transition on(node ∈ Node) { power[node]' = on ∧ unchanged(power except node) }
        ",
    );
    // on(n1) sets power[n1]' and preserves power[n2]; on(n2) is the mirror.
    assert!(out.contains("power[n1]' = on ∧ power[n2]' = power[n2]"), "got: {out}");
    assert!(out.contains("power[n2]' = on ∧ power[n1]' = power[n1]"), "got: {out}");
}

#[test]
fn forall_expands_to_conjunction() {
    let out = elab(
        r"
        type Node = enum { n1, n2 }
        type Power = enum { off, on }
        let power[node ∈ Node] ∈ Power
        init { ∀ node ∈ Node: power[node] = off }
        ",
    );
    assert!(out.contains("power[n1] = off ∧ power[n2] = off"), "got: {out}");
}

#[test]
fn exists_expands_to_disjunction() {
    let out = elab(
        r"
        type Node = enum { n1, n2 }
        type Power = enum { off, on }
        let power[node ∈ Node] ∈ Power
        property p { □ (∃ node ∈ Node: power[node] = on) }
        ",
    );
    assert!(out.contains("power[n1] = on ∨ power[n2] = on"), "got: {out}");
}

fn fairness_of(source: &str) -> Vec<(FairnessStrength, String)> {
    let file = elaborate(&parse_source(source).expect("parse")).expect("elaborate");
    file.items
        .iter()
        .filter_map(|item| match item {
            Item::Fairness(decl) => Some(decl),
            _ => None,
        })
        .flat_map(|decl| decl.constraints.iter())
        .map(|c| (c.strength, c.transition.clone()))
        .collect()
}

#[test]
fn fairness_expands_to_transition_instances() {
    let fairness = fairness_of(
        r"
        type Node = enum { n1, n2 }
        let x : 0..2
        transition step(node ∈ Node) { x' = x }
        fairness { weak step }
        ",
    );
    assert_eq!(
        fairness,
        vec![
            (FairnessStrength::Weak, "step(n1)".to_string()),
            (FairnessStrength::Weak, "step(n2)".to_string()),
        ]
    );
}

#[test]
fn fairness_on_scalar_transition_keeps_its_name() {
    let fairness = fairness_of(
        r"
        let x : 0..1
        transition toggle { x' = 1 - x }
        fairness { strong toggle }
        ",
    );
    assert_eq!(fairness, vec![(FairnessStrength::Strong, "toggle".to_string())]);
}

#[test]
fn fairness_on_unknown_transition_is_rejected() {
    let err = elab_err(
        r"
        let x : 0..1
        transition toggle { x' = 1 - x }
        fairness { weak missing }
        ",
    );
    assert!(
        err.contains("unknown transition in fairness declaration `missing`"),
        "got: {err}"
    );
}

#[test]
fn plain_spec_is_unchanged_by_elaboration() {
    // Elaboration must be a no-op on specs that use no surface sugar.
    let source = r"
        let x : 0..2
        init { x = 0 }
        transition step { x' = (x + 1) mod 3 }
        property p { □ (x ≥ 0) }
        ";
    let once = elab(source);
    let file = parse_source(&once).expect("reparse");
    let twice = Printer::new(PrintMode::UnicodeOperators).print_source_file(
        &elaborate(&file).expect("re-elaborate"),
    );
    assert_eq!(once, twice);
}
