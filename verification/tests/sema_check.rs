use caelum::diagnostics::Result;
use caelum::sema::check_source_file;
use caelum::syntax::parse_source;

fn check(source: &str) -> Result<()> {
    let file = parse_source(source)?;
    check_source_file(&file)
}

#[test]
fn accepts_well_typed_spec_with_unicode_type_separator() {
    check(
        r"
        const max = 3
        let x ∈ 0..max
        let flag ∈ bool

        init { x = 0 and not flag }
        transition step { x' = x + 1 and flag' = true }
        property p { □ (x >= 0 ∧ flag -> ◇ flag) }
        ",
    )
    .expect("spec should typecheck");
}

#[test]
fn rejects_unknown_names() {
    let err = check("property p { missing }").expect_err("spec should fail");

    assert!(err.to_string().contains("unknown identifier `missing`"));
}

#[test]
fn rejects_non_boolean_properties() {
    let err = check("const x = 1 property p { x + 1 }").expect_err("spec should fail");

    assert!(err.to_string().contains("property block must be boolean"));
}

#[test]
fn rejects_primed_variables_outside_transitions() {
    let err = check("let x: 0..1 property p { x' = x }").expect_err("spec should fail");

    assert!(err
        .to_string()
        .contains("primed variable `x'` is only allowed in transitions"));
}

#[test]
fn rejects_temporal_operators_in_init_blocks() {
    let err = check("let x: bool init { □ x }").expect_err("spec should fail");

    assert!(err
        .to_string()
        .contains("temporal operators are only allowed in properties"));
}

#[test]
fn rejects_top_level_duplicate_names_across_kinds() {
    let err = check("let p: bool property p { p }").expect_err("spec should fail");

    assert!(err.to_string().contains("duplicate declaration `p`"));
}

#[test]
fn rejects_constants_that_read_state_variables() {
    let err = check("let x: 0..1 const y = x").expect_err("spec should fail");

    assert!(err
        .to_string()
        .contains("constant expression cannot refer to state variable `x`"));
}

#[test]
fn accepts_named_enum_type_with_shared_variables() {
    check(
        r"
        type Color = enum { red, green, yellow }
        let a ∈ Color
        let b ∈ Color
        init { a = red ∧ b = green }
        transition swap { a' = b ∧ b' = a }
        property p { □ (a = red → b = green) }
        ",
    )
    .expect("shared named enum type should typecheck");
}

#[test]
fn accepts_named_int_range_type() {
    check(
        r"
        type Small = 0..3
        let x ∈ Small
        init { x = 0 }
        transition inc { x' = x + 1 }
        property p { □ (x ≤ 3) }
        ",
    )
    .expect("named int range type should typecheck");
}

#[test]
fn rejects_unknown_named_type() {
    let err = check("let x ∈ Undefined").expect_err("spec should fail");

    assert!(err.to_string().contains("unknown type `Undefined`"));
}

#[test]
fn rejects_duplicate_type_name() {
    let err = check(
        r"
        type Color = enum { red }
        type Color = enum { blue }
        ",
    )
    .expect_err("spec should fail");

    assert!(err.to_string().contains("duplicate declaration `Color`"));
}

#[test]
fn cross_variable_enum_comparison_typechecks() {
    check(
        r"
        type Color = enum { red, green }
        let a ∈ Color
        let b ∈ Color
        init { a = red ∧ b = red }
        transition t { a' = a ∧ b' = b }
        property p { □ (a = b → a = red) }
        ",
    )
    .expect("cross-variable comparison of same named type should typecheck");
}
