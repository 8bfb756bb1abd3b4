use caelum::syntax::{parse_source, PrintMode, Printer};

fn print(source: &str, mode: PrintMode) -> String {
    let file = parse_source(source).expect("source should parse");
    Printer::new(mode).print_source_file(&file)
}

#[test]
fn prints_unicode_temporal_operators_by_default() {
    let file = parse_source("property p { always eventually next x = 0 }")
        .expect("source should parse");

    assert_eq!(
        Printer::new(PrintMode::default()).print_source_file(&file),
        "property p {\n  □ ◇ ◯ x = 0\n}\n"
    );
}

#[test]
fn prints_keyword_temporal_operators() {
    assert_eq!(
        print(
            "property p { [] <> () (~ a /\\ b \\/ c) }",
            PrintMode::Keywords
        ),
        "property p {\n  always eventually next (not a and b or c)\n}\n"
    );
}

#[test]
fn prints_ascii_temporal_operators() {
    assert_eq!(
        print(
            "property p { □ ◇ ◯ (¬ a ∧ b ∨ c) }",
            PrintMode::AsciiOperators
        ),
        "property p {\n  [] <> () (~ a /\\ b \\/ c)\n}\n"
    );
}

#[test]
fn prints_unicode_classical_logic_operators_by_default() {
    assert_eq!(
        print(
            "let x: 0..3\nproperty p { not a and b or c }",
            PrintMode::default()
        ),
        "let x ∈ 0..3\n\nproperty p {\n  ¬ a ∧ b ∨ c\n}\n"
    );
}

#[test]
fn prints_unicode_implies_iff_ne() {
    assert_eq!(
        print("property p { x = 0 -> x = 1 }", PrintMode::UnicodeOperators),
        "property p {\n  x = 0 → x = 1\n}\n"
    );
    assert_eq!(
        print(
            "property p { x = 0 <-> x = 1 }",
            PrintMode::UnicodeOperators
        ),
        "property p {\n  x = 0 ↔ x = 1\n}\n"
    );
    assert_eq!(
        print("property p { x != 0 }", PrintMode::UnicodeOperators),
        "property p {\n  x ≠ 0\n}\n"
    );
    assert_eq!(
        print("property p { x <= 1 }", PrintMode::UnicodeOperators),
        "property p {\n  x ≤ 1\n}\n"
    );
    assert_eq!(
        print("property p { x >= 1 }", PrintMode::UnicodeOperators),
        "property p {\n  x ≥ 1\n}\n"
    );
}

#[test]
fn prints_ascii_implies_iff_ne() {
    assert_eq!(
        print("property p { x = 0 → x = 1 }", PrintMode::AsciiOperators),
        "property p {\n  x = 0 -> x = 1\n}\n"
    );
    assert_eq!(
        print(
            "property p { x = 0 ↔ x = 1 }",
            PrintMode::AsciiOperators
        ),
        "property p {\n  x = 0 <-> x = 1\n}\n"
    );
    assert_eq!(
        print("property p { x ≠ 0 }", PrintMode::AsciiOperators),
        "property p {\n  x != 0\n}\n"
    );
    assert_eq!(
        print("property p { x ≤ 1 }", PrintMode::AsciiOperators),
        "property p {\n  x <= 1\n}\n"
    );
    assert_eq!(
        print("property p { x ≥ 1 }", PrintMode::AsciiOperators),
        "property p {\n  x >= 1\n}\n"
    );
}

#[test]
fn round_trips_surface_features() {
    // Parse a spec using every new construct, print it, reparse, and confirm
    // the AST is identical — the formatter preserves the surface syntax.
    let source = r"
        type Node = enum { n1, n2 }
        type Power = enum { off, on }
        let power[node ∈ Node] ∈ Power
        init { ∀ node ∈ Node: power[node] = off }
        transition switch(node ∈ Node) {
          power[node]' = on ∧ unchanged(power except node)
        }
        property some_on { □ (∃ node ∈ Node: power[node] = on) }
        fairness { weak switch }
    ";
    let first = parse_source(source).expect("parse");
    let printed = Printer::new(PrintMode::UnicodeOperators).print_source_file(&first);
    let second = parse_source(&printed).expect("reparse printed output");
    assert_eq!(first, second, "printed:\n{printed}");
}

#[test]
fn prints_parentheses_when_precedence_requires_them() {
    assert_eq!(
        print(
            "property p { always (x = 0 or x = 1) }",
            PrintMode::Keywords
        ),
        "property p {\n  always (x = 0 or x = 1)\n}\n"
    );
}

#[test]
fn comparison_nested_left_in_a_comparison_is_bracketed() {
    let printed = print("property p { (a = b) = c }", PrintMode::Keywords);
    assert_eq!(printed, "property p {\n  (a = b) = c\n}\n");
    let again = print(&printed, PrintMode::Keywords);
    assert_eq!(again, printed);
}
