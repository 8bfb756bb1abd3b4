use caelum::checker::{check_properties, CheckReport, CheckStatus};
use caelum::diagnostics::Result;
use caelum::model::build_graph;
use caelum::sema::check_source_file;
use caelum::sema::elaborate::elaborate;
use caelum::syntax::{parse_source, PrintMode, Printer};

fn report(source: &str) -> Result<CheckReport> {
    let file = parse_source(source)?;
    check_source_file(&file)?;
    let graph = build_graph(&file)?;
    check_properties(&file, &graph)
}

#[test]
fn always_property_passes_exactly_on_invariants() {
    let report = report(
        r"
        let x: 0..3
        init { x = 0 }
        transition step { x' = (x + 1) mod 3 }
        property reachable_below_three { □ (x < 3) }
        property not_all_below_two { □ (x < 2) }
        ",
    )
    .expect("check should run");
    // x = 3 is in the domain but never reached, so x < 3 is an invariant.
    assert_eq!(report.properties[0].status, CheckStatus::Pass);
    assert_eq!(report.properties[1].status, CheckStatus::Fail);
}

#[test]
fn double_negation_gives_the_same_verdicts() {
    let report = report(
        r"
        let x: 0..2
        init { x = 0 }
        transition step { x' = (x + 1) mod 3 }
        property a { ◇ (x = 2) }
        property b { ¬ ¬ ◇ (x = 2) }
        property c { □ (x = 1) }
        property d { ¬ ¬ □ (x = 1) }
        ",
    )
    .expect("check should run");
    assert_eq!(report.properties[0].status, report.properties[1].status);
    assert_eq!(report.properties[2].status, report.properties[3].status);
    assert_eq!(report.properties[0].status, CheckStatus::Pass);
    assert_eq!(report.properties[2].status, CheckStatus::Fail);
}

#[test]
fn excluded_middle_passes_for_temporal_formulas() {
    let report = report(
        r"
        let x: 0..2
        init { x = 0 }
        transition step { x' = (x + 1) mod 3 }
        property p { ◇ (x = 5) ∨ ¬ ◇ (x = 5) }
        ",
    )
    .expect("check should run");
    assert_eq!(report.properties[0].status, CheckStatus::Pass);
}

#[test]
fn invalid_block_is_the_negated_property() {
    let report = report(
        r"
        let x: 0..2
        init { x = 0 }
        transition step { x' = (x + 1) mod 3 }
        property p1 { □ (x < 2) }
        invalid q1 { □ (x < 2) }
        property p2 { □ (x <= 2) }
        invalid q2 { □ (x <= 2) }
        ",
    )
    .expect("check should run");
    assert_eq!(report.properties[0].status, CheckStatus::Fail);
    assert_eq!(report.properties[1].status, CheckStatus::Pass);
    assert_eq!(report.properties[2].status, CheckStatus::Pass);
    assert_eq!(report.properties[3].status, CheckStatus::Fail);
    assert_eq!(report.status, CheckStatus::Fail);
}

#[test]
fn elaborating_twice_changes_nothing_more() {
    let source = r"
        type Node = enum { n1, n2 }
        type Power = enum { off, on }
        let power[node ∈ Node] ∈ Power
        init { ∀ node ∈ Node: power[node] = off }
        transition switch(node ∈ Node) {
          power[node]' = on ∧ unchanged(power except node)
        }
        property some_on { □ (∃ node ∈ Node: power[node] = on) }
    ";
    let once = elaborate(&parse_source(source).expect("parse")).expect("elaborate");
    let twice = elaborate(&once).expect("elaborate again");
    assert_eq!(once, twice);
    let printer = Printer::new(PrintMode::UnicodeOperators);
    assert_eq!(printer.print_source_file(&once), printer.print_source_file(&twice));
}
