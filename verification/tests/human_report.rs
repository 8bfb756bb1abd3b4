use caelum::checker::{human_report_text, CheckReport, CheckStatus, Counterexample, PropertyResult};
use caelum::model::{State, Value};
use caelum::syntax::ast::PropertyKind;

fn failing_report() -> CheckReport {
    CheckReport {
        status: CheckStatus::Fail,
        properties: vec![
            PropertyResult {
                name: "small".to_string(),
                kind: PropertyKind::Property,
                status: CheckStatus::Fail,
                counterexample: Some(Counterexample {
                    states: vec![
                        State { values: vec![Value::Int(0), Value::Bool(true)] },
                        State { values: vec![Value::Int(1), Value::Bool(false)] },
                    ],
                    cycle_start: None,
                }),
                note: None,
            },
            PropertyResult {
                name: "live".to_string(),
                kind: PropertyKind::Invalid,
                status: CheckStatus::Skipped,
                counterexample: None,
                note: Some("liveness is not checked".to_string()),
            },
        ],
    }
}

#[test]
fn human_report_lists_properties_and_traces() {
    let names = vec!["x".to_string(), "on".to_string()];
    let text = human_report_text(2, 5, None, &names, &failing_report(), true, false);
    assert_eq!(
        text,
        "FAIL loaded 2 file(s), typechecked 5 item(s), engine=bmc\n\
         FAIL property small\n\
         counterexample:\n  s0: x = 0, on = true\n  s1: x = 1, on = false\n\
         SKIP invalid live\n  note: liveness is not checked\n"
    );
}

#[test]
fn human_report_hides_traces_unless_asked() {
    let names = vec!["x".to_string(), "on".to_string()];
    let text = human_report_text(1, 3, None, &names, &failing_report(), false, true);
    assert_eq!(
        text,
        "FAIL loaded 1 file(s), typechecked 3 item(s), engine=bmc\n\
         FAIL property small\n\
         SKIP invalid live\n  note: liveness is not checked\n"
    );
}
