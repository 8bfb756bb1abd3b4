use caelum::bmc::encode::{ConstValue, ResolvedDomain};
use caelum::bmc::setup::prepare;
use caelum::bmc::unroll::{classify, PropShape, SkipReason};
use caelum::model::Value;
use caelum::syntax::ast::Item;
use caelum::syntax::parse_source;

#[test]
fn values_print_as_written() {
    assert_eq!(Value::Int(-12).to_string(), "-12");
    assert_eq!(Value::Int(0).to_string(), "0");
    assert_eq!(Value::Int(i64::MIN).to_string(), "-9223372036854775808");
    assert_eq!(Value::Bool(true).to_string(), "true");
    assert_eq!(Value::Bool(false).to_string(), "false");
    assert_eq!(Value::Enum("busy".to_string()).to_string(), "busy");
}

fn first_property_shape(source: &str) -> PropShape {
    let file = parse_source(source).expect("parse");
    let Item::Property(p) = &file.items[0] else {
        panic!("expected a property");
    };
    classify(&p.expr)
}

#[test]
fn classification_of_property_shapes() {
    assert_eq!(first_property_shape("property p { □ (x = 0 → ◯ (x = 1)) }"), PropShape::Always);
    assert_eq!(first_property_shape("property p { x = 0 }"), PropShape::State);
    assert_eq!(first_property_shape("property p { ◇ (x = 0) }"), PropShape::Unsupported(SkipReason::Eventually));
    assert_eq!(first_property_shape("property p { □ ◇ (x = 0) }"), PropShape::Unsupported(SkipReason::AlwaysEventually));
    assert_eq!(first_property_shape("property p { x = 0 U x = 1 }"), PropShape::Unsupported(SkipReason::Until));
    assert_eq!(first_property_shape("property p { □ □ (x = 0) }"), PropShape::Unsupported(SkipReason::NestedAlways));
    assert_eq!(first_property_shape("property p { □ (x = 0 U x = 1) }"), PropShape::Unsupported(SkipReason::NestedUntil));
}

#[test]
fn prepare_resolves_constants_types_and_domains() {
    let file = parse_source(
        r"
        const max = 2
        type Color = enum { red, green }
        let x: 0..max
        let c: Color
        let m: enum { on, off }
        let b: bool
        init { x = 0 }
        transition t { x' = x }
        property p { □ (x <= max) }
        ",
    )
    .expect("parse");
    let spec = prepare(&file).expect("prepare");
    assert_eq!(spec.variables.iter().map(|v| v.name.as_str()).collect::<Vec<_>>(), vec!["x", "c", "m", "b"]);
    assert_eq!(spec.init_blocks.len(), 1);
    assert_eq!(spec.transition_blocks.len(), 1);
    assert_eq!(spec.properties.len(), 1);
    let domain = |name: &str| spec.domains.iter().find(|(n, _)| n == name).map(|(_, d)| d.clone()).expect("domain");
    assert!(matches!(domain("x"), ResolvedDomain::Int(v) if v == vec![0, 1, 2]));
    assert!(matches!(domain("b"), ResolvedDomain::Bool));
    assert!(matches!(domain("c"), ResolvedDomain::Enum { enum_type, variants } if enum_type == "Color" && variants == vec!["red", "green"]));
    assert!(matches!(domain("m"), ResolvedDomain::Enum { enum_type, variants } if enum_type == "m" && variants == vec!["on", "off"]));
    let constant = |name: &str| spec.constants.iter().find(|(n, _)| n == name).map(|(_, c)| c.clone()).expect("constant");
    assert!(matches!(constant("max"), ConstValue::Int(2)));
    let type_of = |v: &str| spec.enum_variant_type.iter().find(|(n, _)| n == v).map(|(_, t)| t.clone());
    assert_eq!(type_of("on"), Some("m".to_string()));
    assert_eq!(type_of("green"), Some("Color".to_string()));
}

#[test]
fn prepare_rejects_empty_ranges_and_unknown_types() {
    let file = parse_source("let x: 3..1").expect("parse");
    let err = prepare(&file).err().expect("empty range");
    assert_eq!(err.to_string(), "model construction error: BMC: empty integer range for `x`: 3..1");
    let file = parse_source("let y: Missing").expect("parse");
    let err = prepare(&file).err().expect("unknown type");
    assert_eq!(err.to_string(), "model construction error: BMC: unknown type `Missing` for variable `y`");
}
