use caelum::diagnostics::CaelumError;
use caelum::syntax::ast::{
    BinaryOp, Domain, DomainBound, Expr, FairnessConstraint, FairnessStrength, Item, ModuleName, QuantKind,
    UnaryOp, UnchangedTarget,
};
use caelum::syntax::parse_source;

fn first_property_expr(source: &str) -> Expr {
    let file = parse_source(source).expect("source should parse");
    let Item::Property(property) = &file.items[0] else {
        panic!("expected first item to be a property");
    };
    property.expr.clone()
}

#[test]
fn parser_normalizes_prefix_temporal_operators() {
    let keywords = first_property_expr("property p { always eventually next x = 0 }");
    let ascii = first_property_expr("property p { [] <> () x = 0 }");
    let unicode = first_property_expr("property p { □ ◇ ◯ x = 0 }");

    assert_eq!(keywords, ascii);
    assert_eq!(keywords, unicode);
}

#[test]
fn parser_normalizes_until_operators() {
    let keywords = first_property_expr("property p { x = 0 until x = 1 }");
    let ascii = first_property_expr("property p { x = 0 U x = 1 }");
    let unicode = first_property_expr("property p { x = 0 𝒰 x = 1 }");

    assert_eq!(keywords, ascii);
    assert_eq!(keywords, unicode);
}

#[test]
fn parser_normalizes_classical_logic_operators() {
    let keywords = first_property_expr("property p { not a and b or c }");
    let ascii = first_property_expr(r"property p { ~ a /\ b \/ c }");
    let unicode = first_property_expr("property p { ¬ a ∧ b ∨ c }");

    assert_eq!(keywords, ascii);
    assert_eq!(keywords, unicode);
}

#[test]
fn parser_ascii_next_parens_disambiguated_from_grouping() {
    // `()` as next operator followed by a parenthesized expression
    let expr = first_property_expr("property p { () (x = 1) }");
    let Expr::Unary { op, expr: inner } = &expr else {
        panic!("expected Unary, got {expr:?}");
    };
    assert_eq!(*op, UnaryOp::Next);
    // The inner expression should be `x = 1` (the grouping parens are stripped)
    let Expr::Binary { op: inner_op, lhs, .. } = inner.as_ref() else {
        panic!("expected Binary inside Next, got {inner:?}");
    };
    assert_eq!(*inner_op, BinaryOp::Eq);
    assert!(matches!(lhs.as_ref(), Expr::Name(n) if n == "x"));
}

#[test]
fn parser_all_ascii_operators_parse_together() {
    // Combines every ASCII operator form in one spec:
    //   [] (always), <> (eventually), () (next),
    //   ~ (not), /\ (and), \/ (or), U (until)
    let source = r"
        property p { [] <> () ~ a /\ b \/ c U d }
    ";
    let expr = first_property_expr(source);
    // Until has the lowest precedence, so it becomes the outermost node.
    // LHS = `[] <> () ~ a /\ b \/ c`, RHS = `d`
    let Expr::Binary { op, rhs, .. } = &expr else {
        panic!("expected Binary(Until) at top level, got {expr:?}");
    };
    assert_eq!(*op, BinaryOp::Until);
    assert!(matches!(rhs.as_ref(), Expr::Name(n) if n == "d"));
}

#[test]
fn parser_unicode_element_of_type_sep_and_until_in_full_spec() {
    // End-to-end: `∈` as the type separator for VarDecl with IntRange,
    // and `𝒰` as the Until operator inside a property.
    let file = parse_source(
        r#"
        let x ∈ 0..2
        init { x = 0 }
        transition step { x' = x + 1 }
        property reaches_max { (x < 2) 𝒰 (x = 2) }
        "#,
    )
    .expect("spec with ∈ and 𝒰 should parse");

    // The first item must be a VarDecl with an IntRange domain.
    let Item::Var(ref var) = file.items[0] else {
        panic!("expected first item to be Var, got {:?}", file.items[0]);
    };
    assert_eq!(var.name, "x");
    assert_eq!(
        var.domain,
        Domain::IntRange {
            start: DomainBound::Int(0),
            end: DomainBound::Int(2),
        }
    );

    // The property expression must be a Binary Until node.
    let Item::Property(ref prop) = file.items[3] else {
        panic!("expected fourth item to be Property, got {:?}", file.items[3]);
    };
    assert_eq!(prop.name, "reaches_max");
    let Expr::Binary { op, ref lhs, ref rhs } = prop.expr else {
        panic!("expected Binary expr in property, got {:?}", prop.expr);
    };
    assert_eq!(op, BinaryOp::Until);

    // LHS: x < 2
    let Expr::Binary { op: lhs_op, .. } = lhs.as_ref() else {
        panic!("expected Binary in LHS of Until, got {:?}", lhs);
    };
    assert_eq!(*lhs_op, BinaryOp::Lt);

    // RHS: x = 2
    let Expr::Binary { op: rhs_op, .. } = rhs.as_ref() else {
        panic!("expected Binary in RHS of Until, got {:?}", rhs);
    };
    assert_eq!(*rhs_op, BinaryOp::Eq);
}

#[test]
fn parser_parses_declarations_and_primed_transition_variables() {
    let file = parse_source(
        r#"
        module examples.counter
        import "common.lum"

        const max = 3
        let x ∈ 0..max
        let mode: enum { idle, busy, done }

        init { x = 0 }
        transition inc { x' = (x + 1) mod 4 }
        property wraps { □ ◇ x = 0 }
        "#,
    )
    .expect("source should parse");

    assert_eq!(
        file.module,
        Some(ModuleName {
            parts: vec!["examples".into(), "counter".into()]
        })
    );
    assert_eq!(file.imports[0].path, "common.lum");
    assert_eq!(file.item_count(), 6);
}

#[test]
fn parser_normalizes_implies_iff_ne_unicode_operators() {
    let ascii_implies = first_property_expr("property p { x = 0 -> x = 1 }");
    let unicode_implies = first_property_expr("property p { x = 0 → x = 1 }");
    assert_eq!(ascii_implies, unicode_implies);

    let ascii_iff = first_property_expr("property p { x = 0 <-> x = 1 }");
    let unicode_iff = first_property_expr("property p { x = 0 ↔ x = 1 }");
    assert_eq!(ascii_iff, unicode_iff);

    let ascii_ne = first_property_expr("property p { x != 0 }");
    let unicode_ne = first_property_expr("property p { x ≠ 0 }");
    assert_eq!(ascii_ne, unicode_ne);

    let ascii_le = first_property_expr("property p { x <= 1 }");
    let unicode_le = first_property_expr("property p { x ≤ 1 }");
    assert_eq!(ascii_le, unicode_le);

    let ascii_ge = first_property_expr("property p { x >= 1 }");
    let unicode_ge = first_property_expr("property p { x ≥ 1 }");
    assert_eq!(ascii_ge, unicode_ge);
}

#[test]
fn parses_type_decl_with_enum() {
    let file = parse_source("type Color = enum { red, green, yellow }")
        .expect("type decl should parse");

    let Item::TypeDecl(ref decl) = file.items[0] else {
        panic!("expected TypeDecl, got {:?}", file.items[0]);
    };
    assert_eq!(decl.name, "Color");
    assert_eq!(
        decl.domain,
        Domain::Enum {
            variants: vec!["red".into(), "green".into(), "yellow".into()]
        }
    );
}

#[test]
fn parses_type_decl_with_int_range() {
    let file =
        parse_source("type Nat = 0..100").expect("type decl with int range should parse");

    let Item::TypeDecl(ref decl) = file.items[0] else {
        panic!("expected TypeDecl, got {:?}", file.items[0]);
    };
    assert_eq!(decl.name, "Nat");
    assert_eq!(
        decl.domain,
        Domain::IntRange {
            start: DomainBound::Int(0),
            end: DomainBound::Int(100),
        }
    );
}

#[test]
fn parses_named_domain_in_var_decl() {
    let file = parse_source(
        r"
        type Color = enum { red, green }
        let x ∈ Color
        ",
    )
    .expect("named domain should parse");

    let Item::Var(ref decl) = file.items[1] else {
        panic!("expected Var, got {:?}", file.items[1]);
    };
    assert_eq!(decl.name, "x");
    assert_eq!(decl.domain, Domain::Named("Color".into()));
}

#[test]
fn parses_unchanged_expression() {
    let file = parse_source("let x : bool\nlet y : bool\ntransition t { unchanged(x, y) }")
        .expect("unchanged should parse");
    let Item::Transition(ref block) = file.items[2] else {
        panic!("expected Transition, got {:?}", file.items[2]);
    };
    assert_eq!(
        block.expr,
        Expr::Unchanged(vec![
            UnchangedTarget { name: "x".into(), except: None },
            UnchangedTarget { name: "y".into(), except: None },
        ])
    );
}

#[test]
fn parses_unchanged_except() {
    let file = parse_source("transition t { unchanged(status except node) }")
        .expect("unchanged except should parse");
    let Item::Transition(ref block) = file.items[0] else {
        panic!("expected Transition");
    };
    assert_eq!(
        block.expr,
        Expr::Unchanged(vec![UnchangedTarget {
            name: "status".into(),
            except: Some("node".into()),
        }])
    );
}

#[test]
fn parses_transition_parameters() {
    let file = parse_source(
        "type Node = enum { n1, n2 }\ntransition t(node ∈ Node, k : 0..2) { node = node }",
    )
    .expect("parameters should parse");
    let Item::Transition(ref block) = file.items[1] else {
        panic!("expected Transition");
    };
    assert_eq!(block.params.len(), 2);
    assert_eq!(block.params[0].name, "node");
    assert_eq!(block.params[0].domain, Domain::Named("Node".into()));
    assert_eq!(block.params[1].name, "k");
}

#[test]
fn parses_indexed_var_and_primed_reference() {
    let file = parse_source(
        "type Node = enum { n1, n2 }\nlet s[node ∈ Node] : bool\ntransition t { s[node]' = s[node] }",
    )
    .expect("indexed state should parse");
    let Item::Var(ref decl) = file.items[1] else {
        panic!("expected Var");
    };
    assert_eq!(decl.name, "s");
    assert_eq!(decl.index.as_ref().map(|p| p.name.as_str()), Some("node"));

    let Item::Transition(ref block) = file.items[2] else {
        panic!("expected Transition");
    };
    let Expr::Binary { lhs, rhs, .. } = &block.expr else {
        panic!("expected binary, got {:?}", block.expr);
    };
    assert_eq!(
        **lhs,
        Expr::Indexed { name: "s".into(), index: Box::new(Expr::Name("node".into())), primed: true }
    );
    assert_eq!(
        **rhs,
        Expr::Indexed { name: "s".into(), index: Box::new(Expr::Name("node".into())), primed: false }
    );
}

#[test]
fn parses_quantifier() {
    let file = parse_source("type Node = enum { n1, n2 }\nproperty p { ∀ node ∈ Node: node = n1 }")
        .expect("quantifier should parse");
    let Item::Property(ref block) = file.items[1] else {
        panic!("expected Property");
    };
    let Expr::Quantifier { kind, var, domain, .. } = &block.expr else {
        panic!("expected quantifier, got {:?}", block.expr);
    };
    assert_eq!(*kind, QuantKind::Forall);
    assert_eq!(var, "node");
    assert_eq!(*domain, Domain::Named("Node".into()));
}

#[test]
fn empty_unchanged_is_a_parse_error() {
    assert!(parse_source("transition t { unchanged() }").is_err());
}

#[test]
fn parse_error_reports_span() {
    // `property p { x = }` — the parser fails at the `}` on line 1.
    let err = parse_source("property p { x = }").expect_err("should fail to parse");
    let CaelumError::Parse { span: Some(span), .. } = err else {
        panic!("expected a Parse error with a span, got {err:?}");
    };
    assert_eq!(span.start_line, 1);
    // The failure points somewhere inside the single-line source.
    assert_eq!(span.end_line, 1);
    assert!(span.start_col >= 1);
}

#[test]
fn declaration_span_locates_the_source() {
    // The var decl is on the second line (after the leading newline).
    let file = parse_source("\nlet x ∈ 0..2\n").expect("should parse");
    let Item::Var(decl) = &file.items[0] else {
        panic!("expected a var decl");
    };
    assert_eq!(decl.span.start_line, 2);
    assert_eq!(decl.span.start_col, 1);
}

#[test]
fn parses_fairness_block() {
    let file = parse_source(
        "transition a { true }\ntransition b { true }\nfairness {\n  weak a\n  strong b\n}",
    )
    .expect("fairness block should parse");
    let Item::Fairness(ref decl) = file.items[2] else {
        panic!("expected Fairness, got {:?}", file.items[2]);
    };
    assert_eq!(
        decl.constraints,
        vec![
            FairnessConstraint {
                strength: FairnessStrength::Weak,
                transition: "a".into(),
            },
            FairnessConstraint {
                strength: FairnessStrength::Strong,
                transition: "b".into(),
            },
        ]
    );
}

fn name(n: &str) -> Box<Expr> {
    Box::new(Expr::Name(n.to_owned()))
}

fn bin(op: BinaryOp, lhs: Box<Expr>, rhs: Box<Expr>) -> Box<Expr> {
    Box::new(Expr::Binary { op, lhs, rhs })
}

#[test]
fn subtraction_associates_to_the_left() {
    let e = first_property_expr("property p { a - b - c = 0 }");
    let expected = Expr::Binary {
        op: BinaryOp::Eq,
        lhs: bin(BinaryOp::Sub, bin(BinaryOp::Sub, name("a"), name("b")), name("c")),
        rhs: Box::new(Expr::Int(0)),
    };
    assert_eq!(e, expected);
}

#[test]
fn implication_associates_to_the_right() {
    let e = first_property_expr("property p { a -> b -> c }");
    let expected = *bin(BinaryOp::Implies, name("a"), bin(BinaryOp::Implies, name("b"), name("c")));
    assert_eq!(e, expected);
}

#[test]
fn comments_and_whitespace_between_tokens_are_skipped() {
    let plain = first_property_expr("property p { a and b }");
    let commented = first_property_expr("// heading\nproperty /* name follows */ p {\n  a // left\n  and /* right */ b\n}");
    assert_eq!(plain, commented);
}

#[test]
fn string_escapes_are_resolved_in_imports() {
    let file = parse_source("import \"dir\\\\a \\\"b\\\".lum\"\ntype T = bool").expect("parse");
    assert_eq!(file.imports[0].path, "dir\\a \"b\".lum");
}

#[test]
fn integer_literal_too_large_is_an_error() {
    assert!(parse_source("const c = 99999999999999999999").is_err());
    assert!(parse_source("const c = 9223372036854775807").is_ok());
}

#[test]
fn unterminated_block_comment_is_an_error() {
    assert!(parse_source("type T = bool /* open").is_err());
}
