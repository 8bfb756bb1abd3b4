//! What the printer writes, read back: the words and symbols it spells
//! operators with are the tokens the grammar takes for them, and an operand
//! it leaves unbracketed does not change what the expression computes.

use vstd::prelude::*;

use crate::model::eval::{spec_eval, Scope};
use crate::model::state::Value;
use crate::syntax::ast::{BinaryOp, Expr, QuantKind, UnaryOp};
use crate::syntax::grammar::{op_token, quant_token, unary_token};
use crate::syntax::lexer::{keyword_kind, symbol_spec, TokenKind};
use crate::syntax::printer::{binary_op_text, needs_parens, precedence, quant_text, unary_op_text, PrintMode, Side};

verus! {

/// `text`, read on its own, is one token of kind `k`: a keyword, or an
/// operator that takes all of it.
pub open spec fn reads_as_token(text: Seq<char>, k: TokenKind) -> bool {
    ||| keyword_kind(text) == Some(k)
    ||| symbol_spec(text, 0) == Some((k, text.len() as int))
}

/// In every print mode, the word or symbol the printer writes for a
/// quantifier reads back as the token of that same quantifier: `forall` and
/// `∀` as the universal one, `exists` and `∃` as the existential one.
pub proof fn law_quantifier_text_reads_back(mode: PrintMode, kind: QuantKind)
    ensures
        reads_as_token(quant_text(mode, kind)@, quant_token(kind)),
{
    reveal_strlit("module");
    reveal_strlit("import");
    reveal_strlit("type");
    reveal_strlit("const");
    reveal_strlit("let");
    reveal_strlit("init");
    reveal_strlit("transition");
    reveal_strlit("property");
    reveal_strlit("invalid");
    reveal_strlit("fairness");
    reveal_strlit("enum");
    reveal_strlit("bool");
    reveal_strlit("true");
    reveal_strlit("false");
    reveal_strlit("unchanged");
    reveal_strlit("except");
    reveal_strlit("not");
    reveal_strlit("and");
    reveal_strlit("or");
    reveal_strlit("always");
    reveal_strlit("eventually");
    reveal_strlit("next");
    reveal_strlit("until");
    reveal_strlit("U");
    reveal_strlit("forall");
    reveal_strlit("exists");
    reveal_strlit("∀");
    reveal_strlit("∃");
    let text = quant_text(mode, kind)@;
    match (mode, kind) {
        (PrintMode::UnicodeOperators, QuantKind::Forall) => {
            assert(text == seq!['∀']);
            assert(symbol_spec(text, 0) == Some((TokenKind::Forall, 1int)));
        },
        (PrintMode::UnicodeOperators, QuantKind::Exists) => {
            assert(text == seq!['∃']);
            assert(symbol_spec(text, 0) == Some((TokenKind::Exists, 1int)));
        },
        (_, QuantKind::Forall) => {
            assert(text == "forall"@);
            assert(keyword_kind(text) == Some(TokenKind::Forall));
        },
        (_, QuantKind::Exists) => {
            assert(text == "exists"@);
            assert(text[2] != "except"@[2]);
            assert(keyword_kind(text) == Some(TokenKind::Exists));
        },
    }
}

/// In every print mode, the word or symbol the printer writes for a binary
/// operator reads back as the token of that same operator.
pub proof fn law_binary_op_text_reads_back(mode: PrintMode, op: BinaryOp)
    ensures
        reads_as_token(binary_op_text(mode, op)@, op_token(op)),
{
    reveal_strlit("module");
    reveal_strlit("import");
    reveal_strlit("type");
    reveal_strlit("const");
    reveal_strlit("let");
    reveal_strlit("init");
    reveal_strlit("transition");
    reveal_strlit("property");
    reveal_strlit("invalid");
    reveal_strlit("fairness");
    reveal_strlit("enum");
    reveal_strlit("bool");
    reveal_strlit("true");
    reveal_strlit("false");
    reveal_strlit("unchanged");
    reveal_strlit("except");
    reveal_strlit("not");
    reveal_strlit("and");
    reveal_strlit("or");
    reveal_strlit("always");
    reveal_strlit("eventually");
    reveal_strlit("next");
    reveal_strlit("until");
    reveal_strlit("U");
    reveal_strlit("forall");
    reveal_strlit("exists");
    reveal_strlit("mod");
    reveal_strlit("+");
    reveal_strlit("-");
    reveal_strlit("*");
    reveal_strlit("/");
    reveal_strlit("=");
    reveal_strlit("≠");
    reveal_strlit("!=");
    reveal_strlit("<");
    reveal_strlit("≤");
    reveal_strlit("<=");
    reveal_strlit(">");
    reveal_strlit("≥");
    reveal_strlit(">=");
    reveal_strlit("/\\");
    reveal_strlit("∧");
    reveal_strlit("\\/");
    reveal_strlit("∨");
    reveal_strlit("→");
    reveal_strlit("->");
    reveal_strlit("↔");
    reveal_strlit("<->");
    reveal_strlit("𝒰");
    let text = binary_op_text(mode, op)@;
    match (mode, op) {
        (_, BinaryOp::Add) => {
            assert(text =~= seq!['+']);
            assert(symbol_spec(text, 0) == Some((TokenKind::Plus, 1int)));
        },
        (_, BinaryOp::Sub) => {
            assert(text =~= seq!['-']);
            assert(symbol_spec(text, 0) == Some((TokenKind::Minus, 1int)));
        },
        (_, BinaryOp::Mul) => {
            assert(text =~= seq!['*']);
            assert(symbol_spec(text, 0) == Some((TokenKind::Star, 1int)));
        },
        (_, BinaryOp::Div) => {
            assert(text =~= seq!['/']);
            assert(symbol_spec(text, 0) == Some((TokenKind::Slash, 1int)));
        },
        (_, BinaryOp::Mod) => {
            assert(text =~= seq!['m', 'o', 'd']);
            assert(text.subrange(0, 3) =~= text);
            assert(keyword_kind(text) == Some(TokenKind::Mod));
        },
        (_, BinaryOp::Eq) => {
            assert(text =~= seq!['=']);
            assert(symbol_spec(text, 0) == Some((TokenKind::EqSign, 1int)));
        },
        (PrintMode::UnicodeOperators, BinaryOp::Ne) => {
            assert(text =~= seq!['≠']);
            assert(symbol_spec(text, 0) == Some((TokenKind::Ne, 1int)));
        },
        (_, BinaryOp::Ne) => {
            assert(text =~= seq!['!', '=']);
            assert(text.subrange(0, 2) =~= text);
            assert(symbol_spec(text, 0) == Some((TokenKind::Ne, 2int)));
        },
        (_, BinaryOp::Lt) => {
            assert(text =~= seq!['<']);
            assert(symbol_spec(text, 0) == Some((TokenKind::Lt, 1int)));
        },
        (PrintMode::UnicodeOperators, BinaryOp::Le) => {
            assert(text =~= seq!['≤']);
            assert(symbol_spec(text, 0) == Some((TokenKind::Le, 1int)));
        },
        (_, BinaryOp::Le) => {
            assert(text =~= seq!['<', '=']);
            assert(text.subrange(0, 2) =~= text);
            assert(symbol_spec(text, 0) == Some((TokenKind::Le, 2int)));
        },
        (_, BinaryOp::Gt) => {
            assert(text =~= seq!['>']);
            assert(symbol_spec(text, 0) == Some((TokenKind::Gt, 1int)));
        },
        (PrintMode::UnicodeOperators, BinaryOp::Ge) => {
            assert(text =~= seq!['≥']);
            assert(symbol_spec(text, 0) == Some((TokenKind::Ge, 1int)));
        },
        (_, BinaryOp::Ge) => {
            assert(text =~= seq!['>', '=']);
            assert(text.subrange(0, 2) =~= text);
            assert(symbol_spec(text, 0) == Some((TokenKind::Ge, 2int)));
        },
        (PrintMode::Keywords, BinaryOp::And) => {
            assert(text =~= seq!['a', 'n', 'd']);
            assert(text.subrange(0, 3) =~= text);
            assert(keyword_kind(text) == Some(TokenKind::And));
        },
        (PrintMode::AsciiOperators, BinaryOp::And) => {
            assert(text =~= seq!['/', '\\']);
            assert(text.subrange(0, 2) =~= text);
            assert(symbol_spec(text, 0) == Some((TokenKind::And, 2int)));
        },
        (PrintMode::UnicodeOperators, BinaryOp::And) => {
            assert(text =~= seq!['∧']);
            assert(symbol_spec(text, 0) == Some((TokenKind::And, 1int)));
        },
        (PrintMode::Keywords, BinaryOp::Or) => {
            assert(text =~= seq!['o', 'r']);
            assert(text.subrange(0, 2) =~= text);
            assert(keyword_kind(text) == Some(TokenKind::Or));
        },
        (PrintMode::AsciiOperators, BinaryOp::Or) => {
            assert(text =~= seq!['\\', '/']);
            assert(text.subrange(0, 2) =~= text);
            assert(symbol_spec(text, 0) == Some((TokenKind::Or, 2int)));
        },
        (PrintMode::UnicodeOperators, BinaryOp::Or) => {
            assert(text =~= seq!['∨']);
            assert(symbol_spec(text, 0) == Some((TokenKind::Or, 1int)));
        },
        (PrintMode::UnicodeOperators, BinaryOp::Implies) => {
            assert(text =~= seq!['→']);
            assert(symbol_spec(text, 0) == Some((TokenKind::Implies, 1int)));
        },
        (_, BinaryOp::Implies) => {
            assert(text =~= seq!['-', '>']);
            assert(text.subrange(0, 2) =~= text);
            assert(symbol_spec(text, 0) == Some((TokenKind::Implies, 2int)));
        },
        (PrintMode::UnicodeOperators, BinaryOp::Iff) => {
            assert(text =~= seq!['↔']);
            assert(symbol_spec(text, 0) == Some((TokenKind::Iff, 1int)));
        },
        (_, BinaryOp::Iff) => {
            assert(text =~= seq!['<', '-', '>']);
            assert(text.subrange(0, 3) =~= text);
            assert(symbol_spec(text, 0) == Some((TokenKind::Iff, 3int)));
        },
        (PrintMode::Keywords, BinaryOp::Until) => {
            assert(text =~= seq!['u', 'n', 't', 'i', 'l']);
            assert(text.subrange(0, 5) =~= text);
            assert(keyword_kind(text) == Some(TokenKind::Until));
        },
        (PrintMode::AsciiOperators, BinaryOp::Until) => {
            assert(text =~= seq!['U']);
            assert(keyword_kind(text) == Some(TokenKind::Until));
        },
        (PrintMode::UnicodeOperators, BinaryOp::Until) => {
            assert(text =~= seq!['𝒰']);
            assert(symbol_spec(text, 0) == Some((TokenKind::Until, 1int)));
        },
    }
}

/// In every print mode, the word or symbol the printer writes for a prefix
/// operator reads back as the token of that same operator.
pub proof fn law_unary_op_text_reads_back(mode: PrintMode, op: UnaryOp)
    ensures
        reads_as_token(unary_op_text(mode, op)@, unary_token(op)),
{
    reveal_strlit("module");
    reveal_strlit("import");
    reveal_strlit("type");
    reveal_strlit("const");
    reveal_strlit("let");
    reveal_strlit("init");
    reveal_strlit("transition");
    reveal_strlit("property");
    reveal_strlit("invalid");
    reveal_strlit("fairness");
    reveal_strlit("enum");
    reveal_strlit("bool");
    reveal_strlit("true");
    reveal_strlit("false");
    reveal_strlit("unchanged");
    reveal_strlit("except");
    reveal_strlit("not");
    reveal_strlit("and");
    reveal_strlit("or");
    reveal_strlit("always");
    reveal_strlit("eventually");
    reveal_strlit("next");
    reveal_strlit("~");
    reveal_strlit("¬");
    reveal_strlit("-");
    reveal_strlit("[]");
    reveal_strlit("□");
    reveal_strlit("<>");
    reveal_strlit("◇");
    reveal_strlit("()");
    reveal_strlit("◯");
    let text = unary_op_text(mode, op)@;
    match (mode, op) {
        (PrintMode::Keywords, UnaryOp::Not) => {
            assert(text =~= seq!['n', 'o', 't']);
            assert(text.subrange(0, 3) =~= text);
            assert(keyword_kind(text) == Some(TokenKind::Not));
        },
        (PrintMode::AsciiOperators, UnaryOp::Not) => {
            assert(text =~= seq!['~']);
            assert(symbol_spec(text, 0) == Some((TokenKind::Not, 1int)));
        },
        (PrintMode::UnicodeOperators, UnaryOp::Not) => {
            assert(text =~= seq!['¬']);
            assert(symbol_spec(text, 0) == Some((TokenKind::Not, 1int)));
        },
        (_, UnaryOp::Neg) => {
            assert(text =~= seq!['-']);
            assert(symbol_spec(text, 0) == Some((TokenKind::Minus, 1int)));
        },
        (PrintMode::Keywords, UnaryOp::Always) => {
            assert(text =~= seq!['a', 'l', 'w', 'a', 'y', 's']);
            assert(text.subrange(0, 6) =~= text);
            assert(keyword_kind(text) == Some(TokenKind::Always));
        },
        (PrintMode::AsciiOperators, UnaryOp::Always) => {
            assert(text =~= seq!['[', ']']);
            assert(text.subrange(0, 2) =~= text);
            assert(symbol_spec(text, 0) == Some((TokenKind::Always, 2int)));
        },
        (PrintMode::UnicodeOperators, UnaryOp::Always) => {
            assert(text =~= seq!['□']);
            assert(symbol_spec(text, 0) == Some((TokenKind::Always, 1int)));
        },
        (PrintMode::Keywords, UnaryOp::Eventually) => {
            assert(text =~= seq!['e', 'v', 'e', 'n', 't', 'u', 'a', 'l', 'l', 'y']);
            assert(text.subrange(0, 10) =~= text);
            assert(keyword_kind(text) == Some(TokenKind::Eventually));
        },
        (PrintMode::AsciiOperators, UnaryOp::Eventually) => {
            assert(text =~= seq!['<', '>']);
            assert(text.subrange(0, 2) =~= text);
            assert(symbol_spec(text, 0) == Some((TokenKind::Eventually, 2int)));
        },
        (PrintMode::UnicodeOperators, UnaryOp::Eventually) => {
            assert(text =~= seq!['◇']);
            assert(symbol_spec(text, 0) == Some((TokenKind::Eventually, 1int)));
        },
        (PrintMode::Keywords, UnaryOp::Next) => {
            assert(text =~= seq!['n', 'e', 'x', 't']);
            assert(text.subrange(0, 4) =~= text);
            assert(keyword_kind(text) == Some(TokenKind::Next));
        },
        (PrintMode::AsciiOperators, UnaryOp::Next) => {
            assert(text =~= seq!['(', ')']);
            assert(text.subrange(0, 2) =~= text);
            assert(symbol_spec(text, 0) == Some((TokenKind::Next, 2int)));
        },
        (PrintMode::UnicodeOperators, UnaryOp::Next) => {
            assert(text =~= seq!['◯']);
            assert(symbol_spec(text, 0) == Some((TokenKind::Next, 1int)));
        },
    }
}

pub open spec fn binary_expr(op: BinaryOp, lhs: Expr, rhs: Expr) -> Expr {
    Expr::Binary { op, lhs: Box::new(lhs), rhs: Box::new(rhs) }
}

/// The grammar groups operators of one precedence to the right (`→`,
/// `until`) or to the left (the others).
pub open spec fn groups_right(op: BinaryOp) -> bool {
    op is Implies || op is Until
}

/// `op1` applied to an operand built with `op2`, on the side `side`, and to
/// two more operands.
pub open spec fn nested(side: Side, op1: BinaryOp, op2: BinaryOp, x: Expr, y: Expr, z: Expr) -> Expr {
    match side {
        Side::Left => binary_expr(op1, binary_expr(op2, x, y), z),
        _ => binary_expr(op1, x, binary_expr(op2, y, z)),
    }
}

/// How the text of `nested(..)` reads back when the inner operand is written
/// without brackets and the grammar groups the other way.
pub open spec fn regrouped(side: Side, op1: BinaryOp, op2: BinaryOp, x: Expr, y: Expr, z: Expr) -> Expr {
    match side {
        Side::Left => binary_expr(op2, x, binary_expr(op1, y, z)),
        _ => binary_expr(op2, binary_expr(op1, x, y), z),
    }
}

pub open spec fn inner_operand(side: Side, op2: BinaryOp, x: Expr, y: Expr, z: Expr) -> Expr {
    match side {
        Side::Left => binary_expr(op2, x, y),
        _ => binary_expr(op2, y, z),
    }
}

/// Where the printer writes an operand without brackets next to an operator
/// of the same precedence that the grammar groups away from it (a right
/// operand of `+`, a left operand of `→`), the text reads back regrouped:
/// `x + y ⋄ z` as `(x + y) ⋄ z`. That regrouping keeps the value: whenever
/// both groupings evaluate, they give the same value. So `x + (y + z)` may be
/// written `x + y + z`, but `x - (y - z)` and `(x → y) → z` keep their
/// brackets.
pub proof fn law_bare_operand_keeps_value(
    side: Side,
    op1: BinaryOp,
    op2: BinaryOp,
    x: Expr,
    y: Expr,
    z: Expr,
    env: Scope,
    cur: Option<Seq<Value>>,
    next: Option<Seq<Value>>,
)
    requires
        side is Left || side is Right,
        side is Left <==> groups_right(op2),
        precedence(inner_operand(side, op2, x, y, z)) == precedence(nested(side, op1, op2, x, y, z)),
        !needs_parens(inner_operand(side, op2, x, y, z), precedence(nested(side, op1, op2, x, y, z)), side),
        !(op1 is Sub && op2 is Add),
        !((op1 is Div || op1 is Mod) && op2 is Mul),
    ensures
        spec_eval(nested(side, op1, op2, x, y, z), env, cur, next) matches Some(v1)
            ==> (spec_eval(regrouped(side, op1, op2, x, y, z), env, cur, next) matches Some(v2) ==> v1 == v2),
{
    reveal_with_fuel(spec_eval, 2);
    let a = spec_eval(x, env, cur, next);
    let b = spec_eval(y, env, cur, next);
    let c = spec_eval(z, env, cur, next);
    if let (Some(Value::Int(p)), Some(Value::Int(q)), Some(Value::Int(r))) = (a, b, c) {
        if op1 is Mul && op2 is Mul {
            vstd::arithmetic::mul::lemma_mul_is_associative(p as int, q as int, r as int);
        }
    }
}

} // verus!
