//! The grammar of `.lum` specifications over tokens.
//!
//! Each `*_form` predicate says that a run of tokens spells a syntax tree,
//! consuming the run exactly. Binary operators are layered by precedence,
//! loosest first: `<->` (left), `->` (right), `until` (right), `or` (left),
//! `and` (left), one comparison, `+ -` (left), `* / mod` (left), prefix
//! operators, then atoms. Spans are positions, not syntax, and are not part
//! of the grammar.

use vstd::prelude::*;

use crate::syntax::ast::{
    BinaryOp, Domain, DomainBound, Expr, ImportDecl, Item, ModuleName, QuantKind,
    SourceFile, TransitionParam, UnaryOp, UnchangedTarget,
};
use crate::syntax::lexer::{lexes, Token, TokenKind};

verus! {

/// The token that spells a binary operator.
pub open spec fn op_token(op: BinaryOp) -> TokenKind {
    match op {
        BinaryOp::Add => TokenKind::Plus,
        BinaryOp::Sub => TokenKind::Minus,
        BinaryOp::Mul => TokenKind::Star,
        BinaryOp::Div => TokenKind::Slash,
        BinaryOp::Mod => TokenKind::Mod,
        BinaryOp::Eq => TokenKind::EqSign,
        BinaryOp::Ne => TokenKind::Ne,
        BinaryOp::Lt => TokenKind::Lt,
        BinaryOp::Le => TokenKind::Le,
        BinaryOp::Gt => TokenKind::Gt,
        BinaryOp::Ge => TokenKind::Ge,
        BinaryOp::And => TokenKind::And,
        BinaryOp::Or => TokenKind::Or,
        BinaryOp::Implies => TokenKind::Implies,
        BinaryOp::Iff => TokenKind::Iff,
        BinaryOp::Until => TokenKind::Until,
    }
}

/// The token that spells a prefix operator.
pub open spec fn unary_token(op: UnaryOp) -> TokenKind {
    match op {
        UnaryOp::Not => TokenKind::Not,
        UnaryOp::Neg => TokenKind::Minus,
        UnaryOp::Always => TokenKind::Always,
        UnaryOp::Eventually => TokenKind::Eventually,
        UnaryOp::Next => TokenKind::Next,
    }
}

pub open spec fn quant_token(kind: QuantKind) -> TokenKind {
    match kind {
        QuantKind::Forall => TokenKind::Forall,
        QuantKind::Exists => TokenKind::Exists,
    }
}

pub open spec fn is_comparison(op: BinaryOp) -> bool {
    op is Eq || op is Ne || op is Lt || op is Le || op is Gt || op is Ge
}

/// `:` or `∈`, which separate a name from its domain.
pub open spec fn is_type_sep(k: TokenKind) -> bool {
    k is Colon || k is In
}

/// `t` is `lhs`, the operator token of `op` at `k`, then `rhs`: the shape
/// shared by every binary level.
pub open spec fn operator_at(t: Seq<Token>, k: int, op: BinaryOp) -> bool {
    0 < k < t.len() - 1 && t[k].kind == op_token(op)
}

pub open spec fn expr_form(t: Seq<Token>, e: Expr) -> bool
    decreases t.len(), 11nat,
{
    iff_form(t, e)
}

/// `<->`, associating to the left.
pub open spec fn iff_form(t: Seq<Token>, e: Expr) -> bool
    decreases t.len(), 10nat,
{
    ||| implication_form(t, e)
    ||| (e matches Expr::Binary { op, lhs, rhs } && op is Iff && exists|k: int| #![trigger t.subrange(0, k)]
            operator_at(t, k, op) && iff_form(t.subrange(0, k), *lhs)
            && implication_form(t.subrange(k + 1, t.len() as int), *rhs))
}

/// `->`, associating to the right.
pub open spec fn implication_form(t: Seq<Token>, e: Expr) -> bool
    decreases t.len(), 9nat,
{
    ||| until_form(t, e)
    ||| (e matches Expr::Binary { op, lhs, rhs } && op is Implies && exists|k: int| #![trigger t.subrange(0, k)]
            operator_at(t, k, op) && until_form(t.subrange(0, k), *lhs)
            && implication_form(t.subrange(k + 1, t.len() as int), *rhs))
}

/// `until`, associating to the right.
pub open spec fn until_form(t: Seq<Token>, e: Expr) -> bool
    decreases t.len(), 8nat,
{
    ||| or_form(t, e)
    ||| (e matches Expr::Binary { op, lhs, rhs } && op is Until && exists|k: int| #![trigger t.subrange(0, k)]
            operator_at(t, k, op) && or_form(t.subrange(0, k), *lhs)
            && until_form(t.subrange(k + 1, t.len() as int), *rhs))
}

/// `or`, associating to the left.
pub open spec fn or_form(t: Seq<Token>, e: Expr) -> bool
    decreases t.len(), 7nat,
{
    ||| and_form(t, e)
    ||| (e matches Expr::Binary { op, lhs, rhs } && op is Or && exists|k: int| #![trigger t.subrange(0, k)]
            operator_at(t, k, op) && or_form(t.subrange(0, k), *lhs)
            && and_form(t.subrange(k + 1, t.len() as int), *rhs))
}

/// `and`, associating to the left.
pub open spec fn and_form(t: Seq<Token>, e: Expr) -> bool
    decreases t.len(), 6nat,
{
    ||| comparison_form(t, e)
    ||| (e matches Expr::Binary { op, lhs, rhs } && op is And && exists|k: int| #![trigger t.subrange(0, k)]
            operator_at(t, k, op) && and_form(t.subrange(0, k), *lhs)
            && comparison_form(t.subrange(k + 1, t.len() as int), *rhs))
}

/// At most one comparison between two sums.
pub open spec fn comparison_form(t: Seq<Token>, e: Expr) -> bool
    decreases t.len(), 5nat,
{
    ||| additive_form(t, e)
    ||| (e matches Expr::Binary { op, lhs, rhs } && is_comparison(op) && exists|k: int| #![trigger t.subrange(0, k)]
            operator_at(t, k, op) && additive_form(t.subrange(0, k), *lhs)
            && additive_form(t.subrange(k + 1, t.len() as int), *rhs))
}

/// `+` and `-`, associating to the left.
pub open spec fn additive_form(t: Seq<Token>, e: Expr) -> bool
    decreases t.len(), 4nat,
{
    ||| multiplicative_form(t, e)
    ||| (e matches Expr::Binary { op, lhs, rhs } && (op is Add || op is Sub) && exists|k: int| #![trigger t.subrange(0, k)]
            operator_at(t, k, op) && additive_form(t.subrange(0, k), *lhs)
            && multiplicative_form(t.subrange(k + 1, t.len() as int), *rhs))
}

/// `*`, `/` and `mod`, associating to the left.
pub open spec fn multiplicative_form(t: Seq<Token>, e: Expr) -> bool
    decreases t.len(), 3nat,
{
    ||| unary_form(t, e)
    ||| (e matches Expr::Binary { op, lhs, rhs } && (op is Mul || op is Div || op is Mod) && exists|k: int| #![trigger t.subrange(0, k)]
            operator_at(t, k, op) && multiplicative_form(t.subrange(0, k), *lhs)
            && unary_form(t.subrange(k + 1, t.len() as int), *rhs))
}

/// Prefix operators, then an atom.
pub open spec fn unary_form(t: Seq<Token>, e: Expr) -> bool
    decreases t.len(), 2nat,
{
    ||| primary_form(t, e)
    ||| (e matches Expr::Unary { op, expr } && t.len() > 1 && t[0].kind == unary_token(op)
            && unary_form(t.subrange(1, t.len() as int), *expr))
}

/// A literal or a name, spelled by one token.
pub open spec fn atom_token(k: TokenKind, e: Expr) -> bool {
    match e {
        Expr::Bool(b) => k == (if b { TokenKind::True } else { TokenKind::False }),
        Expr::Int(i) => k == TokenKind::Int(Some(i)),
        Expr::Name(n) => k == TokenKind::Ident(n),
        _ => false,
    }
}

/// Atoms: literals, names, primed and indexed names, parenthesised
/// expressions, quantifiers and `unchanged`.
pub open spec fn primary_form(t: Seq<Token>, e: Expr) -> bool
    decreases t.len(), 1nat,
{
    let n = t.len() as int;
    ||| n == 1 && atom_token(t[0].kind, e)
    ||| (e matches Expr::PrimedName(x) && n == 2 && t[0].kind == TokenKind::Ident(x) && t[1].kind is Prime)
    ||| (e matches Expr::Indexed { name, index, primed } && n >= 4 && t[0].kind == TokenKind::Ident(name)
            && t[1].kind is LBracket
            && if primed {
                n >= 5 && t[n - 2].kind is RBracket && t[n - 1].kind is Prime
                    && expr_form(t.subrange(2, n - 2), *index)
            } else {
                t[n - 1].kind is RBracket && expr_form(t.subrange(2, n - 1), *index)
            })
    ||| (n >= 3 && t[0].kind is LParen && t[n - 1].kind is RParen && expr_form(t.subrange(1, n - 1), e))
    ||| (e matches Expr::Quantifier { kind, var, domain, body } && n >= 6 && t[0].kind == quant_token(kind)
            && t[1].kind == TokenKind::Ident(var) && is_type_sep(t[2].kind)
            && exists|k: int| #![trigger t.subrange(3, k)]
                3 < k < n - 1 && domain_form(t.subrange(3, k), domain) && t[k].kind is Colon
                && expr_form(t.subrange(k + 1, n), *body))
    ||| (e matches Expr::Unchanged(ts) && n >= 4 && t[0].kind is Unchanged && t[1].kind is LParen
            && t[n - 1].kind is RParen && targets_form(t.subrange(2, n - 1), ts@))
}

/// `name` or `name except other`.
pub open spec fn target_form(t: Seq<Token>, x: UnchangedTarget) -> bool {
    match x.except {
        None => t.len() == 1 && t[0].kind == TokenKind::Ident(x.name),
        Some(y) => t.len() == 3 && t[0].kind == TokenKind::Ident(x.name) && t[1].kind is Except
            && t[2].kind == TokenKind::Ident(y),
    }
}

/// One or more targets separated by commas.
pub open spec fn targets_form(t: Seq<Token>, ts: Seq<UnchangedTarget>) -> bool
    decreases ts.len(),
{
    if ts.len() == 0 {
        false
    } else if ts.len() == 1 {
        target_form(t, ts[0])
    } else {
        exists|k: int| #![trigger t.subrange(0, k)]
            0 < k < t.len() - 1 && targets_form(t.subrange(0, k), ts.drop_last())
            && t[k].kind is Comma && target_form(t.subrange(k + 1, t.len() as int), ts.last())
    }
}

/// A range bound: a name, or an integer with an optional leading `-`.
pub open spec fn bound_form(t: Seq<Token>, b: DomainBound) -> bool {
    match b {
        DomainBound::Name(x) => t.len() == 1 && t[0].kind == TokenKind::Ident(x),
        DomainBound::Int(i) => (t.len() == 1 && t[0].kind == TokenKind::Int(Some(i)))
            || (t.len() == 2 && t[0].kind is Minus && (t[1].kind matches TokenKind::Int(Some(j))
                && j >= 0 && i == -j)),
    }
}

/// One or more names separated by commas, with an optional trailing comma.
pub open spec fn name_list_form(t: Seq<Token>, names: Seq<String>) -> bool {
    &&& names.len() >= 1
    &&& t.len() == 2 * names.len() - 1 || t.len() == 2 * names.len()
    &&& forall|j: int| 0 <= j < names.len() ==> (#[trigger] t[2 * j]).kind == TokenKind::Ident(names[j])
    &&& forall|j: int| 0 <= j && 2 * j + 1 < t.len() ==> (#[trigger] t[2 * j + 1]).kind is Comma
}

pub open spec fn domain_form(t: Seq<Token>, d: Domain) -> bool {
    let n = t.len() as int;
    match d {
        Domain::Bool => n == 1 && t[0].kind is Bool,
        Domain::Named(x) => n == 1 && t[0].kind == TokenKind::Ident(x),
        Domain::Enum { variants } => n >= 4 && t[0].kind is Enum && t[1].kind is LBrace
            && t[n - 1].kind is RBrace && name_list_form(t.subrange(2, n - 1), variants@),
        Domain::IntRange { start, end } => exists|k: int| #![trigger t.subrange(0, k)]
            0 < k < n - 1 && bound_form(t.subrange(0, k), start) && t[k].kind is DotDot
            && bound_form(t.subrange(k + 1, n), end),
    }
}

/// `name : domain` (or `name ∈ domain`).
pub open spec fn param_form(t: Seq<Token>, x: TransitionParam) -> bool {
    t.len() >= 3 && t[0].kind == TokenKind::Ident(x.name) && is_type_sep(t[1].kind)
        && domain_form(t.subrange(2, t.len() as int), x.domain)
}

/// One or more parameters separated by commas.
pub open spec fn params_form(t: Seq<Token>, ps: Seq<TransitionParam>) -> bool
    decreases ps.len(),
{
    if ps.len() == 0 {
        false
    } else if ps.len() == 1 {
        param_form(t, ps[0])
    } else {
        exists|k: int| #![trigger t.subrange(0, k)]
            0 < k < t.len() - 1 && params_form(t.subrange(0, k), ps.drop_last())
            && t[k].kind is Comma && param_form(t.subrange(k + 1, t.len() as int), ps.last())
    }
}

/// `{ expr }`
pub open spec fn block_form(t: Seq<Token>, e: Expr) -> bool {
    let n = t.len() as int;
    n >= 3 && t[0].kind is LBrace && t[n - 1].kind is RBrace && expr_form(t.subrange(1, n - 1), e)
}

pub open spec fn strength_word(w: Seq<char>, weak: bool) -> bool {
    w == (if weak { "weak"@ } else { "strong"@ })
}

pub open spec fn item_form(t: Seq<Token>, x: Item) -> bool {
    let n = t.len() as int;
    match x {
        Item::TypeDecl(d) => n >= 4 && t[0].kind is Type && t[1].kind == TokenKind::Ident(d.name)
            && t[2].kind is EqSign && domain_form(t.subrange(3, n), d.domain),
        Item::Const(d) => n >= 4 && t[0].kind is Const && t[1].kind == TokenKind::Ident(d.name)
            && t[2].kind is EqSign && expr_form(t.subrange(3, n), d.expr),
        Item::Var(d) => n >= 4 && t[0].kind is Let && t[1].kind == TokenKind::Ident(d.name)
            && match d.index {
                None => is_type_sep(t[2].kind) && domain_form(t.subrange(3, n), d.domain),
                Some(p) => t[2].kind is LBracket && exists|k: int| #![trigger t.subrange(3, k)]
                    3 < k && k + 2 < n && param_form(t.subrange(3, k), p) && t[k].kind is RBracket
                    && is_type_sep(t[k + 1].kind) && domain_form(t.subrange(k + 2, n), d.domain),
            },
        Item::Init(b) => n >= 4 && t[0].kind is Init && block_form(t.subrange(1, n), b.expr),
        Item::Transition(b) => n >= 5 && t[0].kind is Transition && t[1].kind == TokenKind::Ident(b.name)
            && if b.params@.len() == 0 {
                block_form(t.subrange(2, n), b.expr)
            } else {
                t[2].kind is LParen && exists|k: int| #![trigger t.subrange(3, k)]
                    3 < k < n - 3 && params_form(t.subrange(3, k), b.params@) && t[k].kind is RParen
                    && block_form(t.subrange(k + 1, n), b.expr)
            },
        Item::Property(b) => n >= 5
            && t[0].kind == (if b.kind is Property { TokenKind::Property } else { TokenKind::Invalid })
            && t[1].kind == TokenKind::Ident(b.name) && block_form(t.subrange(2, n), b.expr),
        Item::Fairness(d) => {
            let cs = d.constraints@;
            &&& n == 3 + 2 * cs.len()
            &&& t[0].kind is Fairness && t[1].kind is LBrace && t[n - 1].kind is RBrace
            &&& forall|j: int| 0 <= j < cs.len() ==> ((#[trigger] t[2 + 2 * j]).kind matches TokenKind::Ident(w)
                    && strength_word(w@, cs[j].strength is Weak))
            &&& forall|j: int| 0 <= j < cs.len() ==> (#[trigger] t[3 + 2 * j]).kind == TokenKind::Ident(cs[j].transition)
        },
    }
}

/// Items one after another.
pub open spec fn items_form(t: Seq<Token>, xs: Seq<Item>) -> bool
    decreases xs.len(),
{
    if xs.len() == 0 {
        t.len() == 0
    } else {
        exists|k: int| #![trigger t.subrange(0, k)]
            0 <= k < t.len() && items_form(t.subrange(0, k), xs.drop_last())
            && item_form(t.subrange(k, t.len() as int), xs.last())
    }
}

/// The number of tokens a module header takes.
pub open spec fn module_len(m: Option<ModuleName>) -> int {
    match m {
        None => 0,
        Some(m) => 2 * m.parts@.len() as int,
    }
}

/// `module a.b.c`, or nothing.
pub open spec fn module_form(t: Seq<Token>, m: Option<ModuleName>) -> bool {
    match m {
        None => t.len() == 0,
        Some(m) => {
            let parts = m.parts@;
            &&& parts.len() >= 1 && t.len() == 2 * parts.len() && t[0].kind is Module
            &&& forall|j: int| 0 <= j < parts.len() ==> (#[trigger] t[2 * j + 1]).kind == TokenKind::Ident(parts[j])
            &&& forall|j: int| 0 < j < parts.len() ==> (#[trigger] t[2 * j]).kind is Dot
        },
    }
}

/// `import "path"`, once per import.
pub open spec fn imports_form(t: Seq<Token>, decls: Seq<ImportDecl>) -> bool {
    &&& t.len() == 2 * decls.len()
    &&& forall|j: int| 0 <= j < decls.len() ==> (#[trigger] t[2 * j]).kind is Import
    &&& forall|j: int| 0 <= j < decls.len() ==> (#[trigger] t[2 * j + 1]).kind == TokenKind::Str(decls[j].path)
}

/// A whole file: the module header, the imports, the items, and the end of input.
pub open spec fn file_form(t: Seq<Token>, f: SourceFile) -> bool {
    let a = module_len(f.module);
    let b = a + 2 * f.imports@.len();
    let n = t.len() as int;
    &&& 0 <= b < n && t[n - 1].kind is Eof
    &&& module_form(t.subrange(0, a), f.module)
    &&& imports_form(t.subrange(a, b), f.imports@)
    &&& items_form(t.subrange(b, n - 1), f.items@)
}

/// The text `source` reads as the file `f`: its tokens spell `f` in the grammar.
pub open spec fn reads_as(source: Seq<char>, f: SourceFile) -> bool {
    exists|t: Seq<Token>| #[trigger] lexes(source, t) && file_form(t, f)
}

/// A run inside a run: the tokens of `t` from `a` to `b`, then from `i` to `j` within them.
pub proof fn lemma_sub(t: Seq<Token>, a: int, b: int, i: int, j: int)
    requires
        0 <= a <= b <= t.len(),
        0 <= i <= j <= b - a,
    ensures
        t.subrange(a, b).subrange(i, j) == t.subrange(a + i, a + j),
{
    assert(t.subrange(a, b).subrange(i, j) =~= t.subrange(a + i, a + j));
}

/// A run split at an operator token `k`: the parts before and after it.
pub proof fn lemma_split(t: Seq<Token>, a: int, k: int, b: int)
    requires
        0 <= a < k < b <= t.len(),
    ensures
        t.subrange(a, b).subrange(0, k - a) == t.subrange(a, k),
        t.subrange(a, b).subrange(k - a + 1, b - a) == t.subrange(k + 1, b),
        t.subrange(a, b)[k - a] == t[k],
{
    lemma_sub(t, a, b, 0, k - a);
    lemma_sub(t, a, b, k - a + 1, b - a);
}

} // verus!
