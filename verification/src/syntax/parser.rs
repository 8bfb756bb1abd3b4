//! Recursive-descent parser for `.lum` specifications.
//!
//! Precedence, loosest first: `<->` (left), `->` (right), `until` (right),
//! `or` (left), `and` (left), comparisons (at most one), `+ -` (left),
//! `* / mod` (left), prefix operators, then atoms.

use vstd::prelude::*;

use crate::diagnostics::{concat_views, is_parse_err, CaelumError, Result, Span};
use crate::syntax::ast::{
    BinaryOp, ConstDecl, Domain, DomainBound, Expr, FairnessConstraint, FairnessDecl,
    FairnessStrength, ImportDecl, InitBlock, Item, ModuleName, PropertyBlock, PropertyKind,
    QuantKind, SourceFile, TransitionBlock, TransitionParam, TypeDecl, UnaryOp, UnchangedTarget,
    VarDecl,
};
use crate::syntax::grammar::{
    additive_form, and_form, block_form, bound_form, comparison_form, domain_form, expr_form,
    file_form, reads_as, iff_form, implication_form, imports_form, is_comparison, is_type_sep, item_form,
    items_form, lemma_split, lemma_sub, module_form, module_len, multiplicative_form,
    name_list_form, op_token, or_form, param_form, params_form, primary_form, quant_token,
    strength_word, target_form, targets_form, unary_form, until_form,
};
use crate::syntax::lexer::{
    at_position, byte_offset, col_of, error_at, is_identifier, lexes, line_of, span_between, tokenize, tokens_wf, Token,
    TokenKind,
};

verus! {

/// Every name in a domain is a valid identifier.
pub open spec fn domain_names_ok(d: Domain) -> bool {
    match d {
        Domain::Bool => true,
        Domain::IntRange { start, end } => bound_names_ok(start) && bound_names_ok(end),
        Domain::Enum { variants } => forall|i: int| 0 <= i < variants@.len() ==> is_identifier(#[trigger] variants@[i]@),
        Domain::Named(n) => is_identifier(n@),
    }
}

pub open spec fn bound_names_ok(b: DomainBound) -> bool {
    match b {
        DomainBound::Int(_) => true,
        DomainBound::Name(n) => is_identifier(n@),
    }
}

pub open spec fn target_names_ok(t: UnchangedTarget) -> bool {
    is_identifier(t.name@) && (t.except matches Some(x) ==> is_identifier(x@))
}

/// Every name in an expression is a valid identifier.
pub open spec fn expr_names_ok(e: Expr) -> bool
    decreases e,
{
    match e {
        Expr::Bool(_) | Expr::Int(_) => true,
        Expr::Name(n) | Expr::PrimedName(n) => is_identifier(n@),
        Expr::Indexed { name, index, .. } => is_identifier(name@) && expr_names_ok(*index),
        Expr::Unchanged(ts) => ts@.len() > 0 && forall|i: int| 0 <= i < ts@.len() ==> target_names_ok(#[trigger] ts@[i]),
        Expr::Quantifier { var, domain, body, .. } =>
            is_identifier(var@) && domain_names_ok(domain) && expr_names_ok(*body),
        Expr::Unary { expr, .. } => expr_names_ok(*expr),
        Expr::Binary { lhs, rhs, .. } => expr_names_ok(*lhs) && expr_names_ok(*rhs),
    }
}

pub open spec fn param_names_ok(p: TransitionParam) -> bool {
    is_identifier(p.name@) && domain_names_ok(p.domain)
}

/// Every name declared or used by an item is a valid identifier.
pub open spec fn item_names_ok(item: Item) -> bool {
    match item {
        Item::TypeDecl(d) => is_identifier(d.name@) && domain_names_ok(d.domain),
        Item::Const(d) => is_identifier(d.name@) && expr_names_ok(d.expr),
        Item::Var(d) => is_identifier(d.name@) && domain_names_ok(d.domain)
            && (d.index matches Some(p) ==> param_names_ok(p)),
        Item::Init(b) => expr_names_ok(b.expr),
        Item::Transition(b) => is_identifier(b.name@) && expr_names_ok(b.expr)
            && forall|i: int| 0 <= i < b.params@.len() ==> param_names_ok(#[trigger] b.params@[i]),
        Item::Property(b) => is_identifier(b.name@) && expr_names_ok(b.expr),
        Item::Fairness(d) => forall|i: int| 0 <= i < d.constraints@.len()
            ==> is_identifier((#[trigger] d.constraints@[i]).transition@),
    }
}

/// Every name in a parsed file is a valid, non-reserved identifier.
pub open spec fn file_names_ok(f: SourceFile) -> bool {
    &&& (f.module matches Some(m) ==> forall|i: int| 0 <= i < m.parts@.len() ==> is_identifier(#[trigger] m.parts@[i]@))
    &&& forall|i: int| 0 <= i < f.items@.len() ==> item_names_ok(#[trigger] f.items@[i])
}

struct Parser<'a> {
    toks: &'a Vec<Token>,
    chars: &'a Vec<char>,
    path: &'a String,
}

impl<'a> Parser<'a> {
    spec fn wf(&self) -> bool {
        &&& tokens_wf(self.toks@, self.chars@.len() as int)
        &&& self.chars@.len() < usize::MAX / 4
        &&& self.toks@.len() <= self.chars@.len() + 1
    }

    /// The tokens from `a` up to, not including, `b`.
    spec fn run(&self, a: int, b: int) -> Seq<Token> {
        self.toks@.subrange(a, b)
    }

    /// A parse error at token `pos`.
    fn err(&self, pos: usize, parts: &[&str]) -> (r: CaelumError)
        requires
            self.wf(),
            pos < self.toks@.len(),
        ensures
            r matches CaelumError::Parse { path: p, message: m, span: Some(sp) } && p@ == self.path@
                && m@ == concat_views(parts@) && at_position(sp, self.chars@, self.toks@[pos as int].start as int)
                && sp.start_line >= 1 && sp.start_col >= 1,
    {
        error_at(self.chars, self.toks[pos].start, self.path, parts)
    }

    /// The span from the start of token `first` to the end of token `last`.
    fn span(&self, first: usize, last: usize) -> (r: Span)
        requires
            self.wf(),
            first <= last < self.toks@.len(),
        ensures
            r.byte_start == byte_offset(self.chars@, self.toks@[first as int].start as int),
            r.byte_end == byte_offset(self.chars@, self.toks@[last as int].end as int),
            r.start_line == line_of(self.chars@, self.toks@[first as int].start as int),
            r.start_col == col_of(self.chars@, self.toks@[first as int].start as int),
            r.end_line == line_of(self.chars@, self.toks@[last as int].end as int),
            r.end_col == col_of(self.chars@, self.toks@[last as int].end as int),
    {
        let s = self.toks[first].start;
        let e = self.toks[last].end;
        proof {
            if first < last {
                assert(self.toks@[first as int].end <= self.toks@[last as int].start);
            }
        }
        span_between(self.chars, s, e)
    }

    /// Consumes an identifier.
    fn ident(&self, pos: usize) -> (r: Result<(String, usize)>)
        requires
            self.wf(),
            pos < self.toks@.len(),
        ensures
            r matches Ok((s, p)) ==> p == pos + 1 && p < self.toks@.len() && is_identifier(s@)
                && self.toks@[pos as int].kind == TokenKind::Ident(s),
            r is Err ==> is_parse_err(r),
    {
        match &self.toks[pos].kind {
            TokenKind::Ident(s) => {
                proof { assert(self.toks@[pos as int].kind is Ident); }
                Ok((s.clone(), pos + 1))
            },
            _ => Err(self.err(pos, &["expected an identifier"])),
        }
    }

    /// Consumes the token `pos` if `ok` holds of it.
    fn expect(&self, pos: usize, ok: bool, what: &str) -> (r: Result<usize>)
        requires
            self.wf(),
            pos < self.toks@.len(),
            ok ==> !(self.toks@[pos as int].kind is Eof),
        ensures
            r matches Ok(p) ==> p == pos + 1 && p < self.toks@.len() && ok,
            r is Err ==> is_parse_err(r),
    {
        if ok {
            Ok(pos + 1)
        } else {
            Err(self.err(pos, &["expected ", what]))
        }
    }

    fn is_type_sep(&self, pos: usize) -> (r: bool)
        requires
            self.wf(),
            pos < self.toks@.len(),
        ensures
            r == is_type_sep(self.toks@[pos as int].kind),
            r ==> !(self.toks@[pos as int].kind is Eof),
    {
        matches!(self.toks[pos].kind, TokenKind::Colon | TokenKind::In)
    }

    // ----- domains -------------------------------------------------------

    fn bound(&self, pos: usize) -> (r: Result<(DomainBound, usize)>)
        requires
            self.wf(),
            pos < self.toks@.len(),
        ensures
            r matches Ok((b, p)) ==> pos < p < self.toks@.len() && bound_names_ok(b)
                && bound_form(self.run(pos as int, p as int), b),
            r is Err ==> is_parse_err(r),
    {
        match &self.toks[pos].kind {
            TokenKind::Ident(s) => {
                proof { assert(self.toks@[pos as int].kind is Ident); }
                Ok((DomainBound::Name(s.clone()), pos + 1))
            },
            TokenKind::Int(v) => match v {
                Some(i) => Ok((DomainBound::Int(*i), pos + 1)),
                None => Err(self.err(pos, &["invalid integer literal"])),
            },
            TokenKind::Minus => {
                if pos + 1 < self.toks.len() {
                    match &self.toks[pos + 1].kind {
                        TokenKind::Int(Some(i)) => {
                            if *i >= 0 {
                                proof {
                                    assert(!(self.toks@[pos as int + 1].kind is Eof));
                                    assert(self.run(pos as int, pos + 2)[1] == self.toks@[pos as int + 1]);
                                }
                                return Ok((DomainBound::Int(-*i), pos + 2));
                            }
                        },
                        _ => {},
                    }
                }
                Err(self.err(pos, &["expected an integer literal"]))
            },
            _ => Err(self.err(pos, &["expected a range bound"])),
        }
    }

    fn domain(&self, pos: usize) -> (r: Result<(Domain, usize)>)
        requires
            self.wf(),
            pos < self.toks@.len(),
        ensures
            r matches Ok((d, p)) ==> pos < p < self.toks@.len() && domain_names_ok(d)
                && domain_form(self.run(pos as int, p as int), d),
            r is Err ==> is_parse_err(r),
    {
        match &self.toks[pos].kind {
            TokenKind::Bool => { return Ok((Domain::Bool, pos + 1)); },
            TokenKind::Enum => {
                let (d, p) = self.enum_domain(pos + 1)?;
                proof { lemma_sub(self.toks@, pos as int, p as int, 2, p - pos - 1); }
                return Ok((d, p));
            },
            TokenKind::Ident(s) => {
                proof { assert(self.toks@[pos as int].kind is Ident); }
                if pos + 1 < self.toks.len() && !matches!(self.toks[pos + 1].kind, TokenKind::DotDot) {
                    return Ok((Domain::Named(s.clone()), pos + 1));
                }
            },
            _ => {},
        }
        let (start, p) = self.bound(pos)?;
        let k = p;
        let p = self.expect(p, matches!(self.toks[p].kind, TokenKind::DotDot), "`..`")?;
        let (end, q) = self.bound(p)?;
        proof { lemma_split(self.toks@, pos as int, k as int, q as int); }
        Ok((Domain::IntRange { start, end }, q))
    }

    /// An enum's variant list, from its `{` at `pos` to its `}`.
    fn enum_domain(&self, pos: usize) -> (r: Result<(Domain, usize)>)
        requires
            self.wf(),
            pos < self.toks@.len(),
        ensures
            r matches Ok((d, p)) ==> pos < p < self.toks@.len() && domain_names_ok(d)
                && p >= pos + 3 && self.toks@[pos as int].kind is LBrace && self.toks@[p - 1].kind is RBrace
                && (d matches Domain::Enum { variants } && name_list_form(self.run(pos + 1, p - 1), variants@)),
            r is Err ==> is_parse_err(r),
    {
        let mut p = self.expect(pos, matches!(self.toks[pos].kind, TokenKind::LBrace), "`{`")?;
        let mut variants: Vec<String> = Vec::new();
        let (first, q) = self.ident(p)?;
        variants.push(first);
        p = q;
        let ghost s = pos + 1;
        loop
            invariant_except_break
                p - s == 2 * variants@.len() - 1,
            invariant
                self.wf(),
                pos < p < self.toks@.len(),
                s == pos + 1,
                self.toks@[pos as int].kind is LBrace,
                variants@.len() > 0,
                p - s == 2 * variants@.len() - 1 || p - s == 2 * variants@.len(),
                forall|i: int| 0 <= i < variants@.len() ==> is_identifier(#[trigger] variants@[i]@),
                forall|j: int| 0 <= j < variants@.len() ==> (#[trigger] self.toks@[s + 2 * j]).kind == TokenKind::Ident(variants@[j]),
                forall|j: int| 0 <= j && 2 * j + 1 < p - s ==> (#[trigger] self.toks@[s + 2 * j + 1]).kind is Comma,
            decreases self.toks@.len() - p,
        {
            if matches!(self.toks[p].kind, TokenKind::Comma) {
                p = p + 1;
                if matches!(self.toks[p].kind, TokenKind::RBrace) {
                    break;
                }
                let (v, q) = self.ident(p)?;
                let ghost old = variants@;
                variants.push(v);
                proof {
                    assert forall|j: int| 0 <= j < variants@.len() implies (#[trigger] self.toks@[s + 2 * j]).kind == TokenKind::Ident(variants@[j]) by {
                        if j < old.len() { assert(variants@[j] == old[j]); }
                    }
                }
                p = q;
            } else {
                break;
            }
        }
        let e = p;
        let p = self.expect(p, matches!(self.toks[p].kind, TokenKind::RBrace), "`}`")?;
        proof {
            let t = self.run(s, e as int);
            assert forall|j: int| 0 <= j < variants@.len() implies (#[trigger] t[2 * j]).kind == TokenKind::Ident(variants@[j]) by {
                assert(t[2 * j] == self.toks@[s + 2 * j]);
            }
            assert forall|j: int| 0 <= j && 2 * j + 1 < t.len() implies (#[trigger] t[2 * j + 1]).kind is Comma by {
                assert(t[2 * j + 1] == self.toks@[s + 2 * j + 1]);
            }
        }
        Ok((Domain::Enum { variants }, p))
    }

    // ----- expressions ---------------------------------------------------

    fn expr(&self, pos: usize) -> (r: Result<(Expr, usize)>)
        requires
            self.wf(),
            pos < self.toks@.len(),
        ensures
            r matches Ok((e, p)) ==> pos < p < self.toks@.len() && expr_names_ok(e)
                && expr_form(self.run(pos as int, p as int), e),
            r is Err ==> is_parse_err(r),
        decreases self.toks@.len() - pos, 11int,
    {
        self.iff_expr(pos)
    }

    fn iff_expr(&self, pos: usize) -> (r: Result<(Expr, usize)>)
        requires
            self.wf(),
            pos < self.toks@.len(),
        ensures
            r matches Ok((e, p)) ==> pos < p < self.toks@.len() && expr_names_ok(e)
                && iff_form(self.run(pos as int, p as int), e),
            r is Err ==> is_parse_err(r),
        decreases self.toks@.len() - pos, 10int,
    {
        let (mut e, mut p) = self.implication(pos)?;
        while matches!(self.toks[p].kind, TokenKind::Iff)
            invariant
                self.wf(),
                pos < p < self.toks@.len(),
                expr_names_ok(e),
                iff_form(self.run(pos as int, p as int), e),
            decreases self.toks@.len() - p,
        {
            let (rhs, q) = self.implication(p + 1)?;
            proof { lemma_split(self.toks@, pos as int, p as int, q as int); }
            e = Expr::Binary { op: BinaryOp::Iff, lhs: Box::new(e), rhs: Box::new(rhs) };
            p = q;
        }
        Ok((e, p))
    }

    fn implication(&self, pos: usize) -> (r: Result<(Expr, usize)>)
        requires
            self.wf(),
            pos < self.toks@.len(),
        ensures
            r matches Ok((e, p)) ==> pos < p < self.toks@.len() && expr_names_ok(e)
                && implication_form(self.run(pos as int, p as int), e),
            r is Err ==> is_parse_err(r),
        decreases self.toks@.len() - pos, 9int,
    {
        let (lhs, p) = self.until_expr(pos)?;
        if matches!(self.toks[p].kind, TokenKind::Implies) {
            let (rhs, q) = self.implication(p + 1)?;
            proof { lemma_split(self.toks@, pos as int, p as int, q as int); }
            Ok((Expr::Binary { op: BinaryOp::Implies, lhs: Box::new(lhs), rhs: Box::new(rhs) }, q))
        } else {
            Ok((lhs, p))
        }
    }

    fn until_expr(&self, pos: usize) -> (r: Result<(Expr, usize)>)
        requires
            self.wf(),
            pos < self.toks@.len(),
        ensures
            r matches Ok((e, p)) ==> pos < p < self.toks@.len() && expr_names_ok(e)
                && until_form(self.run(pos as int, p as int), e),
            r is Err ==> is_parse_err(r),
        decreases self.toks@.len() - pos, 8int,
    {
        let (lhs, p) = self.or_expr(pos)?;
        if matches!(self.toks[p].kind, TokenKind::Until) {
            let (rhs, q) = self.until_expr(p + 1)?;
            proof { lemma_split(self.toks@, pos as int, p as int, q as int); }
            Ok((Expr::Binary { op: BinaryOp::Until, lhs: Box::new(lhs), rhs: Box::new(rhs) }, q))
        } else {
            Ok((lhs, p))
        }
    }

    fn or_expr(&self, pos: usize) -> (r: Result<(Expr, usize)>)
        requires
            self.wf(),
            pos < self.toks@.len(),
        ensures
            r matches Ok((e, p)) ==> pos < p < self.toks@.len() && expr_names_ok(e)
                && or_form(self.run(pos as int, p as int), e),
            r is Err ==> is_parse_err(r),
        decreases self.toks@.len() - pos, 7int,
    {
        let (mut e, mut p) = self.and_expr(pos)?;
        while matches!(self.toks[p].kind, TokenKind::Or)
            invariant
                self.wf(),
                pos < p < self.toks@.len(),
                expr_names_ok(e),
                or_form(self.run(pos as int, p as int), e),
            decreases self.toks@.len() - p,
        {
            let (rhs, q) = self.and_expr(p + 1)?;
            proof { lemma_split(self.toks@, pos as int, p as int, q as int); }
            e = Expr::Binary { op: BinaryOp::Or, lhs: Box::new(e), rhs: Box::new(rhs) };
            p = q;
        }
        Ok((e, p))
    }

    fn and_expr(&self, pos: usize) -> (r: Result<(Expr, usize)>)
        requires
            self.wf(),
            pos < self.toks@.len(),
        ensures
            r matches Ok((e, p)) ==> pos < p < self.toks@.len() && expr_names_ok(e)
                && and_form(self.run(pos as int, p as int), e),
            r is Err ==> is_parse_err(r),
        decreases self.toks@.len() - pos, 6int,
    {
        let (mut e, mut p) = self.comparison(pos)?;
        while matches!(self.toks[p].kind, TokenKind::And)
            invariant
                self.wf(),
                pos < p < self.toks@.len(),
                expr_names_ok(e),
                and_form(self.run(pos as int, p as int), e),
            decreases self.toks@.len() - p,
        {
            let (rhs, q) = self.comparison(p + 1)?;
            proof { lemma_split(self.toks@, pos as int, p as int, q as int); }
            e = Expr::Binary { op: BinaryOp::And, lhs: Box::new(e), rhs: Box::new(rhs) };
            p = q;
        }
        Ok((e, p))
    }

    fn comparison_op(&self, pos: usize) -> (r: Option<BinaryOp>)
        requires
            self.wf(),
            pos < self.toks@.len(),
        ensures
            r is Some ==> !(self.toks@[pos as int].kind is Eof),
            r matches Some(op) ==> is_comparison(op) && self.toks@[pos as int].kind == op_token(op),
            r is None ==> forall|op: BinaryOp| is_comparison(op) ==> self.toks@[pos as int].kind != #[trigger] op_token(op),
    {
        match self.toks[pos].kind {
            TokenKind::EqSign => Some(BinaryOp::Eq),
            TokenKind::Ne => Some(BinaryOp::Ne),
            TokenKind::Lt => Some(BinaryOp::Lt),
            TokenKind::Le => Some(BinaryOp::Le),
            TokenKind::Gt => Some(BinaryOp::Gt),
            TokenKind::Ge => Some(BinaryOp::Ge),
            _ => None,
        }
    }

    fn comparison(&self, pos: usize) -> (r: Result<(Expr, usize)>)
        requires
            self.wf(),
            pos < self.toks@.len(),
        ensures
            r matches Ok((e, p)) ==> pos < p < self.toks@.len() && expr_names_ok(e)
                && comparison_form(self.run(pos as int, p as int), e),
            r is Err ==> is_parse_err(r),
        decreases self.toks@.len() - pos, 5int,
    {
        let (lhs, p) = self.additive(pos)?;
        match self.comparison_op(p) {
            Some(op) => {
                let (rhs, q) = self.additive(p + 1)?;
                proof { lemma_split(self.toks@, pos as int, p as int, q as int); }
                Ok((Expr::Binary { op, lhs: Box::new(lhs), rhs: Box::new(rhs) }, q))
            },
            None => Ok((lhs, p)),
        }
    }

    fn additive(&self, pos: usize) -> (r: Result<(Expr, usize)>)
        requires
            self.wf(),
            pos < self.toks@.len(),
        ensures
            r matches Ok((e, p)) ==> pos < p < self.toks@.len() && expr_names_ok(e)
                && additive_form(self.run(pos as int, p as int), e),
            r is Err ==> is_parse_err(r),
        decreases self.toks@.len() - pos, 4int,
    {
        let (mut e, mut p) = self.multiplicative(pos)?;
        loop
            invariant
                self.wf(),
                pos < p < self.toks@.len(),
                expr_names_ok(e),
                additive_form(self.run(pos as int, p as int), e),
            decreases self.toks@.len() - p,
        {
            let op = match self.toks[p].kind {
                TokenKind::Plus => BinaryOp::Add,
                TokenKind::Minus => BinaryOp::Sub,
                _ => { break; },
            };
            let (rhs, q) = self.multiplicative(p + 1)?;
            proof { lemma_split(self.toks@, pos as int, p as int, q as int); }
            e = Expr::Binary { op, lhs: Box::new(e), rhs: Box::new(rhs) };
            p = q;
        }
        Ok((e, p))
    }

    fn multiplicative(&self, pos: usize) -> (r: Result<(Expr, usize)>)
        requires
            self.wf(),
            pos < self.toks@.len(),
        ensures
            r matches Ok((e, p)) ==> pos < p < self.toks@.len() && expr_names_ok(e)
                && multiplicative_form(self.run(pos as int, p as int), e),
            r is Err ==> is_parse_err(r),
        decreases self.toks@.len() - pos, 3int,
    {
        let (mut e, mut p) = self.unary(pos)?;
        loop
            invariant
                self.wf(),
                pos < p < self.toks@.len(),
                expr_names_ok(e),
                multiplicative_form(self.run(pos as int, p as int), e),
            decreases self.toks@.len() - p,
        {
            let op = match self.toks[p].kind {
                TokenKind::Star => BinaryOp::Mul,
                TokenKind::Slash => BinaryOp::Div,
                TokenKind::Mod => BinaryOp::Mod,
                _ => { break; },
            };
            let (rhs, q) = self.unary(p + 1)?;
            proof { lemma_split(self.toks@, pos as int, p as int, q as int); }
            e = Expr::Binary { op, lhs: Box::new(e), rhs: Box::new(rhs) };
            p = q;
        }
        Ok((e, p))
    }

    fn unary(&self, pos: usize) -> (r: Result<(Expr, usize)>)
        requires
            self.wf(),
            pos < self.toks@.len(),
        ensures
            r matches Ok((e, p)) ==> pos < p < self.toks@.len() && expr_names_ok(e)
                && unary_form(self.run(pos as int, p as int), e),
            r is Err ==> is_parse_err(r),
        decreases self.toks@.len() - pos, 2int,
    {
        let op = match self.toks[pos].kind {
            TokenKind::Not => UnaryOp::Not,
            TokenKind::Minus => UnaryOp::Neg,
            TokenKind::Always => UnaryOp::Always,
            TokenKind::Eventually => UnaryOp::Eventually,
            TokenKind::Next => UnaryOp::Next,
            _ => { return self.primary(pos); },
        };
        let (inner, p) = self.unary(pos + 1)?;
        proof { lemma_sub(self.toks@, pos as int, p as int, 1, p - pos); }
        Ok((Expr::Unary { op, expr: Box::new(inner) }, p))
    }

    fn primary(&self, pos: usize) -> (r: Result<(Expr, usize)>)
        requires
            self.wf(),
            pos < self.toks@.len(),
        ensures
            r matches Ok((e, p)) ==> pos < p < self.toks@.len() && expr_names_ok(e)
                && primary_form(self.run(pos as int, p as int), e),
            r is Err ==> is_parse_err(r),
        decreases self.toks@.len() - pos, 1int,
    {
        match &self.toks[pos].kind {
            TokenKind::True => Ok((Expr::Bool(true), pos + 1)),
            TokenKind::False => Ok((Expr::Bool(false), pos + 1)),
            TokenKind::Int(v) => match v {
                Some(i) => Ok((Expr::Int(*i), pos + 1)),
                None => Err(self.err(pos, &["invalid integer literal"])),
            },
            TokenKind::LParen => {
                let (e, p) = self.expr(pos + 1)?;
                let p = self.expect(p, matches!(self.toks[p].kind, TokenKind::RParen), "`)`")?;
                proof { lemma_sub(self.toks@, pos as int, p as int, 1, p - pos - 1); }
                Ok((e, p))
            },
            TokenKind::Forall => self.quantifier(pos, QuantKind::Forall),
            TokenKind::Exists => self.quantifier(pos, QuantKind::Exists),
            TokenKind::Unchanged => self.unchanged(pos),
            TokenKind::Ident(name) => {
                proof { assert(self.toks@[pos as int].kind is Ident); }
                let p = pos + 1;
                if matches!(self.toks[p].kind, TokenKind::LBracket) {
                    let (index, q) = self.expr(p + 1)?;
                    let q = self.expect(q, matches!(self.toks[q].kind, TokenKind::RBracket), "`]`")?;
                    let primed = matches!(self.toks[q].kind, TokenKind::Prime);
                    let end = if primed { q + 1 } else { q };
                    proof {
                        if primed {
                            assert(!(self.toks@[q as int].kind is Eof));
                        }
                        lemma_sub(self.toks@, pos as int, end as int, 2, q - pos - 1);
                    }
                    Ok((Expr::Indexed { name: name.clone(), index: Box::new(index), primed }, end))
                } else if matches!(self.toks[p].kind, TokenKind::Prime) {
                    Ok((Expr::PrimedName(name.clone()), p + 1))
                } else {
                    Ok((Expr::Name(name.clone()), p))
                }
            },
            _ => Err(self.err(pos, &["expected an expression"])),
        }
    }

    #[verifier::rlimit(40)]
    fn quantifier(&self, pos: usize, kind: QuantKind) -> (r: Result<(Expr, usize)>)
        requires
            self.wf(),
            pos < self.toks@.len(),
            self.toks@[pos as int].kind == quant_token(kind),
        ensures
            r matches Ok((e, p)) ==> pos < p < self.toks@.len() && expr_names_ok(e)
                && primary_form(self.run(pos as int, p as int), e),
            r is Err ==> is_parse_err(r),
        decreases self.toks@.len() - pos, 0int,
    {
        let (var, p) = self.ident(pos + 1)?;
        let p = self.expect(p, self.is_type_sep(p), "`:` or `∈`")?;
        let (domain, k) = self.domain(p)?;
        let p = self.expect(k, matches!(self.toks[k].kind, TokenKind::Colon), "`:`")?;
        let (body, end) = self.expr(p)?;
        proof {
            lemma_sub(self.toks@, pos as int, end as int, 3, k - pos);
            lemma_sub(self.toks@, pos as int, end as int, k - pos + 1, end - pos);
            let t = self.run(pos as int, end as int);
            assert(t[k - pos] == self.toks@[k as int]);
        }
        Ok((Expr::Quantifier { kind, var, domain, body: Box::new(body) }, end))
    }

    fn unchanged_target(&self, pos: usize) -> (r: Result<(UnchangedTarget, usize)>)
        requires
            self.wf(),
            pos < self.toks@.len(),
        ensures
            r matches Ok((t, p)) ==> pos < p < self.toks@.len() && target_names_ok(t)
                && target_form(self.run(pos as int, p as int), t),
            r is Err ==> is_parse_err(r),
    {
        let (name, q) = self.ident(pos)?;
        if matches!(self.toks[q].kind, TokenKind::Except) {
            let (x, q2) = self.ident(q + 1)?;
            Ok((UnchangedTarget { name, except: Some(x) }, q2))
        } else {
            Ok((UnchangedTarget { name, except: None }, q))
        }
    }

    fn unchanged(&self, pos: usize) -> (r: Result<(Expr, usize)>)
        requires
            self.wf(),
            pos < self.toks@.len(),
            self.toks@[pos as int].kind is Unchanged,
        ensures
            r matches Ok((e, p)) ==> pos < p < self.toks@.len() && expr_names_ok(e)
                && primary_form(self.run(pos as int, p as int), e),
            r is Err ==> is_parse_err(r),
    {
        let p = self.expect(pos + 1, matches!(self.toks[pos + 1].kind, TokenKind::LParen), "`(`")?;
        let mut targets: Vec<UnchangedTarget> = Vec::new();
        let (first, mut p) = self.unchanged_target(p)?;
        targets.push(first);
        let ghost s = pos + 2;
        while matches!(self.toks[p].kind, TokenKind::Comma)
            invariant
                self.wf(),
                pos < p < self.toks@.len(),
                s == pos + 2 < p,
                targets@.len() > 0,
                forall|i: int| 0 <= i < targets@.len() ==> target_names_ok(#[trigger] targets@[i]),
                targets_form(self.run(s, p as int), targets@),
            decreases self.toks@.len() - p,
        {
            let (t, q) = self.unchanged_target(p + 1)?;
            let ghost old = targets@;
            targets.push(t);
            proof {
                lemma_split(self.toks@, s, p as int, q as int);
                assert(targets@.drop_last() =~= old);
            }
            p = q;
        }
        let e = p;
        let p = self.expect(p, matches!(self.toks[p].kind, TokenKind::RParen), "`)`")?;
        proof { lemma_sub(self.toks@, pos as int, p as int, 2, e - pos); }
        Ok((Expr::Unchanged(targets), p))
    }

    // ----- declarations --------------------------------------------------

    fn block(&self, pos: usize) -> (r: Result<(Expr, usize)>)
        requires
            self.wf(),
            pos < self.toks@.len(),
        ensures
            r matches Ok((e, p)) ==> pos < p < self.toks@.len() && expr_names_ok(e)
                && block_form(self.run(pos as int, p as int), e),
            r is Err ==> is_parse_err(r),
    {
        let p = self.expect(pos, matches!(self.toks[pos].kind, TokenKind::LBrace), "`{`")?;
        let (e, p) = self.expr(p)?;
        let p = self.expect(p, matches!(self.toks[p].kind, TokenKind::RBrace), "`}`")?;
        proof { lemma_sub(self.toks@, pos as int, p as int, 1, p - pos - 1); }
        Ok((e, p))
    }

    fn param(&self, pos: usize) -> (r: Result<(TransitionParam, usize)>)
        requires
            self.wf(),
            pos < self.toks@.len(),
        ensures
            r matches Ok((x, p)) ==> pos < p < self.toks@.len() && param_names_ok(x)
                && param_form(self.run(pos as int, p as int), x),
            r is Err ==> is_parse_err(r),
    {
        let (name, p) = self.ident(pos)?;
        let p = self.expect(p, self.is_type_sep(p), "`:` or `∈`")?;
        let (domain, q) = self.domain(p)?;
        proof { lemma_sub(self.toks@, pos as int, q as int, 2, q - pos); }
        Ok((TransitionParam { name, domain }, q))
    }

    /// A parameter list, from its `(` at `pos` to its `)`.
    fn params(&self, pos: usize) -> (r: Result<(Vec<TransitionParam>, usize)>)
        requires
            self.wf(),
            pos < self.toks@.len(),
            self.toks@[pos as int].kind is LParen,
        ensures
            r matches Ok((ps, p)) ==> pos < p < self.toks@.len()
                && forall|i: int| 0 <= i < ps@.len() ==> param_names_ok(#[trigger] ps@[i]),
            r matches Ok((ps, p)) ==> p >= pos + 5 && self.toks@[p - 1].kind is RParen
                && params_form(self.run(pos + 1, p - 1), ps@),
            r is Err ==> is_parse_err(r),
    {
        let mut params: Vec<TransitionParam> = Vec::new();
        let (x, mut p) = self.param(pos + 1)?;
        params.push(x);
        let ghost s = pos + 1;
        while matches!(self.toks[p].kind, TokenKind::Comma)
            invariant
                self.wf(),
                pos < p < self.toks@.len(),
                s == pos + 1,
                p >= s + 3,
                params@.len() > 0,
                forall|i: int| 0 <= i < params@.len() ==> param_names_ok(#[trigger] params@[i]),
                params_form(self.run(s, p as int), params@),
            decreases self.toks@.len() - p,
        {
            let (x, q) = self.param(p + 1)?;
            let ghost old = params@;
            params.push(x);
            proof {
                lemma_split(self.toks@, s, p as int, q as int);
                assert(params@.drop_last() =~= old);
            }
            p = q;
        }
        let p = self.expect(p, matches!(self.toks[p].kind, TokenKind::RParen), "`)`")?;
        Ok((params, p))
    }

    /// A fairness block, from its `{` at `pos` to its `}`; `span_start` is the keyword.
    fn fairness(&self, pos: usize, span_start: usize) -> (r: Result<(FairnessDecl, usize)>)
        requires
            self.wf(),
            span_start < pos < self.toks@.len(),
            span_start + 1 == pos,
            self.toks@[span_start as int].kind is Fairness,
        ensures
            r matches Ok((d, p)) ==> pos < p < self.toks@.len() && item_names_ok(Item::Fairness(d))
                && item_form(self.run(span_start as int, p as int), Item::Fairness(d)),
            r is Err ==> is_parse_err(r),
    {
        let mut p = self.expect(pos, matches!(self.toks[pos].kind, TokenKind::LBrace), "`{`")?;
        let mut constraints: Vec<FairnessConstraint> = Vec::new();
        loop
            invariant
                self.wf(),
                span_start < pos < p < self.toks@.len(),
                span_start + 1 == pos,
                self.toks@[span_start as int].kind is Fairness,
                self.toks@[pos as int].kind is LBrace,
                p == pos + 1 + 2 * constraints@.len(),
                forall|i: int| 0 <= i < constraints@.len() ==> is_identifier((#[trigger] constraints@[i]).transition@),
                forall|j: int| 0 <= j < constraints@.len() ==> ((#[trigger] self.toks@[pos + 1 + 2 * j]).kind matches TokenKind::Ident(w)
                    && strength_word(w@, constraints@[j].strength is Weak)),
                forall|j: int| 0 <= j < constraints@.len() ==> (#[trigger] self.toks@[pos + 2 + 2 * j]).kind == TokenKind::Ident(constraints@[j].transition),
            decreases self.toks@.len() - p,
        {
            let strength = match &self.toks[p].kind {
                TokenKind::Ident(w) => {
                    if str_is_word(w, "weak") {
                        FairnessStrength::Weak
                    } else if str_is_word(w, "strong") {
                        FairnessStrength::Strong
                    } else {
                        return Err(self.err(p, &["expected `weak` or `strong`"]));
                    }
                },
                _ => { break; },
            };
            proof { assert(self.toks@[p as int].kind is Ident); }
            let ghost w = self.toks@[p as int].kind->Ident_0;
            let (transition, q) = self.ident(p + 1)?;
            let ghost old = constraints@;
            constraints.push(FairnessConstraint { strength, transition });
            proof {
                assert(strength_word(w@, strength is Weak));
                assert forall|j: int| 0 <= j < constraints@.len() implies ((#[trigger] self.toks@[pos + 1 + 2 * j]).kind matches TokenKind::Ident(w)
                    && strength_word(w@, constraints@[j].strength is Weak)) by {
                    if j < old.len() { assert(constraints@[j] == old[j]); }
                }
                assert forall|j: int| 0 <= j < constraints@.len() implies (#[trigger] self.toks@[pos + 2 + 2 * j]).kind == TokenKind::Ident(constraints@[j].transition) by {
                    if j < old.len() { assert(constraints@[j] == old[j]); }
                }
            }
            p = q;
        }
        let q = self.expect(p, matches!(self.toks[p].kind, TokenKind::RBrace), "`}`")?;
        let span = self.span(span_start, p);
        let d = FairnessDecl { constraints, span };
        proof {
            let t = self.run(span_start as int, q as int);
            let cs = d.constraints@;
            assert(t[0] == self.toks@[span_start as int]);
            assert(t[1] == self.toks@[pos as int]);
            assert(t[t.len() - 1] == self.toks@[p as int]);
            assert forall|j: int| 0 <= j < cs.len() implies ((#[trigger] t[2 + 2 * j]).kind matches TokenKind::Ident(w)
                && strength_word(w@, cs[j].strength is Weak)) by {
                assert(t[2 + 2 * j] == self.toks@[pos + 1 + 2 * j]);
            }
            assert forall|j: int| 0 <= j < cs.len() implies (#[trigger] t[3 + 2 * j]).kind == TokenKind::Ident(cs[j].transition) by {
                assert(t[3 + 2 * j] == self.toks@[pos + 2 + 2 * j]);
            }
        }
        Ok((d, q))
    }

    fn type_item(&self, pos: usize) -> (r: Result<(Item, usize)>)
        requires
            self.wf(),
            pos < self.toks@.len(),
            self.toks@[pos as int].kind is Type,
        ensures
            r matches Ok((x, p)) ==> pos < p < self.toks@.len() && item_names_ok(x)
                && item_form(self.run(pos as int, p as int), x),
            r is Err ==> is_parse_err(r),
    {
        let (name, p) = self.ident(pos + 1)?;
        let p = self.expect(p, matches!(self.toks[p].kind, TokenKind::EqSign), "`=`")?;
        let (domain, p) = self.domain(p)?;
        proof { lemma_sub(self.toks@, pos as int, p as int, 3, p - pos); }
        let span = self.span(pos, p - 1);
        Ok((Item::TypeDecl(TypeDecl { name, domain, span }), p))
    }

    fn const_item(&self, pos: usize) -> (r: Result<(Item, usize)>)
        requires
            self.wf(),
            pos < self.toks@.len(),
            self.toks@[pos as int].kind is Const,
        ensures
            r matches Ok((x, p)) ==> pos < p < self.toks@.len() && item_names_ok(x)
                && item_form(self.run(pos as int, p as int), x),
            r is Err ==> is_parse_err(r),
    {
        let (name, p) = self.ident(pos + 1)?;
        let p = self.expect(p, matches!(self.toks[p].kind, TokenKind::EqSign), "`=`")?;
        let (expr, p) = self.expr(p)?;
        proof { lemma_sub(self.toks@, pos as int, p as int, 3, p - pos); }
        let span = self.span(pos, p - 1);
        Ok((Item::Const(ConstDecl { name, expr, span }), p))
    }

    fn var_item(&self, pos: usize) -> (r: Result<(Item, usize)>)
        requires
            self.wf(),
            pos < self.toks@.len(),
            self.toks@[pos as int].kind is Let,
        ensures
            r matches Ok((x, p)) ==> pos < p < self.toks@.len() && item_names_ok(x)
                && item_form(self.run(pos as int, p as int), x),
            r is Err ==> is_parse_err(r),
    {
        let (name, p) = self.ident(pos + 1)?;
        let (index, k) = if matches!(self.toks[p].kind, TokenKind::LBracket) {
            let (x, q) = self.param(p + 1)?;
            let q = self.expect(q, matches!(self.toks[q].kind, TokenKind::RBracket), "`]`")?;
            (Some(x), q)
        } else {
            (None, p)
        };
        let p = self.expect(k, self.is_type_sep(k), "`:` or `∈`")?;
        let (domain, end) = self.domain(p)?;
        let span = self.span(pos, end - 1);
        let d = VarDecl { name, index, domain, span };
        proof { lemma_var_form(self.toks@, pos as int, k as int, end as int, d); }
        Ok((Item::Var(d), end))
    }

    #[verifier::rlimit(40)]
    fn transition_item(&self, pos: usize) -> (r: Result<(Item, usize)>)
        requires
            self.wf(),
            pos < self.toks@.len(),
            self.toks@[pos as int].kind is Transition,
        ensures
            r matches Ok((x, p)) ==> pos < p < self.toks@.len() && item_names_ok(x)
                && item_form(self.run(pos as int, p as int), x),
            r is Err ==> is_parse_err(r),
    {
        let (name, p) = self.ident(pos + 1)?;
        let (params, k) = if matches!(self.toks[p].kind, TokenKind::LParen) {
            self.params(p)?
        } else {
            (Vec::new(), p)
        };
        let (expr, end) = self.block(k)?;
        let span = self.span(pos, end - 1);
        let b = TransitionBlock { name, params, expr, span };
        proof { lemma_transition_form(self.toks@, pos as int, k as int, end as int, b); }
        Ok((Item::Transition(b), end))
    }

    fn property_item(&self, pos: usize) -> (r: Result<(Item, usize)>)
        requires
            self.wf(),
            pos < self.toks@.len(),
            self.toks@[pos as int].kind is Property || self.toks@[pos as int].kind is Invalid,
        ensures
            r matches Ok((x, p)) ==> pos < p < self.toks@.len() && item_names_ok(x)
                && item_form(self.run(pos as int, p as int), x),
            r is Err ==> is_parse_err(r),
    {
        let kind = if matches!(self.toks[pos].kind, TokenKind::Property) {
            PropertyKind::Property
        } else {
            PropertyKind::Invalid
        };
        let (name, p) = self.ident(pos + 1)?;
        let (expr, p) = self.block(p)?;
        proof { lemma_sub(self.toks@, pos as int, p as int, 2, p - pos); }
        let span = self.span(pos, p - 1);
        Ok((Item::Property(PropertyBlock { kind, name, expr, span }), p))
    }

    fn item(&self, pos: usize) -> (r: Result<(Item, usize)>)
        requires
            self.wf(),
            pos < self.toks@.len(),
        ensures
            r matches Ok((x, p)) ==> pos < p < self.toks@.len() && item_names_ok(x)
                && item_form(self.run(pos as int, p as int), x),
            r is Err ==> is_parse_err(r),
    {
        match self.toks[pos].kind {
            TokenKind::Type => self.type_item(pos),
            TokenKind::Const => self.const_item(pos),
            TokenKind::Let => self.var_item(pos),
            TokenKind::Init => {
                let (expr, p) = self.block(pos + 1)?;
                proof { lemma_sub(self.toks@, pos as int, p as int, 1, p - pos); }
                let span = self.span(pos, p - 1);
                Ok((Item::Init(InitBlock { expr, span }), p))
            },
            TokenKind::Transition => self.transition_item(pos),
            TokenKind::Property | TokenKind::Invalid => self.property_item(pos),
            TokenKind::Fairness => {
                let (d, p) = self.fairness(pos + 1, pos)?;
                Ok((Item::Fairness(d), p))
            },
            _ => Err(self.err(pos, &["expected a declaration"])),
        }
    }

    #[verifier::rlimit(40)]
    fn file(&self) -> (r: Result<SourceFile>)
        requires
            self.wf(),
        ensures
            r matches Ok(f) ==> file_names_ok(f) && file_form(self.toks@, f),
            r is Err ==> is_parse_err(r),
    {
        let mut p: usize = 0;
        let mut module: Option<ModuleName> = None;
        if matches!(self.toks[0].kind, TokenKind::Module) {
            let (first, q) = self.ident(1)?;
            let mut parts: Vec<String> = Vec::new();
            parts.push(first);
            p = q;
            while matches!(self.toks[p].kind, TokenKind::Dot)
                invariant
                    self.wf(),
                    0 < p < self.toks@.len(),
                    self.toks@[0].kind is Module,
                    p == 2 * parts@.len(),
                    forall|i: int| 0 <= i < parts@.len() ==> is_identifier(#[trigger] parts@[i]@),
                    forall|j: int| 0 <= j < parts@.len() ==> (#[trigger] self.toks@[2 * j + 1]).kind == TokenKind::Ident(parts@[j]),
                    forall|j: int| 0 < j < parts@.len() ==> (#[trigger] self.toks@[2 * j]).kind is Dot,
                decreases self.toks@.len() - p,
            {
                let (part, q) = self.ident(p + 1)?;
                let ghost old = parts@;
                parts.push(part);
                proof {
                    assert forall|j: int| 0 <= j < parts@.len() implies (#[trigger] self.toks@[2 * j + 1]).kind == TokenKind::Ident(parts@[j]) by {
                        if j < old.len() { assert(parts@[j] == old[j]); }
                    }
                }
                p = q;
            }
            module = Some(ModuleName { parts });
        }
        let ghost a = p as int;
        proof {
            let t = self.run(0, a);
            if module is Some {
                let parts = module->Some_0.parts@;
                assert(t[0] == self.toks@[0]);
                assert forall|j: int| 0 <= j < parts.len() implies (#[trigger] t[2 * j + 1]).kind == TokenKind::Ident(parts[j]) by {
                    assert(t[2 * j + 1] == self.toks@[2 * j + 1]);
                }
                assert forall|j: int| 0 < j < parts.len() implies (#[trigger] t[2 * j]).kind is Dot by {
                    assert(t[2 * j] == self.toks@[2 * j]);
                }
            }
            assert(module_form(t, module));
            assert(a == module_len(module));
        }
        let mut imports: Vec<ImportDecl> = Vec::new();
        while matches!(self.toks[p].kind, TokenKind::Import)
            invariant
                self.wf(),
                p < self.toks@.len(),
                p == a + 2 * imports@.len(),
                forall|j: int| 0 <= j < imports@.len() ==> (#[trigger] self.toks@[a + 2 * j]).kind is Import,
                forall|j: int| 0 <= j < imports@.len() ==> (#[trigger] self.toks@[a + 2 * j + 1]).kind == TokenKind::Str(imports@[j].path),
            decreases self.toks@.len() - p,
        {
            match &self.toks[p + 1].kind {
                TokenKind::Str(s) => {
                    let ghost old = imports@;
                    imports.push(ImportDecl { path: s.clone() });
                    proof {
                        assert(!(self.toks@[p as int + 1].kind is Eof));
                        assert forall|j: int| 0 <= j < imports@.len() implies (#[trigger] self.toks@[a + 2 * j]).kind is Import by {
                            if j < old.len() { assert(imports@[j] == old[j]); }
                        }
                        assert forall|j: int| 0 <= j < imports@.len() implies (#[trigger] self.toks@[a + 2 * j + 1]).kind == TokenKind::Str(imports@[j].path) by {
                            if j < old.len() { assert(imports@[j] == old[j]); }
                        }
                    }
                    p = p + 2;
                },
                _ => { return Err(self.err(p + 1, &["expected an import path string"])); },
            }
        }
        let ghost b = p as int;
        proof {
            let t = self.run(a, b);
            assert forall|j: int| 0 <= j < imports@.len() implies (#[trigger] t[2 * j]).kind is Import by {
                assert(t[2 * j] == self.toks@[a + 2 * j]);
            }
            assert forall|j: int| 0 <= j < imports@.len() implies (#[trigger] t[2 * j + 1]).kind == TokenKind::Str(imports@[j].path) by {
                assert(t[2 * j + 1] == self.toks@[a + 2 * j + 1]);
            }
            assert(imports_form(t, imports@));
            assert(self.run(b, b) =~= Seq::<Token>::empty());
        }
        let mut items: Vec<Item> = Vec::new();
        while !matches!(self.toks[p].kind, TokenKind::Eof)
            invariant
                self.wf(),
                0 <= a <= b <= p < self.toks@.len(),
                forall|i: int| 0 <= i < items@.len() ==> item_names_ok(#[trigger] items@[i]),
                items_form(self.run(b, p as int), items@),
            decreases self.toks@.len() - p,
        {
            let (item, q) = self.item(p)?;
            let ghost old = items@;
            items.push(item);
            proof {
                lemma_sub(self.toks@, b, q as int, 0, p - b);
                lemma_sub(self.toks@, b, q as int, p - b, q - b);
                assert(items@.drop_last() =~= old);
            }
            p = q;
        }
        proof {
            assert(p == self.toks@.len() - 1);
        }
        Ok(SourceFile { module, imports, items })
    }
}

fn str_is_word(w: &String, lit: &str) -> (r: bool)
    ensures
        r == (w@ == lit@),
{
    *w == lit.to_owned()
}

/// The characters of a string, in order.
pub fn chars_of(s: &str) -> (v: Vec<char>)
    ensures
        v@ == s@,
{
    let mut v: Vec<char> = Vec::new();
    for c in it: s.chars()
        invariant
            v@ == it.seq().take(it.index() as int),
    {
        v.push(c);
    }
    v
}

/// Parses a specification held in memory: on success the text reads as the
/// result in the grammar, and every name in it is a valid, non-reserved identifier.
pub fn parse_source(source: &str) -> (r: Result<SourceFile>)
    ensures
        r matches Ok(f) ==> file_names_ok(f) && reads_as(source@, f),
        r is Err ==> is_parse_err(r),
{
    parse_source_file("<memory>", source)
}

/// Parses the specification text `source` read from `path`: on success the
/// text reads as the result in the grammar, and every name in it is a valid,
/// non-reserved identifier.
pub fn parse_source_file(path: &str, source: &str) -> (r: Result<SourceFile>)
    ensures
        r matches Ok(f) ==> file_names_ok(f) && reads_as(source@, f),
        r is Err ==> is_parse_err(r),
{
    let path = path.to_owned();
    let chars = chars_of(source);
    if chars.len() >= usize::MAX / 4 {
        let start = Span { byte_start: 0, byte_end: 0, start_line: 1, start_col: 1, end_line: 1, end_col: 1 };
        return Err(CaelumError::Parse { path, message: "source text is too large".to_owned(), span: Some(start) });
    }
    let toks = tokenize(&chars, &path)?;
    let parser = Parser { toks: &toks, chars: &chars, path: &path };
    let r = parser.file();
    proof {
        if r is Ok {
            assert(lexes(source@, toks@) && file_form(toks@, r->Ok_0));
        }
    }
    r
}


/// How the tokens of a variable declaration line up with its grammar rule.
proof fn lemma_var_form(toks: Seq<Token>, pos: int, k: int, end: int, d: VarDecl)
    requires
        0 <= pos,
        pos + 2 <= k,
        k + 1 < end <= toks.len(),
        toks[pos].kind is Let,
        toks[pos + 1].kind == TokenKind::Ident(d.name),
        is_type_sep(toks[k].kind),
        domain_form(toks.subrange(k + 1, end), d.domain),
        d.index is None ==> k == pos + 2,
        d.index matches Some(x) ==> (pos + 5 <= k && toks[pos + 2].kind is LBracket
            && param_form(toks.subrange(pos + 3, k - 1), x) && toks[k - 1].kind is RBracket),
    ensures
        item_form(toks.subrange(pos, end), Item::Var(d)),
{
    let t = toks.subrange(pos, end);
    let n = t.len() as int;
    lemma_sub(toks, pos, end, k - pos + 1, n);
    if d.index is None {
        assert(t[2] == toks[k]);
    } else {
        let j = k - pos - 1;
        lemma_sub(toks, pos, end, 3, j);
        assert(t[j] == toks[k - 1]);
        assert(t[j + 1] == toks[k]);
        assert(t[2] == toks[pos + 2]);
        assert(param_form(t.subrange(3, j), d.index->Some_0));
        assert(domain_form(t.subrange(j + 2, n), d.domain));
    }
}


/// How the tokens of a transition line up with its grammar rule.
proof fn lemma_transition_form(toks: Seq<Token>, pos: int, k: int, end: int, b: TransitionBlock)
    requires
        0 <= pos,
        pos + 2 <= k < end <= toks.len(),
        toks[pos].kind is Transition,
        toks[pos + 1].kind == TokenKind::Ident(b.name),
        block_form(toks.subrange(k, end), b.expr),
        (k == pos + 2 && b.params@.len() == 0) || (pos + 7 <= k && toks[pos + 2].kind is LParen
            && toks[k - 1].kind is RParen && params_form(toks.subrange(pos + 3, k - 1), b.params@)),
    ensures
        item_form(toks.subrange(pos, end), Item::Transition(b)),
{
    let t = toks.subrange(pos, end);
    let n = t.len() as int;
    lemma_sub(toks, pos, end, k - pos, n);
    assert(block_form(t.subrange(k - pos, n), b.expr));
    if b.params@.len() > 0 {
        let j = k - pos - 1;
        lemma_sub(toks, pos, end, 3, j);
        assert(t[j] == toks[k - 1]);
        assert(t[2] == toks[pos + 2]);
        assert(params_form(t.subrange(3, j), b.params@));
        assert(t[j].kind is RParen);
    } else {
        assert(k - pos == 2);
    }
}

} // verus!
