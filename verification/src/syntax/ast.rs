//! The syntax tree produced by the parser and consumed by every later stage.

use vstd::prelude::*;

use crate::diagnostics::Span;

verus! {

#[derive(Debug, Clone, PartialEq, Eq)]
pub struct SourceFile {
    pub module: Option<ModuleName>,
    pub imports: Vec<ImportDecl>,
    pub items: Vec<Item>,
}

#[derive(Debug, Clone, PartialEq, Eq)]
pub struct ModuleName {
    pub parts: Vec<String>,
}

#[derive(Debug, Clone, PartialEq, Eq)]
pub struct ImportDecl {
    pub path: String,
}

#[derive(Debug, Clone, PartialEq, Eq)]
pub enum Item {
    TypeDecl(TypeDecl),
    Const(ConstDecl),
    Var(VarDecl),
    Init(InitBlock),
    Transition(TransitionBlock),
    Property(PropertyBlock),
    Fairness(FairnessDecl),
}

/// A `fairness { ... }` block. Each constraint names a transition and how
/// strongly it must be scheduled.
#[derive(Debug, Clone, PartialEq, Eq)]
pub struct FairnessDecl {
    pub constraints: Vec<FairnessConstraint>,
    pub span: Span,
}

#[derive(Debug, Clone, PartialEq, Eq)]
pub struct FairnessConstraint {
    pub strength: FairnessStrength,
    pub transition: String,
}

#[derive(Debug, Copy, Clone, PartialEq, Eq)]
pub enum FairnessStrength {
    /// Justice: a continuously-enabled transition is eventually taken.
    Weak,
    /// Compassion: an infinitely-often-enabled transition is eventually taken.
    Strong,
}

#[derive(Debug, Clone, PartialEq, Eq)]
pub struct TypeDecl {
    pub name: String,
    pub domain: Domain,
    pub span: Span,
}

#[derive(Debug, Clone, PartialEq, Eq)]
pub struct ConstDecl {
    pub name: String,
    pub expr: Expr,
    pub span: Span,
}

#[derive(Debug, Clone, PartialEq, Eq)]
pub struct VarDecl {
    pub name: String,
    /// `Some` for an indexed declaration `let status[node ∈ Node] ∈ D`.
    pub index: Option<TransitionParam>,
    pub domain: Domain,
    pub span: Span,
}

#[derive(Debug, Clone, PartialEq, Eq)]
pub struct InitBlock {
    pub expr: Expr,
    pub span: Span,
}

#[derive(Debug, Clone, PartialEq, Eq)]
pub struct TransitionBlock {
    pub name: String,
    /// Formal parameters, each ranging over a finite domain.
    pub params: Vec<TransitionParam>,
    pub expr: Expr,
    pub span: Span,
}

/// A named binding over a finite domain, shared by transition parameters and
/// indexed variable declarations.
#[derive(Debug, Clone, PartialEq, Eq)]
pub struct TransitionParam {
    pub name: String,
    pub domain: Domain,
}

#[derive(Debug, Copy, Clone, PartialEq, Eq)]
pub enum PropertyKind {
    Property,
    Invalid,
}

#[derive(Debug, Clone, PartialEq, Eq)]
pub struct PropertyBlock {
    pub kind: PropertyKind,
    pub name: String,
    pub expr: Expr,
    pub span: Span,
}

#[derive(Debug, Clone, PartialEq, Eq)]
pub enum Domain {
    Bool,
    IntRange { start: DomainBound, end: DomainBound },
    Enum { variants: Vec<String> },
    Named(String),
}

#[derive(Debug, Clone, PartialEq, Eq)]
pub enum DomainBound {
    Int(i64),
    Name(String),
}

#[derive(Debug, PartialEq, Eq)]
pub enum Expr {
    Bool(bool),
    Int(i64),
    Name(String),
    PrimedName(String),
    /// An indexed reference such as `status[node]`, or `status[node]'` when primed.
    Indexed { name: String, index: Box<Expr>, primed: bool },
    /// `unchanged(x, y except idx, ...)`.
    Unchanged(Vec<UnchangedTarget>),
    /// `∀ x ∈ D: body` / `∃ x ∈ D: body` over a finite domain.
    Quantifier { kind: QuantKind, var: String, domain: Domain, body: Box<Expr> },
    Unary { op: UnaryOp, expr: Box<Expr> },
    Binary { op: BinaryOp, lhs: Box<Expr>, rhs: Box<Expr> },
}

/// One argument of an `unchanged(...)` expression.
#[derive(Debug, Clone, PartialEq, Eq)]
pub struct UnchangedTarget {
    pub name: String,
    pub except: Option<String>,
}

#[derive(Debug, Copy, Clone, PartialEq, Eq)]
pub enum QuantKind {
    Forall,
    Exists,
}

#[derive(Debug, Copy, Clone, PartialEq, Eq)]
pub enum UnaryOp {
    Not,
    Neg,
    Always,
    Eventually,
    Next,
}

#[derive(Debug, Copy, Clone, PartialEq, Eq)]
pub enum BinaryOp {
    Add,
    Sub,
    Mul,
    Div,
    Mod,
    Eq,
    Ne,
    Lt,
    Le,
    Gt,
    Ge,
    And,
    Or,
    Implies,
    Iff,
    Until,
}

impl SourceFile {
    pub fn item_count(&self) -> (r: usize)
        ensures
            r == self.items@.len(),
    {
        self.items.len()
    }
}

/// Whether an expression is built only from literals, names, primed names,
/// unary and binary operators: the core language that evaluation, checking
/// and encoding understand.
pub open spec fn is_core_expr(e: Expr) -> bool
    decreases e,
{
    match e {
        Expr::Bool(_) | Expr::Int(_) | Expr::Name(_) | Expr::PrimedName(_) => true,
        Expr::Unary { expr, .. } => is_core_expr(*expr),
        Expr::Binary { lhs, rhs, .. } => is_core_expr(*lhs) && is_core_expr(*rhs),
        _ => false,
    }
}

/// Whether an expression contains no temporal operator.
pub open spec fn is_state_formula(e: Expr) -> bool
    decreases e,
{
    match e {
        Expr::Unary { op, expr } => match op {
            UnaryOp::Always | UnaryOp::Eventually | UnaryOp::Next => false,
            _ => is_state_formula(*expr),
        },
        Expr::Binary { op, lhs, rhs } => match op {
            BinaryOp::Until => false,
            _ => is_state_formula(*lhs) && is_state_formula(*rhs),
        },
        Expr::Indexed { index, .. } => is_state_formula(*index),
        Expr::Quantifier { body, .. } => is_state_formula(*body),
        _ => true,
    }
}

/// Equality of domains, comparing variant lists by their contents.
pub open spec fn domain_eq(a: Domain, b: Domain) -> bool {
    match (a, b) {
        (Domain::Enum { variants: va }, Domain::Enum { variants: vb }) => va@ == vb@,
        _ => a == b,
    }
}

/// Equality of expressions, comparing the lists inside them by their contents.
pub open spec fn expr_eq(a: Expr, b: Expr) -> bool
    decreases a,
{
    match (a, b) {
        (Expr::Indexed { name: n1, index: i1, primed: p1 },
         Expr::Indexed { name: n2, index: i2, primed: p2 }) =>
            n1 == n2 && p1 == p2 && expr_eq(*i1, *i2),
        (Expr::Unchanged(t1), Expr::Unchanged(t2)) => t1@ == t2@,
        (Expr::Quantifier { kind: k1, var: v1, domain: d1, body: b1 },
         Expr::Quantifier { kind: k2, var: v2, domain: d2, body: b2 }) =>
            k1 == k2 && v1 == v2 && domain_eq(d1, d2) && expr_eq(*b1, *b2),
        (Expr::Unary { op: o1, expr: e1 }, Expr::Unary { op: o2, expr: e2 }) =>
            o1 == o2 && expr_eq(*e1, *e2),
        (Expr::Binary { op: o1, lhs: l1, rhs: r1 }, Expr::Binary { op: o2, lhs: l2, rhs: r2 }) =>
            o1 == o2 && expr_eq(*l1, *l2) && expr_eq(*r1, *r2),
        _ => a == b,
    }
}

/// On core expressions, content equality is equality.
pub proof fn lemma_expr_eq_core(a: Expr, b: Expr)
    requires
        is_core_expr(a),
        expr_eq(b, a),
    ensures
        a == b,
    decreases a,
{
    match (a, b) {
        (Expr::Unary { expr: e1, .. }, Expr::Unary { expr: e2, .. }) => {
            lemma_expr_eq_core(*e1, *e2);
        },
        (Expr::Binary { lhs: l1, rhs: r1, .. }, Expr::Binary { lhs: l2, rhs: r2, .. }) => {
            lemma_expr_eq_core(*l1, *l2);
            lemma_expr_eq_core(*r1, *r2);
        },
        _ => {},
    }
}

impl Clone for Expr {
    fn clone(&self) -> (r: Self)
        ensures
            expr_eq(r, *self),
    {
        clone_expr(self)
    }
}

/// A copy of an expression, with the same contents.
pub fn clone_expr(e: &Expr) -> (r: Expr)
    ensures
        expr_eq(r, *e),
        is_core_expr(*e) ==> r == *e,
{
    let r = clone_expr_inner(e);
    proof {
        if is_core_expr(*e) {
            lemma_expr_eq_core(*e, r);
        }
    }
    r
}

fn clone_expr_inner(e: &Expr) -> (r: Expr)
    ensures
        expr_eq(r, *e),
    decreases e,
{
    match e {
        Expr::Bool(b) => Expr::Bool(*b),
        Expr::Int(i) => Expr::Int(*i),
        Expr::Name(n) => Expr::Name(n.clone()),
        Expr::PrimedName(n) => Expr::PrimedName(n.clone()),
        Expr::Indexed { name, index, primed } => Expr::Indexed {
            name: name.clone(),
            index: Box::new(clone_expr_inner(index)),
            primed: *primed,
        },
        Expr::Unchanged(targets) => Expr::Unchanged(clone_targets(targets)),
        Expr::Quantifier { kind, var, domain, body } => Expr::Quantifier {
            kind: *kind,
            var: var.clone(),
            domain: clone_domain(domain),
            body: Box::new(clone_expr_inner(body)),
        },
        Expr::Unary { op, expr } => Expr::Unary { op: *op, expr: Box::new(clone_expr_inner(expr)) },
        Expr::Binary { op, lhs, rhs } => Expr::Binary {
            op: *op,
            lhs: Box::new(clone_expr_inner(lhs)),
            rhs: Box::new(clone_expr_inner(rhs)),
        },
    }
}

/// A copy of a list of strings, equal to the original.
pub fn clone_strings(v: &Vec<String>) -> (r: Vec<String>)
    ensures
        r@ == v@,
{
    let mut out: Vec<String> = Vec::new();
    let mut i: usize = 0;
    while i < v.len()
        invariant
            i <= v@.len(),
            out@ == v@.take(i as int),
        decreases v@.len() - i,
    {
        out.push(v[i].clone());
        proof {
            assert(v@.take(i as int + 1) == v@.take(i as int).push(v@[i as int]));
        }
        i = i + 1;
    }
    proof {
        assert(v@.take(v@.len() as int) == v@);
    }
    out
}

fn clone_targets(v: &Vec<UnchangedTarget>) -> (r: Vec<UnchangedTarget>)
    ensures
        r@ == v@,
{
    let mut out: Vec<UnchangedTarget> = Vec::new();
    let mut i: usize = 0;
    while i < v.len()
        invariant
            i <= v@.len(),
            out@ == v@.take(i as int),
        decreases v@.len() - i,
    {
        let t = &v[i];
        let except = match &t.except {
            Some(s) => Some(s.clone()),
            None => None,
        };
        out.push(UnchangedTarget { name: t.name.clone(), except });
        proof {
            assert(v@.take(i as int + 1) == v@.take(i as int).push(v@[i as int]));
        }
        i = i + 1;
    }
    proof {
        assert(v@.take(v@.len() as int) == v@);
    }
    out
}

/// A copy of a domain bound, equal to the original.
pub fn clone_bound(b: &DomainBound) -> (r: DomainBound)
    ensures
        r == *b,
{
    match b {
        DomainBound::Int(i) => DomainBound::Int(*i),
        DomainBound::Name(n) => DomainBound::Name(n.clone()),
    }
}

/// A copy of a domain, equal to the original.
pub fn clone_domain(d: &Domain) -> (r: Domain)
    ensures
        domain_eq(r, *d),
{
    match d {
        Domain::Bool => Domain::Bool,
        Domain::IntRange { start, end } => Domain::IntRange {
            start: clone_bound(start),
            end: clone_bound(end),
        },
        Domain::Enum { variants } => Domain::Enum { variants: clone_strings(variants) },
        Domain::Named(n) => Domain::Named(n.clone()),
    }
}

} // verus!
