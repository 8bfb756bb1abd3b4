//! Encoding of expressions into clauses (Tseitin style): each boolean
//! subformula gets a literal whose value, under any assignment satisfying
//! the clauses, is the subformula's value.

use vstd::prelude::*;

use crate::bmc::solver::{clauses_in_range, SatLit, Solver};
pub use crate::bmc::solver::{clause_sat, lit_val, satisfies};
use crate::bmc::sym::SymVal;
use crate::diagnostics::{concat_strs, is_model_err, CaelumError, Result};
use crate::model::eval::{find_key, lookup, spec_eval_binary, spec_eval_unary, trunc_div_rem};
use crate::model::state::{same_value, Value};
use crate::syntax::ast::{BinaryOp, Expr, UnaryOp};

verus! {

/// A variable's domain with its values written out.
#[derive(Debug, Clone)]
pub enum ResolvedDomain {
    Bool,
    Int(Vec<i64>),
    Enum { enum_type: String, variants: Vec<String> },
}

/// What a resolved domain holds, as plain sequences.
pub enum DomainView {
    Bool,
    Int(Seq<i64>),
    Enum(String, Seq<String>),
}

/// How many solver variables a value of the domain takes: one for a
/// boolean, one per alternative otherwise.
pub open spec fn domain_size(d: DomainView) -> nat {
    match d {
        DomainView::Bool => 1,
        DomainView::Int(vs) => vs.len(),
        DomainView::Enum(_, vs) => vs.len(),
    }
}

impl View for ResolvedDomain {
    type V = DomainView;

    open spec fn view(&self) -> DomainView {
        match self {
            ResolvedDomain::Bool => DomainView::Bool,
            ResolvedDomain::Int(values) => DomainView::Int(values@),
            ResolvedDomain::Enum { enum_type, variants } => DomainView::Enum(*enum_type, variants@),
        }
    }
}

#[derive(Debug, Clone)]
pub enum ConstValue {
    Bool(bool),
    Int(i64),
    Enum { enum_type: String, variant: String },
}

// ---------------------------------------------------------------------------
// Clauses and their meaning.

/// `l` names one of the first `vars` variables, either way round.
pub open spec fn lit_ok(l: int, vars: nat) -> bool {
    l != 0 && -vars <= l <= vars
}

pub open spec fn clause_ok(c: Seq<SatLit>, vars: nat) -> bool {
    forall|k: int| 0 <= k < c.len() ==> lit_ok(#[trigger] c[k] as int, vars)
}


/// Every literal inside a symbolic value is in range.
pub open spec fn sym_ok(v: SymVal, vars: nat) -> bool {
    match v {
        SymVal::Bool(l) => lit_ok(l as int, vars),
        SymVal::Int(ps) => forall|k: int| 0 <= k < ps@.len() ==> lit_ok((#[trigger] ps@[k]).1 as int, vars),
        SymVal::Enum { values, .. } => forall|k: int| 0 <= k < values@.len() ==> lit_ok((#[trigger] values@[k]).1 as int, vars),
    }
}

pub proof fn lemma_sym_ok_mono(v: SymVal, n: nat, m: nat)
    requires
        sym_ok(v, n),
        n <= m,
    ensures
        sym_ok(v, m),
{
}

/// Whether `a op b` holds for a comparison operator.
pub open spec fn relation_holds(op: BinaryOp, a: i64, b: i64) -> bool {
    match op {
        BinaryOp::Lt => a < b,
        BinaryOp::Le => a <= b,
        BinaryOp::Gt => a > b,
        BinaryOp::Ge => a >= b,
        _ => a == b,
    }
}

fn compare(op: BinaryOp, a: i64, b: i64) -> (r: bool)
    ensures
        r == relation_holds(op, a, b),
{
    match op {
        BinaryOp::Lt => a < b,
        BinaryOp::Le => a <= b,
        BinaryOp::Gt => a > b,
        BinaryOp::Ge => a >= b,
        _ => a == b,
    }
}

/// The integer an arithmetic operator gives on two integers, when it gives one.
pub open spec fn arith_val(op: BinaryOp, a: i64, b: i64) -> Option<i64> {
    match spec_eval_binary(op, Value::Int(a), Value::Int(b)) {
        Some(Value::Int(v)) => Some(v),
        _ => None,
    }
}

pub open spec fn is_arith(op: BinaryOp) -> bool {
    op is Add || op is Sub || op is Mul || op is Div || op is Mod
}

/// The result of an arithmetic operator on two values: `Ok(None)` when the
/// combination is impossible (division by zero), an error on overflow.
fn arith(op: BinaryOp, a: i64, b: i64) -> (r: Result<Option<i64>>)
    requires
        is_arith(op),
    ensures
        r matches Ok(o) ==> o == arith_val(op, a, b),
        r is Err ==> is_model_err(r),
{
    match op {
        BinaryOp::Add => match a.checked_add(b) {
            Some(v) => Ok(Some(v)),
            None => Err(CaelumError::Model { message: "BMC encoder: integer overflow in addition".to_owned() }),
        },
        BinaryOp::Sub => match a.checked_sub(b) {
            Some(v) => Ok(Some(v)),
            None => Err(CaelumError::Model { message: "BMC encoder: integer overflow in subtraction".to_owned() }),
        },
        BinaryOp::Mul => match a.checked_mul(b) {
            Some(v) => Ok(Some(v)),
            None => Err(CaelumError::Model { message: "BMC encoder: integer overflow in multiplication".to_owned() }),
        },
        _ => {
            if b == 0 {
                return Ok(None);
            }
            if a == i64::MIN && b == -1 {
                return Err(CaelumError::Model { message: "BMC encoder: integer overflow in division".to_owned() });
            }
            let (q, m) = trunc_div_rem(a, b);
            match op {
                BinaryOp::Div => Ok(Some(q as i64)),
                _ => Ok(Some(m as i64)),
            }
        },
    }
}

/// Adding clauses only removes satisfying assignments.
/// An assignment satisfying two lists of clauses one after the other
/// satisfies the second.
pub proof fn lemma_satisfies_suffix(asg: Seq<bool>, a: Seq<Seq<SatLit>>, b: Seq<Seq<SatLit>>)
    requires
        satisfies(asg, a + b),
    ensures
        satisfies(asg, b),
{
    assert forall|i: int| 0 <= i < b.len() implies #[trigger] clause_sat(asg, b[i]) by {
        assert((a + b)[a.len() + i] == b[i]);
    }
}

pub proof fn lemma_satisfies_prefix(asg: Seq<bool>, a: Seq<Seq<SatLit>>, b: Seq<Seq<SatLit>>)
    requires
        a.len() <= b.len(),
        forall|i: int| 0 <= i < a.len() ==> #[trigger] b[i] == a[i],
        satisfies(asg, b),
    ensures
        satisfies(asg, a),
{
    assert forall|i: int| 0 <= i < a.len() implies #[trigger] clause_sat(asg, a[i]) by {
        assert(clause_sat(asg, b[i]));
    }
}

/// A literal's negation has the opposite value.
pub proof fn lemma_neg_lit(asg: Seq<bool>, l: int)
    requires
        l != 0,
    ensures
        lit_val(asg, -l) == !lit_val(asg, l),
{
}

proof fn lemma_clause1(asg: Seq<bool>, x: SatLit)
    ensures
        clause_sat(asg, seq![x]) == lit_val(asg, x as int),
{
    let c = seq![x];
    if lit_val(asg, x as int) {
        assert(lit_val(asg, c[0] as int));
    }
}

proof fn lemma_clause2(asg: Seq<bool>, x: SatLit, y: SatLit)
    ensures
        clause_sat(asg, seq![x, y]) == (lit_val(asg, x as int) || lit_val(asg, y as int)),
{
    let c = seq![x, y];
    if lit_val(asg, x as int) {
        assert(lit_val(asg, c[0] as int));
    }
    if lit_val(asg, y as int) {
        assert(lit_val(asg, c[1] as int));
    }
}

proof fn lemma_clause3(asg: Seq<bool>, x: SatLit, y: SatLit, z: SatLit)
    ensures
        clause_sat(asg, seq![x, y, z]) == (lit_val(asg, x as int) || lit_val(asg, y as int) || lit_val(asg, z as int)),
{
    let c = seq![x, y, z];
    if lit_val(asg, x as int) {
        assert(lit_val(asg, c[0] as int));
    }
    if lit_val(asg, y as int) {
        assert(lit_val(asg, c[1] as int));
    }
    if lit_val(asg, z as int) {
        assert(lit_val(asg, c[2] as int));
    }
}

proof fn lemma_clause_cons(asg: Seq<bool>, x: SatLit, rest: Seq<SatLit>)
    ensures
        clause_sat(asg, seq![x] + rest) == (lit_val(asg, x as int) || clause_sat(asg, rest)),
{
    let c = seq![x] + rest;
    if lit_val(asg, x as int) {
        assert(lit_val(asg, c[0] as int));
    }
    if clause_sat(asg, rest) {
        let k = choose|k: int| 0 <= k < rest.len() && lit_val(asg, #[trigger] rest[k] as int);
        assert(c[k + 1] == rest[k]);
    }
    if clause_sat(asg, c) {
        let k = choose|k: int| 0 <= k < c.len() && lit_val(asg, #[trigger] c[k] as int);
        if k > 0 {
            assert(rest[k - 1] == c[k]);
        }
    }
}

proof fn lemma_clause_push(asg: Seq<bool>, c: Seq<SatLit>, x: SatLit)
    ensures
        clause_sat(asg, c.push(x)) == (clause_sat(asg, c) || lit_val(asg, x as int)),
{
    let d = c.push(x);
    if lit_val(asg, x as int) {
        assert(lit_val(asg, d[c.len() as int] as int));
    }
    if clause_sat(asg, c) {
        let k = choose|k: int| 0 <= k < c.len() && lit_val(asg, #[trigger] c[k] as int);
        assert(d[k] == c[k]);
    }
    if clause_sat(asg, d) {
        let k = choose|k: int| 0 <= k < d.len() && lit_val(asg, #[trigger] d[k] as int);
        if k < c.len() {
            assert(d[k] == c[k]);
        }
    }
}

/// Some literal of the list is true.
pub open spec fn any_true(asg: Seq<bool>, lits: Seq<SatLit>) -> bool {
    exists|k: int| 0 <= k < lits.len() && lit_val(asg, #[trigger] lits[k] as int)
}

/// Some clause after position `base` says `¬x ∨ ¬y`.
pub open spec fn has_exclusion(f: Seq<Seq<SatLit>>, base: int, x: SatLit, y: SatLit) -> bool {
    exists|m: int| base < m < f.len() && #[trigger] f[m] == seq![(-x) as i32, (-y) as i32]
}

/// Exactly one literal of the list is true.
pub open spec fn exactly_one(asg: Seq<bool>, lits: Seq<SatLit>) -> bool {
    &&& any_true(asg, lits)
    &&& forall|a: int, b: int| 0 <= a < b < lits.len()
        ==> !(lit_val(asg, #[trigger] lits[a] as int) && lit_val(asg, #[trigger] lits[b] as int))
}

/// Every literal of the list is true.
pub open spec fn all_true(asg: Seq<bool>, lits: Seq<SatLit>) -> bool {
    forall|k: int| 0 <= k < lits.len() ==> lit_val(asg, #[trigger] lits[k] as int)
}

// ---------------------------------------------------------------------------
// What symbolic values mean.

/// Some alternative of `ps` whose literal is true has the value `i`, and
/// every such alternative does.
pub open spec fn int_den(asg: Seq<bool>, ps: Seq<(i64, SatLit)>, i: i64) -> bool {
    &&& exists|k: int| 0 <= k < ps.len() && #[trigger] lit_val(asg, ps[k].1 as int) && ps[k].0 == i
    &&& forall|k: int| 0 <= k < ps.len() && #[trigger] lit_val(asg, ps[k].1 as int) ==> ps[k].0 == i
}

/// Some alternative of `vs` whose literal is true is the variant `n`, and
/// every such alternative is.
pub open spec fn enum_den(asg: Seq<bool>, vs: Seq<(String, SatLit)>, n: Seq<char>) -> bool {
    &&& exists|k: int| 0 <= k < vs.len() && #[trigger] lit_val(asg, vs[k].1 as int) && vs[k].0@ == n
    &&& forall|k: int| 0 <= k < vs.len() && #[trigger] lit_val(asg, vs[k].1 as int) ==> vs[k].0@ == n
}

/// Under the assignment `asg`, the symbolic value `v` takes the value `val`.
pub open spec fn den(asg: Seq<bool>, v: SymVal, val: Value) -> bool {
    match v {
        SymVal::Bool(l) => val == Value::Bool(lit_val(asg, l as int)),
        SymVal::Int(ps) => match val {
            Value::Int(i) => int_den(asg, ps@, i),
            _ => false,
        },
        SymVal::Enum { values, .. } => match val {
            Value::Enum(n) => enum_den(asg, values@, n@),
            _ => false,
        },
    }
}

/// `v` takes some value under `asg`.
pub open spec fn has_den(asg: Seq<bool>, v: SymVal) -> bool {
    exists|val: Value| den(asg, v, val)
}

/// The symbolic value of state variable `n` at step `t`: the first one
/// cached for them.
pub open spec fn cache_lookup(c: Seq<(String, usize, SymVal)>, n: Seq<char>, t: int) -> Option<SymVal>
    decreases c.len(),
{
    if c.len() == 0 {
        None
    } else if c[0].0@ == n && c[0].1 == t {
        Some(c[0].2)
    } else {
        cache_lookup(c.drop_first(), n, t)
    }
}

/// Two symbolic values with the same literals and alternatives.
pub open spec fn same_sym(a: SymVal, b: SymVal) -> bool {
    match (a, b) {
        (SymVal::Bool(x), SymVal::Bool(y)) => x == y,
        (SymVal::Int(p), SymVal::Int(q)) => p@ == q@,
        (SymVal::Enum { values: p, .. }, SymVal::Enum { values: q, .. }) => p@ == q@,
        _ => false,
    }
}

pub proof fn lemma_same_sym_den(asg: Seq<bool>, a: SymVal, b: SymVal, val: Value)
    requires
        same_sym(a, b),
    ensures
        den(asg, a, val) == den(asg, b, val),
        forall|n: nat| sym_ok(a, n) == sym_ok(b, n),
{
}

proof fn lemma_cache_lookup_at(c: Seq<(String, usize, SymVal)>, n: Seq<char>, t: int, i: int)
    requires
        0 <= i <= c.len(),
        forall|j: int| 0 <= j < i ==> !((#[trigger] c[j]).0@ == n && c[j].1 == t),
    ensures
        cache_lookup(c, n, t) == cache_lookup(c.skip(i), n, t),
    decreases i,
{
    if i == 0 {
        assert(c.skip(0) == c);
    } else {
        assert(!(c[0].0@ == n && c[0].1 == t));
        assert(c.drop_first().skip(i - 1) == c.skip(i));
        assert forall|j: int| 0 <= j < i - 1 implies !((#[trigger] c.drop_first()[j]).0@ == n && c.drop_first()[j].1 == t) by {
            assert(c.drop_first()[j] == c[j + 1]);
        }
        lemma_cache_lookup_at(c.drop_first(), n, t, i - 1);
    }
}

/// Extending a cache keeps what it already gave for a variable and step.
pub proof fn lemma_cache_lookup_extend(c1: Seq<(String, usize, SymVal)>, c2: Seq<(String, usize, SymVal)>, n: Seq<char>, t: int)
    requires
        c1.len() <= c2.len(),
        forall|i: int| 0 <= i < c1.len() ==> #[trigger] c2[i] == c1[i],
        cache_lookup(c1, n, t) is Some,
    ensures
        cache_lookup(c2, n, t) == cache_lookup(c1, n, t),
    decreases c1.len(),
{
    assert(c2[0] == c1[0]);
    if !(c1[0].0@ == n && c1[0].1 == t) {
        assert forall|i: int| 0 <= i < c1.drop_first().len() implies #[trigger] c2.drop_first()[i] == c1.drop_first()[i] by {
            assert(c2[i + 1] == c1[i + 1]);
        }
        lemma_cache_lookup_extend(c1.drop_first(), c2.drop_first(), n, t);
    }
}

/// The variants of the first enum domain whose type is `ty`.
pub open spec fn enum_domain_of(doms: Seq<(String, ResolvedDomain)>, ty: Seq<char>) -> Option<Seq<String>>
    decreases doms.len(),
{
    if doms.len() == 0 {
        None
    } else {
        match doms[0].1 {
            ResolvedDomain::Enum { enum_type, variants } => if enum_type@ == ty {
                Some(variants@)
            } else {
                enum_domain_of(doms.drop_first(), ty)
            },
            _ => enum_domain_of(doms.drop_first(), ty),
        }
    }
}

/// The value of enum variant `n` of type `ty`: defined when the type's
/// domain lists it, or when no domain has that type.
pub open spec fn enum_value(doms: Seq<(String, ResolvedDomain)>, ty: String, n: String) -> Option<Value> {
    match enum_domain_of(doms, ty@) {
        Some(vs) => if exists|k: int| 0 <= k < vs.len() && (#[trigger] vs[k])@ == n@ {
            Some(Value::Enum(n))
        } else {
            None
        },
        None => Some(Value::Enum(n)),
    }
}

/// The value of a constant.
pub open spec fn const_value(doms: Seq<(String, ResolvedDomain)>, c: ConstValue) -> Option<Value> {
    match c {
        ConstValue::Bool(b) => Some(Value::Bool(b)),
        ConstValue::Int(i) => Some(Value::Int(i)),
        ConstValue::Enum { enum_type, variant } => enum_value(doms, enum_type, variant),
    }
}

/// The value state variable `n` takes at step `t` under `asg`.
pub open spec fn var_value(asg: Seq<bool>, c: Seq<(String, usize, SymVal)>, n: Seq<char>, t: int) -> Option<Value> {
    match cache_lookup(c, n, t) {
        Some(sv) => if has_den(asg, sv) { Some(choose|val: Value| den(asg, sv, val)) } else { None },
        None => None,
    }
}

pub type Tables = (Seq<(String, ConstValue)>, Seq<(String, String)>, Seq<(String, ResolvedDomain)>);

/// The value of an expression at step `t` under `asg`, names resolved as
/// the encoder resolves them: constants, then enum variants, then state
/// variables read at step `t` (primed ones and those under `◯` at `t + 1`).
pub open spec fn enc_eval(tables: Tables, asg: Seq<bool>, c: Seq<(String, usize, SymVal)>, e: Expr, t: int) -> Option<Value>
    decreases e,
{
    match e {
        Expr::Bool(b) => Some(Value::Bool(b)),
        Expr::Int(i) => Some(Value::Int(i)),
        Expr::Name(n) => match lookup(tables.0, n@) {
            Some(cv) => const_value(tables.2, cv),
            None => match lookup(tables.1, n@) {
                Some(ty) => enum_value(tables.2, ty, n),
                None => var_value(asg, c, n@, t),
            },
        },
        Expr::PrimedName(n) => var_value(asg, c, n@, t + 1),
        Expr::Unary { op, expr } => match op {
            UnaryOp::Next => enc_eval(tables, asg, c, *expr, t + 1),
            UnaryOp::Not | UnaryOp::Neg => match enc_eval(tables, asg, c, *expr, t) {
                Some(v) => spec_eval_unary(op, v),
                None => None,
            },
            _ => None,
        },
        Expr::Binary { op, lhs, rhs } => match (enc_eval(tables, asg, c, *lhs, t), enc_eval(tables, asg, c, *rhs, t)) {
            (Some(a), Some(b)) => spec_eval_binary(op, a, b),
            _ => None,
        },
        _ => None,
    }
}

/// Every state variable `e` reads at its step has a cached value.
pub open spec fn vars_cached(tables: Tables, c: Seq<(String, usize, SymVal)>, e: Expr, t: int) -> bool
    decreases e,
{
    match e {
        Expr::Name(n) => lookup(tables.0, n@) is Some || lookup(tables.1, n@) is Some || cache_lookup(c, n@, t) is Some,
        Expr::PrimedName(n) => cache_lookup(c, n@, t + 1) is Some,
        Expr::Unary { op, expr } => match op {
            UnaryOp::Next => vars_cached(tables, c, *expr, t + 1),
            _ => vars_cached(tables, c, *expr, t),
        },
        Expr::Binary { lhs, rhs, .. } => vars_cached(tables, c, *lhs, t) && vars_cached(tables, c, *rhs, t),
        _ => true,
    }
}

/// Extending the cache keeps what an expression whose variables are cached
/// evaluates to.
pub proof fn lemma_enc_eval_extend(tables: Tables, asg: Seq<bool>, c1: Seq<(String, usize, SymVal)>, c2: Seq<(String, usize, SymVal)>, e: Expr, t: int)
    requires
        c1.len() <= c2.len(),
        forall|i: int| 0 <= i < c1.len() ==> #[trigger] c2[i] == c1[i],
        vars_cached(tables, c1, e, t),
    ensures
        vars_cached(tables, c2, e, t),
        enc_eval(tables, asg, c2, e, t) == enc_eval(tables, asg, c1, e, t),
    decreases e,
{
    match e {
        Expr::Name(n) => {
            if lookup(tables.0, n@) is None && lookup(tables.1, n@) is None {
                lemma_cache_lookup_extend(c1, c2, n@, t);
            }
        },
        Expr::PrimedName(n) => {
            lemma_cache_lookup_extend(c1, c2, n@, t + 1);
        },
        Expr::Unary { op, expr } => {
            if op is Next {
                lemma_enc_eval_extend(tables, asg, c1, c2, *expr, t + 1);
            } else {
                lemma_enc_eval_extend(tables, asg, c1, c2, *expr, t);
            }
        },
        Expr::Binary { lhs, rhs, .. } => {
            lemma_enc_eval_extend(tables, asg, c1, c2, *lhs, t);
            lemma_enc_eval_extend(tables, asg, c1, c2, *rhs, t);
        },
        _ => {},
    }
}

/// Some pair of alternatives, one of each, both selected, satisfies `op`.
pub open spec fn int_pair_hit(asg: Seq<bool>, a: Seq<(i64, SatLit)>, b: Seq<(i64, SatLit)>, op: BinaryOp) -> bool {
    exists|x: int, y: int| 0 <= x < a.len() && 0 <= y < b.len()
        && #[trigger] lit_val(asg, a[x].1 as int) && #[trigger] lit_val(asg, b[y].1 as int)
        && relation_holds(op, a[x].0, b[y].0)
}

/// Each literal of `conjs` is the conjunction of the pair of alternatives
/// `src` records for it, a pair that satisfies `op`.
pub open spec fn pair_srcs(a: Seq<(i64, SatLit)>, b: Seq<(i64, SatLit)>, op: BinaryOp, conjs: Seq<SatLit>, src: Seq<(int, int)>, f: Seq<Seq<SatLit>>) -> bool {
    &&& src.len() == conjs.len()
    &&& forall|k: int| 0 <= k < conjs.len() ==> {
        let (x, y) = #[trigger] src[k];
        &&& 0 <= x < a.len()
        &&& 0 <= y < b.len()
        &&& relation_holds(op, a[x].0, b[y].0)
    }
    &&& forall|asg: Seq<bool>| #[trigger] satisfies(asg, f) ==>
        forall|k: int| 0 <= k < conjs.len() ==> lit_val(asg, #[trigger] conjs[k] as int)
            == (lit_val(asg, a[src[k].0].1 as int) && lit_val(asg, b[src[k].1].1 as int))
}

proof fn lemma_pair_srcs_grow(a: Seq<(i64, SatLit)>, b: Seq<(i64, SatLit)>, op: BinaryOp, conjs: Seq<SatLit>, src: Seq<(int, int)>, f1: Seq<Seq<SatLit>>, f2: Seq<Seq<SatLit>>)
    requires
        pair_srcs(a, b, op, conjs, src, f1),
        f1.len() <= f2.len(),
        forall|i: int| 0 <= i < f1.len() ==> #[trigger] f2[i] == f1[i],
    ensures
        pair_srcs(a, b, op, conjs, src, f2),
{
    assert forall|asg: Seq<bool>| #[trigger] satisfies(asg, f2) implies
        forall|k: int| 0 <= k < conjs.len() ==> lit_val(asg, #[trigger] conjs[k] as int)
            == (lit_val(asg, a[src[k].0].1 as int) && lit_val(asg, b[src[k].1].1 as int)) by {
        lemma_satisfies_prefix(asg, f1, f2);
    }
}

/// Some pair of alternatives, one of each, both selected, is the same variant.
pub open spec fn enum_pair_hit(asg: Seq<bool>, a: Seq<(String, SatLit)>, b: Seq<(String, SatLit)>) -> bool {
    exists|x: int, y: int| 0 <= x < a.len() && 0 <= y < b.len()
        && #[trigger] lit_val(asg, a[x].1 as int) && #[trigger] lit_val(asg, b[y].1 as int)
        && a[x].0@ == b[y].0@
}

/// Each literal of `conjs` is the conjunction of the pair of alternatives
/// `src` records for it, a pair of the same variant.
pub open spec fn enum_pair_srcs(a: Seq<(String, SatLit)>, b: Seq<(String, SatLit)>, conjs: Seq<SatLit>, src: Seq<(int, int)>, f: Seq<Seq<SatLit>>) -> bool {
    &&& src.len() == conjs.len()
    &&& forall|k: int| 0 <= k < conjs.len() ==> {
        let (x, y) = #[trigger] src[k];
        &&& 0 <= x < a.len()
        &&& 0 <= y < b.len()
        &&& a[x].0@ == b[y].0@
    }
    &&& forall|asg: Seq<bool>| #[trigger] satisfies(asg, f) ==>
        forall|k: int| 0 <= k < conjs.len() ==> lit_val(asg, #[trigger] conjs[k] as int)
            == (lit_val(asg, a[src[k].0].1 as int) && lit_val(asg, b[src[k].1].1 as int))
}

proof fn lemma_enum_pair_srcs_grow(a: Seq<(String, SatLit)>, b: Seq<(String, SatLit)>, conjs: Seq<SatLit>, src: Seq<(int, int)>, f1: Seq<Seq<SatLit>>, f2: Seq<Seq<SatLit>>)
    requires
        enum_pair_srcs(a, b, conjs, src, f1),
        f1.len() <= f2.len(),
        forall|i: int| 0 <= i < f1.len() ==> #[trigger] f2[i] == f1[i],
    ensures
        enum_pair_srcs(a, b, conjs, src, f2),
{
    assert forall|asg: Seq<bool>| #[trigger] satisfies(asg, f2) implies
        forall|k: int| 0 <= k < conjs.len() ==> lit_val(asg, #[trigger] conjs[k] as int)
            == (lit_val(asg, a[src[k].0].1 as int) && lit_val(asg, b[src[k].1].1 as int)) by {
        lemma_satisfies_prefix(asg, f1, f2);
    }
}

/// Under `asg`, the values of `l` and `r` satisfy `op` exactly when some
/// selected pair of their alternatives does.
pub proof fn lemma_int_pair_hit(asg: Seq<bool>, a: Seq<(i64, SatLit)>, b: Seq<(i64, SatLit)>, op: BinaryOp, x: i64, y: i64)
    requires
        int_den(asg, a, x),
        int_den(asg, b, y),
    ensures
        int_pair_hit(asg, a, b, op) == relation_holds(op, x, y),
{
    let ka = choose|k: int| 0 <= k < a.len() && #[trigger] lit_val(asg, a[k].1 as int) && a[k].0 == x;
    let kb = choose|k: int| 0 <= k < b.len() && #[trigger] lit_val(asg, b[k].1 as int) && b[k].0 == y;
    if relation_holds(op, x, y) {
        assert(lit_val(asg, a[ka].1 as int) && lit_val(asg, b[kb].1 as int));
    }
    if int_pair_hit(asg, a, b, op) {
        let (i, j) = choose|i: int, j: int| 0 <= i < a.len() && 0 <= j < b.len()
            && #[trigger] lit_val(asg, a[i].1 as int) && #[trigger] lit_val(asg, b[j].1 as int)
            && relation_holds(op, a[i].0, b[j].0);
        assert(a[i].0 == x);
        assert(b[j].0 == y);
    }
}

pub proof fn lemma_enum_pair_hit(asg: Seq<bool>, a: Seq<(String, SatLit)>, b: Seq<(String, SatLit)>, x: Seq<char>, y: Seq<char>)
    requires
        enum_den(asg, a, x),
        enum_den(asg, b, y),
    ensures
        enum_pair_hit(asg, a, b) == (x == y),
{
    let ka = choose|k: int| 0 <= k < a.len() && #[trigger] lit_val(asg, a[k].1 as int) && a[k].0@ == x;
    let kb = choose|k: int| 0 <= k < b.len() && #[trigger] lit_val(asg, b[k].1 as int) && b[k].0@ == y;
    if x == y {
        assert(lit_val(asg, a[ka].1 as int) && lit_val(asg, b[kb].1 as int));
    }
    if enum_pair_hit(asg, a, b) {
        let (i, j) = choose|i: int, j: int| 0 <= i < a.len() && 0 <= j < b.len()
            && #[trigger] lit_val(asg, a[i].1 as int) && #[trigger] lit_val(asg, b[j].1 as int)
            && a[i].0@ == b[j].0@;
        assert(a[i].0@ == x);
        assert(b[j].0@ == y);
    }
}

/// Under `asg`, `lit` is true exactly when the values of `l` and `r` are equal.
pub open spec fn eq_lit_ok(asg: Seq<bool>, l: SymVal, r: SymVal, lit: SatLit) -> bool {
    forall|x: Value, y: Value| #[trigger] den(asg, l, x) && #[trigger] den(asg, r, y)
        ==> lit_val(asg, lit as int) == same_value(x, y)
}

/// Under `asg`, whenever `l` and `r` take values that `op` is defined on,
/// `v` takes the value `op` gives.
pub open spec fn bin_ok(asg: Seq<bool>, op: BinaryOp, l: SymVal, r: SymVal, v: SymVal) -> bool {
    forall|x: Value, y: Value| #[trigger] den(asg, l, x) && #[trigger] den(asg, r, y)
        ==> (spec_eval_binary(op, x, y) matches Some(z) ==> den(asg, v, z))
}

/// Some group records the pair of alternatives `(x, y)`.
pub open spec fn group_has(src: Seq<Seq<(int, int)>>, x: int, y: int) -> bool {
    exists|g: int, m: int| 0 <= g < src.len() && 0 <= m < src[g].len() && #[trigger] src[g][m] == (x, y)
}

/// Each literal of group `g` is the conjunction of the pair of alternatives
/// `src` records for it, a pair whose result is `vals[g]`.
pub open spec fn group_srcs(
    a: Seq<(i64, SatLit)>,
    b: Seq<(i64, SatLit)>,
    op: BinaryOp,
    vals: Seq<i64>,
    groups: Seq<Vec<SatLit>>,
    src: Seq<Seq<(int, int)>>,
    f: Seq<Seq<SatLit>>,
) -> bool {
    &&& src.len() == groups.len()
    &&& vals.len() == groups.len()
    &&& forall|g: int| 0 <= g < groups.len() ==> (#[trigger] src[g]).len() == groups[g]@.len()
    &&& forall|g: int, m: int| 0 <= g < src.len() && 0 <= m < src[g].len() ==> {
        let (x, y) = #[trigger] src[g][m];
        &&& 0 <= x < a.len()
        &&& 0 <= y < b.len()
        &&& arith_val(op, a[x].0, b[y].0) == Some(vals[g])
    }
    &&& forall|asg: Seq<bool>| #[trigger] satisfies(asg, f) ==>
        forall|g: int, m: int| 0 <= g < src.len() && 0 <= m < src[g].len() ==> lit_val(asg, #[trigger] groups[g]@[m] as int)
            == (lit_val(asg, a[src[g][m].0].1 as int) && lit_val(asg, b[src[g][m].1].1 as int))
}

proof fn lemma_group_srcs_grow(
    a: Seq<(i64, SatLit)>,
    b: Seq<(i64, SatLit)>,
    op: BinaryOp,
    vals: Seq<i64>,
    groups: Seq<Vec<SatLit>>,
    src: Seq<Seq<(int, int)>>,
    f1: Seq<Seq<SatLit>>,
    f2: Seq<Seq<SatLit>>,
)
    requires
        group_srcs(a, b, op, vals, groups, src, f1),
        f1.len() <= f2.len(),
        forall|i: int| 0 <= i < f1.len() ==> #[trigger] f2[i] == f1[i],
    ensures
        group_srcs(a, b, op, vals, groups, src, f2),
{
    assert forall|asg: Seq<bool>| #[trigger] satisfies(asg, f2) implies
        forall|g: int, m: int| 0 <= g < src.len() && 0 <= m < src[g].len() ==> lit_val(asg, #[trigger] groups[g]@[m] as int)
            == (lit_val(asg, a[src[g][m].0].1 as int) && lit_val(asg, b[src[g][m].1].1 as int)) by {
        lemma_satisfies_prefix(asg, f1, f2);
    }
}

/// Adding the literal `c` of pair `(i, j)` to the existing group `p`.
proof fn lemma_group_add(
    a: Seq<(i64, SatLit)>,
    b: Seq<(i64, SatLit)>,
    op: BinaryOp,
    vals0: Seq<i64>,
    groups0: Seq<Vec<SatLit>>,
    src0: Seq<Seq<(int, int)>>,
    f: Seq<Seq<SatLit>>,
    vals: Seq<i64>,
    groups: Seq<Vec<SatLit>>,
    src: Seq<Seq<(int, int)>>,
    p: int,
    i: int,
    j: int,
    c: SatLit,
)
    requires
        group_srcs(a, b, op, vals0, groups0, src0, f),
        0 <= p < groups0.len(),
        0 <= i < a.len(),
        0 <= j < b.len(),
        arith_val(op, a[i].0, b[j].0) == Some(vals0[p]),
        vals == vals0,
        groups.len() == groups0.len(),
        forall|g: int| 0 <= g < groups.len() && g != p ==> #[trigger] groups[g] == groups0[g],
        groups[p]@ == groups0[p]@.push(c),
        src == src0.update(p, src0[p].push((i, j))),
        forall|asg: Seq<bool>| #[trigger] satisfies(asg, f) ==> lit_val(asg, c as int) == (lit_val(asg, a[i].1 as int) && lit_val(asg, b[j].1 as int)),
    ensures
        group_srcs(a, b, op, vals, groups, src, f),
{
    assert forall|g: int| 0 <= g < groups.len() implies (#[trigger] src[g]).len() == groups[g]@.len() by {
        if g != p {
            assert(groups[g] == groups0[g]);
        }
    }
    assert forall|g: int, m: int| 0 <= g < src.len() && 0 <= m < src[g].len() implies {
        let (x, y) = #[trigger] src[g][m];
        &&& 0 <= x < a.len()
        &&& 0 <= y < b.len()
        &&& arith_val(op, a[x].0, b[y].0) == Some(vals[g])
    } by {
        if g != p || m < src0[p].len() {
            assert(src[g][m] == src0[g][m]);
        }
    }
    assert forall|asg: Seq<bool>| #[trigger] satisfies(asg, f) implies
        forall|g: int, m: int| 0 <= g < src.len() && 0 <= m < src[g].len() ==> lit_val(asg, #[trigger] groups[g]@[m] as int)
            == (lit_val(asg, a[src[g][m].0].1 as int) && lit_val(asg, b[src[g][m].1].1 as int)) by {
        assert forall|g: int, m: int| 0 <= g < src.len() && 0 <= m < src[g].len() implies lit_val(asg, #[trigger] groups[g]@[m] as int)
            == (lit_val(asg, a[src[g][m].0].1 as int) && lit_val(asg, b[src[g][m].1].1 as int)) by {
            if g != p {
                assert(groups[g] == groups0[g]);
                assert(src[g] == src0[g]);
            } else if m < src0[p].len() {
                assert(groups[g]@[m] == groups0[g]@[m]);
                assert(src[g][m] == src0[g][m]);
            }
        }
    }
}

/// Inserting the new group `[c]` of pair `(i, j)` at position `p`.
proof fn lemma_group_new(
    a: Seq<(i64, SatLit)>,
    b: Seq<(i64, SatLit)>,
    op: BinaryOp,
    vals0: Seq<i64>,
    groups0: Seq<Vec<SatLit>>,
    src0: Seq<Seq<(int, int)>>,
    f: Seq<Seq<SatLit>>,
    vals: Seq<i64>,
    groups: Seq<Vec<SatLit>>,
    src: Seq<Seq<(int, int)>>,
    p: int,
    i: int,
    j: int,
    c: SatLit,
)
    requires
        group_srcs(a, b, op, vals0, groups0, src0, f),
        0 <= p <= groups0.len(),
        0 <= i < a.len(),
        0 <= j < b.len(),
        arith_val(op, a[i].0, b[j].0) == Some(vals[p]),
        vals == vals0.insert(p, vals[p]),
        groups.len() == groups0.len() + 1,
        forall|g: int| 0 <= g < p ==> #[trigger] groups[g] == groups0[g],
        forall|g: int| p < g < groups.len() ==> #[trigger] groups[g] == groups0[g - 1],
        groups[p]@ == seq![c],
        src == src0.insert(p, seq![(i, j)]),
        forall|asg: Seq<bool>| #[trigger] satisfies(asg, f) ==> lit_val(asg, c as int) == (lit_val(asg, a[i].1 as int) && lit_val(asg, b[j].1 as int)),
    ensures
        group_srcs(a, b, op, vals, groups, src, f),
{
    assert forall|g: int| 0 <= g < groups.len() implies (#[trigger] src[g]).len() == groups[g]@.len() by {
        if g < p {
            assert(groups[g] == groups0[g]);
        } else if g > p {
            assert(groups[g] == groups0[g - 1]);
        }
    }
    assert forall|g: int, m: int| 0 <= g < src.len() && 0 <= m < src[g].len() implies {
        let (x, y) = #[trigger] src[g][m];
        &&& 0 <= x < a.len()
        &&& 0 <= y < b.len()
        &&& arith_val(op, a[x].0, b[y].0) == Some(vals[g])
    } by {
        if g < p {
            assert(src[g] == src0[g]);
            assert(vals[g] == vals0[g]);
        } else if g > p {
            assert(src[g] == src0[g - 1]);
            assert(vals[g] == vals0[g - 1]);
        }
    }
    assert forall|asg: Seq<bool>| #[trigger] satisfies(asg, f) implies
        forall|g: int, m: int| 0 <= g < src.len() && 0 <= m < src[g].len() ==> lit_val(asg, #[trigger] groups[g]@[m] as int)
            == (lit_val(asg, a[src[g][m].0].1 as int) && lit_val(asg, b[src[g][m].1].1 as int)) by {
        assert forall|g: int, m: int| 0 <= g < src.len() && 0 <= m < src[g].len() implies lit_val(asg, #[trigger] groups[g]@[m] as int)
            == (lit_val(asg, a[src[g][m].0].1 as int) && lit_val(asg, b[src[g][m].1].1 as int)) by {
            if g < p {
                assert(groups[g] == groups0[g]);
                assert(src[g] == src0[g]);
            } else if g > p {
                assert(groups[g] == groups0[g - 1]);
                assert(src[g] == src0[g - 1]);
            }
        }
    }
}

proof fn lemma_group_has_update(src0: Seq<Seq<(int, int)>>, src: Seq<Seq<(int, int)>>, p: int, x: int, y: int)
    requires
        0 <= p < src0.len(),
        group_has(src0, x, y),
        src.len() == src0.len(),
        forall|g: int| 0 <= g < src.len() && g != p ==> #[trigger] src[g] == src0[g],
        src[p].len() >= src0[p].len(),
        forall|m: int| 0 <= m < src0[p].len() ==> #[trigger] src[p][m] == src0[p][m],
    ensures
        group_has(src, x, y),
{
    let (g, m) = choose|g: int, m: int| 0 <= g < src0.len() && 0 <= m < src0[g].len() && #[trigger] src0[g][m] == (x, y);
    if g == p {
        assert(src[p][m] == src0[p][m]);
    } else {
        assert(src[g] == src0[g]);
        assert(src[g][m] == (x, y));
    }
}

proof fn lemma_group_has_insert(src0: Seq<Seq<(int, int)>>, src: Seq<Seq<(int, int)>>, p: int, x: int, y: int)
    requires
        0 <= p <= src0.len(),
        group_has(src0, x, y),
        src.len() == src0.len() + 1,
        forall|g: int| 0 <= g < p ==> #[trigger] src[g] == src0[g],
        forall|g: int| p < g < src.len() ==> #[trigger] src[g] == src0[g - 1],
    ensures
        group_has(src, x, y),
{
    let (g, m) = choose|g: int, m: int| 0 <= g < src0.len() && 0 <= m < src0[g].len() && #[trigger] src0[g][m] == (x, y);
    if g < p {
        assert(src[g] == src0[g]);
        assert(src[g][m] == (x, y));
    } else {
        assert(src[g + 1] == src0[g]);
        assert(src[g + 1][m] == (x, y));
    }
}

/// Under `asg`, whenever the expression has a value at step `t`, the
/// symbolic value `v` takes it.
pub open spec fn encodes(tables: Tables, asg: Seq<bool>, c: Seq<(String, usize, SymVal)>, e: Expr, t: int, v: SymVal) -> bool {
    enc_eval(tables, asg, c, e, t) matches Some(val) ==> den(asg, v, val)
}

pub struct Encoder<S: Solver> {
    solver: S,
    /// Every clause given to the solver, in order.
    clauses: Vec<Vec<SatLit>>,
    /// Resolved constants from `const` declarations.
    constants: Vec<(String, ConstValue)>,
    /// Each enum variant name with the name of its enum type.
    enum_variant_type: Vec<(String, String)>,
    /// The resolved domain of each declared variable.
    domains: Vec<(String, ResolvedDomain)>,
    /// The symbolic value of each state variable at each time step allocated so far.
    var_cache: Vec<(String, usize, SymVal)>,
    /// A literal that every satisfying assignment makes true.
    true_lit: SatLit,
    /// The clauses the solver held before the encoder was made.
    prior: Ghost<Seq<Seq<SatLit>>>,
}

impl<S: Solver> Encoder<S> {
    /// The clauses given to the solver so far.
    pub closed spec fn formula(&self) -> Seq<Seq<SatLit>> {
        self.clauses@.map_values(|c: Vec<SatLit>| c@)
    }

    /// The number of variables allocated.
    pub closed spec fn num_vars(&self) -> nat {
        self.solver.vars()
    }

    /// The symbolic values allocated for state variables so far.
    pub closed spec fn cache(&self) -> Seq<(String, usize, SymVal)> {
        self.var_cache@
    }

    /// The constants, enum variants and domains the encoder resolves names with.
    pub closed spec fn tables(&self) -> (Seq<(String, ConstValue)>, Seq<(String, String)>, Seq<(String, ResolvedDomain)>) {
        (self.constants@, self.enum_variant_type@, self.domains@)
    }

    /// The clauses the solver held before the encoder was made.
    pub closed spec fn prior(&self) -> Seq<Seq<SatLit>> {
        self.prior@
    }

    pub closed spec fn truth(&self) -> SatLit {
        self.true_lit
    }

    pub closed spec fn backend(&self) -> S {
        self.solver
    }

    /// The assignment the solver's last model gives the variables, indexed
    /// from 1.
    pub closed spec fn model(&self) -> Seq<bool> {
        Seq::new(self.num_vars() + 1, |v: int| self.solver.model_val(v))
    }

    /// Under every assignment satisfying the clauses, every cached symbolic
    /// value takes some value.
    pub closed spec fn sound(&self) -> bool {
        forall|asg: Seq<bool>| #[trigger] satisfies(asg, self.formula())
            ==> forall|i: int| 0 <= i < self.var_cache@.len() ==> has_den(asg, #[trigger] self.var_cache@[i].2)
    }

    /// Every literal used is in range, the solver has room for what was
    /// allocated, the true literal is asserted, and the cached values are
    /// sound.
    pub closed spec fn wf(&self) -> bool {
        &&& self.solver.clauses() == self.prior@ + self.formula()
        &&& clauses_in_range(self.prior@, self.solver.vars())
        &&& self.solver.vars() <= self.solver.limit()
        &&& self.solver.limit() < i32::MAX
        &&& lit_ok(self.true_lit as int, self.solver.vars())
        &&& self.true_lit > 0
        &&& forall|i: int| 0 <= i < self.clauses@.len() ==> clause_ok((#[trigger] self.clauses@[i])@, self.solver.vars())
        &&& self.clauses@.len() > 0
        &&& self.clauses@[0]@ == seq![self.true_lit]
        &&& forall|i: int| 0 <= i < self.var_cache@.len() ==> sym_ok((#[trigger] self.var_cache@[i]).2, self.solver.vars())
        &&& self.sound()
    }

    /// `new` extends `old`: same clauses first, at least as many variables.
    pub open spec fn grows(old: Self, new: Self) -> bool {
        &&& new.wf()
        &&& old.num_vars() <= new.num_vars()
        &&& old.formula().len() <= new.formula().len()
        &&& forall|i: int| 0 <= i < old.formula().len() ==> #[trigger] new.formula()[i] == old.formula()[i]
        &&& new.truth() == old.truth()
        &&& old.cache().len() <= new.cache().len()
        &&& forall|i: int| 0 <= i < old.cache().len() ==> #[trigger] new.cache()[i] == old.cache()[i]
        &&& new.tables() == old.tables()
    }

    pub fn new(
        solver: S,
        constants: Vec<(String, ConstValue)>,
        enum_variant_type: Vec<(String, String)>,
        domains: Vec<(String, ResolvedDomain)>,
    ) -> (r: Self)
        requires
            solver.vars() < solver.limit(),
            clauses_in_range(solver.clauses(), solver.vars()),
        ensures
            r.wf(),
            r.tables() == (constants@, enum_variant_type@, domains@),
            r.formula() == seq![seq![r.truth()]],
            r.prior() == solver.clauses(),
            r.num_vars() == solver.vars() + 1,
    {
        let mut solver = solver;
        let ghost given = solver.clauses();
        proof {
            solver.lemma_limit();
        }
        let true_var = solver.new_var();
        let unit = vec![true_var];
        assert(unit@ =~= seq![true_var]);
        solver.add_clause(unit.as_slice());
        let mut clauses: Vec<Vec<SatLit>> = Vec::new();
        clauses.push(unit);
        let r = Self {
            solver,
            clauses,
            constants,
            enum_variant_type,
            domains,
            var_cache: Vec::new(),
            true_lit: true_var,
            prior: Ghost(given),
        };
        assert(r.formula() =~= seq![seq![r.truth()]]);
        proof {
            assert(r.sound());
            assert(r.solver.clauses() =~= given + r.formula());
        }
        r
    }

    fn false_lit(&self) -> (r: SatLit)
        requires
            self.wf(),
        ensures
            r == -self.truth(),
            lit_ok(r as int, self.num_vars()),
    {
        -self.true_lit
    }

    /// A literal that is true under every assignment satisfying the clauses.
    pub fn true_lit_value(&self) -> (r: SatLit)
        ensures
            r == self.truth(),
    {
        self.true_lit
    }

    /// Gives a clause to the solver and records it.
    fn push_clause(&mut self, clause: Vec<SatLit>)
        requires
            old(self).wf(),
            clause_ok(clause@, old(self).num_vars()),
        ensures
            final(self).wf(),
            final(self).formula() == old(self).formula().push(clause@),
            final(self).num_vars() == old(self).num_vars(),
            final(self).backend().limit() == old(self).backend().limit(),
            final(self).truth() == old(self).truth(),
            final(self).var_cache@ == old(self).var_cache@,
            final(self).domains@ == old(self).domains@,
            final(self).constants@ == old(self).constants@,
            final(self).enum_variant_type@ == old(self).enum_variant_type@,
            final(self).prior() == old(self).prior(),
    {
        self.solver.add_clause(clause.as_slice());
        self.clauses.push(clause);
        proof {
            assert(self.formula() =~= old(self).formula().push(clause@));
            assert(self.solver.clauses() =~= self.prior@ + self.formula());
            assert forall|asg: Seq<bool>| #[trigger] satisfies(asg, self.formula()) implies
                forall|i: int| 0 <= i < self.var_cache@.len() ==> has_den(asg, #[trigger] self.var_cache@[i].2) by {
                lemma_satisfies_prefix(asg, old(self).formula(), self.formula());
                assert(satisfies(asg, old(self).formula()));
                assert forall|i: int| 0 <= i < self.var_cache@.len() implies has_den(asg, #[trigger] self.var_cache@[i].2) by {
                    assert(self.var_cache@[i] == old(self).var_cache@[i]);
                    assert(has_den(asg, old(self).var_cache@[i].2));
                }
            }
            assert(self.sound());
        }
    }

    /// Gives a clause to the solver.
    pub fn add_clause(&mut self, clause: &[SatLit])
        requires
            old(self).wf(),
            clause_ok(clause@, old(self).num_vars()),
        ensures
            final(self).wf(),
            Self::grows(*old(self), *final(self)),
            final(self).formula() == old(self).formula().push(clause@),
            final(self).num_vars() == old(self).num_vars(),
            final(self).truth() == old(self).truth(),
    {
        let mut copy: Vec<SatLit> = Vec::new();
        let mut i: usize = 0;
        while i < clause.len()
            invariant
                i <= clause@.len(),
                copy@ == clause@.take(i as int),
            decreases clause@.len() - i,
        {
            copy.push(clause[i]);
            proof {
                assert(clause@.take(i as int + 1) == clause@.take(i as int).push(clause@[i as int]));
            }
            i = i + 1;
        }
        assert(clause@.take(clause@.len() as int) == clause@);
        self.push_clause(copy);
    }

    /// Requires `lit` to be true.
    pub fn assert_lit(&mut self, lit: SatLit)
        requires
            old(self).wf(),
            lit_ok(lit as int, old(self).num_vars()),
        ensures
            final(self).wf(),
            Self::grows(*old(self), *final(self)),
            final(self).formula() == old(self).formula().push(seq![lit]),
            final(self).num_vars() == old(self).num_vars(),
            final(self).truth() == old(self).truth(),
            forall|asg: Seq<bool>| #[trigger] satisfies(asg, final(self).formula()) ==> lit_val(asg, lit as int),
    {
        let c = vec![lit];
        assert(c@ =~= seq![lit]);
        self.push_clause(c);
        proof {
            assert forall|asg: Seq<bool>| #[trigger] satisfies(asg, self.formula()) implies lit_val(asg, lit as int) by {
                let n = old(self).formula().len() as int;
                assert(clause_sat(asg, self.formula()[n]));
                lemma_clause1(asg, lit);
            }
        }
    }

    /// A fresh variable.
    pub fn solver_new_var(&mut self) -> (r: Result<SatLit>)
        requires
            old(self).wf(),
        ensures
            final(self).wf(),
            Self::grows(*old(self), *final(self)),
            final(self).formula() == old(self).formula(),
            final(self).truth() == old(self).truth(),
            final(self).cache() == old(self).cache(),
            final(self).tables() == old(self).tables(),
            r matches Ok(v) ==> v > 0 && v == final(self).num_vars() && final(self).num_vars() == old(self).num_vars() + 1,
            r is Err ==> final(self).num_vars() == old(self).num_vars() && is_model_err(r),
            r is Ok <==> old(self).num_vars() < old(self).backend().limit(),
            final(self).backend().limit() == old(self).backend().limit(),
    {
        if !self.solver.can_add_var() {
            return Err(CaelumError::Model { message: "BMC encoder: the SAT solver has no room for more variables".to_owned() });
        }
        let v = self.solver.new_var();
        proof {
            assert(self.formula() == old(self).formula());
            assert(old(self).sound());
            assert(self.var_cache@ == old(self).var_cache@);
            assert forall|asg: Seq<bool>| #[trigger] satisfies(asg, self.formula()) implies
                forall|i: int| 0 <= i < self.var_cache@.len() ==> has_den(asg, #[trigger] self.var_cache@[i].2) by {
                assert(satisfies(asg, old(self).formula()));
                assert forall|i: int| 0 <= i < self.var_cache@.len() implies has_den(asg, #[trigger] self.var_cache@[i].2) by {
                    assert(self.var_cache@[i] == old(self).var_cache@[i]);
                    assert(has_den(asg, old(self).var_cache@[i].2));
                }
            }
            assert(self.sound());
            assert forall|i: int| 0 <= i < self.clauses@.len() implies clause_ok((#[trigger] self.clauses@[i])@, self.solver.vars()) by {
                assert(clause_ok(self.clauses@[i]@, old(self).solver.vars()));
            }
            assert forall|i: int| 0 <= i < self.var_cache@.len() implies sym_ok((#[trigger] self.var_cache@[i]).2, self.solver.vars()) by {
                let sv = self.var_cache@[i].2;
                assert(sym_ok(sv, old(self).solver.vars()));
            }
        }
        Ok(v)
    }

    /// A fresh literal `r` with `r ↔ a ∧ b`.
    pub fn band(&mut self, a: SatLit, b: SatLit) -> (r: Result<SatLit>)
        requires
            old(self).wf(),
            lit_ok(a as int, old(self).num_vars()),
            lit_ok(b as int, old(self).num_vars()),
        ensures
            Self::grows(*old(self), *final(self)),
            r matches Ok(x) ==> lit_ok(x as int, final(self).num_vars())
                && forall|asg: Seq<bool>| #[trigger] satisfies(asg, final(self).formula())
                    ==> lit_val(asg, x as int) == (lit_val(asg, a as int) && lit_val(asg, b as int)),
            r is Ok <==> old(self).num_vars() < old(self).backend().limit(),
            final(self).backend().limit() == old(self).backend().limit(),
            r is Ok ==> final(self).num_vars() == old(self).num_vars() + 1,
            r matches Ok(x) ==> x == old(self).num_vars() + 1 && final(self).formula() == old(self).formula()
                + seq![seq![(-x) as i32, a], seq![(-x) as i32, b], seq![(-a) as i32, (-b) as i32, x]],
            r is Err ==> is_model_err(r),
    {
        let r = self.solver_new_var()?;
        let ghost n = self.formula().len() as int;
        let (nr, na, nb) = (-r, -a, -b);
        self.push_clause(vec![nr, a]);
        self.push_clause(vec![nr, b]);
        self.push_clause(vec![na, nb, r]);
        proof {
            assert(self.formula() =~= old(self).formula()
                + seq![seq![(-r) as i32, a], seq![(-r) as i32, b], seq![(-a) as i32, (-b) as i32, r]]);
            assert forall|asg: Seq<bool>| #[trigger] satisfies(asg, self.formula())
                implies lit_val(asg, r as int) == (lit_val(asg, a as int) && lit_val(asg, b as int)) by {
                assert(clause_sat(asg, self.formula()[n]));
                assert(clause_sat(asg, self.formula()[n + 1]));
                assert(clause_sat(asg, self.formula()[n + 2]));
                lemma_clause2(asg, nr, a);
                lemma_clause2(asg, nr, b);
                lemma_clause3(asg, na, nb, r);
                lemma_neg_lit(asg, r as int);
                lemma_neg_lit(asg, a as int);
                lemma_neg_lit(asg, b as int);
            }
        }
        Ok(r)
    }

    /// A fresh literal `r` with `r ↔ a ∨ b`.
    pub fn bor(&mut self, a: SatLit, b: SatLit) -> (r: Result<SatLit>)
        requires
            old(self).wf(),
            lit_ok(a as int, old(self).num_vars()),
            lit_ok(b as int, old(self).num_vars()),
        ensures
            Self::grows(*old(self), *final(self)),
            r matches Ok(x) ==> lit_ok(x as int, final(self).num_vars())
                && forall|asg: Seq<bool>| #[trigger] satisfies(asg, final(self).formula())
                    ==> lit_val(asg, x as int) == (lit_val(asg, a as int) || lit_val(asg, b as int)),
            r is Ok <==> old(self).num_vars() < old(self).backend().limit(),
            final(self).backend().limit() == old(self).backend().limit(),
            r is Ok ==> final(self).num_vars() == old(self).num_vars() + 1,
            r matches Ok(x) ==> x == old(self).num_vars() + 1 && final(self).formula() == old(self).formula()
                + seq![seq![(-a) as i32, x], seq![(-b) as i32, x], seq![(-x) as i32, a, b]],
            r is Err ==> is_model_err(r),
    {
        let r = self.solver_new_var()?;
        let ghost n = self.formula().len() as int;
        let (nr, na, nb) = (-r, -a, -b);
        self.push_clause(vec![na, r]);
        self.push_clause(vec![nb, r]);
        self.push_clause(vec![nr, a, b]);
        proof {
            assert(self.formula() =~= old(self).formula()
                + seq![seq![(-a) as i32, r], seq![(-b) as i32, r], seq![(-r) as i32, a, b]]);
            assert forall|asg: Seq<bool>| #[trigger] satisfies(asg, self.formula())
                implies lit_val(asg, r as int) == (lit_val(asg, a as int) || lit_val(asg, b as int)) by {
                assert(clause_sat(asg, self.formula()[n]));
                assert(clause_sat(asg, self.formula()[n + 1]));
                assert(clause_sat(asg, self.formula()[n + 2]));
                lemma_clause2(asg, na, r);
                lemma_clause2(asg, nb, r);
                lemma_clause3(asg, nr, a, b);
                lemma_neg_lit(asg, r as int);
                lemma_neg_lit(asg, a as int);
                lemma_neg_lit(asg, b as int);
            }
        }
        Ok(r)
    }

    /// Fewer variables than `i32::MAX` are allocated, so every literal in
    /// range can be negated.
    pub proof fn lemma_vars_bound(&self)
        requires
            self.wf(),
        ensures
            self.num_vars() < i32::MAX,
    {
    }

    /// The true literal is true under every satisfying assignment.
    pub proof fn lemma_truth(&self, asg: Seq<bool>)
        requires
            self.wf(),
            satisfies(asg, self.formula()),
        ensures
            lit_val(asg, self.truth() as int),
    {
        assert(clause_sat(asg, self.formula()[0]));
        lemma_clause1(asg, self.true_lit);
    }

    /// A literal `r` with `r ↔ ⋁ lits` (false for no literals).
    pub fn bor_many(&mut self, lits: &[SatLit]) -> (r: Result<SatLit>)
        requires
            old(self).wf(),
            forall|k: int| 0 <= k < lits@.len() ==> lit_ok(#[trigger] lits@[k] as int, old(self).num_vars()),
        ensures
            Self::grows(*old(self), *final(self)),
            r matches Ok(x) ==> lit_ok(x as int, final(self).num_vars())
                && forall|asg: Seq<bool>| #[trigger] satisfies(asg, final(self).formula())
                    ==> lit_val(asg, x as int) == any_true(asg, lits@),
            lits@.len() == 0 ==> r == Ok::<SatLit, CaelumError>((-old(self).truth()) as i32) && *final(self) == *old(self),
            lits@.len() == 1 ==> r == Ok::<SatLit, CaelumError>(lits@[0]) && *final(self) == *old(self),
            lits@.len() >= 2 ==> (r is Ok <==> old(self).num_vars() < old(self).backend().limit()),
            lits@.len() >= 2 ==> (r matches Ok(x) ==> x == old(self).num_vars() + 1 && final(self).formula() == old(self).formula()
                + Seq::new(lits@.len(), |k: int| seq![(-lits@[k]) as i32, x]) + seq![seq![(-x) as i32] + lits@]),
            r is Err ==> is_model_err(r),
    {
        if lits.len() == 0 {
            let f = self.false_lit();
            proof {
                assert forall|asg: Seq<bool>| #[trigger] satisfies(asg, self.formula())
                    implies lit_val(asg, f as int) == any_true(asg, lits@) by {
                    self.lemma_truth(asg);
                    lemma_neg_lit(asg, self.true_lit as int);
                }
            }
            return Ok(f);
        }
        if lits.len() == 1 {
            proof {
                assert forall|asg: Seq<bool>| #[trigger] satisfies(asg, self.formula())
                    implies lit_val(asg, lits@[0] as int) == any_true(asg, lits@) by {
                    if any_true(asg, lits@) {
                        let k = choose|k: int| 0 <= k < lits@.len() && lit_val(asg, #[trigger] lits@[k] as int);
                        assert(k == 0);
                    }
                }
            }
            return Ok(lits[0]);
        }
        let r = self.solver_new_var()?;
        let nr = -r;
        let ghost base = self.formula().len() as int;
        let ghost start = *self;
        let mut i: usize = 0;
        while i < lits.len()
            invariant
                self.wf(),
                Self::grows(start, *self),
                self.num_vars() == start.num_vars(),
                self.truth() == start.truth(),
                r > 0,
                r == start.num_vars(),
                nr == -r,
                i <= lits@.len(),
                base == start.formula().len(),
                self.formula().len() == base + i,
                forall|k: int| 0 <= k < lits@.len() ==> lit_ok(#[trigger] lits@[k] as int, self.num_vars()),
                forall|k: int| 0 <= k < i ==> #[trigger] self.formula()[base + k] == seq![(-lits@[k]) as i32, r],
            decreases lits@.len() - i,
        {
            let l = lits[i];
            let nl = -l;
            let c = vec![nl, r];
            assert(c@ =~= seq![(-lits@[i as int]) as i32, r]);
            self.push_clause(c);
            i = i + 1;
        }
        let mut big: Vec<SatLit> = Vec::new();
        big.push(nr);
        let mut j: usize = 0;
        while j < lits.len()
            invariant
                j <= lits@.len(),
                big@ == seq![nr] + lits@.take(j as int),
            decreases lits@.len() - j,
        {
            big.push(lits[j]);
            proof {
                assert(lits@.take(j as int + 1) == lits@.take(j as int).push(lits@[j as int]));
                assert(big@ =~= seq![nr] + lits@.take(j as int + 1));
            }
            j = j + 1;
        }
        assert(lits@.take(lits@.len() as int) == lits@);
        let ghost last = self.formula().len() as int;
        let ghost mid = self.formula();
        self.push_clause(big);
        proof {
            assert(mid =~= start.formula() + Seq::new(lits@.len(), |k: int| seq![(-lits@[k]) as i32, r])) by {
                assert forall|k: int| 0 <= k < lits@.len() implies mid[base + k] == seq![(-lits@[k]) as i32, r] by {}
            }
            assert(self.formula() =~= mid.push(seq![nr] + lits@));
            assert forall|asg: Seq<bool>| #[trigger] satisfies(asg, self.formula())
                implies lit_val(asg, r as int) == any_true(asg, lits@) by {
                assert(clause_sat(asg, self.formula()[last]));
                lemma_clause_cons(asg, nr, lits@);
                lemma_neg_lit(asg, r as int);
                if any_true(asg, lits@) {
                    let k = choose|k: int| 0 <= k < lits@.len() && lit_val(asg, #[trigger] lits@[k] as int);
                    assert(clause_sat(asg, self.formula()[base + k]));
                    lemma_clause2(asg, (-lits@[k]) as i32, r);
                    lemma_neg_lit(asg, lits@[k] as int);
                }
            }
        }
        Ok(r)
    }

    /// A literal `r` with `r ↔ ⋀ lits` (true for no literals).
    pub fn band_many(&mut self, lits: &[SatLit]) -> (r: Result<SatLit>)
        requires
            old(self).wf(),
            forall|k: int| 0 <= k < lits@.len() ==> lit_ok(#[trigger] lits@[k] as int, old(self).num_vars()),
        ensures
            Self::grows(*old(self), *final(self)),
            r matches Ok(x) ==> lit_ok(x as int, final(self).num_vars())
                && forall|asg: Seq<bool>| #[trigger] satisfies(asg, final(self).formula())
                    ==> lit_val(asg, x as int) == all_true(asg, lits@),
            lits@.len() == 0 ==> r == Ok::<SatLit, CaelumError>(old(self).truth()) && *final(self) == *old(self),
            lits@.len() == 1 ==> r == Ok::<SatLit, CaelumError>(lits@[0]) && *final(self) == *old(self),
            lits@.len() >= 2 ==> (r is Ok <==> old(self).num_vars() < old(self).backend().limit()),
            r is Err ==> is_model_err(r),
    {
        if lits.len() == 0 {
            let t = self.true_lit;
            proof {
                assert forall|asg: Seq<bool>| #[trigger] satisfies(asg, self.formula())
                    implies lit_val(asg, t as int) == all_true(asg, lits@) by {
                    self.lemma_truth(asg);
                }
            }
            return Ok(t);
        }
        if lits.len() == 1 {
            proof {
                assert forall|asg: Seq<bool>| #[trigger] satisfies(asg, self.formula())
                    implies lit_val(asg, lits@[0] as int) == all_true(asg, lits@) by {
                    if lit_val(asg, lits@[0] as int) {
                        assert forall|k: int| 0 <= k < lits@.len() implies lit_val(asg, #[trigger] lits@[k] as int) by {
                            assert(k == 0);
                        }
                    }
                }
            }
            return Ok(lits[0]);
        }
        let r = self.solver_new_var()?;
        let nr = -r;
        let ghost base = self.formula().len() as int;
        let ghost start = *self;
        let mut i: usize = 0;
        while i < lits.len()
            invariant
                self.wf(),
                Self::grows(start, *self),
                self.num_vars() == start.num_vars(),
                self.truth() == start.truth(),
                r > 0,
                r == start.num_vars(),
                nr == -r,
                i <= lits@.len(),
                base == start.formula().len(),
                self.formula().len() == base + i,
                forall|k: int| 0 <= k < lits@.len() ==> lit_ok(#[trigger] lits@[k] as int, self.num_vars()),
                forall|k: int| 0 <= k < i ==> #[trigger] self.formula()[base + k] == seq![nr, lits@[k]],
            decreases lits@.len() - i,
        {
            let c = vec![nr, lits[i]];
            assert(c@ =~= seq![nr, lits@[i as int]]);
            self.push_clause(c);
            i = i + 1;
        }
        let mut big: Vec<SatLit> = Vec::new();
        let mut j: usize = 0;
        while j < lits.len()
            invariant
                j <= lits@.len(),
                big@.len() == j,
                forall|k: int| 0 <= k < j ==> #[trigger] big@[k] == -lits@[k],
                self.wf(),
                forall|k: int| 0 <= k < lits@.len() ==> lit_ok(#[trigger] lits@[k] as int, self.num_vars()),
            decreases lits@.len() - j,
        {
            let nl = -lits[j];
            big.push(nl);
            j = j + 1;
        }
        let ghost negs = big@;
        big.push(r);
        let ghost last = self.formula().len() as int;
        self.push_clause(big);
        proof {
            assert forall|asg: Seq<bool>| #[trigger] satisfies(asg, self.formula())
                implies lit_val(asg, r as int) == all_true(asg, lits@) by {
                assert(clause_sat(asg, self.formula()[last]));
                lemma_clause_push(asg, negs, r);
                lemma_neg_lit(asg, r as int);
                if all_true(asg, lits@) {
                    if clause_sat(asg, negs) {
                        let k = choose|k: int| 0 <= k < negs.len() && lit_val(asg, #[trigger] negs[k] as int);
                        lemma_neg_lit(asg, lits@[k] as int);
                        assert(lit_val(asg, lits@[k] as int));
                    }
                } else {
                    let k = choose|k: int| 0 <= k < lits@.len() && !lit_val(asg, #[trigger] lits@[k] as int);
                    assert(clause_sat(asg, self.formula()[base + k]));
                    lemma_clause2(asg, nr, lits@[k]);
                }
            }
        }
        Ok(r)
    }

    /// A literal `r` with `r ↔ (a ↔ b)`.
    pub fn biff(&mut self, a: SatLit, b: SatLit) -> (r: Result<SatLit>)
        requires
            old(self).wf(),
            lit_ok(a as int, old(self).num_vars()),
            lit_ok(b as int, old(self).num_vars()),
        ensures
            Self::grows(*old(self), *final(self)),
            r matches Ok(x) ==> lit_ok(x as int, final(self).num_vars())
                && forall|asg: Seq<bool>| #[trigger] satisfies(asg, final(self).formula())
                    ==> lit_val(asg, x as int) == (lit_val(asg, a as int) == lit_val(asg, b as int)),
            r is Ok <==> old(self).num_vars() + 3 <= old(self).backend().limit(),
            r is Err ==> is_model_err(r),
    {
        let ghost s0 = *self;
        let pos = self.band(a, b)?;
        let ghost s1 = *self;
        let (na, nb) = (-a, -b);
        let neg = self.band(na, nb)?;
        let ghost s2 = *self;
        let r = self.bor(pos, neg)?;
        proof {
            assert forall|asg: Seq<bool>| #[trigger] satisfies(asg, self.formula())
                implies lit_val(asg, r as int) == (lit_val(asg, a as int) == lit_val(asg, b as int)) by {
                lemma_satisfies_prefix(asg, s2.formula(), self.formula());
                lemma_satisfies_prefix(asg, s1.formula(), s2.formula());
                lemma_neg_lit(asg, a as int);
                lemma_neg_lit(asg, b as int);
            }
        }
        Ok(r)
    }

    pub proof fn lemma_grows_trans(a: Self, b: Self, c: Self)
        requires
            Self::grows(a, b),
            Self::grows(b, c),
        ensures
            Self::grows(a, c),
    {
        assert forall|i: int| 0 <= i < a.formula().len() implies #[trigger] c.formula()[i] == a.formula()[i] by {
            assert(c.formula()[i] == b.formula()[i]);
        }
        assert forall|i: int| 0 <= i < a.cache().len() implies #[trigger] c.cache()[i] == a.cache()[i] by {
            assert(c.cache()[i] == b.cache()[i]);
        }
    }

    pub proof fn lemma_grows_refl(a: Self)
        requires
            a.wf(),
        ensures
            Self::grows(a, a),
    {
    }

    /// Requires exactly one of `lits` to be true.
    fn add_exactly_one(&mut self, lits: &Vec<SatLit>)
        requires
            old(self).wf(),
            forall|k: int| 0 <= k < lits@.len() ==> lit_ok(#[trigger] lits@[k] as int, old(self).num_vars()),
        ensures
            Self::grows(*old(self), *final(self)),
            final(self).num_vars() == old(self).num_vars(),
            final(self).backend().limit() == old(self).backend().limit(),
            final(self).var_cache@ == old(self).var_cache@,
            final(self).domains@ == old(self).domains@,
            forall|asg: Seq<bool>| #[trigger] satisfies(asg, final(self).formula()) ==> exactly_one(asg, lits@),
    {
        let ghost start = *self;
        let ghost base = self.formula().len() as int;
        let mut all: Vec<SatLit> = Vec::new();
        let mut k: usize = 0;
        while k < lits.len()
            invariant
                k <= lits@.len(),
                all@ == lits@.take(k as int),
            decreases lits@.len() - k,
        {
            all.push(lits[k]);
            proof {
                assert(lits@.take(k as int + 1) == lits@.take(k as int).push(lits@[k as int]));
            }
            k = k + 1;
        }
        assert(lits@.take(lits@.len() as int) == lits@);
        self.push_clause(all);
        let mut i: usize = 0;
        while i < lits.len()
            invariant
                self.wf(),
                Self::grows(start, *self),
                self.num_vars() == start.num_vars(),
                self.backend().limit() == start.backend().limit(),
                self.var_cache@ == start.var_cache@,
                self.domains@ == start.domains@,
                0 <= base < self.formula().len(),
                self.formula()[base] == lits@,
                forall|k: int| 0 <= k < lits@.len() ==> lit_ok(#[trigger] lits@[k] as int, self.num_vars()),
                forall|a: int, b: int| 0 <= a < b < lits@.len() && a < i
                    ==> #[trigger] has_exclusion(self.formula(), base, lits@[a], lits@[b]),
                i <= lits@.len(),
            decreases lits@.len() - i,
        {
            let mut j: usize = i + 1;
            while j < lits.len()
                invariant
                    self.wf(),
                    Self::grows(start, *self),
                    self.num_vars() == start.num_vars(),
                    self.backend().limit() == start.backend().limit(),
                self.backend().limit() == start.backend().limit(),
                    self.var_cache@ == start.var_cache@,
                    self.domains@ == start.domains@,
                    0 <= base < self.formula().len(),
                    self.formula()[base] == lits@,
                    forall|k: int| 0 <= k < lits@.len() ==> lit_ok(#[trigger] lits@[k] as int, self.num_vars()),
                    forall|a: int, b: int| 0 <= a < b < lits@.len() && a < i
                        ==> #[trigger] has_exclusion(self.formula(), base, lits@[a], lits@[b]),
                    forall|b: int| i < b < j ==> #[trigger] has_exclusion(self.formula(), base, lits@[i as int], lits@[b]),
                    i < j <= lits@.len(),
                decreases lits@.len() - j,
            {
                let (x, y) = (-lits[i], -lits[j]);
                let c = vec![x, y];
                assert(c@ =~= seq![x, y]);
                let ghost before = self.formula();
                self.push_clause(c);
                proof {
                    let m_new = before.len() as int;
                    assert(self.formula() == before.push(seq![x, y]));
                    assert(self.formula()[m_new] == seq![x, y]);
                    assert forall|a: int, b: int| 0 <= a < b < lits@.len() && a < i
                        implies #[trigger] has_exclusion(self.formula(), base, lits@[a], lits@[b]) by {
                        assert(has_exclusion(before, base, lits@[a], lits@[b]));
                        let m = choose|m: int| base < m < before.len() && #[trigger] before[m] == seq![(-lits@[a]) as i32, (-lits@[b]) as i32];
                        assert(self.formula()[m] == before[m]);
                    }
                    assert forall|b: int| i < b < j + 1 implies #[trigger] has_exclusion(self.formula(), base, lits@[i as int], lits@[b]) by {
                        if b < j {
                            assert(has_exclusion(before, base, lits@[i as int], lits@[b]));
                            let m = choose|m: int| base < m < before.len() && #[trigger] before[m] == seq![(-lits@[i as int]) as i32, (-lits@[b]) as i32];
                            assert(self.formula()[m] == before[m]);
                        } else {
                            assert(self.formula()[m_new] == seq![(-lits@[i as int]) as i32, (-lits@[b]) as i32]);
                        }
                    }
                }
                j = j + 1;
            }
            i = i + 1;
        }
        proof {
            assert forall|asg: Seq<bool>| #[trigger] satisfies(asg, self.formula()) implies exactly_one(asg, lits@) by {
                assert(clause_sat(asg, self.formula()[base]));
                assert forall|a: int, b: int| 0 <= a < b < lits@.len()
                    implies !(lit_val(asg, #[trigger] lits@[a] as int) && lit_val(asg, #[trigger] lits@[b] as int)) by {
                    assert(has_exclusion(self.formula(), base, lits@[a], lits@[b]));
                    let m = choose|m: int| base < m < self.formula().len()
                        && #[trigger] self.formula()[m] == seq![(-lits@[a]) as i32, (-lits@[b]) as i32];
                    assert(clause_sat(asg, self.formula()[m]));
                    lemma_clause2(asg, (-lits@[a]) as i32, (-lits@[b]) as i32);
                    lemma_neg_lit(asg, lits@[a] as int);
                    lemma_neg_lit(asg, lits@[b] as int);
                }
            }
        }
    }

    fn new_lits(&mut self, count: usize) -> (r: Result<Vec<SatLit>>)
        requires
            old(self).wf(),
        ensures
            Self::grows(*old(self), *final(self)),
            final(self).var_cache@ == old(self).var_cache@,
            final(self).domains@ == old(self).domains@,
            r matches Ok(v) ==> v@.len() == count
                && forall|k: int| 0 <= k < v@.len() ==> lit_ok(#[trigger] v@[k] as int, final(self).num_vars()),
            r is Ok <==> old(self).num_vars() + count <= old(self).backend().limit(),
            r is Ok ==> final(self).num_vars() == old(self).num_vars() + count,
            final(self).backend().limit() == old(self).backend().limit(),
            r is Err ==> is_model_err(r),
    {
        let ghost start = *self;
        let mut lits: Vec<SatLit> = Vec::new();
        let mut i: usize = 0;
        while i < count
            invariant
                self.wf(),
                start == *old(self),
                Self::grows(start, *self),
                self.var_cache@ == start.var_cache@,
                self.domains@ == start.domains@,
                i <= count,
                lits@.len() == i,
                forall|k: int| 0 <= k < lits@.len() ==> lit_ok(#[trigger] lits@[k] as int, self.num_vars()),
                self.num_vars() == start.num_vars() + i,
                self.backend().limit() == start.backend().limit(),
            decreases count - i,
        {
            let ghost before = *self;
            let v = self.solver_new_var()?;
            lits.push(v);
            i = i + 1;
        }
        Ok(lits)
    }

    fn alloc_for_domain(&mut self, domain: &ResolvedDomain) -> (r: Result<SymVal>)
        requires
            old(self).wf(),
        ensures
            Self::grows(*old(self), *final(self)),
            final(self).var_cache@ == old(self).var_cache@,
            final(self).domains@ == old(self).domains@,
            r matches Ok(v) ==> sym_ok(v, final(self).num_vars()),
            r matches Ok(v) ==> forall|asg: Seq<bool>| #[trigger] satisfies(asg, final(self).formula())
                ==> exists|val: Value| den(asg, v, val),
            r is Ok <==> old(self).num_vars() + domain_size(domain@) <= old(self).backend().limit(),
            final(self).backend().limit() == old(self).backend().limit(),
            r is Err ==> is_model_err(r),
    {
        match domain {
            ResolvedDomain::Bool => {
                let v = self.solver_new_var()?;
                proof {
                    assert forall|asg: Seq<bool>| #[trigger] satisfies(asg, self.formula())
                        implies exists|val: Value| den(asg, SymVal::Bool(v), val) by {
                        assert(den(asg, SymVal::Bool(v), Value::Bool(lit_val(asg, v as int))));
                    }
                }
                Ok(SymVal::Bool(v))
            },
            ResolvedDomain::Int(values) => {
                let lits = self.new_lits(values.len())?;
                self.add_exactly_one(&lits);
                let mut pairs: Vec<(i64, SatLit)> = Vec::new();
                let mut i: usize = 0;
                while i < values.len()
                    invariant
                        self.wf(),
                        forall|asg: Seq<bool>| #[trigger] satisfies(asg, self.formula()) ==> exactly_one(asg, lits@),
                        i <= values@.len(),
                        lits@.len() == values@.len(),
                        forall|k: int| 0 <= k < lits@.len() ==> lit_ok(#[trigger] lits@[k] as int, self.num_vars()),
                        pairs@.len() == i,
                        forall|k: int| 0 <= k < i ==> (#[trigger] pairs@[k]).1 == lits@[k],
                    decreases values@.len() - i,
                {
                    pairs.push((values[i], lits[i]));
                    i = i + 1;
                }
                proof {
                    assert forall|asg: Seq<bool>| #[trigger] satisfies(asg, self.formula())
                        implies exists|val: Value| den(asg, SymVal::Int(pairs), val) by {
                        assert(exactly_one(asg, lits@));
                        let k0 = choose|k: int| 0 <= k < lits@.len() && lit_val(asg, #[trigger] lits@[k] as int);
                        assert(lit_val(asg, pairs@[k0].1 as int));
                        assert forall|k: int| 0 <= k < pairs@.len() && #[trigger] lit_val(asg, pairs@[k].1 as int)
                            implies pairs@[k].0 == pairs@[k0].0 by {
                            if k != k0 {
                                if k < k0 {
                                    assert(!(lit_val(asg, lits@[k] as int) && lit_val(asg, lits@[k0] as int)));
                                } else {
                                    assert(!(lit_val(asg, lits@[k0] as int) && lit_val(asg, lits@[k] as int)));
                                }
                            }
                        }
                        assert(int_den(asg, pairs@, pairs@[k0].0));
                        assert(den(asg, SymVal::Int(pairs), Value::Int(pairs@[k0].0)));
                    }
                }
                Ok(SymVal::Int(pairs))
            },
            ResolvedDomain::Enum { enum_type, variants } => {
                let lits = self.new_lits(variants.len())?;
                self.add_exactly_one(&lits);
                let mut pairs: Vec<(String, SatLit)> = Vec::new();
                let mut i: usize = 0;
                while i < variants.len()
                    invariant
                        self.wf(),
                        forall|asg: Seq<bool>| #[trigger] satisfies(asg, self.formula()) ==> exactly_one(asg, lits@),
                        i <= variants@.len(),
                        lits@.len() == variants@.len(),
                        forall|k: int| 0 <= k < lits@.len() ==> lit_ok(#[trigger] lits@[k] as int, self.num_vars()),
                        pairs@.len() == i,
                        forall|k: int| 0 <= k < i ==> (#[trigger] pairs@[k]).1 == lits@[k],
                    decreases variants@.len() - i,
                {
                    pairs.push((variants[i].clone(), lits[i]));
                    i = i + 1;
                }
                let r = SymVal::Enum { enum_type: enum_type.clone(), values: pairs };
                proof {
                    assert forall|asg: Seq<bool>| #[trigger] satisfies(asg, self.formula())
                        implies exists|val: Value| den(asg, r, val) by {
                        assert(exactly_one(asg, lits@));
                        let k0 = choose|k: int| 0 <= k < lits@.len() && lit_val(asg, #[trigger] lits@[k] as int);
                        assert(lit_val(asg, pairs@[k0].1 as int));
                        assert forall|k: int| 0 <= k < pairs@.len() && #[trigger] lit_val(asg, pairs@[k].1 as int)
                            implies pairs@[k].0@ == pairs@[k0].0@ by {
                            if k != k0 {
                                if k < k0 {
                                    assert(!(lit_val(asg, lits@[k] as int) && lit_val(asg, lits@[k0] as int)));
                                } else {
                                    assert(!(lit_val(asg, lits@[k0] as int) && lit_val(asg, lits@[k] as int)));
                                }
                            }
                        }
                        assert(enum_den(asg, pairs@, pairs@[k0].0@));
                        assert(den(asg, r, Value::Enum(pairs@[k0].0)));
                    }
                }
                Ok(r)
            },
        }
    }

    /// The symbolic value of state variable `name` at time `time`,
    /// allocated on first use.
    pub fn var_at_time(&mut self, name: &String, time: usize) -> (r: Result<SymVal>)
        requires
            old(self).wf(),
        ensures
            Self::grows(*old(self), *final(self)),
            r matches Ok(v) ==> sym_ok(v, final(self).num_vars()),
            r matches Ok(v) ==> (cache_lookup(final(self).cache(), name@, time as int) matches Some(c) && same_sym(c, v)),
            cache_lookup(old(self).cache(), name@, time as int) is Some ==> r is Ok && *final(self) == *old(self),
            cache_lookup(old(self).cache(), name@, time as int) is None ==> (r is Ok <==> (lookup(old(self).tables().2, name@)
                matches Some(d) && old(self).num_vars() + domain_size(d@) <= old(self).backend().limit())),
            r is Err ==> is_model_err(r),
    {
        let mut i: usize = 0;
        while i < self.var_cache.len()
            invariant
                self.wf(),
                *self == *old(self),
                i <= self.var_cache@.len(),
                forall|j: int| 0 <= j < i ==> !((#[trigger] self.var_cache@[j]).0@ == name@ && self.var_cache@[j].1 == time),
            decreases self.var_cache@.len() - i,
        {
            if self.var_cache[i].1 == time && self.var_cache[i].0 == *name {
                proof {
                    assert(sym_ok(self.var_cache@[i as int].2, self.num_vars()));
                    lemma_cache_lookup_at(self.var_cache@, name@, time as int, i as int);
                    assert(self.var_cache@.skip(i as int)[0] == self.var_cache@[i as int]);
                    Self::lemma_grows_refl(*self);
                }
                return Ok(clone_sym(&self.var_cache[i].2));
            }
            i = i + 1;
        }
        proof {
            lemma_cache_lookup_at(self.var_cache@, name@, time as int, i as int);
            assert(self.var_cache@.skip(i as int).len() == 0);
        }
        let domain = match find_key(&self.domains, name) {
            Some(k) => clone_domain_of(&self.domains[k].1),
            None => {
                proof {
                    Self::lemma_grows_refl(*self);
                }
                return Err(CaelumError::Model {
                    message: concat_strs(&["BMC encoder: unknown state variable `", name.as_str(), "`"]),
                });
            },
        };
        let value = self.alloc_for_domain(&domain)?;
        let cached = clone_sym(&value);
        let ghost before = *self;
        self.var_cache.push((name.clone(), time, cached));
        proof {
            assert forall|i: int| 0 <= i < self.var_cache@.len() implies sym_ok((#[trigger] self.var_cache@[i]).2, self.solver.vars()) by {
                if i < before.var_cache@.len() {
                    assert(self.var_cache@[i] == before.var_cache@[i]);
                }
            }
            assert(self.formula() == before.formula());
            assert forall|asg: Seq<bool>| #[trigger] satisfies(asg, self.formula()) implies
                forall|i: int| 0 <= i < self.var_cache@.len() ==> has_den(asg, #[trigger] self.var_cache@[i].2) by {
                assert forall|i: int| 0 <= i < self.var_cache@.len() implies has_den(asg, #[trigger] self.var_cache@[i].2) by {
                    if i < before.var_cache@.len() {
                        assert(self.var_cache@[i] == before.var_cache@[i]);
                        assert(satisfies(asg, before.formula()));
                        assert(has_den(asg, before.var_cache@[i].2));
                    } else {
                        let val = choose|val: Value| den(asg, value, val);
                        lemma_same_sym_den(asg, cached, value, val);
                        assert(den(asg, self.var_cache@[i].2, val));
                    }
                }
            }
            assert(self.sound());
            // The new entry is the first for this variable and step.
            lemma_cache_lookup_at(self.var_cache@, name@, time as int, before.var_cache@.len() as int);
            assert forall|j: int| 0 <= j < before.var_cache@.len() implies
                !((#[trigger] self.var_cache@[j]).0@ == name@ && self.var_cache@[j].1 == time) by {
                assert(self.var_cache@[j] == before.var_cache@[j]);
                assert(before.var_cache@[j] == old(self).var_cache@[j]);
            }
            assert(self.var_cache@.skip(before.var_cache@.len() as int)[0] == self.var_cache@[before.var_cache@.len() as int]);
        }
        Ok(value)
    }
}

/// A copy of a resolved domain, with the same contents.
pub(crate) fn clone_domain_of(d: &ResolvedDomain) -> (r: ResolvedDomain)
    ensures
        r@ == d@,
{
    match d {
        ResolvedDomain::Bool => ResolvedDomain::Bool,
        ResolvedDomain::Int(values) => {
            let mut out: Vec<i64> = Vec::new();
            let mut i: usize = 0;
            while i < values.len()
                invariant
                    i <= values@.len(),
                    out@ == values@.take(i as int),
                decreases values@.len() - i,
            {
                out.push(values[i]);
                proof {
                    assert(values@.take(i as int + 1) == values@.take(i as int).push(values@[i as int]));
                }
                i = i + 1;
            }
            assert(values@.take(values@.len() as int) == values@);
            ResolvedDomain::Int(out)
        },
        ResolvedDomain::Enum { enum_type, variants } => ResolvedDomain::Enum {
            enum_type: enum_type.clone(),
            variants: crate::syntax::ast::clone_strings(variants),
        },
    }
}

/// A copy of a symbolic value, with the same literals.
fn clone_sym(v: &SymVal) -> (r: SymVal)
    ensures
        forall|n: nat| sym_ok(*v, n) ==> sym_ok(r, n),
        same_sym(r, *v),
{
    match v {
        SymVal::Bool(l) => SymVal::Bool(*l),
        SymVal::Int(ps) => {
            let mut out: Vec<(i64, SatLit)> = Vec::new();
            let mut i: usize = 0;
            while i < ps.len()
                invariant
                    i <= ps@.len(),
                    out@ == ps@.take(i as int),
                decreases ps@.len() - i,
            {
                out.push(ps[i]);
                proof {
                    assert(ps@.take(i as int + 1) == ps@.take(i as int).push(ps@[i as int]));
                }
                i = i + 1;
            }
            assert(ps@.take(ps@.len() as int) == ps@);
            SymVal::Int(out)
        },
        SymVal::Enum { enum_type, values } => {
            let mut out: Vec<(String, SatLit)> = Vec::new();
            let mut i: usize = 0;
            while i < values.len()
                invariant
                    i <= values@.len(),
                    out@ == values@.take(i as int),
                decreases values@.len() - i,
            {
                out.push((values[i].0.clone(), values[i].1));
                proof {
                    assert(values@.take(i as int + 1) == values@.take(i as int).push(values@[i as int]));
                }
                i = i + 1;
            }
            assert(values@.take(values@.len() as int) == values@);
            SymVal::Enum { enum_type: enum_type.clone(), values: out }
        },
    }
}


impl<S: Solver> Encoder<S> {
    /// For each pair of integer alternatives whose values satisfy `op`, the
    /// literal of both being selected.
    fn int_pair_conjs(&mut self, a: &Vec<(i64, SatLit)>, b: &Vec<(i64, SatLit)>, op: BinaryOp) -> (r: Result<Vec<SatLit>>)
        requires
            old(self).wf(),
            forall|k: int| 0 <= k < a@.len() ==> lit_ok((#[trigger] a@[k]).1 as int, old(self).num_vars()),
            forall|k: int| 0 <= k < b@.len() ==> lit_ok((#[trigger] b@[k]).1 as int, old(self).num_vars()),
        ensures
            Self::grows(*old(self), *final(self)),
            r matches Ok(v) ==> forall|k: int| 0 <= k < v@.len() ==> lit_ok(#[trigger] v@[k] as int, final(self).num_vars()),
            r matches Ok(v) ==> forall|asg: Seq<bool>| #[trigger] satisfies(asg, final(self).formula())
                ==> (any_true(asg, v@) <==> int_pair_hit(asg, a@, b@, op)),
            r is Err ==> is_model_err(r),
    {
        let ghost start = *self;
        let mut conjs: Vec<SatLit> = Vec::new();
        let ghost mut src: Seq<(int, int)> = Seq::empty();
        let mut i: usize = 0;
        while i < a.len()
            invariant
                self.wf(),
                start == *old(self),
                Self::grows(start, *self),
                forall|k: int| 0 <= k < a@.len() ==> lit_ok((#[trigger] a@[k]).1 as int, start.num_vars()),
                forall|k: int| 0 <= k < b@.len() ==> lit_ok((#[trigger] b@[k]).1 as int, start.num_vars()),
                i <= a@.len(),
                forall|k: int| 0 <= k < conjs@.len() ==> lit_ok(#[trigger] conjs@[k] as int, self.num_vars()),
                pair_srcs(a@, b@, op, conjs@, src, self.formula()),
                forall|x: int, y: int| 0 <= x < i && 0 <= y < b@.len() && relation_holds(op, a@[x].0, b@[y].0)
                    ==> #[trigger] src.contains((x, y)),
            decreases a@.len() - i,
        {
            let mut j: usize = 0;
            while j < b.len()
                invariant
                    self.wf(),
                    start == *old(self),
                    Self::grows(start, *self),
                    forall|k: int| 0 <= k < a@.len() ==> lit_ok((#[trigger] a@[k]).1 as int, start.num_vars()),
                    forall|k: int| 0 <= k < b@.len() ==> lit_ok((#[trigger] b@[k]).1 as int, start.num_vars()),
                    i < a@.len(),
                    j <= b@.len(),
                    forall|k: int| 0 <= k < conjs@.len() ==> lit_ok(#[trigger] conjs@[k] as int, self.num_vars()),
                    pair_srcs(a@, b@, op, conjs@, src, self.formula()),
                    forall|x: int, y: int| 0 <= y < b@.len() && relation_holds(op, a@[x].0, b@[y].0)
                        && (0 <= x < i || (x == i && y < j)) ==> #[trigger] src.contains((x, y)),
                decreases b@.len() - j,
            {
                if compare(op, a[i].0, b[j].0) {
                    let ghost before = *self;
                    let c = self.band(a[i].1, b[j].1)?;
                    proof {
                        Self::lemma_grows_trans(start, before, *self);
                        lemma_pair_srcs_grow(a@, b@, op, conjs@, src, before.formula(), self.formula());
                    }
                    let ghost old_src = src;
                    conjs.push(c);
                    proof {
                        src = src.push((i as int, j as int));
                        assert(src[src.len() - 1] == (i as int, j as int));
                        assert forall|x: int, y: int| 0 <= y < b@.len() && relation_holds(op, a@[x].0, b@[y].0)
                            && (0 <= x < i || (x == i && y < j + 1)) implies #[trigger] src.contains((x, y)) by {
                            if x == i && y == j {
                                assert(src[src.len() - 1] == (x, y));
                            } else {
                                assert(old_src.contains((x, y)));
                                let k = choose|k: int| 0 <= k < old_src.len() && old_src[k] == (x, y);
                                assert(src[k] == old_src[k]);
                            }
                        }
                        assert forall|k: int| #![trigger src[k]] 0 <= k < conjs@.len() implies {
                            let (x, y) = src[k];
                            &&& 0 <= x < a@.len()
                            &&& 0 <= y < b@.len()
                            &&& relation_holds(op, a@[x].0, b@[y].0)
                        } by {
                            if k < old_src.len() {
                                assert(src[k] == old_src[k]);
                            }
                        }
                        assert forall|asg: Seq<bool>| #[trigger] satisfies(asg, self.formula()) implies
                            forall|k: int| 0 <= k < conjs@.len() ==> lit_val(asg, #[trigger] conjs@[k] as int)
                                == (lit_val(asg, a@[src[k].0].1 as int) && lit_val(asg, b@[src[k].1].1 as int)) by {
                            assert forall|k: int| 0 <= k < conjs@.len() implies lit_val(asg, #[trigger] conjs@[k] as int)
                                == (lit_val(asg, a@[src[k].0].1 as int) && lit_val(asg, b@[src[k].1].1 as int)) by {
                                if k < old_src.len() {
                                    assert(src[k] == old_src[k]);
                                }
                            }
                        }
                    }
                }
                j = j + 1;
            }
            i = i + 1;
        }
        proof {
            assert forall|asg: Seq<bool>| #[trigger] satisfies(asg, self.formula())
                implies (any_true(asg, conjs@) <==> int_pair_hit(asg, a@, b@, op)) by {
                if any_true(asg, conjs@) {
                    let k = choose|k: int| 0 <= k < conjs@.len() && lit_val(asg, #[trigger] conjs@[k] as int);
                    let (x, y) = src[k];
                    assert(lit_val(asg, a@[x].1 as int) && lit_val(asg, b@[y].1 as int));
                    assert(int_pair_hit(asg, a@, b@, op));
                }
                if int_pair_hit(asg, a@, b@, op) {
                    let (x, y) = choose|x: int, y: int| 0 <= x < a@.len() && 0 <= y < b@.len()
                        && #[trigger] lit_val(asg, a@[x].1 as int) && #[trigger] lit_val(asg, b@[y].1 as int)
                        && relation_holds(op, a@[x].0, b@[y].0);
                    assert(src.contains((x, y)));
                    let k = choose|k: int| 0 <= k < src.len() && src[k] == (x, y);
                    assert(lit_val(asg, conjs@[k] as int));
                }
            }
        }
        Ok(conjs)
    }

    /// For each pair of enum alternatives with the same variant, the literal
    /// of both being selected.
    fn enum_pair_conjs(&mut self, a: &Vec<(String, SatLit)>, b: &Vec<(String, SatLit)>) -> (r: Result<Vec<SatLit>>)
        requires
            old(self).wf(),
            forall|k: int| 0 <= k < a@.len() ==> lit_ok((#[trigger] a@[k]).1 as int, old(self).num_vars()),
            forall|k: int| 0 <= k < b@.len() ==> lit_ok((#[trigger] b@[k]).1 as int, old(self).num_vars()),
        ensures
            Self::grows(*old(self), *final(self)),
            r matches Ok(v) ==> forall|k: int| 0 <= k < v@.len() ==> lit_ok(#[trigger] v@[k] as int, final(self).num_vars()),
            r matches Ok(v) ==> forall|asg: Seq<bool>| #[trigger] satisfies(asg, final(self).formula())
                ==> (any_true(asg, v@) <==> enum_pair_hit(asg, a@, b@)),
            r is Err ==> is_model_err(r),
    {
        let ghost start = *self;
        let mut conjs: Vec<SatLit> = Vec::new();
        let ghost mut src: Seq<(int, int)> = Seq::empty();
        let mut i: usize = 0;
        while i < a.len()
            invariant
                self.wf(),
                start == *old(self),
                Self::grows(start, *self),
                forall|k: int| 0 <= k < a@.len() ==> lit_ok((#[trigger] a@[k]).1 as int, start.num_vars()),
                forall|k: int| 0 <= k < b@.len() ==> lit_ok((#[trigger] b@[k]).1 as int, start.num_vars()),
                i <= a@.len(),
                forall|k: int| 0 <= k < conjs@.len() ==> lit_ok(#[trigger] conjs@[k] as int, self.num_vars()),
                enum_pair_srcs(a@, b@, conjs@, src, self.formula()),
                forall|x: int, y: int| 0 <= x < i && 0 <= y < b@.len() && a@[x].0@ == b@[y].0@
                    ==> #[trigger] src.contains((x, y)),
            decreases a@.len() - i,
        {
            let mut j: usize = 0;
            while j < b.len()
                invariant
                    self.wf(),
                    start == *old(self),
                    Self::grows(start, *self),
                    forall|k: int| 0 <= k < a@.len() ==> lit_ok((#[trigger] a@[k]).1 as int, start.num_vars()),
                    forall|k: int| 0 <= k < b@.len() ==> lit_ok((#[trigger] b@[k]).1 as int, start.num_vars()),
                    i < a@.len(),
                    j <= b@.len(),
                    forall|k: int| 0 <= k < conjs@.len() ==> lit_ok(#[trigger] conjs@[k] as int, self.num_vars()),
                    enum_pair_srcs(a@, b@, conjs@, src, self.formula()),
                    forall|x: int, y: int| 0 <= y < b@.len() && a@[x].0@ == b@[y].0@
                        && (0 <= x < i || (x == i && y < j)) ==> #[trigger] src.contains((x, y)),
                decreases b@.len() - j,
            {
                if a[i].0 == b[j].0 {
                    let ghost before = *self;
                    let c = self.band(a[i].1, b[j].1)?;
                    proof {
                        Self::lemma_grows_trans(start, before, *self);
                        lemma_enum_pair_srcs_grow(a@, b@, conjs@, src, before.formula(), self.formula());
                    }
                    let ghost old_src = src;
                    conjs.push(c);
                    proof {
                        src = src.push((i as int, j as int));
                        assert(src[src.len() - 1] == (i as int, j as int));
                        assert forall|x: int, y: int| 0 <= y < b@.len() && a@[x].0@ == b@[y].0@
                            && (0 <= x < i || (x == i && y < j + 1)) implies #[trigger] src.contains((x, y)) by {
                            if x == i && y == j {
                                assert(src[src.len() - 1] == (x, y));
                            } else {
                                assert(old_src.contains((x, y)));
                                let k = choose|k: int| 0 <= k < old_src.len() && old_src[k] == (x, y);
                                assert(src[k] == old_src[k]);
                            }
                        }
                        assert forall|k: int| #![trigger src[k]] 0 <= k < conjs@.len() implies {
                            let (x, y) = src[k];
                            &&& 0 <= x < a@.len()
                            &&& 0 <= y < b@.len()
                            &&& a@[x].0@ == b@[y].0@
                        } by {
                            if k < old_src.len() {
                                assert(src[k] == old_src[k]);
                            }
                        }
                        assert forall|asg: Seq<bool>| #[trigger] satisfies(asg, self.formula()) implies
                            forall|k: int| 0 <= k < conjs@.len() ==> lit_val(asg, #[trigger] conjs@[k] as int)
                                == (lit_val(asg, a@[src[k].0].1 as int) && lit_val(asg, b@[src[k].1].1 as int)) by {
                            assert forall|k: int| 0 <= k < conjs@.len() implies lit_val(asg, #[trigger] conjs@[k] as int)
                                == (lit_val(asg, a@[src[k].0].1 as int) && lit_val(asg, b@[src[k].1].1 as int)) by {
                                if k < old_src.len() {
                                    assert(src[k] == old_src[k]);
                                }
                            }
                        }
                    }
                }
                j = j + 1;
            }
            i = i + 1;
        }
        proof {
            assert forall|asg: Seq<bool>| #[trigger] satisfies(asg, self.formula())
                implies (any_true(asg, conjs@) <==> enum_pair_hit(asg, a@, b@)) by {
                if any_true(asg, conjs@) {
                    let k = choose|k: int| 0 <= k < conjs@.len() && lit_val(asg, #[trigger] conjs@[k] as int);
                    let (x, y) = src[k];
                    assert(lit_val(asg, a@[x].1 as int) && lit_val(asg, b@[y].1 as int));
                    assert(enum_pair_hit(asg, a@, b@));
                }
                if enum_pair_hit(asg, a@, b@) {
                    let (x, y) = choose|x: int, y: int| 0 <= x < a@.len() && 0 <= y < b@.len()
                        && #[trigger] lit_val(asg, a@[x].1 as int) && #[trigger] lit_val(asg, b@[y].1 as int)
                        && a@[x].0@ == b@[y].0@;
                    assert(src.contains((x, y)));
                    let k = choose|k: int| 0 <= k < src.len() && src[k] == (x, y);
                    assert(lit_val(asg, conjs@[k] as int));
                }
            }
        }
        Ok(conjs)
    }

    /// A literal for "the two values are equal", for two state values of
    /// the same kind.
    pub fn symval_equal(&mut self, a: &SymVal, b: &SymVal) -> (r: Result<SatLit>)
        requires
            old(self).wf(),
            sym_ok(*a, old(self).num_vars()),
            sym_ok(*b, old(self).num_vars()),
        ensures
            Self::grows(*old(self), *final(self)),
            r matches Ok(x) ==> lit_ok(x as int, final(self).num_vars()),
            r matches Ok(x) ==> forall|asg: Seq<bool>| #[trigger] satisfies(asg, final(self).formula())
                ==> lit_val(asg, x as int) == sym_values_equal(asg, *a, *b),
            !same_kind(*a, *b) ==> r is Err,
            a is Bool && b is Bool ==> (r is Ok <==> old(self).num_vars() + 3 <= old(self).backend().limit()),
            r is Err ==> is_model_err(r),
    {
        let ghost start = *self;
        match (a, b) {
            (SymVal::Bool(la), SymVal::Bool(lb)) => self.biff(*la, *lb),
            (SymVal::Int(va), SymVal::Int(vb)) => {
                let conjs = self.int_pair_conjs(va, vb, BinaryOp::Eq)?;
                let ghost mid = *self;
                let r = self.bor_many(conjs.as_slice())?;
                proof {
                    Self::lemma_grows_trans(start, mid, *self);
                    assert forall|asg: Seq<bool>| #[trigger] satisfies(asg, self.formula())
                        implies lit_val(asg, r as int) == int_pair_hit(asg, va@, vb@, BinaryOp::Eq) by {
                        lemma_satisfies_prefix(asg, mid.formula(), self.formula());
                    }
                }
                Ok(r)
            },
            (SymVal::Enum { values: va, .. }, SymVal::Enum { values: vb, .. }) => {
                let conjs = self.enum_pair_conjs(va, vb)?;
                let ghost mid = *self;
                let r = self.bor_many(conjs.as_slice())?;
                proof {
                    Self::lemma_grows_trans(start, mid, *self);
                    assert forall|asg: Seq<bool>| #[trigger] satisfies(asg, self.formula())
                        implies lit_val(asg, r as int) == enum_pair_hit(asg, va@, vb@) by {
                        lemma_satisfies_prefix(asg, mid.formula(), self.formula());
                    }
                }
                Ok(r)
            },
            _ => Err(CaelumError::Model {
                message: concat_strs(&[
                    "BMC encoder: cannot equate ", a.kind_label(), " with ", b.kind_label(), " between states",
                ]),
            }),
        }
    }
}


/// Two symbolic values of the same kind.
pub open spec fn same_kind(a: SymVal, b: SymVal) -> bool {
    match (a, b) {
        (SymVal::Bool(_), SymVal::Bool(_)) => true,
        (SymVal::Int(_), SymVal::Int(_)) => true,
        (SymVal::Enum { .. }, SymVal::Enum { .. }) => true,
        _ => false,
    }
}

/// Under `asg`, the two symbolic values take the same value: the same truth
/// value, or some pair of alternatives of equal value both chosen.
pub open spec fn sym_values_equal(asg: Seq<bool>, a: SymVal, b: SymVal) -> bool {
    match (a, b) {
        (SymVal::Bool(la), SymVal::Bool(lb)) => lit_val(asg, la as int) == lit_val(asg, lb as int),
        (SymVal::Int(va), SymVal::Int(vb)) => int_pair_hit(asg, va@, vb@, BinaryOp::Eq),
        (SymVal::Enum { values: va, .. }, SymVal::Enum { values: vb, .. }) => enum_pair_hit(asg, va@, vb@),
        _ => false,
    }
}

/// Every literal of every group is in range.
pub open spec fn groups_ok(groups: Seq<Vec<SatLit>>, n: nat) -> bool {
    forall|g: int, k: int| 0 <= g < groups.len() && 0 <= k < groups[g]@.len() ==> lit_ok(#[trigger] groups[g]@[k] as int, n)
}

fn model_err(parts: &[&str]) -> (r: CaelumError)
    ensures
        r is Model,
{
    CaelumError::Model { message: concat_strs(parts) }
}

impl<S: Solver> Encoder<S> {
    fn find_enum_domain(&self, enum_type: &String) -> (r: Option<&Vec<String>>)
        ensures
            r matches Some(vs) ==> enum_domain_of(self.domains@, enum_type@) == Some(vs@),
            r is None ==> enum_domain_of(self.domains@, enum_type@) is None,
    {
        let mut i: usize = 0;
        proof {
            assert(self.domains@.skip(0) == self.domains@);
        }
        while i < self.domains.len()
            invariant
                i <= self.domains@.len(),
                enum_domain_of(self.domains@, enum_type@) == enum_domain_of(self.domains@.skip(i as int), enum_type@),
            decreases self.domains@.len() - i,
        {
            proof {
                assert(self.domains@.skip(i as int)[0] == self.domains@[i as int]);
                assert(self.domains@.skip(i as int).drop_first() == self.domains@.skip(i as int + 1));
            }
            if let ResolvedDomain::Enum { enum_type: t, variants } = &self.domains[i].1 {
                if *t == *enum_type {
                    return Some(variants);
                }
            }
            i = i + 1;
        }
        None
    }

    /// The value of enum variant `variant`: its own alternative selected
    /// outright, every other one excluded.
    fn enum_literal(&self, enum_type: &String, variant: &String) -> (r: SymVal)
        requires
            self.wf(),
        ensures
            sym_ok(r, self.num_vars()),
            forall|asg: Seq<bool>| #[trigger] satisfies(asg, self.formula())
                ==> (enum_value(self.domains@, *enum_type, *variant) matches Some(val) ==> den(asg, r, val)),
    {
        let t = self.true_lit;
        let f = -self.true_lit;
        let mut values: Vec<(String, SatLit)> = Vec::new();
        match self.find_enum_domain(enum_type) {
            Some(variants) => {
                let mut i: usize = 0;
                while i < variants.len()
                    invariant
                        self.wf(),
                        t == self.true_lit,
                        f == -self.true_lit,
                        i <= variants@.len(),
                        values@.len() == i,
                        forall|k: int| 0 <= k < values@.len() ==> lit_ok((#[trigger] values@[k]).1 as int, self.num_vars()),
                        forall|k: int| 0 <= k < values@.len() ==> (#[trigger] values@[k]).0@ == variants@[k]@
                            && values@[k].1 == (if variants@[k]@ == variant@ { t } else { f }),
                    decreases variants@.len() - i,
                {
                    let lit = if variants[i] == *variant { t } else { f };
                    values.push((variants[i].clone(), lit));
                    i = i + 1;
                }
                let r = SymVal::Enum { enum_type: enum_type.clone(), values };
                proof {
                    assert forall|asg: Seq<bool>| #[trigger] satisfies(asg, self.formula())
                        implies (enum_value(self.domains@, *enum_type, *variant) matches Some(val) ==> den(asg, r, val)) by {
                        self.lemma_truth(asg);
                        lemma_neg_lit(asg, t as int);
                        if enum_value(self.domains@, *enum_type, *variant) is Some {
                            let k = choose|k: int| 0 <= k < variants@.len() && (#[trigger] variants@[k])@ == variant@;
                            assert(lit_val(asg, values@[k].1 as int));
                            assert(enum_den(asg, values@, variant@));
                        }
                    }
                }
                r
            },
            None => {
                values.push((variant.clone(), t));
                let r = SymVal::Enum { enum_type: enum_type.clone(), values };
                proof {
                    assert forall|asg: Seq<bool>| #[trigger] satisfies(asg, self.formula())
                        implies (enum_value(self.domains@, *enum_type, *variant) matches Some(val) ==> den(asg, r, val)) by {
                        self.lemma_truth(asg);
                        assert(lit_val(asg, values@[0].1 as int));
                        assert(enum_den(asg, values@, variant@));
                    }
                }
                r
            },
        }
    }

    fn const_to_sym(&self, value: &ConstValue) -> (r: SymVal)
        requires
            self.wf(),
        ensures
            sym_ok(r, self.num_vars()),
            forall|asg: Seq<bool>| #[trigger] satisfies(asg, self.formula())
                ==> (const_value(self.domains@, *value) matches Some(val) ==> den(asg, r, val)),
    {
        match value {
            ConstValue::Bool(b) => {
                let r = SymVal::Bool(if *b { self.true_lit } else { -self.true_lit });
                proof {
                    assert forall|asg: Seq<bool>| #[trigger] satisfies(asg, self.formula())
                        implies (const_value(self.domains@, *value) matches Some(val) ==> den(asg, r, val)) by {
                        self.lemma_truth(asg);
                        lemma_neg_lit(asg, self.true_lit as int);
                    }
                }
                r
            },
            ConstValue::Int(v) => {
                let pairs = vec![(*v, self.true_lit)];
                assert(pairs@ =~= seq![(*v, self.true_lit)]);
                let r = SymVal::Int(pairs);
                proof {
                    assert forall|asg: Seq<bool>| #[trigger] satisfies(asg, self.formula())
                        implies (const_value(self.domains@, *value) matches Some(val) ==> den(asg, r, val)) by {
                        self.lemma_truth(asg);
                        assert(lit_val(asg, pairs@[0].1 as int));
                        assert(int_den(asg, pairs@, *v));
                    }
                }
                r
            },
            ConstValue::Enum { enum_type, variant } => self.enum_literal(enum_type, variant),
        }
    }

    fn encode_unary(&mut self, op: UnaryOp, inner: SymVal) -> (r: Result<SymVal>)
        requires
            old(self).wf(),
            sym_ok(inner, old(self).num_vars()),
        ensures
            Self::grows(*old(self), *final(self)),
            r matches Ok(v) ==> sym_ok(v, final(self).num_vars()),
            r matches Ok(v) ==> forall|asg: Seq<bool>| #[trigger] satisfies(asg, final(self).formula())
                ==> forall|x: Value| #[trigger] den(asg, inner, x)
                    ==> (spec_eval_unary(op, x) matches Some(z) ==> den(asg, v, z)),
            r is Err ==> is_model_err(r),
    {
        proof {
            Self::lemma_grows_refl(*self);
        }
        match op {
            UnaryOp::Not => match inner.as_bool() {
                Some(lit) => {
                    let v = SymVal::Bool(-lit);
                    proof {
                        assert forall|asg: Seq<bool>| #[trigger] satisfies(asg, self.formula()) implies
                            forall|x: Value| #[trigger] den(asg, inner, x)
                                ==> (spec_eval_unary(op, x) matches Some(z) ==> den(asg, v, z)) by {
                            lemma_neg_lit(asg, lit as int);
                        }
                    }
                    Ok(v)
                },
                None => Err(model_err(&["BMC encoder: `not` applied to non-bool (", inner.kind_label(), ")"])),
            },
            UnaryOp::Neg => match &inner {
                SymVal::Int(values) => {
                    let mut negated: Vec<(i64, SatLit)> = Vec::new();
                    let mut i: usize = 0;
                    while i < values.len()
                        invariant
                            self.wf(),
                            i <= values@.len(),
                            forall|k: int| 0 <= k < values@.len() ==> lit_ok((#[trigger] values@[k]).1 as int, self.num_vars()),
                            negated@.len() == i,
                            forall|k: int| 0 <= k < negated@.len() ==> (#[trigger] negated@[k]).1 == values@[k].1
                                && negated@[k].0 == -values@[k].0,
                        decreases values@.len() - i,
                    {
                        let (v, l) = values[i];
                        if v == i64::MIN {
                            return Err(model_err(&["BMC encoder: integer overflow in unary minus"]));
                        }
                        negated.push((-v, l));
                        i = i + 1;
                    }
                    proof {
                        assert forall|asg: Seq<bool>| #[trigger] satisfies(asg, self.formula()) implies
                            forall|x: Value| #[trigger] den(asg, inner, x)
                                ==> (spec_eval_unary(op, x) matches Some(z) ==> den(asg, SymVal::Int(negated), z)) by {
                            assert forall|x: Value| #[trigger] den(asg, inner, x) implies
                                (spec_eval_unary(op, x) matches Some(z) ==> den(asg, SymVal::Int(negated), z)) by {
                                if let Value::Int(a) = x {
                                    let k0 = choose|k: int| 0 <= k < values@.len() && #[trigger] lit_val(asg, values@[k].1 as int) && values@[k].0 == a;
                                    assert(lit_val(asg, negated@[k0].1 as int));
                                    assert forall|k: int| 0 <= k < negated@.len() && #[trigger] lit_val(asg, negated@[k].1 as int)
                                        implies negated@[k].0 == -a by {
                                        assert(lit_val(asg, values@[k].1 as int));
                                    }
                                }
                            }
                        }
                    }
                    Ok(SymVal::Int(negated))
                },
                _ => Err(model_err(&["BMC encoder: unary `-` applied to non-int (", inner.kind_label(), ")"])),
            },
            UnaryOp::Next => Err(model_err(&["BMC encoder: internal: Next should be handled in `encode`"])),
            UnaryOp::Always => Err(model_err(&["BMC encoder: temporal operator `always` only allowed at the top of a property"])),
            UnaryOp::Eventually => Err(model_err(&[
                "BMC encoder: temporal operator `eventually` only allowed at the top of a property",
            ])),
        }
    }

    fn bool_err(&self, ctx: &str, v: &SymVal) -> (r: CaelumError)
        ensures
            r is Model,
    {
        model_err(&["BMC encoder: ", ctx, " expects bool, got ", v.kind_label()])
    }

    fn encode_eq(&mut self, lhs: SymVal, rhs: SymVal, equal: bool) -> (r: Result<SymVal>)
        requires
            old(self).wf(),
            sym_ok(lhs, old(self).num_vars()),
            sym_ok(rhs, old(self).num_vars()),
        ensures
            Self::grows(*old(self), *final(self)),
            r matches Ok(v) ==> sym_ok(v, final(self).num_vars()),
            r matches Ok(v) ==> forall|asg: Seq<bool>| #[trigger] satisfies(asg, final(self).formula())
                ==> bin_ok(asg, if equal { BinaryOp::Eq } else { BinaryOp::Ne }, lhs, rhs, v),
            r is Err ==> is_model_err(r),
    {
        let ghost start = *self;
        let lit = match (&lhs, &rhs) {
            (SymVal::Bool(a), SymVal::Bool(b)) => {
                let lit = self.biff(*a, *b)?;
                proof {
                    assert forall|asg: Seq<bool>| #[trigger] satisfies(asg, self.formula())
                        implies eq_lit_ok(asg, lhs, rhs, lit) by {}
                }
                lit
            },
            (SymVal::Int(a), SymVal::Int(b)) => {
                let conjs = self.int_pair_conjs(a, b, BinaryOp::Eq)?;
                let ghost mid = *self;
                let r = self.bor_many(conjs.as_slice())?;
                proof {
                    Self::lemma_grows_trans(start, mid, *self);
                    assert forall|asg: Seq<bool>| #[trigger] satisfies(asg, self.formula())
                        implies eq_lit_ok(asg, lhs, rhs, r) by {
                        lemma_satisfies_prefix(asg, mid.formula(), self.formula());
                        assert(any_true(asg, conjs@) == int_pair_hit(asg, a@, b@, BinaryOp::Eq));
                        assert forall|x: Value, y: Value| #[trigger] den(asg, lhs, x) && #[trigger] den(asg, rhs, y)
                            implies lit_val(asg, r as int) == same_value(x, y) by {
                            lemma_int_pair_hit(asg, a@, b@, BinaryOp::Eq, x->Int_0, y->Int_0);
                        }
                    }
                }
                r
            },
            (SymVal::Enum { values: a, .. }, SymVal::Enum { values: b, .. }) => {
                let conjs = self.enum_pair_conjs(a, b)?;
                let ghost mid = *self;
                let r = self.bor_many(conjs.as_slice())?;
                proof {
                    Self::lemma_grows_trans(start, mid, *self);
                    assert forall|asg: Seq<bool>| #[trigger] satisfies(asg, self.formula())
                        implies eq_lit_ok(asg, lhs, rhs, r) by {
                        lemma_satisfies_prefix(asg, mid.formula(), self.formula());
                        assert(any_true(asg, conjs@) == enum_pair_hit(asg, a@, b@));
                        assert forall|x: Value, y: Value| #[trigger] den(asg, lhs, x) && #[trigger] den(asg, rhs, y)
                            implies lit_val(asg, r as int) == same_value(x, y) by {
                            lemma_enum_pair_hit(asg, a@, b@, (x->Enum_0)@, (y->Enum_0)@);
                        }
                    }
                }
                r
            },
            _ => {
                return Err(model_err(&["BMC encoder: cannot compare ", lhs.kind_label(), " and ", rhs.kind_label()]));
            },
        };
        let v = SymVal::Bool(if equal { lit } else { -lit });
        proof {
            assert forall|asg: Seq<bool>| #[trigger] satisfies(asg, self.formula())
                implies bin_ok(asg, if equal { BinaryOp::Eq } else { BinaryOp::Ne }, lhs, rhs, v) by {
                assert(eq_lit_ok(asg, lhs, rhs, lit));
                lemma_neg_lit(asg, lit as int);
            }
        }
        Ok(v)
    }

    fn encode_int_compare(&mut self, lhs: SymVal, rhs: SymVal, op: BinaryOp) -> (r: Result<SymVal>)
        requires
            old(self).wf(),
            sym_ok(lhs, old(self).num_vars()),
            sym_ok(rhs, old(self).num_vars()),
            op is Lt || op is Le || op is Gt || op is Ge,
        ensures
            Self::grows(*old(self), *final(self)),
            r matches Ok(v) ==> sym_ok(v, final(self).num_vars()),
            r matches Ok(v) ==> forall|asg: Seq<bool>| #[trigger] satisfies(asg, final(self).formula())
                ==> bin_ok(asg, op, lhs, rhs, v),
            r is Err ==> is_model_err(r),
    {
        let ghost start = *self;
        match (&lhs, &rhs) {
            (SymVal::Int(a), SymVal::Int(b)) => {
                let conjs = self.int_pair_conjs(a, b, op)?;
                let ghost mid = *self;
                let r = self.bor_many(conjs.as_slice())?;
                proof {
                    Self::lemma_grows_trans(start, mid, *self);
                    assert forall|asg: Seq<bool>| #[trigger] satisfies(asg, self.formula())
                        implies bin_ok(asg, op, lhs, rhs, SymVal::Bool(r)) by {
                        lemma_satisfies_prefix(asg, mid.formula(), self.formula());
                        assert(any_true(asg, conjs@) == int_pair_hit(asg, a@, b@, op));
                        assert forall|x: Value, y: Value| #[trigger] den(asg, lhs, x) && #[trigger] den(asg, rhs, y)
                            implies (spec_eval_binary(op, x, y) matches Some(z) ==> den(asg, SymVal::Bool(r), z)) by {
                            lemma_int_pair_hit(asg, a@, b@, op, x->Int_0, y->Int_0);
                        }
                    }
                }
                Ok(SymVal::Bool(r))
            },
            (SymVal::Int(_), _) => Err(model_err(&[
                "BMC encoder: int comparison rhs must be int, got ", rhs.kind_label(),
            ])),
            _ => Err(model_err(&["BMC encoder: int comparison lhs must be int, got ", lhs.kind_label()])),
        }
    }

    fn encode_int_op_checked(&mut self, lhs: SymVal, rhs: SymVal, kind: &str, op: BinaryOp) -> (r: Result<SymVal>)
        requires
            is_arith(op),
            old(self).wf(),
            sym_ok(lhs, old(self).num_vars()),
            sym_ok(rhs, old(self).num_vars()),
        ensures
            Self::grows(*old(self), *final(self)),
            r matches Ok(v) ==> sym_ok(v, final(self).num_vars()),
            r matches Ok(v) ==> forall|asg: Seq<bool>| #[trigger] satisfies(asg, final(self).formula())
                ==> bin_ok(asg, op, lhs, rhs, v),
            r is Err ==> is_model_err(r),
    {
        let ghost start = *self;
        let (a, b) = match (&lhs, &rhs) {
            (SymVal::Int(a), SymVal::Int(b)) => (a, b),
            (SymVal::Int(_), _) => {
                return Err(model_err(&["BMC encoder: ", kind, " rhs must be int, got ", rhs.kind_label()]));
            },
            _ => {
                return Err(model_err(&["BMC encoder: ", kind, " lhs must be int, got ", lhs.kind_label()]));
            },
        };
        // Group the pairs of alternatives by the value they produce, in
        // increasing order of value.
        let mut vals: Vec<i64> = Vec::new();
        let mut groups: Vec<Vec<SatLit>> = Vec::new();
        let ghost mut src: Seq<Seq<(int, int)>> = Seq::empty();
        let mut i: usize = 0;
        while i < a.len()
            invariant
                is_arith(op),
                self.wf(),
                start == *old(self),
                Self::grows(start, *self),
                forall|k: int| 0 <= k < a@.len() ==> lit_ok((#[trigger] a@[k]).1 as int, start.num_vars()),
                forall|k: int| 0 <= k < b@.len() ==> lit_ok((#[trigger] b@[k]).1 as int, start.num_vars()),
                i <= a@.len(),
                vals@.len() == groups@.len(),
                groups_ok(groups@, self.num_vars()),
                group_srcs(a@, b@, op, vals@, groups@, src, self.formula()),
                forall|x: int, y: int| 0 <= x < i && 0 <= y < b@.len() && #[trigger] arith_val(op, a@[x].0, b@[y].0) is Some
                    ==> group_has(src, x, y),
            decreases a@.len() - i,
        {
            let mut j: usize = 0;
            while j < b.len()
                invariant
                    is_arith(op),
                    self.wf(),
                    start == *old(self),
                    Self::grows(start, *self),
                    forall|k: int| 0 <= k < a@.len() ==> lit_ok((#[trigger] a@[k]).1 as int, start.num_vars()),
                    forall|k: int| 0 <= k < b@.len() ==> lit_ok((#[trigger] b@[k]).1 as int, start.num_vars()),
                    i < a@.len(),
                    j <= b@.len(),
                    vals@.len() == groups@.len(),
                    groups_ok(groups@, self.num_vars()),
                    group_srcs(a@, b@, op, vals@, groups@, src, self.formula()),
                    forall|x: int, y: int| 0 <= y < b@.len() && #[trigger] arith_val(op, a@[x].0, b@[y].0) is Some
                        && (0 <= x < i || (x == i && y < j)) ==> group_has(src, x, y),
                decreases b@.len() - j,
            {
                if let Some(value) = arith(op, a[i].0, b[j].0)? {
                    let ghost before = *self;
                    let c = self.band(a[i].1, b[j].1)?;
                    proof {
                        Self::lemma_grows_trans(start, before, *self);
                        lemma_group_srcs_grow(a@, b@, op, vals@, groups@, src, before.formula(), self.formula());
                    }
                    let mut p: usize = 0;
                    while p < vals.len() && vals[p] < value
                        invariant
                            p <= vals@.len(),
                        decreases vals@.len() - p,
                    {
                        p = p + 1;
                    }
                    let ghost old_groups = groups@;
                    let ghost old_vals = vals@;
                    let ghost old_src = src;
                    if p < vals.len() && vals[p] == value {
                        let mut g = groups.remove(p);
                        g.push(c);
                        groups.insert(p, g);
                        proof {
                            src = src.update(p as int, src[p as int].push((i as int, j as int)));
                            assert forall|x: int, k: int| 0 <= x < groups@.len() && 0 <= k < groups@[x]@.len()
                                implies lit_ok(#[trigger] groups@[x]@[k] as int, self.num_vars()) by {
                                if x != p {
                                    assert(groups@[x] == old_groups[x]);
                                } else if k < old_groups[x]@.len() {
                                    assert(groups@[x]@[k] == old_groups[x]@[k]);
                                }
                            }
                            lemma_group_add(a@, b@, op, old_vals, old_groups, old_src, self.formula(), vals@, groups@, src, p as int, i as int, j as int, c);
                            assert forall|x: int, y: int| 0 <= y < b@.len() && #[trigger] arith_val(op, a@[x].0, b@[y].0) is Some
                                && (0 <= x < i || (x == i && y < j + 1)) implies group_has(src, x, y) by {
                                if x == i && y == j {
                                    assert(src[p as int][src[p as int].len() - 1] == (x, y));
                                } else {
                                    lemma_group_has_update(old_src, src, p as int, x, y);
                                }
                            }
                        }
                    } else {
                        vals.insert(p, value);
                        let single = vec![c];
                        assert(single@ =~= seq![c]);
                        groups.insert(p, single);
                        proof {
                            src = src.insert(p as int, seq![(i as int, j as int)]);
                            assert forall|x: int, k: int| 0 <= x < groups@.len() && 0 <= k < groups@[x]@.len()
                                implies lit_ok(#[trigger] groups@[x]@[k] as int, self.num_vars()) by {
                                if x < p {
                                    assert(groups@[x] == old_groups[x]);
                                } else if x > p {
                                    assert(groups@[x] == old_groups[x - 1]);
                                }
                            }
                            lemma_group_new(a@, b@, op, old_vals, old_groups, old_src, self.formula(), vals@, groups@, src, p as int, i as int, j as int, c);
                            assert forall|x: int, y: int| 0 <= y < b@.len() && #[trigger] arith_val(op, a@[x].0, b@[y].0) is Some
                                && (0 <= x < i || (x == i && y < j + 1)) implies group_has(src, x, y) by {
                                if x == i && y == j {
                                    assert(src[p as int][0] == (x, y));
                                } else {
                                    lemma_group_has_insert(old_src, src, p as int, x, y);
                                }
                            }
                        }
                    }
                }
                j = j + 1;
            }
            i = i + 1;
        }
        let mut pairs: Vec<(i64, SatLit)> = Vec::new();
        let mut g: usize = 0;
        while g < groups.len()
            invariant
                is_arith(op),
                self.wf(),
                start == *old(self),
                Self::grows(start, *self),
                g <= groups@.len(),
                vals@.len() == groups@.len(),
                groups_ok(groups@, self.num_vars()),
                forall|k: int| 0 <= k < pairs@.len() ==> lit_ok((#[trigger] pairs@[k]).1 as int, self.num_vars()),
                group_srcs(a@, b@, op, vals@, groups@, src, self.formula()),
                forall|x: int, y: int| 0 <= x < a@.len() && 0 <= y < b@.len() && #[trigger] arith_val(op, a@[x].0, b@[y].0) is Some
                    ==> group_has(src, x, y),
                pairs@.len() == g,
                forall|k: int| 0 <= k < g ==> (#[trigger] pairs@[k]).0 == vals@[k],
                forall|asg: Seq<bool>| #[trigger] satisfies(asg, self.formula()) ==>
                    forall|k: int| 0 <= k < pairs@.len() ==> lit_val(asg, (#[trigger] pairs@[k]).1 as int) == any_true(asg, groups@[k]@),
            decreases groups@.len() - g,
        {
            let ghost before = *self;
            assert(forall|k: int| 0 <= k < groups@[g as int]@.len() ==> lit_ok(#[trigger] groups@[g as int]@[k] as int, self.num_vars()));
            let or_lit = self.bor_many(groups[g].as_slice())?;
            proof {
                Self::lemma_grows_trans(start, before, *self);
                lemma_group_srcs_grow(a@, b@, op, vals@, groups@, src, before.formula(), self.formula());
            }
            let ghost old_pairs = pairs@;
            pairs.push((vals[g], or_lit));
            proof {
                assert forall|asg: Seq<bool>| #[trigger] satisfies(asg, self.formula()) implies
                    forall|k: int| 0 <= k < pairs@.len() ==> lit_val(asg, (#[trigger] pairs@[k]).1 as int) == any_true(asg, groups@[k]@) by {
                    lemma_satisfies_prefix(asg, before.formula(), self.formula());
                    assert forall|k: int| 0 <= k < pairs@.len() implies lit_val(asg, (#[trigger] pairs@[k]).1 as int) == any_true(asg, groups@[k]@) by {
                        if k < old_pairs.len() {
                            assert(pairs@[k] == old_pairs[k]);
                        }
                    }
                }
            }
            g = g + 1;
        }
        let v = SymVal::Int(pairs);
        proof {
            assert forall|asg: Seq<bool>| #[trigger] satisfies(asg, self.formula()) implies bin_ok(asg, op, lhs, rhs, v) by {
                assert forall|x: Value, y: Value| #[trigger] den(asg, lhs, x) && #[trigger] den(asg, rhs, y)
                    implies (spec_eval_binary(op, x, y) matches Some(z) ==> den(asg, v, z)) by {
                    if let Some(z) = spec_eval_binary(op, x, y) {
                        let (xa, yb) = (x->Int_0, y->Int_0);
                        let cv = z->Int_0;
                        assert(arith_val(op, xa, yb) == Some(cv));
                        let ka = choose|k: int| 0 <= k < a@.len() && #[trigger] lit_val(asg, a@[k].1 as int) && a@[k].0 == xa;
                        let kb = choose|k: int| 0 <= k < b@.len() && #[trigger] lit_val(asg, b@[k].1 as int) && b@[k].0 == yb;
                        assert(arith_val(op, a@[ka].0, b@[kb].0) is Some);
                        assert(group_has(src, ka, kb));
                        let (gi, m) = choose|gi: int, m: int| 0 <= gi < src.len() && 0 <= m < src[gi].len() && #[trigger] src[gi][m] == (ka, kb);
                        assert(lit_val(asg, groups@[gi]@[m] as int));
                        assert(lit_val(asg, pairs@[gi].1 as int));
                        assert(pairs@[gi].0 == cv);
                        assert forall|k: int| 0 <= k < pairs@.len() && #[trigger] lit_val(asg, pairs@[k].1 as int)
                            implies pairs@[k].0 == cv by {
                            assert(any_true(asg, groups@[k]@));
                            let m2 = choose|m2: int| 0 <= m2 < groups@[k]@.len() && lit_val(asg, #[trigger] groups@[k]@[m2] as int);
                            let (sx, sy) = src[k][m2];
                            assert(lit_val(asg, a@[sx].1 as int) && lit_val(asg, b@[sy].1 as int));
                            assert(a@[sx].0 == xa);
                            assert(b@[sy].0 == yb);
                        }
                        assert(int_den(asg, pairs@, cv));
                    }
                }
            }
        }
        Ok(v)
    }

    fn encode_binary(&mut self, op: BinaryOp, lhs: SymVal, rhs: SymVal) -> (r: Result<SymVal>)
        requires
            old(self).wf(),
            sym_ok(lhs, old(self).num_vars()),
            sym_ok(rhs, old(self).num_vars()),
        ensures
            Self::grows(*old(self), *final(self)),
            r matches Ok(v) ==> sym_ok(v, final(self).num_vars()),
            r matches Ok(v) ==> forall|asg: Seq<bool>| #[trigger] satisfies(asg, final(self).formula())
                ==> bin_ok(asg, op, lhs, rhs, v),
            r is Err ==> is_model_err(r),
    {
        match op {
            BinaryOp::And | BinaryOp::Or | BinaryOp::Implies | BinaryOp::Iff => {
                let (lctx, rctx) = match op {
                    BinaryOp::And => ("and lhs", "and rhs"),
                    BinaryOp::Or => ("or lhs", "or rhs"),
                    BinaryOp::Implies => ("implication lhs", "implication rhs"),
                    _ => ("equivalence lhs", "equivalence rhs"),
                };
                let a = match lhs.as_bool() {
                    Some(a) => a,
                    None => {
                        proof {
                            Self::lemma_grows_refl(*self);
                        }
                        return Err(self.bool_err(lctx, &lhs));
                    },
                };
                let b = match rhs.as_bool() {
                    Some(b) => b,
                    None => {
                        proof {
                            Self::lemma_grows_refl(*self);
                        }
                        return Err(self.bool_err(rctx, &rhs));
                    },
                };
                let lit = match op {
                    BinaryOp::And => self.band(a, b)?,
                    BinaryOp::Or => self.bor(a, b)?,
                    BinaryOp::Implies => self.bor(-a, b)?,
                    _ => self.biff(a, b)?,
                };
                let v = SymVal::Bool(lit);
                proof {
                    assert forall|asg: Seq<bool>| #[trigger] satisfies(asg, self.formula()) implies bin_ok(asg, op, lhs, rhs, v) by {
                        lemma_neg_lit(asg, a as int);
                    }
                }
                Ok(v)
            },
            BinaryOp::Eq => self.encode_eq(lhs, rhs, true),
            BinaryOp::Ne => self.encode_eq(lhs, rhs, false),
            BinaryOp::Lt | BinaryOp::Le | BinaryOp::Gt | BinaryOp::Ge => self.encode_int_compare(lhs, rhs, op),
            BinaryOp::Add | BinaryOp::Sub | BinaryOp::Mul => self.encode_int_op_checked(lhs, rhs, "arithmetic", op),
            BinaryOp::Div => self.encode_int_op_checked(lhs, rhs, "division", op),
            BinaryOp::Mod => self.encode_int_op_checked(lhs, rhs, "modulo", op),
            BinaryOp::Until => {
                proof {
                    Self::lemma_grows_refl(*self);
                }
                Err(model_err(&["BMC encoder: `until` operator is unsupported in BMC v1"]))
            },
        }
    }

    /// Encodes an expression at time step `time`: names read the state at
    /// `time`, primed names and `◯` the state at `time + 1`.
    pub fn encode(&mut self, expr: &Expr, time: usize) -> (r: Result<SymVal>)
        requires
            old(self).wf(),
        ensures
            Self::grows(*old(self), *final(self)),
            r matches Ok(v) ==> sym_ok(v, final(self).num_vars()),
            r matches Ok(v) ==> vars_cached(final(self).tables(), final(self).cache(), *expr, time as int),
            r matches Ok(v) ==> forall|asg: Seq<bool>| #[trigger] satisfies(asg, final(self).formula())
                ==> encodes(final(self).tables(), asg, final(self).cache(), *expr, time as int, v),
            expr is Bool || expr is Int ==> r is Ok && *final(self) == *old(self),
            r is Err ==> is_model_err(r),
        decreases expr,
    {
        let ghost start = *self;
        proof {
            Self::lemma_grows_refl(*self);
        }
        match expr {
            Expr::Bool(value) => {
                let v = SymVal::Bool(if *value { self.true_lit } else { -self.true_lit });
                proof {
                    assert forall|asg: Seq<bool>| #[trigger] satisfies(asg, self.formula())
                        implies encodes(self.tables(), asg, self.cache(), *expr, time as int, v) by {
                        self.lemma_truth(asg);
                        lemma_neg_lit(asg, self.true_lit as int);
                    }
                }
                Ok(v)
            },
            Expr::Int(value) => {
                let pairs = vec![(*value, self.true_lit)];
                assert(pairs@ =~= seq![(*value, self.true_lit)]);
                let v = SymVal::Int(pairs);
                proof {
                    assert forall|asg: Seq<bool>| #[trigger] satisfies(asg, self.formula())
                        implies encodes(self.tables(), asg, self.cache(), *expr, time as int, v) by {
                        self.lemma_truth(asg);
                        assert(lit_val(asg, pairs@[0].1 as int));
                        assert(int_den(asg, pairs@, *value));
                    }
                }
                Ok(v)
            },
            Expr::Name(name) => {
                if let Some(k) = find_key(&self.constants, name) {
                    return Ok(self.const_to_sym(&self.constants[k].1));
                }
                if let Some(k) = find_key(&self.enum_variant_type, name) {
                    return Ok(self.enum_literal(&self.enum_variant_type[k].1, name));
                }
                let v = self.var_at_time(name, time);
                proof {
                    if v is Ok {
                        let v = v->Ok_0;
                        assert forall|asg: Seq<bool>| #[trigger] satisfies(asg, self.formula())
                            implies encodes(self.tables(), asg, self.cache(), *expr, time as int, v) by {
                            let c = cache_lookup(self.cache(), name@, time as int)->Some_0;
                            if has_den(asg, c) {
                                let val = choose|val: Value| den(asg, c, val);
                                lemma_same_sym_den(asg, c, v, val);
                            }
                        }
                    }
                }
                v
            },
            Expr::PrimedName(name) => {
                if time == usize::MAX {
                    return Err(model_err(&["BMC encoder: time step out of range"]));
                }
                let v = self.var_at_time(name, time + 1);
                proof {
                    if v is Ok {
                        let v = v->Ok_0;
                        assert forall|asg: Seq<bool>| #[trigger] satisfies(asg, self.formula())
                            implies encodes(self.tables(), asg, self.cache(), *expr, time as int, v) by {
                            let c = cache_lookup(self.cache(), name@, time as int + 1)->Some_0;
                            if has_den(asg, c) {
                                let val = choose|val: Value| den(asg, c, val);
                                lemma_same_sym_den(asg, c, v, val);
                            }
                        }
                    }
                }
                v
            },
            Expr::Unary { op: UnaryOp::Next, expr: inner } => {
                if time == usize::MAX {
                    return Err(model_err(&["BMC encoder: time step out of range"]));
                }
                let v = self.encode(inner, time + 1);
                proof {
                    if v is Ok {
                        let v = v->Ok_0;
                        assert forall|asg: Seq<bool>| #[trigger] satisfies(asg, self.formula())
                            implies encodes(self.tables(), asg, self.cache(), *expr, time as int, v) by {
                            assert(encodes(self.tables(), asg, self.cache(), **inner, time as int + 1, v));
                        }
                    }
                }
                v
            },
            Expr::Unary { op, expr: inner } => {
                let v = self.encode(inner, time)?;
                let ghost mid = *self;
                let r = self.encode_unary(*op, v)?;
                proof {
                    Self::lemma_grows_trans(start, mid, *self);
                    assert forall|asg: Seq<bool>| #[trigger] satisfies(asg, self.formula())
                        implies encodes(self.tables(), asg, self.cache(), *expr, time as int, r) by {
                        lemma_satisfies_prefix(asg, mid.formula(), self.formula());
                        lemma_enc_eval_extend(mid.tables(), asg, mid.cache(), self.cache(), **inner, time as int);
                        assert(encodes(mid.tables(), asg, mid.cache(), **inner, time as int, v));
                        if let Some(x) = enc_eval(self.tables(), asg, self.cache(), **inner, time as int) {
                            assert(den(asg, v, x));
                        }
                    }
                    lemma_enc_eval_extend(mid.tables(), Seq::empty(), mid.cache(), self.cache(), **inner, time as int);
                }
                Ok(r)
            },
            Expr::Binary { op, lhs, rhs } => {
                let l = self.encode(lhs, time)?;
                let ghost mid = *self;
                let r = self.encode(rhs, time)?;
                let ghost mid2 = *self;
                proof {
                    Self::lemma_grows_trans(start, mid, mid2);
                    lemma_sym_ok_mono(l, mid.num_vars(), mid2.num_vars());
                }
                let v = self.encode_binary(*op, l, r)?;
                proof {
                    Self::lemma_grows_trans(start, mid2, *self);
                    Self::lemma_grows_trans(mid, mid2, *self);
                    assert forall|asg: Seq<bool>| #[trigger] satisfies(asg, self.formula())
                        implies encodes(self.tables(), asg, self.cache(), *expr, time as int, v) by {
                        lemma_satisfies_prefix(asg, mid2.formula(), self.formula());
                        lemma_satisfies_prefix(asg, mid.formula(), self.formula());
                        lemma_enc_eval_extend(mid.tables(), asg, mid.cache(), self.cache(), **lhs, time as int);
                        lemma_enc_eval_extend(mid2.tables(), asg, mid2.cache(), self.cache(), **rhs, time as int);
                        assert(encodes(mid.tables(), asg, mid.cache(), **lhs, time as int, l));
                        assert(encodes(mid2.tables(), asg, mid2.cache(), **rhs, time as int, r));
                        assert(bin_ok(asg, *op, l, r, v));
                        if let (Some(x), Some(y)) = (enc_eval(self.tables(), asg, self.cache(), **lhs, time as int),
                            enc_eval(self.tables(), asg, self.cache(), **rhs, time as int)) {
                            assert(den(asg, l, x));
                            assert(den(asg, r, y));
                        }
                    }
                    lemma_enc_eval_extend(mid.tables(), Seq::empty(), mid.cache(), self.cache(), **lhs, time as int);
                    lemma_enc_eval_extend(mid2.tables(), Seq::empty(), mid2.cache(), self.cache(), **rhs, time as int);
                }
                Ok(v)
            },
            _ => Err(model_err(&["BMC encoder: syntax sugar must be elaborated before encoding"])),
        }
    }

    /// The value of a literal in the solver's satisfying assignment.
    pub fn lit_value(&self, lit: SatLit) -> (r: bool)
        requires
            lit != 0,
            lit != i32::MIN,
            self.backend().has_model(),
        ensures
            lit_ok(lit as int, self.num_vars()) ==> r == lit_val(self.model(), lit as int),
    {
        if lit > 0 {
            self.solver.model_value(lit)
        } else {
            !self.solver.model_value(-lit)
        }
    }

    /// Solves the clauses given so far.
    pub fn solve(&mut self) -> (r: Result<bool>)
        requires
            old(self).wf(),
        ensures
            final(self).wf(),
            final(self).formula() == old(self).formula(),
            final(self).num_vars() == old(self).num_vars(),
            final(self).cache() == old(self).cache(),
            final(self).tables() == old(self).tables(),
            r == Ok::<bool, CaelumError>(true) ==> final(self).backend().has_model(),
            r == Ok::<bool, CaelumError>(true) && S::exact() ==> satisfies(final(self).model(), final(self).formula()),
            r == Ok::<bool, CaelumError>(false) && S::exact() ==> forall|asg: Seq<bool>|
                !#[trigger] satisfies(asg, final(self).prior() + final(self).formula()),
            final(self).prior() == old(self).prior(),
            r is Err ==> is_model_err(r),
    {
        proof {
            assert forall|i: int, k: int| 0 <= i < self.formula().len() && 0 <= k < self.formula()[i].len()
                implies (#[trigger] self.formula()[i][k]) != 0 && -self.num_vars() <= self.formula()[i][k] <= self.num_vars() by {
                assert(clause_ok(self.clauses@[i]@, self.solver.vars()));
                assert(lit_ok(self.clauses@[i]@[k] as int, self.solver.vars()));
            }
            let all = self.prior@ + self.formula();
            assert forall|i: int, k: int| 0 <= i < all.len() && 0 <= k < all[i].len()
                implies (#[trigger] all[i][k]) != 0 && -self.num_vars() <= all[i][k] <= self.num_vars() by {
                if i < self.prior@.len() {
                    assert(all[i] == self.prior@[i]);
                } else {
                    assert(all[i] == self.formula()[i - self.prior@.len()]);
                }
            }
        }
        let r = self.solver.solve();
        proof {
            assert(self.formula() == old(self).formula());
            if r == Ok::<bool, CaelumError>(true) && S::exact() {
                lemma_satisfies_suffix(self.model(), self.prior@, self.formula());
            }
            assert forall|asg: Seq<bool>| #[trigger] satisfies(asg, self.formula()) implies
                forall|i: int| 0 <= i < self.var_cache@.len() ==> has_den(asg, #[trigger] self.var_cache@[i].2) by {
                assert(satisfies(asg, old(self).formula()));
                assert forall|i: int| 0 <= i < self.var_cache@.len() implies has_den(asg, #[trigger] self.var_cache@[i].2) by {
                    assert(self.var_cache@[i] == old(self).var_cache@[i]);
                    assert(has_den(asg, old(self).var_cache@[i].2));
                }
            }
            assert(self.sound());
        }
        r
    }

    /// The value of the first alternative whose literal is true, 0 if none.
    fn selected_int(&self, values: &Vec<(i64, SatLit)>) -> (r: i64)
        requires
            self.wf(),
            self.backend().has_model(),
            forall|m: int| 0 <= m < values@.len() ==> lit_ok((#[trigger] values@[m]).1 as int, self.num_vars()),
        ensures
            forall|x: i64| #[trigger] int_den(self.model(), values@, x) ==> r == x,
    {
        let mut k: usize = 0;
        while k < values.len()
            invariant
                self.wf(),
                self.backend().has_model(),
                k <= values@.len(),
                forall|m: int| 0 <= m < values@.len() ==> lit_ok((#[trigger] values@[m]).1 as int, self.num_vars()),
                forall|m: int| 0 <= m < k ==> !lit_val(self.model(), (#[trigger] values@[m]).1 as int),
            decreases values@.len() - k,
        {
            assert(lit_ok(values@[k as int].1 as int, self.num_vars()));
            if self.lit_value(values[k].1) {
                return values[k].0;
            }
            k = k + 1;
        }
        proof {
            assert forall|x: i64| #[trigger] int_den(self.model(), values@, x) implies false by {
                let m = choose|m: int| 0 <= m < values@.len() && #[trigger] lit_val(self.model(), values@[m].1 as int) && values@[m].0 == x;
            }
        }
        0
    }

    /// The first variant whose literal is true, empty if none.
    fn selected_variant(&self, values: &Vec<(String, SatLit)>) -> (r: String)
        requires
            self.wf(),
            self.backend().has_model(),
            forall|m: int| 0 <= m < values@.len() ==> lit_ok((#[trigger] values@[m]).1 as int, self.num_vars()),
        ensures
            forall|n: Seq<char>| #[trigger] enum_den(self.model(), values@, n) ==> r@ == n,
    {
        let mut k: usize = 0;
        while k < values.len()
            invariant
                self.wf(),
                self.backend().has_model(),
                k <= values@.len(),
                forall|m: int| 0 <= m < values@.len() ==> lit_ok((#[trigger] values@[m]).1 as int, self.num_vars()),
                forall|m: int| 0 <= m < k ==> !lit_val(self.model(), (#[trigger] values@[m]).1 as int),
            decreases values@.len() - k,
        {
            assert(lit_ok(values@[k as int].1 as int, self.num_vars()));
            if self.lit_value(values[k].1) {
                return values[k].0.clone();
            }
            k = k + 1;
        }
        proof {
            assert forall|n: Seq<char>| #[trigger] enum_den(self.model(), values@, n) implies false by {
                let m = choose|m: int| 0 <= m < values@.len() && #[trigger] lit_val(self.model(), values@[m].1 as int) && values@[m].0@ == n;
            }
        }
        String::new()
    }

    /// The value of state variable `var` at time `t` in the solver's
    /// satisfying assignment: its literal, or the first alternative whose
    /// literal is true; `None` when that variable was never allocated.
    pub fn read_state(&self, var: &String, t: usize) -> (r: Option<Value>)
        requires
            self.wf(),
            self.backend().has_model(),
        ensures
            cache_lookup(self.cache(), var@, t as int) is None ==> r is None,
            satisfies(self.model(), self.formula()) ==> (cache_lookup(self.cache(), var@, t as int) matches Some(c)
                ==> (r matches Some(x) && den(self.model(), c, x))),
    {
        let mut i: usize = 0;
        while i < self.var_cache.len()
            invariant
                self.wf(),
                self.backend().has_model(),
                i <= self.var_cache@.len(),
                forall|j: int| 0 <= j < i ==> !((#[trigger] self.var_cache@[j]).0@ == var@ && self.var_cache@[j].1 == t),
            decreases self.var_cache@.len() - i,
        {
            if self.var_cache[i].1 == t && self.var_cache[i].0 == *var {
                proof {
                    assert(sym_ok(self.var_cache@[i as int].2, self.num_vars()));
                    lemma_cache_lookup_at(self.var_cache@, var@, t as int, i as int);
                    assert(self.var_cache@.skip(i as int)[0] == self.var_cache@[i as int]);
                }
                let value = match &self.var_cache[i].2 {
                    SymVal::Bool(lit) => Value::Bool(self.lit_value(*lit)),
                    SymVal::Int(values) => Value::Int(self.selected_int(values)),
                    SymVal::Enum { values, .. } => Value::Enum(self.selected_variant(values)),
                };
                proof {
                    if satisfies(self.model(), self.formula()) {
                        let c = self.var_cache@[i as int].2;
                        assert(has_den(self.model(), c));
                        let val = choose|val: Value| den(self.model(), c, val);
                        match c {
                            SymVal::Int(ps) => {
                                assert(int_den(self.model(), ps@, val->Int_0));
                            },
                            SymVal::Enum { values: vs, .. } => {
                                assert(enum_den(self.model(), vs@, (val->Enum_0)@));
                            },
                            _ => {},
                        }
                    }
                }
                return Some(value);
            }
            i = i + 1;
        }
        proof {
            lemma_cache_lookup_at(self.var_cache@, var@, t as int, i as int);
            assert(self.var_cache@.skip(i as int).len() == 0);
        }
        None
    }
}

} // verus!
