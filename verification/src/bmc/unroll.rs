//! Bounded checking of one property: unroll the transition relation `depth`
//! steps from the initial states, ask the SAT solver for a path on which the
//! property fails, and turn its answer into a verdict.
//!
//! Only safety is checked: `□ φ` and state formulas `φ`, where `φ` holds no
//! temporal operator but `◯`. Liveness (`◇`, `□ ◇`, `𝒰`) and nested
//! temporal operators are skipped with a note, never answered wrongly.

use vstd::prelude::*;

use crate::bmc::encode::{
    cache_lookup, den, enc_eval, lemma_cache_lookup_extend, encodes, lemma_enc_eval_extend, lemma_satisfies_prefix, lit_ok, lit_val, satisfies, sym_ok, vars_cached, Encoder,
    ResolvedDomain, Tables,
};
use crate::bmc::setup::BmcSpec;
use crate::bmc::solver::{clause_sat, clauses_in_range, SatLit, Solver};
use crate::bmc::sym::SymVal;
use crate::checker::ltl::{CheckStatus, Counterexample, PropertyResult};
use crate::diagnostics::{concat_strs, is_model_err, usize_text, CaelumError, Result};
use crate::model::eval::{find_key, lookup};
use crate::model::state::{State, Value};
use crate::syntax::ast::{BinaryOp, Expr, PropertyBlock, PropertyKind, TransitionBlock, UnaryOp, VarDecl};
use crate::bmc::run::{
    lemma_holds_on_trace, lemma_trace_eval_alike, tables_alike, trace_fails, trace_holds, trace_matches,
};

verus! {

#[derive(Debug, Clone, Copy)]
pub struct BmcOptions {
    /// How many transitions the unrolling takes.
    pub depth: usize,
}

impl Default for BmcOptions {
    fn default() -> (r: Self)
        ensures
            r.depth == 50,
    {
        Self { depth: 50 }
    }
}

/// Why a property is outside what bounded checking decides.
#[derive(Debug, Clone, Copy, PartialEq, Eq, Structural)]
pub enum SkipReason {
    /// `◇ φ` at the top.
    Eventually,
    /// `□ ◇ φ` at the top.
    AlwaysEventually,
    /// `φ 𝒰 ψ` at the top.
    Until,
    /// `□` below the top.
    NestedAlways,
    /// `◇` below the top.
    NestedEventually,
    /// `𝒰` below the top.
    NestedUntil,
}

/// How bounded checking treats a property.
#[derive(Debug, Clone, Copy, PartialEq, Eq, Structural)]
pub enum PropShape {
    /// `□ φ`: `φ` must hold at every step.
    Always,
    /// `φ` without `□`: `φ` must hold in the initial state.
    State,
    Unsupported(SkipReason),
}

/// The first temporal operator other than `◯` met in `e`, reading the
/// operand of a unary operator, then the left and right operands of a
/// binary one.
pub open spec fn safety_issue(e: Expr) -> Option<SkipReason>
    decreases e,
{
    match e {
        Expr::Unary { op, expr } => match op {
            UnaryOp::Always => Some(SkipReason::NestedAlways),
            UnaryOp::Eventually => Some(SkipReason::NestedEventually),
            _ => safety_issue(*expr),
        },
        Expr::Binary { op, lhs, rhs } => match op {
            BinaryOp::Until => Some(SkipReason::NestedUntil),
            _ => match safety_issue(*lhs) {
                Some(r) => Some(r),
                None => safety_issue(*rhs),
            },
        },
        Expr::Indexed { index, .. } => safety_issue(*index),
        Expr::Quantifier { body, .. } => safety_issue(*body),
        _ => None,
    }
}

/// The shape of a property's formula.
pub open spec fn shape_of(e: Expr) -> PropShape {
    match e {
        Expr::Unary { op: UnaryOp::Always, expr: body } => match *body {
            Expr::Unary { op: UnaryOp::Eventually, .. } => PropShape::Unsupported(SkipReason::AlwaysEventually),
            _ => match safety_issue(*body) {
                Some(r) => PropShape::Unsupported(r),
                None => PropShape::Always,
            },
        },
        Expr::Unary { op: UnaryOp::Eventually, .. } => PropShape::Unsupported(SkipReason::Eventually),
        Expr::Binary { op: BinaryOp::Until, .. } => PropShape::Unsupported(SkipReason::Until),
        _ => match safety_issue(e) {
            Some(r) => PropShape::Unsupported(r),
            None => PropShape::State,
        },
    }
}

/// The formula checked at each step: the operand of a top `□`, else the
/// whole formula.
pub open spec fn shape_body(e: Expr) -> Expr {
    match e {
        Expr::Unary { op: UnaryOp::Always, expr: body } => *body,
        _ => e,
    }
}

/// How many `◯` are nested on the deepest path of `e`.
pub open spec fn next_depth(e: Expr) -> nat
    decreases e,
{
    match e {
        Expr::Unary { op, expr } => match op {
            UnaryOp::Next => next_depth(*expr) + 1,
            _ => next_depth(*expr),
        },
        Expr::Binary { lhs, rhs, .. } => {
            let (a, b) = (next_depth(*lhs), next_depth(*rhs));
            if a >= b { a } else { b }
        },
        Expr::Indexed { index, .. } => next_depth(*index),
        Expr::Quantifier { body, .. } => next_depth(*body),
        _ => 0,
    }
}

/// The note given with a skipped property.
pub open spec fn skip_note_text(why: SkipReason) -> Seq<char> {
    match why {
        SkipReason::Eventually => "BMC checks safety only: `eventually` is a liveness property"@,
        SkipReason::AlwaysEventually => "BMC checks safety only: `always eventually` is a liveness property"@,
        SkipReason::Until => "BMC checks safety only: `until` is a liveness property"@,
        SkipReason::NestedAlways => "nested `always` is unsupported by BMC"@,
        SkipReason::NestedEventually => "nested `eventually` is unsupported by BMC (only safety is checked)"@,
        SkipReason::NestedUntil => "nested `until` is unsupported by BMC (only safety is checked)"@,
    }
}

/// The verdict on a property from the solver's answer: a satisfiable
/// encoding is a path of the unrolling on which the formula fails, `trace`
/// its states. A property fails with that trace; an `invalid` block passes
/// exactly when such a path exists.
pub open spec fn bmc_verdict(p: PropertyBlock, sat: bool, trace: Seq<State>, res: PropertyResult) -> bool {
    &&& res.name == p.name
    &&& res.kind == p.kind
    &&& res.note is None
    &&& match p.kind {
        PropertyKind::Property => if sat {
            &&& res.status == CheckStatus::Fail
            &&& res.counterexample matches Some(c)
            &&& c.states@ == trace
            &&& c.cycle_start is None
        } else {
            res.status == CheckStatus::Pass && res.counterexample is None
        },
        PropertyKind::Invalid => res.counterexample is None
            && res.status == (if sat { CheckStatus::Pass } else { CheckStatus::Fail }),
    }
}

/// What bounded checking to `depth` steps, over states of `width`
/// variables, may answer on property `p`: a skipped property with the note
/// that says why; otherwise, with the bound deep enough for every `◯` of the
/// formula, the verdict on one answer of the solver, with a trace of
/// `depth + next_depth + 1` states when it found a path.
pub open spec fn bmc_result_for(p: PropertyBlock, depth: nat, width: int, res: PropertyResult) -> bool {
    match shape_of(p.expr) {
        PropShape::Unsupported(why) => {
            &&& res.name == p.name
            &&& res.kind == p.kind
            &&& res.status == CheckStatus::Skipped
            &&& res.counterexample is None
            &&& res.note matches Some(n) && n@ == skip_note_text(why)
        },
        _ => {
            &&& next_depth(shape_body(p.expr)) <= depth
            &&& exists|sat: bool, trace: Seq<State>| #[trigger] bmc_verdict(p, sat, trace, res)
                && (sat ==> trace_shape(trace, (depth + next_depth(shape_body(p.expr)) + 1) as int, width))
        },
    }
}

/// On the same answer of the solver, an `invalid` block passes exactly when
/// the same formula, checked as a property, fails.
pub proof fn law_bmc_invalid_is_negated_property(
    p: PropertyBlock,
    q: PropertyBlock,
    sat: bool,
    trace: Seq<State>,
    rp: PropertyResult,
    rq: PropertyResult,
)
    requires
        p.kind == PropertyKind::Property,
        q.kind == PropertyKind::Invalid,
        bmc_verdict(p, sat, trace, rp),
        bmc_verdict(q, sat, trace, rq),
    ensures
        rq.status == CheckStatus::Pass <==> rp.status == CheckStatus::Fail,
{
}

/// Every state of `trace` holds one value per state variable.
pub open spec fn trace_shape(trace: Seq<State>, len: int, width: int) -> bool {
    &&& trace.len() == len
    &&& forall|t: int| 0 <= t < trace.len() ==> (#[trigger] trace[t]).values@.len() == width
}

fn safety_check(e: &Expr) -> (r: Option<SkipReason>)
    ensures
        r == safety_issue(*e),
    decreases e,
{
    match e {
        Expr::Unary { op, expr } => match op {
            UnaryOp::Always => Some(SkipReason::NestedAlways),
            UnaryOp::Eventually => Some(SkipReason::NestedEventually),
            _ => safety_check(expr),
        },
        Expr::Binary { op, lhs, rhs } => match op {
            BinaryOp::Until => Some(SkipReason::NestedUntil),
            _ => match safety_check(lhs) {
                Some(r) => Some(r),
                None => safety_check(rhs),
            },
        },
        Expr::Indexed { index, .. } => safety_check(index),
        Expr::Quantifier { body, .. } => safety_check(body),
        _ => None,
    }
}

/// How bounded checking treats a formula.
pub fn classify(e: &Expr) -> (r: PropShape)
    ensures
        r == shape_of(*e),
{
    match e {
        Expr::Unary { op: UnaryOp::Always, expr: body } => match &**body {
            Expr::Unary { op: UnaryOp::Eventually, .. } => PropShape::Unsupported(SkipReason::AlwaysEventually),
            _ => match safety_check(body) {
                Some(r) => PropShape::Unsupported(r),
                None => PropShape::Always,
            },
        },
        Expr::Unary { op: UnaryOp::Eventually, .. } => PropShape::Unsupported(SkipReason::Eventually),
        Expr::Binary { op: BinaryOp::Until, .. } => PropShape::Unsupported(SkipReason::Until),
        _ => match safety_check(e) {
            Some(r) => PropShape::Unsupported(r),
            None => PropShape::State,
        },
    }
}

fn body_of(e: &Expr) -> (r: &Expr)
    ensures
        *r == shape_body(*e),
{
    match e {
        Expr::Unary { op: UnaryOp::Always, expr: body } => body,
        _ => e,
    }
}

/// The number of nested `◯` on the deepest path, `None` past `usize::MAX`.
fn max_next_depth(e: &Expr) -> (r: Option<usize>)
    ensures
        next_depth(*e) <= usize::MAX ==> r == Some(next_depth(*e) as usize),
        next_depth(*e) > usize::MAX ==> r is None,
    decreases e,
{
    match e {
        Expr::Unary { op, expr } => {
            let inner = max_next_depth(expr)?;
            match op {
                UnaryOp::Next => inner.checked_add(1),
                _ => Some(inner),
            }
        },
        Expr::Binary { lhs, rhs, .. } => {
            let a = max_next_depth(lhs)?;
            let b = max_next_depth(rhs)?;
            Some(if a >= b { a } else { b })
        },
        Expr::Indexed { index, .. } => max_next_depth(index),
        Expr::Quantifier { body, .. } => max_next_depth(body),
        _ => Some(0),
    }
}

fn skip_note(why: SkipReason) -> (r: String)
    ensures
        r@ == skip_note_text(why),
{
    match why {
        SkipReason::Eventually => "BMC checks safety only: `eventually` is a liveness property".to_owned(),
        SkipReason::AlwaysEventually => "BMC checks safety only: `always eventually` is a liveness property".to_owned(),
        SkipReason::Until => "BMC checks safety only: `until` is a liveness property".to_owned(),
        SkipReason::NestedAlways => "nested `always` is unsupported by BMC".to_owned(),
        SkipReason::NestedEventually => "nested `eventually` is unsupported by BMC (only safety is checked)".to_owned(),
        SkipReason::NestedUntil => "nested `until` is unsupported by BMC (only safety is checked)".to_owned(),
    }
}

/// The verdict on `property` given the solver's answer `sat` and, when it
/// found a path, that path's states.
pub fn verdict(property: &PropertyBlock, sat: bool, trace: Vec<State>) -> (r: PropertyResult)
    ensures
        bmc_verdict(*property, sat, trace@, r),
{
    let (status, counterexample) = match (property.kind, sat) {
        (PropertyKind::Property, true) => (CheckStatus::Fail, Some(Counterexample { states: trace, cycle_start: None })),
        (PropertyKind::Property, false) => (CheckStatus::Pass, None),
        (PropertyKind::Invalid, true) => (CheckStatus::Pass, None),
        (PropertyKind::Invalid, false) => (CheckStatus::Fail, None),
    };
    PropertyResult { name: property.name.clone(), kind: property.kind, status, counterexample, note: None }
}

/// Under `asg`, the expression is true at step `t` whenever it has a value.
pub open spec fn holds_at(tables: Tables, asg: Seq<bool>, c: Seq<(String, usize, SymVal)>, e: Expr, t: int) -> bool {
    enc_eval(tables, asg, c, e, t) matches Some(v) ==> v == Value::Bool(true)
}

/// Under `asg`, the expression is false at step `t` whenever it has a value.
pub open spec fn fails_at(tables: Tables, asg: Seq<bool>, c: Seq<(String, usize, SymVal)>, e: Expr, t: int) -> bool {
    enc_eval(tables, asg, c, e, t) matches Some(v) ==> v == Value::Bool(false)
}

/// Under `asg`, the expression has a value at step `t` and it is `false`.
pub open spec fn falsified_at(tables: Tables, asg: Seq<bool>, c: Seq<(String, usize, SymVal)>, e: Expr, t: int) -> bool {
    enc_eval(tables, asg, c, e, t) == Some(Value::Bool(false))
}

/// What an expression encoded at an earlier state of the encoder evaluates
/// to stays the same as the encoder grows.
proof fn lemma_encoded_extend<S: Solver>(e0: Encoder<S>, e1: Encoder<S>, asg: Seq<bool>, e: Expr, t: int)
    requires
        Encoder::<S>::grows(e0, e1),
        vars_cached(e0.tables(), e0.cache(), e, t),
    ensures
        satisfies(asg, e1.formula()) ==> satisfies(asg, e0.formula()),
        vars_cached(e1.tables(), e1.cache(), e, t),
        enc_eval(e1.tables(), asg, e1.cache(), e, t) == enc_eval(e0.tables(), asg, e0.cache(), e, t),
{
    if satisfies(asg, e1.formula()) {
        lemma_satisfies_prefix(asg, e0.formula(), e1.formula());
    }
    lemma_enc_eval_extend(e0.tables(), asg, e0.cache(), e1.cache(), e, t);
}

/// Requires `v` to be true, when it is a boolean.
fn require_true<S: Solver>(encoder: &mut Encoder<S>, v: SymVal, what: &str) -> (r: Result<()>)
    requires
        old(encoder).wf(),
        sym_ok(v, old(encoder).num_vars()),
    ensures
        Encoder::<S>::grows(*old(encoder), *final(encoder)),
        r is Ok ==> v is Bool && forall|asg: Seq<bool>| #[trigger] satisfies(asg, final(encoder).formula())
            ==> lit_val(asg, v->Bool_0 as int),
        r is Err ==> is_model_err(r),
{
    proof {
        Encoder::<S>::lemma_grows_refl(*encoder);
    }
    match v.as_bool() {
        Some(lit) => {
            encoder.assert_lit(lit);
            Ok(())
        },
        None => Err(CaelumError::Model { message: concat_strs(&["BMC: ", what, " did not encode to a boolean"]) }),
    }
}

/// Every variable named in `names` has a symbolic value in the cache at
/// every step before `t`, and the first `v` of them at step `t` too.
pub open spec fn allocated_upto(c: Seq<(String, usize, SymVal)>, names: Seq<Seq<char>>, t: int, v: int) -> bool {
    forall|u: int, w: int| 0 <= w < names.len() && 0 <= u && (u < t || (u == t && w < v))
        ==> #[trigger] cache_lookup(c, names[w], u) is Some
}

proof fn lemma_allocated_extend(c1: Seq<(String, usize, SymVal)>, c2: Seq<(String, usize, SymVal)>, names: Seq<Seq<char>>, t: int, v: int)
    requires
        c1.len() <= c2.len(),
        forall|i: int| 0 <= i < c1.len() ==> #[trigger] c2[i] == c1[i],
        allocated_upto(c1, names, t, v),
    ensures
        allocated_upto(c2, names, t, v),
{
    assert forall|u: int, w: int| 0 <= w < names.len() && 0 <= u && (u < t || (u == t && w < v))
        implies #[trigger] cache_lookup(c2, names[w], u) is Some by {
        lemma_cache_lookup_extend(c1, c2, names[w], u);
    }
}

/// Allocates every state variable at every step `0..=steps`, so the solver's
/// variables are laid out the same way on every run.
fn allocate_states<S: Solver>(encoder: &mut Encoder<S>, spec: &BmcSpec, steps: usize) -> (r: Result<()>)
    requires
        old(encoder).wf(),
    ensures
        Encoder::<S>::grows(*old(encoder), *final(encoder)),
        r is Ok ==> forall|t: int, v: int| 0 <= t <= steps && 0 <= v < spec.variables@.len()
            ==> #[trigger] cache_lookup(final(encoder).cache(), spec.variables@[v].name@, t) is Some,
        r is Err ==> is_model_err(r),
{
    let ghost start = *encoder;
    let ghost names = var_names(spec.variables@);
    proof {
        Encoder::<S>::lemma_grows_refl(*encoder);
    }
    let mut t: usize = 0;
    loop
        invariant
            start == *old(encoder),
            Encoder::<S>::grows(start, *encoder),
            t <= steps,
            names == var_names(spec.variables@),
            allocated_upto(encoder.cache(), names, t as int, 0),
        ensures
            allocated_upto(encoder.cache(), names, steps as int + 1, 0),
            Encoder::<S>::grows(start, *encoder),
        decreases steps - t,
    {
        let mut v: usize = 0;
        while v < spec.variables.len()
            invariant
                start == *old(encoder),
                Encoder::<S>::grows(start, *encoder),
                t <= steps,
                v <= spec.variables@.len(),
                names == var_names(spec.variables@),
                allocated_upto(encoder.cache(), names, t as int, v as int),
            decreases spec.variables@.len() - v,
        {
            let ghost mid = *encoder;
            let got = encoder.var_at_time(&spec.variables[v].name, t);
            proof {
                Encoder::<S>::lemma_grows_trans(start, mid, *encoder);
                lemma_allocated_extend(mid.cache(), encoder.cache(), names, t as int, v as int);
            }
            got?;
            proof {
                assert(names[v as int] == spec.variables@[v as int].name@);
                assert forall|u: int, w: int| 0 <= w < names.len() && 0 <= u && (u < t || (u == t && w < v + 1))
                    implies #[trigger] cache_lookup(encoder.cache(), names[w], u) is Some by {
                    if !(u == t && w == v) {
                        assert(allocated_upto(encoder.cache(), names, t as int, v as int));
                    }
                }
            }
            v = v + 1;
        }
        proof {
            assert forall|u: int, w: int| 0 <= w < names.len() && 0 <= u && (u < t + 1 || (u == t + 1 && w < 0))
                implies #[trigger] cache_lookup(encoder.cache(), names[w], u) is Some by {
                assert(allocated_upto(encoder.cache(), names, t as int, v as int));
            }
        }
        if t == steps {
            break;
        }
        t = t + 1;
    }
    proof {
        assert forall|u: int, w: int| 0 <= u <= steps && 0 <= w < spec.variables@.len()
            implies #[trigger] cache_lookup(encoder.cache(), spec.variables@[w].name@, u) is Some by {
            assert(names[w] == spec.variables@[w].name@);
            assert(allocated_upto(encoder.cache(), names, steps as int + 1, 0));
        }
    }
    Ok(())
}

/// Requires every `init` block to hold at step 0.
fn encode_init<S: Solver>(encoder: &mut Encoder<S>, spec: &BmcSpec) -> (r: Result<()>)
    requires
        old(encoder).wf(),
    ensures
        Encoder::<S>::grows(*old(encoder), *final(encoder)),
        r is Ok ==> forall|k: int| 0 <= k < spec.init_blocks@.len()
            ==> vars_cached(final(encoder).tables(), final(encoder).cache(), #[trigger] spec.init_blocks@[k].expr, 0),
        r is Ok ==> forall|asg: Seq<bool>| #[trigger] satisfies(asg, final(encoder).formula())
            ==> forall|k: int| 0 <= k < spec.init_blocks@.len()
                ==> holds_at(final(encoder).tables(), asg, final(encoder).cache(), #[trigger] spec.init_blocks@[k].expr, 0),
        r is Err ==> is_model_err(r),
{
    let ghost start = *encoder;
    proof {
        Encoder::<S>::lemma_grows_refl(*encoder);
    }
    let mut i: usize = 0;
    while i < spec.init_blocks.len()
        invariant
            start == *old(encoder),
            Encoder::<S>::grows(start, *encoder),
            i <= spec.init_blocks@.len(),
            forall|k: int| 0 <= k < i ==> vars_cached(encoder.tables(), encoder.cache(), #[trigger] spec.init_blocks@[k].expr, 0),
            forall|asg: Seq<bool>| #[trigger] satisfies(asg, encoder.formula())
                ==> forall|k: int| 0 <= k < i ==> holds_at(encoder.tables(), asg, encoder.cache(), #[trigger] spec.init_blocks@[k].expr, 0),
        decreases spec.init_blocks@.len() - i,
    {
        let ghost m1 = *encoder;
        let v = encoder.encode(&spec.init_blocks[i].expr, 0);
        proof {
            Encoder::<S>::lemma_grows_trans(start, m1, *encoder);
        }
        let v = v?;
        let ghost m2 = *encoder;
        let done = require_true(encoder, v, "init block");
        proof {
            Encoder::<S>::lemma_grows_trans(start, m2, *encoder);
            Encoder::<S>::lemma_grows_trans(m1, m2, *encoder);
        }
        done?;
        proof {
            let e1 = *encoder;
            assert forall|k: int| 0 <= k < i + 1 implies vars_cached(e1.tables(), e1.cache(), #[trigger] spec.init_blocks@[k].expr, 0) by {
                if k < i {
                    lemma_encoded_extend(m1, e1, Seq::empty(), spec.init_blocks@[k].expr, 0);
                } else {
                    lemma_encoded_extend(m2, e1, Seq::empty(), spec.init_blocks@[k].expr, 0);
                }
            }
            assert forall|asg: Seq<bool>| #[trigger] satisfies(asg, e1.formula()) implies
                forall|k: int| 0 <= k < i + 1 ==> holds_at(e1.tables(), asg, e1.cache(), #[trigger] spec.init_blocks@[k].expr, 0) by {
                assert forall|k: int| 0 <= k < i + 1 implies holds_at(e1.tables(), asg, e1.cache(), #[trigger] spec.init_blocks@[k].expr, 0) by {
                    if k < i {
                        lemma_encoded_extend(m1, e1, asg, spec.init_blocks@[k].expr, 0);
                    } else {
                        lemma_encoded_extend(m2, e1, asg, spec.init_blocks@[k].expr, 0);
                        assert(encodes(m2.tables(), asg, m2.cache(), spec.init_blocks@[k].expr, 0, v));
                    }
                }
            }
        }
        i = i + 1;
    }
    Ok(())
}

/// Under `asg`, some `transition` block holds at step `t`.
pub open spec fn some_transition_holds(tables: Tables, asg: Seq<bool>, c: Seq<(String, usize, SymVal)>, blocks: Seq<&TransitionBlock>, t: int) -> bool {
    exists|k: int| 0 <= k < blocks.len() && #[trigger] holds_at(tables, asg, c, blocks[k].expr, t)
}

/// Every state variable the `transition` blocks read at steps `0..steps` is cached.
pub open spec fn transitions_cached(tables: Tables, c: Seq<(String, usize, SymVal)>, blocks: Seq<&TransitionBlock>, steps: int) -> bool {
    forall|k: int, t: int| 0 <= k < blocks.len() && 0 <= t < steps ==> #[trigger] vars_cached(tables, c, blocks[k].expr, t)
}

/// Requires, at each step `t < steps`, some `transition` block to hold
/// between step `t` and step `t + 1`; nothing when there is no block.
fn encode_transitions<S: Solver>(encoder: &mut Encoder<S>, spec: &BmcSpec, steps: usize) -> (r: Result<()>)
    requires
        old(encoder).wf(),
    ensures
        Encoder::<S>::grows(*old(encoder), *final(encoder)),
        r is Ok && spec.transition_blocks@.len() > 0 ==> transitions_cached(final(encoder).tables(), final(encoder).cache(), spec.transition_blocks@, steps as int),
        r is Ok && spec.transition_blocks@.len() > 0 ==> forall|asg: Seq<bool>| #[trigger] satisfies(asg, final(encoder).formula())
            ==> forall|t: int| 0 <= t < steps ==> #[trigger] some_transition_holds(final(encoder).tables(), asg, final(encoder).cache(), spec.transition_blocks@, t),
        r is Err ==> is_model_err(r),
{
    let ghost start = *encoder;
    let ghost blocks = spec.transition_blocks@;
    proof {
        Encoder::<S>::lemma_grows_refl(*encoder);
    }
    if spec.transition_blocks.len() == 0 {
        return Ok(());
    }
    let mut t: usize = 0;
    while t < steps
        invariant
            start == *old(encoder),
            blocks == spec.transition_blocks@,
            Encoder::<S>::grows(start, *encoder),
            t <= steps,
            transitions_cached(encoder.tables(), encoder.cache(), blocks, t as int),
            forall|asg: Seq<bool>| #[trigger] satisfies(asg, encoder.formula())
                ==> forall|u: int| 0 <= u < t ==> #[trigger] some_transition_holds(encoder.tables(), asg, encoder.cache(), blocks, u),
        decreases steps - t,
    {
        let ghost s0 = *encoder;
        let mut lits: Vec<SatLit> = Vec::new();
        let mut i: usize = 0;
        while i < spec.transition_blocks.len()
            invariant
                start == *old(encoder),
                blocks == spec.transition_blocks@,
                Encoder::<S>::grows(start, *encoder),
                Encoder::<S>::grows(s0, *encoder),
                t < steps,
                i <= blocks.len(),
                lits@.len() == i,
                forall|k: int| 0 <= k < lits@.len() ==> lit_ok(#[trigger] lits@[k] as int, encoder.num_vars()),
                forall|k: int| 0 <= k < i ==> #[trigger] vars_cached(encoder.tables(), encoder.cache(), blocks[k].expr, t as int),
                forall|asg: Seq<bool>| #[trigger] satisfies(asg, encoder.formula())
                    ==> forall|k: int| 0 <= k < i && #[trigger] lit_val(asg, lits@[k] as int)
                        ==> holds_at(encoder.tables(), asg, encoder.cache(), blocks[k].expr, t as int),
            decreases spec.transition_blocks@.len() - i,
        {
            let ghost m1 = *encoder;
            let v = encoder.encode(&spec.transition_blocks[i].expr, t);
            proof {
                Encoder::<S>::lemma_grows_trans(start, m1, *encoder);
                Encoder::<S>::lemma_grows_trans(s0, m1, *encoder);
            }
            let v = v?;
            match v.as_bool() {
                Some(lit) => {
                    let ghost old_lits = lits@;
                    lits.push(lit);
                    proof {
                        let e1 = *encoder;
                        assert forall|k: int| 0 <= k < i + 1 implies #[trigger] vars_cached(e1.tables(), e1.cache(), blocks[k].expr, t as int) by {
                            if k < i {
                                lemma_encoded_extend(m1, e1, Seq::empty(), blocks[k].expr, t as int);
                            }
                        }
                        assert forall|asg: Seq<bool>| #[trigger] satisfies(asg, e1.formula()) implies
                            forall|k: int| 0 <= k < i + 1 && #[trigger] lit_val(asg, lits@[k] as int)
                                ==> holds_at(e1.tables(), asg, e1.cache(), blocks[k].expr, t as int) by {
                            assert forall|k: int| 0 <= k < i + 1 && #[trigger] lit_val(asg, lits@[k] as int)
                                implies holds_at(e1.tables(), asg, e1.cache(), blocks[k].expr, t as int) by {
                                if k < i {
                                    assert(lits@[k] == old_lits[k]);
                                    lemma_encoded_extend(m1, e1, asg, blocks[k].expr, t as int);
                                } else {
                                    assert(encodes(e1.tables(), asg, e1.cache(), blocks[k].expr, t as int, v));
                                }
                            }
                        }
                    }
                },
                None => {
                    return Err(CaelumError::Model { message: "BMC: transition block did not encode to a boolean".to_owned() });
                },
            }
            i = i + 1;
        }
        let ghost m2 = *encoder;
        let any = encoder.bor_many(lits.as_slice());
        proof {
            Encoder::<S>::lemma_grows_trans(start, m2, *encoder);
        }
        let any = any?;
        let ghost m3 = *encoder;
        encoder.assert_lit(any);
        proof {
            let e1 = *encoder;
            assert(Encoder::<S>::grows(m3, e1));
            Encoder::<S>::lemma_grows_trans(start, m3, e1);
            Encoder::<S>::lemma_grows_trans(m2, m3, e1);
            Encoder::<S>::lemma_grows_trans(s0, m2, e1);
            assert forall|k: int, u: int| 0 <= k < blocks.len() && 0 <= u < t + 1
                implies #[trigger] vars_cached(e1.tables(), e1.cache(), blocks[k].expr, u) by {
                if u < t {
                    lemma_encoded_extend(s0, e1, Seq::empty(), blocks[k].expr, u);
                } else {
                    lemma_encoded_extend(m2, e1, Seq::empty(), blocks[k].expr, u);
                }
            }
            assert forall|asg: Seq<bool>| #[trigger] satisfies(asg, e1.formula()) implies
                forall|u: int| 0 <= u < t + 1 ==> #[trigger] some_transition_holds(e1.tables(), asg, e1.cache(), blocks, u) by {
                lemma_satisfies_prefix(asg, m3.formula(), e1.formula());
                lemma_satisfies_prefix(asg, m2.formula(), e1.formula());
                lemma_satisfies_prefix(asg, s0.formula(), e1.formula());
                assert forall|u: int| 0 <= u < t + 1 implies #[trigger] some_transition_holds(e1.tables(), asg, e1.cache(), blocks, u) by {
                    if u < t {
                        assert(some_transition_holds(s0.tables(), asg, s0.cache(), blocks, u));
                        let k = choose|k: int| 0 <= k < blocks.len() && #[trigger] holds_at(s0.tables(), asg, s0.cache(), blocks[k].expr, u);
                        lemma_encoded_extend(s0, e1, asg, blocks[k].expr, u);
                        assert(holds_at(e1.tables(), asg, e1.cache(), blocks[k].expr, u));
                    } else {
                        assert(lit_val(asg, any as int));
                        assert(crate::bmc::encode::any_true(asg, lits@));
                        let k = choose|k: int| 0 <= k < lits@.len() && lit_val(asg, #[trigger] lits@[k] as int);
                        assert(holds_at(m2.tables(), asg, m2.cache(), blocks[k].expr, u));
                        lemma_encoded_extend(m2, e1, asg, blocks[k].expr, u);
                        assert(holds_at(e1.tables(), asg, e1.cache(), blocks[k].expr, u));
                    }
                }
            }
        }
        t = t + 1;
    }
    Ok(())
}

/// Requires the property to fail: for `□ φ`, `φ` false at some step in
/// `0..=last`; for a state formula, false at step 0.
fn encode_violation<S: Solver>(encoder: &mut Encoder<S>, body: &Expr, always: bool, last: usize) -> (r: Result<()>)
    requires
        old(encoder).wf(),
    ensures
        Encoder::<S>::grows(*old(encoder), *final(encoder)),
        r is Ok ==> forall|t: int| 0 <= t <= (if always { last as int } else { 0 })
            ==> #[trigger] vars_cached(final(encoder).tables(), final(encoder).cache(), *body, t),
        r is Ok ==> forall|asg: Seq<bool>| #[trigger] satisfies(asg, final(encoder).formula())
            ==> exists|t: int| 0 <= t <= (if always { last as int } else { 0 })
                && #[trigger] fails_at(final(encoder).tables(), asg, final(encoder).cache(), *body, t),
        r is Ok ==> final(encoder).formula().len() > 0 && forall|asg: Seq<bool>|
            #[trigger] satisfies(asg, final(encoder).formula().drop_last())
                && (exists|t: int| 0 <= t <= (if always { last as int } else { 0 })
                    && #[trigger] falsified_at(final(encoder).tables(), asg, final(encoder).cache(), *body, t))
            ==> satisfies(asg, final(encoder).formula()),
        r is Err ==> is_model_err(r),
{
    let ghost start = *encoder;
    proof {
        Encoder::<S>::lemma_grows_refl(*encoder);
    }
    let steps = if always { last } else { 0 };
    let mut violations: Vec<SatLit> = Vec::new();
    let mut t: usize = 0;
    loop
        invariant_except_break
            violations@.len() == t,
        invariant
            start == *old(encoder),
            Encoder::<S>::grows(start, *encoder),
            steps == (if always { last } else { 0 }),
            t <= steps,
            violations@.len() <= t + 1,
            forall|k: int| 0 <= k < violations@.len() ==> lit_ok(#[trigger] violations@[k] as int, encoder.num_vars()),
            forall|u: int| 0 <= u < violations@.len() ==> #[trigger] vars_cached(encoder.tables(), encoder.cache(), *body, u),
            forall|asg: Seq<bool>| #[trigger] satisfies(asg, encoder.formula())
                ==> forall|u: int| 0 <= u < violations@.len() && #[trigger] lit_val(asg, violations@[u] as int)
                    ==> fails_at(encoder.tables(), asg, encoder.cache(), *body, u),
            forall|asg: Seq<bool>| #[trigger] satisfies(asg, encoder.formula())
                ==> forall|u: int| 0 <= u < violations@.len() && #[trigger] falsified_at(encoder.tables(), asg, encoder.cache(), *body, u)
                    ==> lit_val(asg, violations@[u] as int),
        ensures
            violations@.len() == steps + 1,
        decreases steps - t,
    {
        let ghost m1 = *encoder;
        let v = encoder.encode(body, t);
        proof {
            Encoder::<S>::lemma_grows_trans(start, m1, *encoder);
        }
        let v = v?;
        match v.as_bool() {
            Some(lit) => {
                proof {
                    encoder.lemma_vars_bound();
                }
                let ghost old_v = violations@;
                violations.push(-lit);
                proof {
                    let e1 = *encoder;
                    assert forall|u: int| 0 <= u < violations@.len() implies #[trigger] vars_cached(e1.tables(), e1.cache(), *body, u) by {
                        if u < t {
                            lemma_encoded_extend(m1, e1, Seq::empty(), *body, u);
                        }
                    }
                    assert forall|asg: Seq<bool>| #[trigger] satisfies(asg, e1.formula()) implies
                        forall|u: int| 0 <= u < violations@.len() && #[trigger] lit_val(asg, violations@[u] as int)
                            ==> fails_at(e1.tables(), asg, e1.cache(), *body, u) by {
                        assert forall|u: int| 0 <= u < violations@.len() && #[trigger] lit_val(asg, violations@[u] as int)
                            implies fails_at(e1.tables(), asg, e1.cache(), *body, u) by {
                            if u < t {
                                assert(violations@[u] == old_v[u]);
                                lemma_encoded_extend(m1, e1, asg, *body, u);
                            } else {
                                crate::bmc::encode::lemma_neg_lit(asg, lit as int);
                                assert(encodes(e1.tables(), asg, e1.cache(), *body, u, v));
                            }
                        }
                    }
                    assert forall|asg: Seq<bool>| #[trigger] satisfies(asg, e1.formula()) implies
                        forall|u: int| 0 <= u < violations@.len() && #[trigger] falsified_at(e1.tables(), asg, e1.cache(), *body, u)
                            ==> lit_val(asg, violations@[u] as int) by {
                        assert forall|u: int| 0 <= u < violations@.len() && #[trigger] falsified_at(e1.tables(), asg, e1.cache(), *body, u)
                            implies lit_val(asg, violations@[u] as int) by {
                            if u < t {
                                assert(violations@[u] == old_v[u]);
                                lemma_encoded_extend(m1, e1, asg, *body, u);
                                assert(falsified_at(m1.tables(), asg, m1.cache(), *body, u));
                            } else {
                                crate::bmc::encode::lemma_neg_lit(asg, lit as int);
                                assert(encodes(e1.tables(), asg, e1.cache(), *body, u, v));
                            }
                        }
                    }
                }
            },
            None => {
                return Err(CaelumError::Model { message: "BMC: property body did not encode to a boolean".to_owned() });
            },
        }
        if t == steps {
            break;
        }
        t = t + 1;
    }
    let ghost m2 = *encoder;
    let any = encoder.bor_many(violations.as_slice());
    proof {
        Encoder::<S>::lemma_grows_trans(start, m2, *encoder);
    }
    let any = any?;
    let ghost m3 = *encoder;
    encoder.assert_lit(any);
    proof {
        let e1 = *encoder;
        assert(Encoder::<S>::grows(m3, e1));
        Encoder::<S>::lemma_grows_trans(start, m3, e1);
        Encoder::<S>::lemma_grows_trans(m2, m3, e1);
        assert forall|u: int| 0 <= u <= (if always { last as int } else { 0 })
            implies #[trigger] vars_cached(e1.tables(), e1.cache(), *body, u) by {
            lemma_encoded_extend(m2, e1, Seq::empty(), *body, u);
        }
        assert forall|asg: Seq<bool>| #[trigger] satisfies(asg, e1.formula()) implies
            exists|u: int| 0 <= u <= (if always { last as int } else { 0 })
                && #[trigger] fails_at(e1.tables(), asg, e1.cache(), *body, u) by {
            lemma_satisfies_prefix(asg, m3.formula(), e1.formula());
            lemma_satisfies_prefix(asg, m2.formula(), e1.formula());
            assert(lit_val(asg, any as int));
            assert(crate::bmc::encode::any_true(asg, violations@));
            let k = choose|k: int| 0 <= k < violations@.len() && lit_val(asg, #[trigger] violations@[k] as int);
            lemma_encoded_extend(m2, e1, asg, *body, k);
            assert(fails_at(e1.tables(), asg, e1.cache(), *body, k));
        }
        assert(e1.formula().drop_last() =~= m3.formula());
        assert forall|asg: Seq<bool>|
            #[trigger] satisfies(asg, e1.formula().drop_last())
                && (exists|u: int| 0 <= u <= (if always { last as int } else { 0 })
                    && #[trigger] falsified_at(e1.tables(), asg, e1.cache(), *body, u))
            implies satisfies(asg, e1.formula()) by {
            let u = choose|u: int| 0 <= u <= (if always { last as int } else { 0 })
                && #[trigger] falsified_at(e1.tables(), asg, e1.cache(), *body, u);
            lemma_satisfies_prefix(asg, m2.formula(), m3.formula());
            lemma_encoded_extend(m2, e1, asg, *body, u);
            assert(falsified_at(m2.tables(), asg, m2.cache(), *body, u));
            assert(lit_val(asg, violations@[u] as int));
            assert(crate::bmc::encode::any_true(asg, violations@));
            assert(lit_val(asg, any as int));
            let n = m3.formula().len() as int;
            assert forall|i: int| 0 <= i < e1.formula().len() implies #[trigger] clause_sat(asg, e1.formula()[i]) by {
                if i < n {
                    assert(e1.formula()[i] == m3.formula()[i]);
                } else {
                    assert(e1.formula()[i] == seq![any]);
                    assert(seq![any][0] == any);
                }
            }
        }
    }
    Ok(())
}

/// Whether `v` is the first value of the domain `d`: `false` for booleans
/// and for a variable without a domain, `0` or the empty name for an empty
/// domain.
pub open spec fn is_default_value(d: Option<ResolvedDomain>, v: Value) -> bool {
    match d {
        Some(ResolvedDomain::Int(values)) => v == Value::Int(if values@.len() > 0 { values@[0] } else { 0 }),
        Some(ResolvedDomain::Enum { variants, .. }) => v matches Value::Enum(s)
            && s@ == (if variants@.len() > 0 { variants@[0]@ } else { Seq::<char>::empty() }),
        _ => v == Value::Bool(false),
    }
}

/// The value of a variable the solver left unconstrained: the first of its
/// domain.
fn default_value(domains: &Vec<(String, ResolvedDomain)>, name: &String) -> (r: Value)
    ensures
        is_default_value(lookup(domains@, name@), r),
{
    match find_key(domains, name) {
        Some(k) => match &domains[k].1 {
            ResolvedDomain::Bool => Value::Bool(false),
            ResolvedDomain::Int(values) => Value::Int(if values.len() > 0 { values[0] } else { 0 }),
            ResolvedDomain::Enum { variants, .. } => Value::Enum(
                if variants.len() > 0 { variants[0].clone() } else { String::new() },
            ),
        },
        None => Value::Bool(false),
    }
}

/// The names of the state variables, in order.
pub open spec fn var_names(vars: Seq<&VarDecl>) -> Seq<Seq<char>> {
    vars.map_values(|d: &VarDecl| d.name@)
}

/// The states `0..=last` of the path the solver found; when the solver's
/// assignment satisfies the clauses, each state holds the values the
/// assignment gives the variables' symbolic values.
fn decode_trace<S: Solver>(spec: &BmcSpec, encoder: &Encoder<S>, last: usize) -> (r: Vec<State>)
    requires
        encoder.wf(),
        encoder.backend().has_model(),
        last < usize::MAX,
    ensures
        trace_shape(r@, last + 1, spec.variables@.len() as int),
        satisfies(encoder.model(), encoder.formula())
            ==> trace_matches(encoder.model(), encoder.cache(), var_names(spec.variables@), r@),
{
    let ghost names = var_names(spec.variables@);
    let ghost sat = satisfies(encoder.model(), encoder.formula());
    let mut states: Vec<State> = Vec::new();
    let mut t: usize = 0;
    loop
        invariant_except_break
            trace_shape(states@, t as int, spec.variables@.len() as int),
        invariant
            encoder.wf(),
            encoder.backend().has_model(),
            t <= last,
            names == var_names(spec.variables@),
            sat == satisfies(encoder.model(), encoder.formula()),
            forall|t2: int, i: int| 0 <= t2 < states@.len() && 0 <= i < names.len() && i < states@[t2].values@.len()
                ==> match cache_lookup(encoder.cache(), names[i], t2) {
                    Some(sv) => sat ==> den(encoder.model(), sv, #[trigger] states@[t2].values@[i]),
                    None => true,
                },
        ensures
            trace_shape(states@, last + 1, spec.variables@.len() as int),
            forall|t2: int, i: int| 0 <= t2 < states@.len() && 0 <= i < names.len() && i < states@[t2].values@.len()
                ==> match cache_lookup(encoder.cache(), names[i], t2) {
                    Some(sv) => sat ==> den(encoder.model(), sv, #[trigger] states@[t2].values@[i]),
                    None => true,
                },
        decreases last - t,
    {
        let mut row: Vec<Value> = Vec::new();
        let mut v: usize = 0;
        while v < spec.variables.len()
            invariant
                encoder.wf(),
                encoder.backend().has_model(),
                v <= spec.variables@.len(),
                row@.len() == v,
                names == var_names(spec.variables@),
                sat == satisfies(encoder.model(), encoder.formula()),
                forall|i: int| 0 <= i < v ==> match cache_lookup(encoder.cache(), names[i], t as int) {
                    Some(sv) => sat ==> den(encoder.model(), sv, #[trigger] row@[i]),
                    None => true,
                },
            decreases spec.variables@.len() - v,
        {
            let name = &spec.variables[v].name;
            let value = match encoder.read_state(name, t) {
                Some(x) => x,
                None => default_value(&spec.domains, name),
            };
            let ghost before = row@;
            row.push(value);
            proof {
                assert(names[v as int] == spec.variables@[v as int].name@);
                assert forall|i: int| 0 <= i < v + 1 implies match cache_lookup(encoder.cache(), names[i], t as int) {
                    Some(sv) => sat ==> den(encoder.model(), sv, #[trigger] row@[i]),
                    None => true,
                } by {
                    if i < v { assert(row@[i] == before[i]); }
                }
            }
            v = v + 1;
        }
        let ghost old_states = states@;
        let st = State { values: row };
        states.push(st);
        proof {
            assert forall|t2: int, i: int| 0 <= t2 < states@.len() && 0 <= i < names.len() && i < states@[t2].values@.len()
                implies match cache_lookup(encoder.cache(), names[i], t2) {
                    Some(sv) => sat ==> den(encoder.model(), sv, #[trigger] states@[t2].values@[i]),
                    None => true,
                } by {
                if t2 < old_states.len() {
                    assert(states@[t2] == old_states[t2]);
                } else {
                    assert(states@[t2] == st);
                    assert(t2 == t);
                }
            }
        }
        if t == last {
            break;
        }
        t = t + 1;
    }
    states
}

/// The tables a specification resolves names with.
pub open spec fn spec_tables(spec: BmcSpec) -> Tables {
    (spec.constants@, spec.enum_variant_type@, spec.domains@)
}

/// At step `t` of the trace, some `transition` block holds.
pub open spec fn step_holds(spec: BmcSpec, trace: Seq<State>, t: int) -> bool {
    exists|k: int| 0 <= k < spec.transition_blocks@.len()
        && #[trigger] trace_holds(spec_tables(spec), var_names(spec.variables@), trace, spec.transition_blocks@[k].expr, t)
}

/// `trace` is a run of `steps` transitions that violates property `p`: its
/// first state satisfies every `init` block, each of its first `steps`
/// steps some `transition` block (when there is any), and the body of the
/// property is false at one of the steps it is checked at (the first, or,
/// under `□`, any that leaves room for its `◯`). Each of these is read
/// wherever the expression has a value.
pub open spec fn violating_run(spec: BmcSpec, p: PropertyBlock, steps: int, trace: Seq<State>) -> bool {
    let tables = spec_tables(spec);
    let names = var_names(spec.variables@);
    let body = shape_body(p.expr);
    let last = if shape_of(p.expr) is Always { steps - next_depth(body) } else { 0 };
    &&& forall|k: int| 0 <= k < spec.init_blocks@.len()
        ==> #[trigger] trace_holds(tables, names, trace, spec.init_blocks@[k].expr, 0)
    &&& spec.transition_blocks@.len() > 0 ==> forall|t: int| 0 <= t < steps ==> #[trigger] step_holds(spec, trace, t)
    &&& exists|t: int| 0 <= t <= last && #[trigger] trace_fails(tables, names, trace, body, t)
}

/// A path read from an assignment that satisfies the encoding is a run that
/// violates the property.
proof fn lemma_violating_run<S: Solver>(
    spec: BmcSpec,
    p: PropertyBlock,
    steps: int,
    e2: Encoder<S>,
    e3: Encoder<S>,
    e4: Encoder<S>,
    asg: Seq<bool>,
    trace: Seq<State>,
)
    requires
        Encoder::<S>::grows(e2, e3),
        Encoder::<S>::grows(e3, e4),
        0 <= steps,
        forall|k: int| 0 <= k < spec.init_blocks@.len()
            ==> vars_cached(e2.tables(), e2.cache(), #[trigger] spec.init_blocks@[k].expr, 0),
        forall|a: Seq<bool>| #[trigger] satisfies(a, e2.formula())
            ==> forall|k: int| 0 <= k < spec.init_blocks@.len()
                ==> holds_at(e2.tables(), a, e2.cache(), #[trigger] spec.init_blocks@[k].expr, 0),
        spec.transition_blocks@.len() > 0 ==> transitions_cached(e3.tables(), e3.cache(), spec.transition_blocks@, steps),
        spec.transition_blocks@.len() > 0 ==> forall|a: Seq<bool>| #[trigger] satisfies(a, e3.formula())
            ==> forall|t: int| 0 <= t < steps ==> #[trigger] some_transition_holds(e3.tables(), a, e3.cache(), spec.transition_blocks@, t),
        ({
            let body = shape_body(p.expr);
            let last = if shape_of(p.expr) is Always { steps - next_depth(body) } else { 0 };
            &&& forall|t: int| 0 <= t <= last ==> #[trigger] vars_cached(e4.tables(), e4.cache(), body, t)
            &&& forall|a: Seq<bool>| #[trigger] satisfies(a, e4.formula())
                ==> exists|t: int| 0 <= t <= last && #[trigger] fails_at(e4.tables(), a, e4.cache(), body, t)
        }),
        satisfies(asg, e4.formula()),
        trace_matches(asg, e4.cache(), var_names(spec.variables@), trace),
        tables_alike(e4.tables(), spec_tables(spec)),
    ensures
        violating_run(spec, p, steps, trace),
{
    let tables = spec_tables(spec);
    let names = var_names(spec.variables@);
    let body = shape_body(p.expr);
    let last = if shape_of(p.expr) is Always { steps - next_depth(body) } else { 0 };
    Encoder::<S>::lemma_grows_trans(e2, e3, e4);
    lemma_satisfies_prefix(asg, e2.formula(), e4.formula());
    lemma_satisfies_prefix(asg, e3.formula(), e4.formula());
    assert forall|k: int| 0 <= k < spec.init_blocks@.len()
        implies #[trigger] trace_holds(tables, names, trace, spec.init_blocks@[k].expr, 0) by {
        let e = spec.init_blocks@[k].expr;
        lemma_encoded_extend(e2, e4, asg, e, 0);
        assert(holds_at(e2.tables(), asg, e2.cache(), e, 0));
        lemma_holds_on_trace(e4.tables(), asg, e4.cache(), names, trace, e, 0);
        lemma_trace_eval_alike(e4.tables(), tables, names, trace, e, 0);
    }
    if spec.transition_blocks@.len() > 0 {
        assert forall|t: int| 0 <= t < steps implies #[trigger] step_holds(spec, trace, t) by {
            assert(some_transition_holds(e3.tables(), asg, e3.cache(), spec.transition_blocks@, t));
            let k = choose|k: int| 0 <= k < spec.transition_blocks@.len()
                && #[trigger] holds_at(e3.tables(), asg, e3.cache(), spec.transition_blocks@[k].expr, t);
            let e = spec.transition_blocks@[k].expr;
            assert(vars_cached(e3.tables(), e3.cache(), e, t));
            lemma_encoded_extend(e3, e4, asg, e, t);
            lemma_holds_on_trace(e4.tables(), asg, e4.cache(), names, trace, e, t);
            lemma_trace_eval_alike(e4.tables(), tables, names, trace, e, t);
            assert(trace_holds(tables, names, trace, spec.transition_blocks@[k].expr, t));
        }
    }
    let t = choose|t: int| 0 <= t <= last && #[trigger] fails_at(e4.tables(), asg, e4.cache(), body, t);
    assert(vars_cached(e4.tables(), e4.cache(), body, t));
    lemma_holds_on_trace(e4.tables(), asg, e4.cache(), names, trace, body, t);
    lemma_trace_eval_alike(e4.tables(), tables, names, trace, body, t);
    assert(trace_fails(tables, names, trace, body, t));
}

/// Checks one property by bounded model checking with the given solver.
/// A property outside the safety fragment is skipped with a note; one
/// whose formula needs more steps than the bound allows is an error.
/// Otherwise the verdict follows the solver's answer on whether some path
/// of `depth` transitions from an initial state violates the formula.
pub fn check_property_with_solver<S: Solver>(
    spec: &BmcSpec,
    property: &PropertyBlock,
    options: &BmcOptions,
    solver: S,
) -> (r: Result<PropertyResult>)
    requires
        solver.vars() < solver.limit(),
        clauses_in_range(solver.clauses(), solver.vars()),
    ensures
        shape_of(property.expr) is Unsupported ==> r is Ok,
        !(shape_of(property.expr) is Unsupported) && options.depth < next_depth(shape_body(property.expr)) ==> r is Err,
        r matches Ok(res) ==> bmc_result_for(*property, options.depth as nat, spec.variables@.len() as int, res),
        S::exact() ==> (r matches Ok(res) ==> (res.counterexample matches Some(c)
            ==> violating_run(*spec, *property, options.depth as int, c.states@))),
        S::exact() ==> (r matches Ok(res) ==> (property.kind is Invalid && res.status == CheckStatus::Pass
            ==> exists|tr: Seq<State>| violating_run(*spec, *property, options.depth as int, tr))),
        r is Err ==> is_model_err(r),
{
    let shape = classify(&property.expr);
    if let PropShape::Unsupported(why) = shape {
        return Ok(PropertyResult {
            name: property.name.clone(),
            kind: property.kind,
            status: CheckStatus::Skipped,
            counterexample: None,
            note: Some(skip_note(why)),
        });
    }
    let body = body_of(&property.expr);
    let next = match max_next_depth(body) {
        Some(n) => n,
        None => {
            return Err(CaelumError::Model { message: "BMC: the property nests `next` too deeply".to_owned() });
        },
    };
    let k = options.depth;
    if k < next {
        return Err(CaelumError::Model {
            message: concat_strs(&[
                "BMC depth ", usize_text(k).as_str(), " is less than property's required next-depth ",
                usize_text(next).as_str(),
            ]),
        });
    }
    if k >= usize::MAX - next {
        return Err(CaelumError::Model { message: "BMC: the trace is too long".to_owned() });
    }
    let last_traced = k + next;
    let mut constants: Vec<(String, crate::bmc::encode::ConstValue)> = Vec::new();
    let mut i: usize = 0;
    while i < spec.constants.len()
        invariant
            i <= spec.constants@.len(),
            constants@ == spec.constants@.take(i as int),
        decreases spec.constants@.len() - i,
    {
        constants.push((spec.constants[i].0.clone(), clone_const(&spec.constants[i].1)));
        proof { assert(spec.constants@.take(i + 1) == spec.constants@.take(i as int).push(spec.constants@[i as int])); }
        i = i + 1;
    }
    proof { assert(spec.constants@.take(spec.constants@.len() as int) == spec.constants@); }
    let mut enum_variant_type: Vec<(String, String)> = Vec::new();
    let mut i: usize = 0;
    while i < spec.enum_variant_type.len()
        invariant
            i <= spec.enum_variant_type@.len(),
            enum_variant_type@ == spec.enum_variant_type@.take(i as int),
        decreases spec.enum_variant_type@.len() - i,
    {
        enum_variant_type.push((spec.enum_variant_type[i].0.clone(), spec.enum_variant_type[i].1.clone()));
        proof { assert(spec.enum_variant_type@.take(i + 1) == spec.enum_variant_type@.take(i as int).push(spec.enum_variant_type@[i as int])); }
        i = i + 1;
    }
    proof { assert(spec.enum_variant_type@.take(spec.enum_variant_type@.len() as int) == spec.enum_variant_type@); }
    let mut domains: Vec<(String, ResolvedDomain)> = Vec::new();
    let mut i: usize = 0;
    while i < spec.domains.len()
        invariant
            i <= spec.domains@.len(),
            domains@.len() == i,
            forall|j: int| 0 <= j < i ==> (#[trigger] domains@[j]).1@ == spec.domains@[j].1@,
        decreases spec.domains@.len() - i,
    {
        domains.push((spec.domains[i].0.clone(), crate::bmc::encode::clone_domain_of(&spec.domains[i].1)));
        i = i + 1;
    }
    let mut encoder = Encoder::new(solver, constants, enum_variant_type, domains);
    proof { assert(tables_alike(encoder.tables(), spec_tables(*spec))); }
    allocate_states(&mut encoder, spec, k)?;
    let ghost e1 = encoder;
    encode_init(&mut encoder, spec)?;
    let ghost e2 = encoder;
    encode_transitions(&mut encoder, spec, k)?;
    let ghost e3 = encoder;
    let always = shape == PropShape::Always;
    encode_violation(&mut encoder, body, always, k - next)?;
    let ghost e4 = encoder;
    let sat = encoder.solve()?;
    let trace = if sat { decode_trace(spec, &encoder, last_traced) } else { Vec::new() };
    let ghost trace_view = trace@;
    proof {
        if sat && S::exact() {
            lemma_violating_run(*spec, *property, k as int, e2, e3, e4, encoder.model(), trace_view);
        }
    }
    let result = verdict(property, sat, trace);
    proof {
        assert(bmc_verdict(*property, sat, trace_view, result));
    }
    Ok(result)
}

fn clone_const(c: &crate::bmc::encode::ConstValue) -> (r: crate::bmc::encode::ConstValue)
    ensures
        r == *c,
{
    match c {
        crate::bmc::encode::ConstValue::Bool(b) => crate::bmc::encode::ConstValue::Bool(*b),
        crate::bmc::encode::ConstValue::Int(i) => crate::bmc::encode::ConstValue::Int(*i),
        crate::bmc::encode::ConstValue::Enum { enum_type, variant } => crate::bmc::encode::ConstValue::Enum {
            enum_type: enum_type.clone(),
            variant: variant.clone(),
        },
    }
}

} // verus!
