//! What a path the solver found means over the decoded states: expressions
//! evaluated on a trace of states, and what it takes for a trace to be a run
//! of the system that violates a property.

use vstd::prelude::*;

use crate::bmc::encode::{
    cache_lookup, const_value, den, enc_eval, enum_den, enum_domain_of, enum_value, has_den, int_den, var_value,
    ResolvedDomain, Tables,
};
use crate::bmc::solver::lit_val;
use crate::bmc::sym::SymVal;
use crate::model::eval::{lookup, spec_eval_binary, spec_eval_unary};
use crate::model::state::{same_value, State, Value};
use crate::syntax::ast::{BinaryOp, Expr, UnaryOp};

verus! {

/// The position of the first name `n` in `names`.
pub open spec fn name_index(names: Seq<Seq<char>>, n: Seq<char>) -> Option<int>
    decreases names.len(),
{
    if names.len() == 0 {
        None
    } else if names[0] == n {
        Some(0)
    } else {
        match name_index(names.drop_first(), n) {
            Some(i) => Some(i + 1),
            None => None,
        }
    }
}

/// The value the trace gives state variable `n` at step `t`.
pub open spec fn trace_value(names: Seq<Seq<char>>, trace: Seq<State>, n: Seq<char>, t: int) -> Option<Value> {
    match name_index(names, n) {
        Some(i) => if 0 <= t < trace.len() && i < trace[t].values@.len() {
            Some(trace[t].values@[i])
        } else {
            None
        },
        None => None,
    }
}

/// The value of an expression at step `t` of a trace of states over the
/// variables `names`: constants and enum variants as the tables resolve
/// them, a state variable as the state at step `t` holds it (a primed one,
/// and every one under `◯`, at step `t + 1`).
pub open spec fn trace_eval(tables: Tables, names: Seq<Seq<char>>, trace: Seq<State>, e: Expr, t: int) -> Option<Value>
    decreases e,
{
    match e {
        Expr::Bool(b) => Some(Value::Bool(b)),
        Expr::Int(i) => Some(Value::Int(i)),
        Expr::Name(n) => match lookup(tables.0, n@) {
            Some(cv) => const_value(tables.2, cv),
            None => match lookup(tables.1, n@) {
                Some(ty) => enum_value(tables.2, ty, n),
                None => trace_value(names, trace, n@, t),
            },
        },
        Expr::PrimedName(n) => trace_value(names, trace, n@, t + 1),
        Expr::Unary { op, expr } => match op {
            UnaryOp::Next => trace_eval(tables, names, trace, *expr, t + 1),
            UnaryOp::Not | UnaryOp::Neg => match trace_eval(tables, names, trace, *expr, t) {
                Some(v) => spec_eval_unary(op, v),
                None => None,
            },
            _ => None,
        },
        Expr::Binary { op, lhs, rhs } => match (trace_eval(tables, names, trace, *lhs, t), trace_eval(tables, names, trace, *rhs, t)) {
            (Some(a), Some(b)) => spec_eval_binary(op, a, b),
            _ => None,
        },
        _ => None,
    }
}

/// The expression is true at step `t` of the trace whenever it has a value there.
pub open spec fn trace_holds(tables: Tables, names: Seq<Seq<char>>, trace: Seq<State>, e: Expr, t: int) -> bool {
    trace_eval(tables, names, trace, e, t) matches Some(v) ==> v == Value::Bool(true)
}

/// The expression is false at step `t` of the trace whenever it has a value there.
pub open spec fn trace_fails(tables: Tables, names: Seq<Seq<char>>, trace: Seq<State>, e: Expr, t: int) -> bool {
    trace_eval(tables, names, trace, e, t) matches Some(v) ==> v == Value::Bool(false)
}

/// The two optional values agree: both missing, or both present and the same.
pub open spec fn same_opt(a: Option<Value>, b: Option<Value>) -> bool {
    match (a, b) {
        (None, None) => true,
        (Some(x), Some(y)) => same_value(x, y),
        _ => false,
    }
}

/// The state at each step `t` of the trace holds, for each variable, the
/// value its symbolic value takes under `asg`.
pub open spec fn trace_matches(asg: Seq<bool>, c: Seq<(String, usize, SymVal)>, names: Seq<Seq<char>>, trace: Seq<State>) -> bool {
    forall|t: int, i: int| 0 <= t < trace.len() && 0 <= i < names.len() && i < trace[t].values@.len()
        ==> match cache_lookup(c, names[i], t) {
            Some(sv) => den(asg, sv, #[trigger] trace[t].values@[i]),
            None => true,
        }
}

pub proof fn lemma_name_index(names: Seq<Seq<char>>, n: Seq<char>)
    ensures
        name_index(names, n) matches Some(i) ==> 0 <= i < names.len() && names[i] == n,
    decreases names.len(),
{
    if names.len() > 0 && names[0] != n {
        lemma_name_index(names.drop_first(), n);
    }
}

/// A symbolic value takes at most one value, up to how enum variants are spelled.
pub proof fn lemma_den_unique(asg: Seq<bool>, sv: SymVal, x: Value, y: Value)
    requires
        den(asg, sv, x),
        den(asg, sv, y),
    ensures
        same_value(x, y),
{
    match sv {
        SymVal::Bool(l) => {},
        SymVal::Int(ps) => {
            let (i, j) = (x->Int_0, y->Int_0);
            let k = choose|k: int| 0 <= k < ps@.len() && #[trigger] lit_val(asg, ps@[k].1 as int) && ps@[k].0 == i;
            assert(int_den(asg, ps@, j));
            assert(ps@[k].0 == j);
        },
        SymVal::Enum { values, .. } => {
            let (a, b) = (x->Enum_0, y->Enum_0);
            let k = choose|k: int| 0 <= k < values@.len() && #[trigger] lit_val(asg, values@[k].1 as int) && values@[k].0@ == a@;
            assert(enum_den(asg, values@, b@));
            assert(values@[k].0@ == b@);
        },
    }
}

proof fn lemma_unary_same(op: UnaryOp, a: Value, b: Value)
    requires
        same_value(a, b),
    ensures
        same_opt(spec_eval_unary(op, a), spec_eval_unary(op, b)),
{
}

proof fn lemma_binary_same(op: BinaryOp, a: Value, a2: Value, b: Value, b2: Value)
    requires
        same_value(a, a2),
        same_value(b, b2),
    ensures
        same_opt(spec_eval_binary(op, a, b), spec_eval_binary(op, a2, b2)),
{
    match (a, a2) {
        (Value::Bool(x), Value::Bool(y)) => { assert(a == a2); },
        (Value::Int(x), Value::Int(y)) => { assert(a == a2); },
        _ => {},
    }
    match (b, b2) {
        (Value::Bool(x), Value::Bool(y)) => { assert(b == b2); },
        (Value::Int(x), Value::Int(y)) => { assert(b == b2); },
        _ => {},
    }
}

/// Wherever an expression has a value on a trace that holds what the
/// assignment gives the cached symbolic values, the encoder's reading of the
/// expression has the same value.
pub proof fn lemma_trace_eval(tables: Tables, asg: Seq<bool>, c: Seq<(String, usize, SymVal)>, names: Seq<Seq<char>>, trace: Seq<State>, e: Expr, t: int)
    requires
        trace_matches(asg, c, names, trace),
        crate::bmc::encode::vars_cached(tables, c, e, t),
    ensures
        trace_eval(tables, names, trace, e, t) matches Some(x)
            ==> (enc_eval(tables, asg, c, e, t) matches Some(y) && same_value(x, y)),
    decreases e,
{
    match e {
        Expr::Name(n) => {
            if lookup(tables.0, n@) is None && lookup(tables.1, n@) is None {
                lemma_var(asg, c, names, trace, n@, t);
            }
            if lookup(tables.0, n@) is Some || lookup(tables.1, n@) is Some {
                if trace_eval(tables, names, trace, e, t) is Some {
                    let x = trace_eval(tables, names, trace, e, t)->Some_0;
                    assert(same_value(x, x));
                }
            }
        },
        Expr::PrimedName(n) => {
            lemma_var(asg, c, names, trace, n@, t + 1);
        },
        Expr::Unary { op, expr } => {
            if op is Next {
                lemma_trace_eval(tables, asg, c, names, trace, *expr, t + 1);
            } else {
                lemma_trace_eval(tables, asg, c, names, trace, *expr, t);
                if trace_eval(tables, names, trace, *expr, t) is Some {
                    let x = trace_eval(tables, names, trace, *expr, t)->Some_0;
                    let y = enc_eval(tables, asg, c, *expr, t)->Some_0;
                    lemma_unary_same(op, x, y);
                }
            }
        },
        Expr::Binary { op, lhs, rhs } => {
            lemma_trace_eval(tables, asg, c, names, trace, *lhs, t);
            lemma_trace_eval(tables, asg, c, names, trace, *rhs, t);
            if trace_eval(tables, names, trace, *lhs, t) is Some && trace_eval(tables, names, trace, *rhs, t) is Some {
                let (x1, x2) = (trace_eval(tables, names, trace, *lhs, t)->Some_0, trace_eval(tables, names, trace, *rhs, t)->Some_0);
                let (y1, y2) = (enc_eval(tables, asg, c, *lhs, t)->Some_0, enc_eval(tables, asg, c, *rhs, t)->Some_0);
                lemma_binary_same(op, x1, y1, x2, y2);
            }
        },
        Expr::Bool(b) => {},
        Expr::Int(i) => {},
        _ => {},
    }
}

proof fn lemma_var(asg: Seq<bool>, c: Seq<(String, usize, SymVal)>, names: Seq<Seq<char>>, trace: Seq<State>, n: Seq<char>, t: int)
    requires
        trace_matches(asg, c, names, trace),
        cache_lookup(c, n, t) is Some,
    ensures
        trace_value(names, trace, n, t) matches Some(x)
            ==> (var_value(asg, c, n, t) matches Some(y) && same_value(x, y)),
{
    lemma_name_index(names, n);
    if trace_value(names, trace, n, t) is Some {
        let i = name_index(names, n)->Some_0;
        let x = trace[t].values@[i];
        let sv = cache_lookup(c, n, t)->Some_0;
        assert(den(asg, sv, x));
        assert(has_den(asg, sv));
        let y = choose|val: Value| den(asg, sv, val);
        lemma_den_unique(asg, sv, x, y);
    }
}

/// What holds on the encoder's reading holds on the trace.
pub proof fn lemma_holds_on_trace(tables: Tables, asg: Seq<bool>, c: Seq<(String, usize, SymVal)>, names: Seq<Seq<char>>, trace: Seq<State>, e: Expr, t: int)
    requires
        trace_matches(asg, c, names, trace),
        crate::bmc::encode::vars_cached(tables, c, e, t),
    ensures
        (enc_eval(tables, asg, c, e, t) matches Some(v) ==> v == Value::Bool(true))
            ==> trace_holds(tables, names, trace, e, t),
        (enc_eval(tables, asg, c, e, t) matches Some(v) ==> v == Value::Bool(false))
            ==> trace_fails(tables, names, trace, e, t),
{
    lemma_trace_eval(tables, asg, c, names, trace, e, t);
}

/// Two tables that resolve names alike: the same constants and enum
/// variants, and domains with the same contents position by position.
pub open spec fn tables_alike(a: Tables, b: Tables) -> bool {
    &&& a.0 == b.0
    &&& a.1 == b.1
    &&& a.2.len() == b.2.len()
    &&& forall|i: int| 0 <= i < a.2.len() ==> (#[trigger] a.2[i]).1@ == b.2[i].1@
}

proof fn lemma_enum_domain_alike(d1: Seq<(String, ResolvedDomain)>, d2: Seq<(String, ResolvedDomain)>, ty: Seq<char>)
    requires
        d1.len() == d2.len(),
        forall|i: int| 0 <= i < d1.len() ==> (#[trigger] d1[i]).1@ == d2[i].1@,
    ensures
        enum_domain_of(d1, ty) == enum_domain_of(d2, ty),
    decreases d1.len(),
{
    if d1.len() > 0 {
        assert(d1[0].1@ == d2[0].1@);
        assert forall|i: int| 0 <= i < d1.drop_first().len() implies (#[trigger] d1.drop_first()[i]).1@ == d2.drop_first()[i].1@ by {
            assert(d1.drop_first()[i] == d1[i + 1]);
            assert(d2.drop_first()[i] == d2[i + 1]);
        }
        lemma_enum_domain_alike(d1.drop_first(), d2.drop_first(), ty);
    }
}

/// Tables that resolve names alike give every expression the same value on a trace.
pub proof fn lemma_trace_eval_alike(a: Tables, b: Tables, names: Seq<Seq<char>>, trace: Seq<State>, e: Expr, t: int)
    requires
        tables_alike(a, b),
    ensures
        trace_eval(a, names, trace, e, t) == trace_eval(b, names, trace, e, t),
    decreases e,
{
    match e {
        Expr::Name(n) => {
            match lookup(a.0, n@) {
                Some(cv) => {
                    match cv {
                        crate::bmc::encode::ConstValue::Enum { enum_type, variant } => {
                            lemma_enum_domain_alike(a.2, b.2, enum_type@);
                        },
                        _ => {},
                    }
                },
                None => match lookup(a.1, n@) {
                    Some(ty) => { lemma_enum_domain_alike(a.2, b.2, ty@); },
                    None => {},
                },
            }
        },
        Expr::Unary { op, expr } => {
            lemma_trace_eval_alike(a, b, names, trace, *expr, t);
            lemma_trace_eval_alike(a, b, names, trace, *expr, t + 1);
        },
        Expr::Binary { lhs, rhs, .. } => {
            lemma_trace_eval_alike(a, b, names, trace, *lhs, t);
            lemma_trace_eval_alike(a, b, names, trace, *rhs, t);
        },
        _ => {},
    }
}

} // verus!
