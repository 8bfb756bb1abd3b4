//! Evaluation of core expressions in a state (and, for transitions, a
//! successor state).

use vstd::prelude::*;

use crate::diagnostics::{concat_strs, concat_views, is_model_err, CaelumError, Result};
use crate::model::state::{clone_value, same_value, value_eq, value_text, State, Value};
use crate::syntax::ast::{BinaryOp, Expr, UnaryOp};

verus! {

/// Names in scope while evaluating: constants, enum variants, and the position
/// of each state variable in a state. A name bound twice resolves to its first
/// binding.
#[derive(Debug, Clone)]
pub struct EvalEnv {
    pub constants: Vec<(String, Value)>,
    pub enum_values: Vec<(String, Value)>,
    pub variables: Vec<(String, usize)>,
}

/// The value bound to `name`: the first entry whose key is `name`.
pub open spec fn lookup<V>(m: Seq<(String, V)>, name: Seq<char>) -> Option<V>
    decreases m.len(),
{
    if m.len() == 0 {
        None
    } else if m[0].0@ == name {
        Some(m[0].1)
    } else {
        lookup(m.drop_first(), name)
    }
}

/// Skipping entries whose key is not `name` does not change what `name` is bound to.
pub proof fn lemma_lookup_skip<V>(m: Seq<(String, V)>, name: Seq<char>, i: int)
    requires
        0 <= i <= m.len(),
        forall|j: int| 0 <= j < i ==> (#[trigger] m[j]).0@ != name,
    ensures
        lookup(m, name) == lookup(m.skip(i), name),
    decreases i,
{
    if i == 0 {
        assert(m.skip(0) == m);
    } else {
        assert(m[0].0@ != name);
        assert(m.drop_first().skip(i - 1) == m.skip(i));
        assert forall|j: int| 0 <= j < i - 1 implies (#[trigger] m.drop_first()[j]).0@ != name by {
            assert(m.drop_first()[j] == m[j + 1]);
        }
        lemma_lookup_skip(m.drop_first(), name, i - 1);
    }
}

/// The position of the first entry whose key is `name`.
pub fn find_key<V>(m: &Vec<(String, V)>, name: &String) -> (r: Option<usize>)
    ensures
        r is None <==> lookup(m@, name@) is None,
        r matches Some(i) ==> i < m@.len() && lookup(m@, name@) == Some(m@[i as int].1),
{
    let mut i: usize = 0;
    while i < m.len()
        invariant
            i <= m@.len(),
            forall|j: int| 0 <= j < i ==> (#[trigger] m@[j]).0@ != name@,
        decreases m@.len() - i,
    {
        if m[i].0 == *name {
            proof {
                lemma_lookup_skip(m@, name@, i as int);
                assert(m@.skip(i as int)[0] == m@[i as int]);
            }
            return Some(i);
        }
        i = i + 1;
    }
    proof {
        lemma_lookup_skip(m@, name@, i as int);
    }
    None
}

/// What an environment binds, as three association lists: constants, enum
/// variants, and state variables with their positions.
pub type Scope = (Seq<(String, Value)>, Seq<(String, Value)>, Seq<(String, usize)>);

impl View for EvalEnv {
    type V = Scope;

    open spec fn view(&self) -> Scope {
        (self.constants@, self.enum_values@, self.variables@)
    }
}

impl EvalEnv {
    pub fn new(
        constants: Vec<(String, Value)>,
        enum_values: Vec<(String, Value)>,
        variables: Vec<(String, usize)>,
    ) -> (r: Self)
        ensures
            r.constants@ == constants@,
            r.enum_values@ == enum_values@,
            r.variables@ == variables@,
    {
        Self { constants, enum_values, variables }
    }
}

pub open spec fn abs_int(a: int) -> int {
    if a < 0 { -a } else { a }
}

/// Rust's truncating integer division: the quotient of the magnitudes,
/// negative when the signs differ.
pub open spec fn trunc_div(a: int, b: int) -> int {
    if (a < 0) != (b < 0) { -(abs_int(a) / abs_int(b)) } else { abs_int(a) / abs_int(b) }
}

/// The remainder that goes with [`trunc_div`]; it has the sign of `a`.
pub open spec fn trunc_rem(a: int, b: int) -> int {
    if a < 0 { -(abs_int(a) % abs_int(b)) } else { abs_int(a) % abs_int(b) }
}

pub open spec fn in_i64(x: int) -> bool {
    i64::MIN <= x <= i64::MAX
}

/// The value of a name read in the current state.
pub open spec fn spec_eval_name(name: Seq<char>, env: Scope, cur: Option<Seq<Value>>) -> Option<Value> {
    match lookup(env.0, name) {
        Some(v) => Some(v),
        None => match lookup(env.1, name) {
            Some(v) => Some(v),
            None => match lookup(env.2, name) {
                Some(idx) => match cur {
                    Some(s) => if idx < s.len() { Some(s[idx as int]) } else { None },
                    None => None,
                },
                None => None,
            },
        },
    }
}

/// The value of a primed name read in the successor state.
pub open spec fn spec_eval_primed(name: Seq<char>, env: Scope, next: Option<Seq<Value>>) -> Option<Value> {
    match lookup(env.2, name) {
        Some(idx) => match next {
            Some(s) => if idx < s.len() { Some(s[idx as int]) } else { None },
            None => None,
        },
        None => None,
    }
}

pub open spec fn spec_eval_unary(op: UnaryOp, v: Value) -> Option<Value> {
    match (op, v) {
        (UnaryOp::Not, Value::Bool(b)) => Some(Value::Bool(!b)),
        (UnaryOp::Neg, Value::Int(i)) => if in_i64(-i) { Some(Value::Int((-i) as i64)) } else { None },
        _ => None,
    }
}

/// An integer result, when it fits in 64 bits.
pub open spec fn int_result(x: int) -> Option<Value> {
    if in_i64(x) { Some(Value::Int(x as i64)) } else { None }
}

pub open spec fn spec_eval_binary(op: BinaryOp, a: Value, b: Value) -> Option<Value> {
    match op {
        BinaryOp::And => match a {
            Value::Bool(false) => Some(Value::Bool(false)),
            Value::Bool(true) => match b { Value::Bool(y) => Some(Value::Bool(y)), _ => None },
            _ => None,
        },
        BinaryOp::Or => match a {
            Value::Bool(true) => Some(Value::Bool(true)),
            Value::Bool(false) => match b { Value::Bool(y) => Some(Value::Bool(y)), _ => None },
            _ => None,
        },
        BinaryOp::Implies => match a {
            Value::Bool(false) => Some(Value::Bool(true)),
            Value::Bool(true) => match b { Value::Bool(y) => Some(Value::Bool(y)), _ => None },
            _ => None,
        },
        BinaryOp::Iff => match (a, b) {
            (Value::Bool(x), Value::Bool(y)) => Some(Value::Bool(x == y)),
            _ => None,
        },
        BinaryOp::Eq => Some(Value::Bool(same_value(a, b))),
        BinaryOp::Ne => Some(Value::Bool(!same_value(a, b))),
        BinaryOp::Until => None,
        _ => match (a, b) {
            (Value::Int(x), Value::Int(y)) => match op {
                BinaryOp::Add => int_result(x + y),
                BinaryOp::Sub => int_result(x - y),
                BinaryOp::Mul => int_result(x * y),
                BinaryOp::Div => if y == 0 { None } else { int_result(trunc_div(x as int, y as int)) },
                BinaryOp::Mod => if y == 0 || !in_i64(trunc_div(x as int, y as int)) {
                    None
                } else {
                    int_result(trunc_rem(x as int, y as int))
                },
                BinaryOp::Lt => Some(Value::Bool(x < y)),
                BinaryOp::Le => Some(Value::Bool(x <= y)),
                BinaryOp::Gt => Some(Value::Bool(x > y)),
                _ => Some(Value::Bool(x >= y)),
            },
            _ => None,
        },
    }
}

/// The value of a core expression: `None` when evaluation fails (a name that
/// is not bound, a missing state, an operand of the wrong kind, division by
/// zero, a result that does not fit in 64 bits, or a temporal operator).
pub open spec fn spec_eval(e: Expr, env: Scope, cur: Option<Seq<Value>>, next: Option<Seq<Value>>) -> Option<Value>
    decreases e,
{
    match e {
        Expr::Bool(b) => Some(Value::Bool(b)),
        Expr::Int(i) => Some(Value::Int(i)),
        Expr::Name(n) => spec_eval_name(n@, env, cur),
        Expr::PrimedName(n) => spec_eval_primed(n@, env, next),
        Expr::Unary { op, expr } => match spec_eval(*expr, env, cur, next) {
            Some(v) => spec_eval_unary(op, v),
            None => None,
        },
        Expr::Binary { op, lhs, rhs } => match spec_eval(*lhs, env, cur, next) {
            Some(a) => match spec_eval(*rhs, env, cur, next) {
                Some(b) => spec_eval_binary(op, a, b),
                None => None,
            },
            None => None,
        },
        _ => None,
    }
}

pub open spec fn state_view(s: Option<&State>) -> Option<Seq<Value>> {
    match s {
        Some(st) => Some(st.values@),
        None => None,
    }
}

pub(crate) fn model_error(parts: &[&str]) -> (r: CaelumError)
    ensures
        r matches CaelumError::Model { message } && message@ == concat_views(parts@),
{
    CaelumError::Model { message: concat_strs(parts) }
}

/// Evaluates a core expression; succeeds exactly when [`spec_eval`] gives a value.
pub fn eval_expr(expr: &Expr, env: &EvalEnv, current: Option<&State>, next: Option<&State>) -> (r: Result<Value>)
    ensures
        spec_eval(*expr, env@, state_view(current), state_view(next)) matches Some(v) ==> r == Ok::<Value, CaelumError>(v),
        spec_eval(*expr, env@, state_view(current), state_view(next)) is None ==> is_model_err(r),
    decreases expr,
{
    match expr {
        Expr::Bool(value) => Ok(Value::Bool(*value)),
        Expr::Int(value) => Ok(Value::Int(*value)),
        Expr::Name(name) => eval_name(name, env, current),
        Expr::PrimedName(name) => eval_primed_name(name, env, next),
        Expr::Unary { op, expr } => {
            let value = eval_expr(expr, env, current, next)?;
            eval_unary(*op, value)
        },
        Expr::Binary { op, lhs, rhs } => {
            let lhs = eval_expr(lhs, env, current, next)?;
            let rhs = eval_expr(rhs, env, current, next)?;
            eval_binary(*op, lhs, rhs)
        },
        _ => Err(model_error(&["syntax sugar must be elaborated before evaluation"])),
    }
}

/// The boolean inside a value; any other value is an error naming `context`.
pub fn expect_bool(value: Value, context: &str) -> (r: Result<bool>)
    ensures
        value matches Value::Bool(b) ==> r == Ok::<bool, CaelumError>(b),
        !(value is Bool) ==> (r matches Err(CaelumError::Model { message })
            && message@ == context@ + " evaluated to non-boolean value `"@ + value_text(value) + "`"@),
{
    match value {
        Value::Bool(value) => Ok(value),
        _ => {
            let text = value.to_string();
            let parts = [context, " evaluated to non-boolean value `", text.as_str(), "`"];
            let message = concat_strs(&parts);
            proof {
                reveal_with_fuel(crate::diagnostics::concat_views, 5);
                assert(parts@.drop_last().drop_last().drop_last().drop_last() =~= Seq::<&str>::empty());
            }
            Err(CaelumError::Model { message })
        },
    }
}

/// The integer inside a value; any other value is an error naming `context`.
pub fn expect_int(value: Value, context: &str) -> (r: Result<i64>)
    ensures
        value matches Value::Int(i) ==> r == Ok::<i64, CaelumError>(i),
        !(value is Int) ==> (r matches Err(CaelumError::Model { message })
            && message@ == context@ + " evaluated to non-integer value `"@ + value_text(value) + "`"@),
{
    match value {
        Value::Int(value) => Ok(value),
        _ => {
            let text = value.to_string();
            let parts = [context, " evaluated to non-integer value `", text.as_str(), "`"];
            let message = concat_strs(&parts);
            proof {
                reveal_with_fuel(crate::diagnostics::concat_views, 5);
                assert(parts@.drop_last().drop_last().drop_last().drop_last() =~= Seq::<&str>::empty());
            }
            Err(CaelumError::Model { message })
        },
    }
}

fn eval_name(name: &String, env: &EvalEnv, current: Option<&State>) -> (r: Result<Value>)
    ensures
        spec_eval_name(name@, env@, state_view(current)) matches Some(v) ==> r == Ok::<Value, CaelumError>(v),
        spec_eval_name(name@, env@, state_view(current)) is None ==> is_model_err(r),
{
    if let Some(i) = find_key(&env.constants, name) {
        return Ok(clone_value(&env.constants[i].1));
    }
    if let Some(i) = find_key(&env.enum_values, name) {
        return Ok(clone_value(&env.enum_values[i].1));
    }
    if let Some(i) = find_key(&env.variables, name) {
        let index = env.variables[i].1;
        match current {
            Some(state) => {
                if index < state.values.len() {
                    return Ok(clone_value(&state.values[index]));
                }
                return Err(model_error(&["state variable `", name.as_str(), "` is outside the state"]));
            },
            None => {
                return Err(model_error(&["cannot read state variable `", name.as_str(), "` without current state"]));
            },
        }
    }
    Err(model_error(&["unknown runtime name `", name.as_str(), "`"]))
}

fn eval_primed_name(name: &String, env: &EvalEnv, next: Option<&State>) -> (r: Result<Value>)
    ensures
        spec_eval_primed(name@, env@, state_view(next)) matches Some(v) ==> r == Ok::<Value, CaelumError>(v),
        spec_eval_primed(name@, env@, state_view(next)) is None ==> is_model_err(r),
{
    match find_key(&env.variables, name) {
        Some(i) => {
            let index = env.variables[i].1;
            match next {
                Some(state) => {
                    if index < state.values.len() {
                        Ok(clone_value(&state.values[index]))
                    } else {
                        Err(model_error(&["state variable `", name.as_str(), "'` is outside the state"]))
                    }
                },
                None => Err(model_error(&["cannot read primed variable `", name.as_str(), "'` without next state"])),
            }
        },
        None => Err(model_error(&["unknown primed runtime name `", name.as_str(), "'`"])),
    }
}

fn eval_unary(op: UnaryOp, value: Value) -> (r: Result<Value>)
    ensures
        spec_eval_unary(op, value) matches Some(v) ==> r == Ok::<Value, CaelumError>(v),
        spec_eval_unary(op, value) is None ==> is_model_err(r),
{
    match op {
        UnaryOp::Not => Ok(Value::Bool(!expect_bool(value, "negation")?)),
        UnaryOp::Neg => {
            let i = expect_int(value, "unary minus")?;
            if i == i64::MIN {
                return Err(model_error(&["integer overflow in unary minus"]));
            }
            Ok(Value::Int(-i))
        },
        _ => Err(model_error(&["temporal operator cannot be evaluated during model construction"])),
    }
}

fn checked_int(x: Option<i64>, what: &str) -> (r: Result<Value>)
    ensures
        x matches Some(i) ==> r == Ok::<Value, CaelumError>(Value::Int(i)),
        x is None ==> is_model_err(r),
{
    match x {
        Some(i) => Ok(Value::Int(i)),
        None => Err(model_error(&["integer overflow in ", what])),
    }
}

/// A model error with the given text.
fn model_message(text: &str) -> (r: CaelumError)
    ensures
        r matches CaelumError::Model { message } && message@ == text@,
{
    CaelumError::Model { message: text.to_owned() }
}

fn eval_binary(op: BinaryOp, lhs: Value, rhs: Value) -> (r: Result<Value>)
    ensures
        spec_eval_binary(op, lhs, rhs) matches Some(v) ==> r == Ok::<Value, CaelumError>(v),
        spec_eval_binary(op, lhs, rhs) is None ==> is_model_err(r),
        op is Div && lhs is Int && rhs == Value::Int(0) ==> (r matches Err(CaelumError::Model { message })
            && message@ == "division by zero"@),
        op is Mod && lhs is Int && rhs == Value::Int(0) ==> (r matches Err(CaelumError::Model { message })
            && message@ == "modulo by zero"@),
{
    match op {
        BinaryOp::And => {
            let a = expect_bool(lhs, "and lhs")?;
            if !a {
                return Ok(Value::Bool(false));
            }
            Ok(Value::Bool(expect_bool(rhs, "and rhs")?))
        },
        BinaryOp::Or => {
            let a = expect_bool(lhs, "or lhs")?;
            if a {
                return Ok(Value::Bool(true));
            }
            Ok(Value::Bool(expect_bool(rhs, "or rhs")?))
        },
        BinaryOp::Implies => {
            let a = expect_bool(lhs, "implication lhs")?;
            if !a {
                return Ok(Value::Bool(true));
            }
            Ok(Value::Bool(expect_bool(rhs, "implication rhs")?))
        },
        BinaryOp::Iff => {
            let a = expect_bool(lhs, "equivalence lhs")?;
            let b = expect_bool(rhs, "equivalence rhs")?;
            Ok(Value::Bool(a == b))
        },
        BinaryOp::Eq => Ok(Value::Bool(value_eq(&lhs, &rhs))),
        BinaryOp::Ne => Ok(Value::Bool(!value_eq(&lhs, &rhs))),
        BinaryOp::Until => Err(model_error(&["until cannot be evaluated during model construction"])),
        _ => {
            let a = expect_int(lhs, "arithmetic or ordering lhs")?;
            let b = expect_int(rhs, "arithmetic or ordering rhs")?;
            match op {
                BinaryOp::Add => checked_int(a.checked_add(b), "addition"),
                BinaryOp::Sub => checked_int(a.checked_sub(b), "subtraction"),
                BinaryOp::Mul => checked_int(a.checked_mul(b), "multiplication"),
                BinaryOp::Div => {
                    if b == 0 {
                        return Err(model_message("division by zero"));
                    }
                    let (q, _m) = trunc_div_rem(a, b);
                    if q > i64::MAX as i128 {
                        return Err(model_error(&["integer overflow in division"]));
                    }
                    Ok(Value::Int(q as i64))
                },
                BinaryOp::Mod => {
                    if b == 0 {
                        return Err(model_message("modulo by zero"));
                    }
                    if a == i64::MIN && b == -1 {
                        return Err(model_error(&["integer overflow in modulo"]));
                    }
                    let (_q, m) = trunc_div_rem(a, b);
                    Ok(Value::Int(m as i64))
                },
                BinaryOp::Lt => Ok(Value::Bool(a < b)),
                BinaryOp::Le => Ok(Value::Bool(a <= b)),
                BinaryOp::Gt => Ok(Value::Bool(a > b)),
                _ => Ok(Value::Bool(a >= b)),
            }
        },
    }
}

/// Truncating quotient and remainder, computed on the magnitudes.
pub(crate) fn trunc_div_rem(a: i64, b: i64) -> (r: (i128, i128))
    requires
        b != 0,
    ensures
        r.0 == trunc_div(a as int, b as int),
        r.1 == trunc_rem(a as int, b as int),
        i64::MIN <= r.0 <= i64::MAX + 1,
        i64::MIN < r.1 <= i64::MAX,
        r.0 > i64::MAX ==> a == i64::MIN && b == -1,
{
    let wa: i128 = a as i128;
    let wb: i128 = b as i128;
    let ua: u64 = if wa < 0 { (-wa) as u64 } else { wa as u64 };
    let ub: u64 = if wb < 0 { (-wb) as u64 } else { wb as u64 };
    let uq: u64 = ua / ub;
    let ur: u64 = ua % ub;
    proof {
        assert(ua as int == abs_int(a as int));
        assert(ub as int == abs_int(b as int));
        assert(uq <= ua) by (nonlinear_arith) requires ub >= 1, uq == ua / ub;
        assert(ur < ub) by (nonlinear_arith) requires ub >= 1, ur == ua % ub;
        if uq as int > i64::MAX as int {
            assert(ua as int == 0x8000_0000_0000_0000);
            assert(ub == 1) by (nonlinear_arith) requires ub >= 1, uq == ua / ub, ua == 0x8000_0000_0000_0000u64, uq > 0x7fff_ffff_ffff_ffffu64;
        }
    }
    let q: i128 = if (a < 0) != (b < 0) { -(uq as i128) } else { uq as i128 };
    let m: i128 = if a < 0 { -(ur as i128) } else { ur as i128 };
    (q, m)
}

} // verus!
