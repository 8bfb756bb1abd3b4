//! Construction of the reachable state graph of a specification: every
//! assignment of the variables' domains is a candidate state, the initial
//! states are the candidates that satisfy every `init` block, and a state's
//! successors are the candidates that some `transition` block relates it to.

use vstd::prelude::*;

use crate::diagnostics::{concat_views, i64_text, is_model_err, nat_digits, usize_text, CaelumError, Result};
use crate::model::eval::{eval_expr, expect_bool, find_key, lookup, model_error, spec_eval, EvalEnv, Scope};
use crate::model::state::{clone_value, clone_values, State, Value};
use crate::syntax::ast::{Domain, DomainBound, Expr, Item, SourceFile, VarDecl};

verus! {

#[derive(Debug, Clone)]
pub struct ModelGraph {
    pub variables: Vec<String>,
    pub domains: Vec<Vec<Value>>,
    pub env: EvalEnv,
    pub initial_states: Vec<usize>,
    pub states: Vec<State>,
    pub edges: Vec<Vec<usize>>,
}

#[derive(Debug, Clone)]
pub struct BuildOptions {
    pub max_states: usize,
}

impl Default for BuildOptions {
    fn default() -> (r: Self)
        ensures
            r.max_states == 100_000,
    {
        Self { max_states: 100_000 }
    }
}

/// Every edge and every initial state names a state of the graph, and each
/// state has one successor list.
pub open spec fn graph_wf(g: ModelGraph) -> bool {
    let n = g.states@.len();
    &&& g.edges@.len() == n
    &&& forall|s: int, j: int| 0 <= s < n && 0 <= j < g.edges@[s]@.len() ==> (#[trigger] g.edges@[s]@[j]) < n
    &&& forall|k: int| 0 <= k < g.initial_states@.len() ==> (#[trigger] g.initial_states@[k]) < n
}

// ---------------------------------------------------------------------------
// What the declarations of a file define.

/// The constants of a file, each evaluated in the constants declared before
/// it, most recent first (so a later declaration shadows an earlier one);
/// `None` when one of them cannot be evaluated.
pub open spec fn spec_constants(items: Seq<Item>) -> Option<Seq<(String, Value)>>
    decreases items.len(),
{
    if items.len() == 0 {
        Some(Seq::empty())
    } else {
        match spec_constants(items.drop_last()) {
            None => None,
            Some(c) => match items.last() {
                Item::Const(d) => match spec_eval(d.expr, (c, Seq::empty(), Seq::empty()), None, None) {
                    Some(v) => Some(seq![(d.name, v)] + c),
                    None => None,
                },
                _ => Some(c),
            },
        }
    }
}

/// The variable declarations of a file, in order.
pub open spec fn var_decls(items: Seq<Item>) -> Seq<VarDecl>
    decreases items.len(),
{
    if items.len() == 0 {
        Seq::empty()
    } else {
        match items.last() {
            Item::Var(d) => var_decls(items.drop_last()).push(d),
            _ => var_decls(items.drop_last()),
        }
    }
}

/// The bodies of the `init` blocks of a file, in order.
pub open spec fn init_exprs(items: Seq<Item>) -> Seq<Expr>
    decreases items.len(),
{
    if items.len() == 0 {
        Seq::empty()
    } else {
        match items.last() {
            Item::Init(b) => init_exprs(items.drop_last()).push(b.expr),
            _ => init_exprs(items.drop_last()),
        }
    }
}

/// The bodies of the `transition` blocks of a file, in order.
pub open spec fn trans_exprs(items: Seq<Item>) -> Seq<Expr>
    decreases items.len(),
{
    if items.len() == 0 {
        Seq::empty()
    } else {
        match items.last() {
            Item::Transition(b) => trans_exprs(items.drop_last()).push(b.expr),
            _ => trans_exprs(items.drop_last()),
        }
    }
}

/// A state satisfies the initial condition when every `init` block is true in it.
pub open spec fn init_holds(items: Seq<Item>, env: Scope, v: Seq<Value>) -> bool {
    forall|k: int| 0 <= k < init_exprs(items).len()
        ==> spec_eval(#[trigger] init_exprs(items)[k], env, Some(v), None) == Some(Value::Bool(true))
}

/// Every `init` block evaluates to a boolean in the state.
pub open spec fn init_defined(items: Seq<Item>, env: Scope, v: Seq<Value>) -> bool {
    forall|k: int| 0 <= k < init_exprs(items).len()
        ==> spec_eval(#[trigger] init_exprs(items)[k], env, Some(v), None) matches Some(Value::Bool(_))
}

/// `w` can follow `v` when some `transition` block is true of the pair.
pub open spec fn trans_holds(items: Seq<Item>, env: Scope, v: Seq<Value>, w: Seq<Value>) -> bool {
    exists|k: int| 0 <= k < trans_exprs(items).len()
        && spec_eval(#[trigger] trans_exprs(items)[k], env, Some(v), Some(w)) == Some(Value::Bool(true))
}

/// Every `transition` block evaluates to a boolean on the pair.
pub open spec fn trans_defined(items: Seq<Item>, env: Scope, v: Seq<Value>, w: Seq<Value>) -> bool {
    forall|k: int| 0 <= k < trans_exprs(items).len()
        ==> spec_eval(#[trigger] trans_exprs(items)[k], env, Some(v), Some(w)) matches Some(Value::Bool(_))
}

proof fn lemma_init_prefix(items: Seq<Item>, j: int)
    requires
        0 <= j <= items.len(),
    ensures
        init_exprs(items.take(j)).len() <= init_exprs(items).len(),
        forall|k: int| 0 <= k < init_exprs(items.take(j)).len()
            ==> init_exprs(items)[k] == #[trigger] init_exprs(items.take(j))[k],
    decreases items.len() - j,
{
    if j < items.len() {
        assert(items.take(j + 1).drop_last() == items.take(j));
        lemma_init_prefix(items, j + 1);
        let a = init_exprs(items.take(j));
        let b = init_exprs(items.take(j + 1));
        assert(a.len() <= b.len());
        assert forall|k: int| 0 <= k < a.len() implies b[k] == a[k] by {}
    } else {
        assert(items.take(j) == items);
    }
}

proof fn lemma_trans_prefix(items: Seq<Item>, j: int)
    requires
        0 <= j <= items.len(),
    ensures
        trans_exprs(items.take(j)).len() <= trans_exprs(items).len(),
        forall|k: int| 0 <= k < trans_exprs(items.take(j)).len()
            ==> trans_exprs(items)[k] == #[trigger] trans_exprs(items.take(j))[k],
    decreases items.len() - j,
{
    if j < items.len() {
        assert(items.take(j + 1).drop_last() == items.take(j));
        lemma_trans_prefix(items, j + 1);
        let a = trans_exprs(items.take(j));
        let b = trans_exprs(items.take(j + 1));
        assert(a.len() <= b.len());
        assert forall|k: int| 0 <= k < a.len() implies b[k] == a[k] by {}
    } else {
        assert(items.take(j) == items);
    }
}

proof fn lemma_constants_none(items: Seq<Item>, j: int)
    requires
        0 <= j <= items.len(),
        spec_constants(items.take(j)) is None,
    ensures
        spec_constants(items) is None,
    decreases items.len() - j,
{
    if j < items.len() {
        assert(items.take(j + 1).drop_last() == items.take(j));
        lemma_constants_none(items, j + 1);
    } else {
        assert(items.take(j) == items);
    }
}

// ---------------------------------------------------------------------------
// Domains.

/// The integer a range bound denotes: a literal, or an integer constant.
pub open spec fn bound_value(b: DomainBound, consts: Seq<(String, Value)>) -> Option<i64> {
    match b {
        DomainBound::Int(i) => Some(i),
        DomainBound::Name(n) => match lookup(consts, n@) {
            Some(Value::Int(i)) => Some(i),
            _ => None,
        },
    }
}

/// The integers `a, a + 1, ..., b`.
pub open spec fn int_range(a: i64, b: i64) -> Seq<Value> {
    Seq::new((b - a + 1) as nat, |k: int| Value::Int((a + k) as i64))
}

/// The values of a domain written out in place (not through a type name).
pub open spec fn plain_domain_values(d: Domain, consts: Seq<(String, Value)>) -> Option<Seq<Value>> {
    match d {
        Domain::Bool => Some(seq![Value::Bool(false), Value::Bool(true)]),
        Domain::IntRange { start, end } => match (bound_value(start, consts), bound_value(end, consts)) {
            (Some(a), Some(b)) => if a <= b { Some(int_range(a, b)) } else { None },
            _ => None,
        },
        Domain::Enum { variants } => Some(variants@.map_values(|v: String| Value::Enum(v))),
        Domain::Named(_) => None,
    }
}

/// The domain given to `name` by the first `type` declaration of that name.
pub open spec fn declared_type(items: Seq<Item>, name: Seq<char>) -> Option<Domain>
    decreases items.len(),
{
    if items.len() == 0 {
        None
    } else {
        match items[0] {
            Item::TypeDecl(d) => if d.name@ == name {
                Some(d.domain)
            } else {
                declared_type(items.drop_first(), name)
            },
            _ => declared_type(items.drop_first(), name),
        }
    }
}

/// The values of a variable's domain, a named type resolved through the
/// file's type declarations; `None` when the domain is empty or cannot be
/// resolved.
pub open spec fn spec_domain_values(d: Domain, items: Seq<Item>, consts: Seq<(String, Value)>) -> Option<Seq<Value>> {
    match d {
        Domain::Named(n) => match declared_type(items, n@) {
            Some(td) => plain_domain_values(td, consts),
            None => None,
        },
        _ => plain_domain_values(d, consts),
    }
}

/// The views of a list of domains.
pub open spec fn domain_views(domains: Seq<Vec<Value>>) -> Seq<Seq<Value>> {
    domains.map_values(|d: Vec<Value>| d@)
}

/// `v` assigns each variable a value of its domain.
pub open spec fn in_product(ds: Seq<Seq<Value>>, v: Seq<Value>) -> bool {
    v.len() == ds.len() && forall|i: int| 0 <= i < ds.len() ==> #[trigger] ds[i].contains(v[i])
}

/// Some state of the list holds exactly the values `v`.
pub open spec fn has_values(states: Seq<State>, v: Seq<Value>) -> bool {
    exists|k: int| 0 <= k < states.len() && (#[trigger] states[k].values@) == v
}

proof fn lemma_has_values_push(s: Seq<State>, x: State)
    ensures
        forall|v: Seq<Value>| has_values(s, v) ==> #[trigger] has_values(s.push(x), v),
        has_values(s.push(x), x.values@),
{
    assert forall|v: Seq<Value>| has_values(s, v) implies #[trigger] has_values(s.push(x), v) by {
        let k = choose|k: int| 0 <= k < s.len() && (#[trigger] s[k].values@) == v;
        assert(s.push(x)[k] == s[k]);
    }
    assert(s.push(x)[s.len() as int] == x);
}

/// The number of assignments of values to variables.
pub open spec fn product_size(ds: Seq<Seq<Value>>) -> nat
    decreases ds.len(),
{
    if ds.len() == 0 {
        1
    } else {
        product_size(ds.drop_last()) * ds.last().len()
    }
}

pub(crate) fn find_type<'a>(items: &'a Vec<Item>, name: &String) -> (r: Option<&'a Domain>)
    ensures
        r matches Some(d) ==> declared_type(items@, name@) == Some(*d),
        r is None ==> declared_type(items@, name@) is None,
{
    let mut i: usize = 0;
    assert(items@.skip(0) == items@);
    while i < items.len()
        invariant
            i <= items@.len(),
            declared_type(items@, name@) == declared_type(items@.skip(i as int), name@),
        decreases items@.len() - i,
    {
        proof {
            assert(items@.skip(i as int)[0] == items@[i as int]);
            assert(items@.skip(i as int).drop_first() == items@.skip(i as int + 1));
        }
        if let Item::TypeDecl(decl) = &items[i] {
            if decl.name == *name {
                return Some(&decl.domain);
            }
        }
        i = i + 1;
    }
    None
}

pub(crate) fn bound_value_of(bound: &DomainBound, consts: &Vec<(String, Value)>) -> (r: Result<i64>)
    ensures
        bound_value(*bound, consts@) matches Some(i) ==> r == Ok::<i64, CaelumError>(i),
        bound_value(*bound, consts@) is None ==> is_model_err(r),
{
    match bound {
        DomainBound::Int(value) => Ok(*value),
        DomainBound::Name(name) => match find_key(consts, name) {
            Some(k) => match &consts[k].1 {
                Value::Int(value) => Ok(*value),
                _ => Err(model_error(&["range bound evaluated to a non-integer value"])),
            },
            None => Err(model_error(&["unknown range bound constant `", name.as_str(), "`"])),
        },
    }
}

fn plain_values(var_name: &String, domain: &Domain, consts: &Vec<(String, Value)>) -> (r: Result<Vec<Value>>)
    ensures
        plain_domain_values(*domain, consts@) matches Some(vs) ==> r matches Ok(v) && v@ == vs,
        plain_domain_values(*domain, consts@) is None ==> is_model_err(r),
{
    match domain {
        Domain::Bool => {
            let v = vec![Value::Bool(false), Value::Bool(true)];
            assert(v@ == seq![Value::Bool(false), Value::Bool(true)]);
            Ok(v)
        },
        Domain::IntRange { start, end } => {
            let a = bound_value_of(start, consts)?;
            let b = bound_value_of(end, consts)?;
            if a > b {
                return Err(model_error(&[
                    "empty integer range for `", var_name.as_str(), "`: ",
                    i64_text(a).as_str(), "..", i64_text(b).as_str(),
                ]));
            }
            let mut out: Vec<Value> = Vec::new();
            let mut v: i64 = a;
            loop
                invariant_except_break
                    out@ =~= Seq::new((v - a) as nat, |k: int| Value::Int((a + k) as i64)),
                invariant
                    a <= v <= b,
                ensures
                    out@ =~= int_range(a, b),
                decreases b - v,
            {
                out.push(Value::Int(v));
                if v == b {
                    break;
                }
                v = v + 1;
            }
            Ok(out)
        },
        Domain::Enum { variants } => {
            let mut out: Vec<Value> = Vec::new();
            let mut i: usize = 0;
            while i < variants.len()
                invariant
                    i <= variants@.len(),
                    out@ =~= variants@.take(i as int).map_values(|v: String| Value::Enum(v)),
                decreases variants@.len() - i,
            {
                out.push(Value::Enum(variants[i].clone()));
                i = i + 1;
            }
            assert(variants@.take(variants@.len() as int) == variants@);
            Ok(out)
        },
        Domain::Named(name) => Err(model_error(&["type `", name.as_str(), "` must name a domain written out in place"])),
    }
}

/// The values a variable ranges over.
fn domain_values(var_name: &String, domain: &Domain, items: &Vec<Item>, consts: &Vec<(String, Value)>) -> (r: Result<Vec<Value>>)
    ensures
        spec_domain_values(*domain, items@, consts@) matches Some(vs) ==> r matches Ok(v) && v@ == vs,
        spec_domain_values(*domain, items@, consts@) is None ==> is_model_err(r),
{
    match domain {
        Domain::Named(name) => match find_type(items, name) {
            Some(resolved) => plain_values(var_name, resolved, consts),
            None => Err(model_error(&["unknown type `", name.as_str(), "` in declaration of `", var_name.as_str(), "`"])),
        },
        _ => plain_values(var_name, domain, consts),
    }
}

/// Evaluates the constants of a file in declaration order.
pub(crate) fn collect_constants(file: &SourceFile) -> (r: Result<Vec<(String, Value)>>)
    ensures
        spec_constants(file.items@) matches Some(c) ==> r matches Ok(v) && v@ == c,
        spec_constants(file.items@) is None ==> is_model_err(r),
{
    let mut constants: Vec<(String, Value)> = Vec::new();
    let mut i: usize = 0;
    while i < file.items.len()
        invariant
            i <= file.items@.len(),
            spec_constants(file.items@.take(i as int)) == Some(constants@),
        decreases file.items@.len() - i,
    {
        proof {
            assert(file.items@.take(i as int + 1).drop_last() == file.items@.take(i as int));
        }
        if let Item::Const(decl) = &file.items[i] {
            let env = EvalEnv::new(constants, Vec::new(), Vec::new());
            let value = eval_expr(&decl.expr, &env, None, None);
            constants = env.constants;
            match value {
                Ok(v) => {
                    let ghost before = constants@;
                    constants.insert(0, (decl.name.clone(), v));
                    assert(constants@ == seq![(decl.name, v)] + before);
                },
                Err(e) => {
                    proof {
                        lemma_constants_none(file.items@, i as int + 1);
                    }
                    return Err(e);
                },
            }
        }
        i = i + 1;
    }
    assert(file.items@.take(file.items@.len() as int) == file.items@);
    Ok(constants)
}

/// Every assignment of domain values to variables, each exactly once per
/// choice of positions in the domains.
#[verifier::spinoff_prover]
fn enumerate_states(domains: &Vec<Vec<Value>>) -> (r: Vec<State>)
    ensures
        r@.len() == product_size(domain_views(domains@)),
        forall|k: int| 0 <= k < r@.len() ==> in_product(domain_views(domains@), #[trigger] r@[k].values@),
        forall|v: Seq<Value>| in_product(domain_views(domains@), v) ==> #[trigger] has_values(r@, v),
{
    let ghost ds = domain_views(domains@);
    let mut cur: Vec<State> = vec![State { values: Vec::new() }];
    proof {
        assert(ds.take(0) =~= Seq::<Seq<Value>>::empty());
        assert forall|v: Seq<Value>| in_product(ds.take(0), v) implies #[trigger] has_values(cur@, v) by {
            assert(v =~= cur@[0].values@);
        }
    }
    let mut i: usize = 0;
    while i < domains.len()
        invariant
            i <= domains@.len(),
            ds == domain_views(domains@),
            cur@.len() == product_size(ds.take(i as int)),
            forall|k: int| 0 <= k < cur@.len() ==> in_product(ds.take(i as int), #[trigger] cur@[k].values@),
            forall|v: Seq<Value>| in_product(ds.take(i as int), v) ==> #[trigger] has_values(cur@, v),
        decreases domains@.len() - i,
    {
        let d = &domains[i];
        let ghost prefix = ds.take(i as int);
        let ghost next = ds.take(i as int + 1);
        proof {
            assert(next.drop_last() == prefix);
            assert(next.last() == d@);
        }
        let mut out: Vec<State> = Vec::new();
        let mut a: usize = 0;
        while a < cur.len()
            invariant
                0 <= a <= cur@.len(),
                i < domains@.len(),
                d@ == ds[i as int],
                next.drop_last() == prefix,
                next.last() == d@,
                next.len() == i + 1,
                prefix == ds.take(i as int),
                forall|k: int| 0 <= k < cur@.len() ==> in_product(prefix, #[trigger] cur@[k].values@),
                out@.len() == a * d@.len(),
                forall|k: int| 0 <= k < out@.len() ==> in_product(next, #[trigger] out@[k].values@),
                forall|x: int, y: int| 0 <= x < a && 0 <= y < d@.len()
                    ==> #[trigger] has_values(out@, cur@[x].values@.push(d@[y])),
            decreases cur@.len() - a,
        {
            let mut b: usize = 0;
            while b < d.len()
                invariant
                    0 <= a < cur@.len(),
                    0 <= b <= d@.len(),
                    next.drop_last() == prefix,
                    next.last() == d@,
                    next.len() == i + 1,
                    forall|k: int| 0 <= k < cur@.len() ==> in_product(prefix, #[trigger] cur@[k].values@),
                    out@.len() == a * d@.len() + b,
                    forall|k: int| 0 <= k < out@.len() ==> in_product(next, #[trigger] out@[k].values@),
                    forall|x: int, y: int| 0 <= x < a && 0 <= y < d@.len()
                        ==> #[trigger] has_values(out@, cur@[x].values@.push(d@[y])),
                    forall|y: int| 0 <= y < b ==> #[trigger] has_values(out@, cur@[a as int].values@.push(d@[y])),
                decreases d@.len() - b,
            {
                let mut values = clone_values(&cur[a].values);
                values.push(clone_value(&d[b]));
                let ghost w = values@;
                proof {
                    let p = cur@[a as int].values@;
                    assert(w == p.push(d@[b as int]));
                    assert(in_product(prefix, p));
                    assert forall|j: int| 0 <= j < next.len() implies #[trigger] next[j].contains(w[j]) by {
                        if j < i {
                            assert(next[j] == prefix[j]);
                            assert(prefix[j].contains(p[j]));
                        } else {
                            assert(d@.contains(d@[b as int]));
                        }
                    }
                    assert(in_product(next, w));
                }
                let ghost before = out@;
                let st = State { values };
                out.push(st);
                proof {
                    lemma_has_values_push(before, st);
                    assert(out@.last().values@ == w);
                    assert(has_values(out@, cur@[a as int].values@.push(d@[b as int])));
                    assert((a * d@.len() + b) + 1 == a * d@.len() + (b + 1));
                }
                b = b + 1;
            }
            proof {
                assert((a + 1) * d@.len() == a * d@.len() + d@.len()) by (nonlinear_arith);
            }
            a = a + 1;
        }
        proof {
            assert(product_size(next) == product_size(prefix) * d@.len());
            assert forall|v: Seq<Value>| in_product(next, v) implies #[trigger] has_values(out@, v) by {
                let p = v.drop_last();
                assert(in_product(prefix, p)) by {
                    assert forall|j: int| 0 <= j < prefix.len() implies #[trigger] prefix[j].contains(p[j]) by {
                        assert(next[j] == prefix[j]);
                        assert(next[j].contains(v[j]));
                    }
                }
                assert(has_values(cur@, p));
                let x = choose|x: int| 0 <= x < cur@.len() && (#[trigger] cur@[x].values@) == p;
                assert(next[i as int].contains(v[i as int]));
                let y = choose|y: int| 0 <= y < d@.len() && d@[y] == v[i as int];
                assert(cur@[x].values@.push(d@[y]) =~= v);
                assert(has_values(out@, cur@[x].values@.push(d@[y])));
            }
        }
        cur = out;
        i = i + 1;
    }
    proof {
        assert(ds.take(domains@.len() as int) == ds);
    }
    cur
}


// ---------------------------------------------------------------------------
// Initial states and transitions.

fn state_satisfies_init(state: &State, items: &Vec<Item>, env: &EvalEnv) -> (r: Result<bool>)
    ensures
        r matches Ok(b) ==> b == init_holds(items@, env@, state.values@),
        init_defined(items@, env@, state.values@) ==> r is Ok,
        r is Err ==> is_model_err(r),
{
    let mut i: usize = 0;
    while i < items.len()
        invariant
            i <= items@.len(),
            forall|k: int| 0 <= k < init_exprs(items@.take(i as int)).len()
                ==> spec_eval(#[trigger] init_exprs(items@.take(i as int))[k], env@, Some(state.values@), None)
                    == Some(Value::Bool(true)),
        decreases items@.len() - i,
    {
        proof {
            assert(items@.take(i as int + 1).drop_last() == items@.take(i as int));
            lemma_init_prefix(items@, i as int + 1);
        }
        if let Item::Init(block) = &items[i] {
            let ghost pos = init_exprs(items@.take(i as int)).len() as int;
            proof {
                assert(items@.take(i as int + 1).last() == items@[i as int]);
                assert(init_exprs(items@.take(i as int + 1)) == init_exprs(items@.take(i as int)).push(block.expr));
                assert(init_exprs(items@.take(i as int + 1))[pos] == block.expr);
                assert(init_exprs(items@)[pos] == block.expr);
            }
            let value = eval_expr(&block.expr, env, Some(state), None)?;
            let holds = expect_bool(value, "init block")?;
            if !holds {
                return Ok(false);
            }
        } else {
            proof {
                assert(items@.take(i as int + 1).last() == items@[i as int]);
                assert(init_exprs(items@.take(i as int + 1)) == init_exprs(items@.take(i as int)));
            }
        }
        i = i + 1;
    }
    proof {
        assert(items@.take(items@.len() as int) == items@);
    }
    Ok(true)
}

fn transition_matches(current: &State, next: &State, items: &Vec<Item>, env: &EvalEnv) -> (r: Result<bool>)
    ensures
        r matches Ok(b) ==> b == trans_holds(items@, env@, current.values@, next.values@),
        trans_defined(items@, env@, current.values@, next.values@) ==> r is Ok,
        r is Err ==> is_model_err(r),
{
    let mut i: usize = 0;
    while i < items.len()
        invariant
            i <= items@.len(),
            forall|k: int| 0 <= k < trans_exprs(items@.take(i as int)).len()
                ==> spec_eval(#[trigger] trans_exprs(items@.take(i as int))[k], env@, Some(current.values@), Some(next.values@))
                    == Some(Value::Bool(false)),
        decreases items@.len() - i,
    {
        proof {
            assert(items@.take(i as int + 1).drop_last() == items@.take(i as int));
            lemma_trans_prefix(items@, i as int + 1);
        }
        if let Item::Transition(block) = &items[i] {
            let ghost pos = trans_exprs(items@.take(i as int)).len() as int;
            proof {
                assert(items@.take(i as int + 1).last() == items@[i as int]);
                assert(trans_exprs(items@.take(i as int + 1)) == trans_exprs(items@.take(i as int)).push(block.expr));
                assert(trans_exprs(items@.take(i as int + 1))[pos] == block.expr);
                assert(trans_exprs(items@)[pos] == block.expr);
            }
            let value = eval_expr(&block.expr, env, Some(current), Some(next))?;
            let holds = expect_bool(value, "transition block")?;
            if holds {
                return Ok(true);
            }
        } else {
            proof {
                assert(items@.take(i as int + 1).last() == items@[i as int]);
                assert(trans_exprs(items@.take(i as int + 1)) == trans_exprs(items@.take(i as int)));
            }
        }
        i = i + 1;
    }
    proof {
        assert(items@.take(items@.len() as int) == items@);
        assert forall|k: int| 0 <= k < trans_exprs(items@).len() implies
            spec_eval(#[trigger] trans_exprs(items@)[k], env@, Some(current.values@), Some(next.values@))
                != Some(Value::Bool(true)) by {
            assert(trans_exprs(items@.take(items@.len() as int))[k] == trans_exprs(items@)[k]);
        }
    }
    Ok(false)
}

// ---------------------------------------------------------------------------
// Interning candidate states.

/// `new` extends `old`, keeping every entry of `old` in place.
pub open spec fn extends<T>(old: Seq<T>, new: Seq<T>) -> bool {
    old.len() <= new.len() && forall|k: int| 0 <= k < old.len() ==> #[trigger] new[k] == old[k]
}

/// The bookkeeping between candidate positions and graph states: state `k`
/// was taken from candidate `origin[k]`, and `id_of` maps each candidate
/// taken back to its state.
spec fn intern_inv(all: Seq<State>, id_of: Seq<Option<usize>>, states: Seq<State>, origin: Seq<usize>) -> bool {
    &&& id_of.len() == all.len()
    &&& origin.len() == states.len()
    &&& forall|k: int| 0 <= k < states.len() ==> {
        &&& (#[trigger] origin[k]) < all.len()
        &&& states[k].values@ == all[origin[k] as int].values@
        &&& id_of[origin[k] as int] == Some(k as usize)
    }
    &&& forall|p: int| 0 <= p < all.len() ==> (#[trigger] id_of[p] matches Some(k) ==> k < states.len() && origin[k as int] == p)
}

/// How many candidates have been taken.
spec fn count_some(s: Seq<Option<usize>>) -> nat
    decreases s.len(),
{
    if s.len() == 0 {
        0
    } else {
        count_some(s.drop_last()) + if s.last() is Some { 1nat } else { 0nat }
    }
}

proof fn lemma_count_some_bound(s: Seq<Option<usize>>)
    ensures
        count_some(s) <= s.len(),
    decreases s.len(),
{
    if s.len() > 0 {
        lemma_count_some_bound(s.drop_last());
    }
}

proof fn lemma_count_some_update(s: Seq<Option<usize>>, p: int, k: usize)
    requires
        0 <= p < s.len(),
        s[p] is None,
    ensures
        count_some(s.update(p, Some(k))) == count_some(s) + 1,
        count_some(s) < s.len(),
    decreases s.len(),
{
    let t = s.update(p, Some(k));
    if p == s.len() - 1 {
        assert(t.drop_last() =~= s.drop_last());
        lemma_count_some_bound(s.drop_last());
    } else {
        assert(t.drop_last() =~= s.drop_last().update(p, Some(k)));
        lemma_count_some_update(s.drop_last(), p, k);
    }
}

/// The state taken from candidate `p`, added to the graph if it is new.
fn intern(
    p: usize,
    max: usize,
    all: &Vec<State>,
    id_of: &mut Vec<Option<usize>>,
    states: &mut Vec<State>,
    origin: &mut Vec<usize>,
) -> (r: Result<usize>)
    requires
        p < all@.len(),
        intern_inv(all@, old(id_of)@, old(states)@, old(origin)@),
        old(states)@.len() <= max,
    ensures
        r is Ok ==> intern_inv(all@, final(id_of)@, final(states)@, final(origin)@),
        r is Ok ==> final(states)@.len() <= max,
        r is Ok ==> extends(old(states)@, final(states)@),
        r matches Ok(k) ==> k < final(states)@.len() && final(states)@[k as int].values@ == all@[p as int].values@,
        old(states)@.len() == count_some(old(id_of)@) ==> (r is Ok ==> final(states)@.len() == count_some(final(id_of)@)),
        old(states)@.len() == count_some(old(id_of)@) && all@.len() <= max ==> r is Ok,
        r is Err ==> is_model_err(r),
{
    if let Some(k) = id_of[p] {
        return Ok(k);
    }
    let k = states.len();
    proof {
        lemma_count_some_update(id_of@, p as int, k);
    }
    if k >= max {
        return Err(model_error(&["reachable state count exceeded --max-states ", usize_text(max).as_str()]));
    }
    let ghost old_states = states@;
    let ghost old_origin = origin@;
    let ghost old_ids = id_of@;
    states.push(State { values: clone_values(&all[p].values) });
    origin.push(p);
    id_of.set(p, Some(k));
    proof {
        assert forall|j: int| 0 <= j < states@.len() implies {
            &&& (#[trigger] origin@[j]) < all@.len()
            &&& states@[j].values@ == all@[origin@[j] as int].values@
            &&& id_of@[origin@[j] as int] == Some(j as usize)
        } by {
            if j < k {
                assert(old_ids[old_origin[j] as int] == Some(j as usize));
                assert(origin@[j] != p);
            }
        }
    }
    Ok(k)
}


// ---------------------------------------------------------------------------
// Exploration.

/// One of the states named by `ids` holds exactly the values `v`.
pub open spec fn listed(states: Seq<State>, ids: Seq<usize>, v: Seq<Value>) -> bool {
    exists|j: int| 0 <= j < ids.len() && ids[j] < states.len() && (#[trigger] states[ids[j] as int].values@) == v
}

/// The initial states found among the first `upto` candidates.
spec fn initial_ok(items: Seq<Item>, env: Scope, all: Seq<State>, states: Seq<State>, initial: Seq<usize>, upto: int) -> bool {
    &&& forall|k: int| 0 <= k < initial.len() ==> (#[trigger] initial[k]) < states.len()
        && init_holds(items, env, states[initial[k] as int].values@)
    &&& forall|p: int| 0 <= p < upto && init_holds(items, env, all[p].values@)
        ==> #[trigger] listed(states, initial, all[p].values@)
}

/// The successor lists of the first `id` states are computed.
spec fn explored(items: Seq<Item>, env: Scope, all: Seq<State>, states: Seq<State>, edges: Seq<Vec<usize>>, id: int) -> bool {
    &&& edges.len() == id
    &&& forall|s: int, j: int| 0 <= s < id && 0 <= j < edges[s]@.len() ==> (#[trigger] edges[s]@[j]) < states.len()
        && trans_holds(items, env, states[s].values@, states[edges[s]@[j] as int].values@)
    &&& forall|s: int, p: int| 0 <= s < id && 0 <= p < all.len() && trans_holds(items, env, states[s].values@, all[p].values@)
        ==> #[trigger] listed(states, edges[s]@, all[p].values@)
}

proof fn lemma_listed_extends(old: Seq<State>, new: Seq<State>, ids: Seq<usize>, v: Seq<Value>)
    requires
        extends(old, new),
        listed(old, ids, v),
    ensures
        listed(new, ids, v),
{
    let j = choose|j: int| 0 <= j < ids.len() && ids[j] < old.len() && (#[trigger] old[ids[j] as int].values@) == v;
    assert(new[ids[j] as int] == old[ids[j] as int]);
}

proof fn lemma_initial_extends(items: Seq<Item>, env: Scope, all: Seq<State>, old: Seq<State>, new: Seq<State>, initial: Seq<usize>, upto: int)
    requires
        initial_ok(items, env, all, old, initial, upto),
        extends(old, new),
    ensures
        initial_ok(items, env, all, new, initial, upto),
{
    assert forall|k: int| 0 <= k < initial.len() implies (#[trigger] initial[k]) < new.len()
        && init_holds(items, env, new[initial[k] as int].values@) by {
        assert(new[initial[k] as int] == old[initial[k] as int]);
    }
    assert forall|p: int| 0 <= p < upto && init_holds(items, env, all[p].values@)
        implies #[trigger] listed(new, initial, all[p].values@) by {
        lemma_listed_extends(old, new, initial, all[p].values@);
    }
}

proof fn lemma_explored_extends(items: Seq<Item>, env: Scope, all: Seq<State>, old: Seq<State>, new: Seq<State>, edges: Seq<Vec<usize>>, id: int)
    requires
        explored(items, env, all, old, edges, id),
        extends(old, new),
        id <= old.len(),
    ensures
        explored(items, env, all, new, edges, id),
{
    assert forall|s: int, j: int| 0 <= s < id && 0 <= j < edges[s]@.len() implies (#[trigger] edges[s]@[j]) < new.len()
        && trans_holds(items, env, new[s].values@, new[edges[s]@[j] as int].values@) by {
        assert(new[s] == old[s]);
        assert(new[edges[s]@[j] as int] == old[edges[s]@[j] as int]);
    }
    assert forall|s: int, p: int| 0 <= s < id && 0 <= p < all.len() && trans_holds(items, env, new[s].values@, all[p].values@)
        implies #[trigger] listed(new, edges[s]@, all[p].values@) by {
        assert(new[s] == old[s]);
        lemma_listed_extends(old, new, edges[s]@, all[p].values@);
    }
}

/// Everything a graph built from the items of a file promises: its variables
/// and domains are those declared, its states are assignments of domain
/// values, its initial states are exactly the assignments that satisfy
/// every `init` block, and each state's successors are exactly the
/// assignments some `transition` block relates it to; no state is a deadlock.
pub open spec fn graph_built_from(items: Seq<Item>, max: usize, g: ModelGraph) -> bool {
    let ds = domain_views(g.domains@);
    let decls = var_decls(items);
    let n = g.states@.len();
    let env = g.env@;
    &&& graph_wf(g)
    &&& spec_constants(items) == Some(env.0)
    &&& g.variables@.len() == decls.len()
    &&& g.domains@.len() == decls.len()
    &&& forall|k: int| 0 <= k < decls.len() ==> #[trigger] g.variables@[k] == decls[k].name
    &&& forall|k: int| 0 <= k < decls.len()
        ==> spec_domain_values(decls[k].domain, items, env.0) == Some(#[trigger] g.domains@[k]@)
    &&& env.2.len() == decls.len()
    &&& forall|k: int| 0 <= k < decls.len() ==> #[trigger] env.2[decls.len() - 1 - k] == (g.variables@[k], k as usize)
    &&& forall|j: int| 0 <= j < env.1.len() ==> (#[trigger] env.1[j]).1 == Value::Enum(env.1[j].0)
    &&& product_size(ds) <= max
    &&& n <= max
    &&& forall|k: int| 0 <= k < n ==> in_product(ds, #[trigger] g.states@[k].values@)
    &&& g.initial_states@.len() > 0
    &&& forall|k: int| 0 <= k < g.initial_states@.len()
        ==> init_holds(items, env, g.states@[#[trigger] g.initial_states@[k] as int].values@)
    &&& forall|v: Seq<Value>| in_product(ds, v) && init_holds(items, env, v)
        ==> #[trigger] listed(g.states@, g.initial_states@, v)
    &&& forall|s: int, j: int| 0 <= s < n && 0 <= j < g.edges@[s]@.len()
        ==> trans_holds(items, env, g.states@[s].values@, g.states@[#[trigger] g.edges@[s]@[j] as int].values@)
    &&& forall|s: int, v: Seq<Value>| 0 <= s < n && in_product(ds, v) && trans_holds(items, env, g.states@[s].values@, v)
        ==> #[trigger] listed(g.states@, g.edges@[s]@, v)
    &&& forall|s: int| 0 <= s < n ==> (#[trigger] g.edges@[s]@.len()) > 0
}

/// The constants of `items` evaluate and every state variable's domain
/// resolves to a list of values.
pub open spec fn graph_domains_ok(items: Seq<Item>) -> bool {
    &&& spec_constants(items) is Some
    &&& forall|k: int| 0 <= k < var_decls(items).len()
        ==> #[trigger] spec_domain_values(var_decls(items)[k].domain, items, spec_constants(items)->Some_0) is Some
}

/// The values of each state variable's domain, in declaration order.
pub open spec fn graph_domains(items: Seq<Item>) -> Seq<Seq<Value>> {
    Seq::new(var_decls(items).len(), |k: int| spec_domain_values(var_decls(items)[k].domain, items, spec_constants(items)->Some_0)->Some_0)
}

/// The state variables of a prefix of the items come first among those of
/// all the items.
proof fn lemma_var_decls_prefix(items: Seq<Item>, j: int)
    requires
        0 <= j <= items.len(),
    ensures
        var_decls(items.take(j)).len() <= var_decls(items).len(),
        forall|k: int| 0 <= k < var_decls(items.take(j)).len() ==> #[trigger] var_decls(items.take(j))[k] == var_decls(items)[k],
    decreases items.len() - j,
{
    if j == items.len() {
        assert(items.take(j) =~= items);
    } else {
        lemma_var_decls_prefix(items, j + 1);
        assert(items.take(j + 1).drop_last() =~= items.take(j));
        let a = var_decls(items.take(j));
        let b = var_decls(items.take(j + 1));
        assert forall|k: int| 0 <= k < a.len() implies #[trigger] a[k] == var_decls(items)[k] by {
            assert(b[k] == a[k]);
        }
    }
}

/// Builds the reachable graph with the default limit of 100,000 states.
pub fn build_graph(file: &SourceFile) -> (r: Result<ModelGraph>)
    ensures
        r matches Ok(g) ==> graph_built_from(file.items@, 100_000, g),
        r is Ok ==> graph_domains_ok(file.items@),
        graph_buildable(file.items@, 100_000) ==> r is Ok,
        graph_domains_ok(file.items@) && product_size(graph_domains(file.items@)) > 100_000
            ==> (r matches Err(CaelumError::Model { message }) && message@ == "state domain has "@
            + nat_digits(product_size(graph_domains(file.items@))) + " states, exceeding --max-states "@
            + nat_digits(100_000)),
        r is Err ==> is_model_err(r),
{
    build_graph_with_options(file, &BuildOptions::default())
}

/// Builds the reachable graph, refusing state spaces larger than
/// `options.max_states`.
#[verifier::spinoff_prover]
pub fn build_graph_with_options(file: &SourceFile, options: &BuildOptions) -> (r: Result<ModelGraph>)
    ensures
        r matches Ok(g) ==> graph_built_from(file.items@, options.max_states, g),
        r is Ok ==> graph_domains_ok(file.items@),
        graph_domains_ok(file.items@) && product_size(graph_domains(file.items@)) > options.max_states
            ==> (r matches Err(CaelumError::Model { message }) && message@ == "state domain has "@
            + nat_digits(product_size(graph_domains(file.items@))) + " states, exceeding --max-states "@
            + nat_digits(options.max_states as nat)),
        graph_buildable(file.items@, options.max_states) ==> r is Ok,
        r is Err ==> is_model_err(r),
{
    let items = &file.items;
    let max = options.max_states;
    let ghost bld = graph_buildable(file.items@, max);
    let consts = match collect_constants(file) {
        Ok(c) => c,
        Err(e) => {
            proof { reveal(graph_buildable); }
            return Err(e);
        },
    };
    let mut names: Vec<String> = Vec::new();
    let mut domains: Vec<Vec<Value>> = Vec::new();
    let mut enum_values: Vec<(String, Value)> = Vec::new();
    let mut variables: Vec<(String, usize)> = Vec::new();
    let mut i: usize = 0;
    while i < items.len()
        invariant
            i <= items@.len(),
            items@ == file.items@,
            spec_constants(file.items@) == Some(consts@),
            names@.len() == var_decls(items@.take(i as int)).len(),
            domains@.len() == names@.len(),
            variables@.len() == names@.len(),
            forall|k: int| 0 <= k < names@.len() ==> #[trigger] names@[k] == var_decls(items@.take(i as int))[k].name,
            forall|k: int| 0 <= k < names@.len()
                ==> spec_domain_values(var_decls(items@.take(i as int))[k].domain, items@, consts@) == Some(#[trigger] domains@[k]@),
            forall|k: int| 0 <= k < names@.len() ==> #[trigger] variables@[names@.len() - 1 - k] == (names@[k], k as usize),
            forall|j: int| 0 <= j < enum_values@.len() ==> (#[trigger] enum_values@[j]).1 == Value::Enum(enum_values@[j].0),
            enum_values@ == enums_of_domains(domain_views(domains@)),
        decreases items@.len() - i,
    {
        proof {
            assert(items@.take(i as int + 1).drop_last() == items@.take(i as int));
            assert(items@.take(i as int + 1).last() == items@[i as int]);
        }
        if let Item::Var(decl) = &items[i] {
            let values = match domain_values(&decl.name, &decl.domain, items, &consts) {
                Ok(v) => v,
                Err(e) => {
                    proof {
                        lemma_var_decls_prefix(items@, i as int + 1);
                        let k = var_decls(items@.take(i as int)).len() as int;
                        assert(var_decls(items@.take(i as int + 1))[k] == *decl);
                        assert(var_decls(items@)[k] == *decl);
                        assert(!graph_domains_ok(file.items@));
                        reveal(graph_buildable);
                    }
                    return Err(e);
                },
            };
            let ghost base = enum_values@;
            let mut j: usize = 0;
            while j < values.len()
                invariant
                    j <= values@.len(),
                    enum_values@ == base + enum_entries_of(values@.take(j as int)),
                    forall|m: int| 0 <= m < enum_values@.len() ==> (#[trigger] enum_values@[m]).1 == Value::Enum(enum_values@[m].0),
                decreases values@.len() - j,
            {
                proof {
                    assert(values@.take(j + 1).drop_last() =~= values@.take(j as int));
                    assert(values@.take(j + 1).last() == values@[j as int]);
                }
                let ghost before_j = enum_values@;
                if let Value::Enum(variant) = &values[j] {
                    enum_values.push((variant.clone(), Value::Enum(variant.clone())));
                    assert(enum_values@ =~= base + enum_entries_of(values@.take(j + 1)));
                } else {
                    assert(enum_values@ =~= base + enum_entries_of(values@.take(j + 1)));
                }
                j = j + 1;
            }
            proof {
                assert(values@.take(values@.len() as int) =~= values@);
            }
            let ghost old_vars = variables@;
            let ghost old_names = names@;
            let ghost old_domains = domain_views(domains@);
            variables.insert(0, (decl.name.clone(), names.len()));
            names.push(decl.name.clone());
            domains.push(values);
            proof {
                assert(domain_views(domains@) =~= old_domains.push(values@));
                assert(domain_views(domains@).drop_last() =~= old_domains);
                assert(enum_values@ == enums_of_domains(domain_views(domains@)));
                assert forall|k: int| 0 <= k < names@.len() implies #[trigger] variables@[names@.len() - 1 - k] == (names@[k], k as usize) by {
                    if k < old_names.len() {
                        assert(variables@[names@.len() - 1 - k] == old_vars[old_names.len() - 1 - k]);
                    }
                }
            }
        }
        i = i + 1;
    }
    proof {
        assert(items@.take(items@.len() as int) == items@);
    }
    let ghost consts_view = consts@;
    let ghost ev = enum_values@;
    let ghost vars = variables@;
    let ghost nm = names@;
    let env = EvalEnv::new(consts, enum_values, variables);
    let all = enumerate_states(&domains);
    let n_all = all.len();
    proof {
        assert(spec_constants(file.items@) == Some(consts_view));
        assert(domain_views(domains@) =~= graph_domains(file.items@)) by {
            assert forall|k: int| 0 <= k < domains@.len() implies domain_views(domains@)[k] == graph_domains(file.items@)[k] by {
                assert(spec_domain_values(var_decls(items@)[k].domain, items@, consts_view) == Some(domains@[k]@));
            }
        }
        assert(graph_domains_ok(file.items@)) by {
            assert forall|k: int| 0 <= k < var_decls(file.items@).len() implies
                #[trigger] spec_domain_values(var_decls(file.items@)[k].domain, file.items@, spec_constants(file.items@)->Some_0) is Some by {
                assert(spec_domain_values(var_decls(items@)[k].domain, items@, consts_view) == Some(domains@[k]@));
            }
        }
    }
    proof {
        let n = var_decls(file.items@).len() as int;
        assert(vars.len() == n);
        assert forall|i: int| 0 <= i < n implies vars[i] == graph_vars(file.items@)[i] by {
            let k = n - 1 - i;
            assert(vars[nm.len() - 1 - k] == (nm[k], k as usize));
            assert(nm[k] == var_decls(items@.take(items@.len() as int))[k].name);
        }
        assert(vars =~= graph_vars(file.items@));
        assert(ev == enums_of_domains(graph_domains(file.items@)));
        assert(env@ == graph_scope(file.items@));
    }
    if n_all > max {
        let ta = usize_text(n_all);
        let tb = usize_text(max);
        let parts = ["state domain has ", ta.as_str(), " states, exceeding --max-states ", tb.as_str()];
        let e = model_error(&parts);
        proof {
            reveal_with_fuel(concat_views, 5);
            assert(parts@.drop_last().drop_last().drop_last().drop_last() =~= Seq::<&str>::empty());
        }
        return Err(e);
    }

    let mut id_of: Vec<Option<usize>> = Vec::new();
    let mut p: usize = 0;
    while p < n_all
        invariant
            product_size(graph_domains(file.items@)) <= max,
            max == options.max_states,
            env@ == graph_scope(file.items@),
            items@ == file.items@,
            bld == graph_buildable(file.items@, max),
            forall|k: int| 0 <= k < all@.len() ==> in_product(graph_domains(file.items@), #[trigger] all@[k].values@),
            forall|v: Seq<Value>| in_product(graph_domains(file.items@), v) ==> #[trigger] has_values(all@, v),
            n_all <= max,
            count_some(id_of@) == 0,
            p <= n_all,
            n_all == all@.len(),
            id_of@.len() == p,
            forall|q: int| 0 <= q < p ==> (#[trigger] id_of@[q]) is None,
        decreases n_all - p,
    {
        let ghost before = id_of@;
        id_of.push(None);
        proof {
            assert(id_of@.drop_last() =~= before);
        }
        p = p + 1;
    }
    let mut states: Vec<State> = Vec::new();
    let mut origin: Vec<usize> = Vec::new();
    let mut initial: Vec<usize> = Vec::new();

    let mut p: usize = 0;
    while p < n_all
        invariant
            product_size(graph_domains(file.items@)) <= max,
            max == options.max_states,
            env@ == graph_scope(file.items@),
            items@ == file.items@,
            bld == graph_buildable(file.items@, max),
            forall|k: int| 0 <= k < all@.len() ==> in_product(graph_domains(file.items@), #[trigger] all@[k].values@),
            forall|v: Seq<Value>| in_product(graph_domains(file.items@), v) ==> #[trigger] has_values(all@, v),
            n_all <= max,
            states@.len() == count_some(id_of@),
            p <= n_all,
            n_all == all@.len(),
            n_all <= max,
            intern_inv(all@, id_of@, states@, origin@),
            states@.len() <= max,
            initial_ok(items@, env@, all@, states@, initial@, p as int),
        decreases n_all - p,
    {
        proof {
            if bld {
                reveal(graph_buildable);
                assert(in_product(graph_domains(file.items@), all@[p as int].values@));
                assert(init_defined(file.items@, graph_scope(file.items@), all@[p as int].values@));
                assert(init_defined(items@, env@, all@[p as int].values@));
            }
        }
        let holds = state_satisfies_init(&all[p], items, &env)?;
        if holds {
            let ghost before = states@;
            let k = intern(p, max, &all, &mut id_of, &mut states, &mut origin)?;
            proof {
                lemma_initial_extends(items@, env@, all@, before, states@, initial@, p as int);
            }
            let ghost old_initial = initial@;
            initial.push(k);
            proof {
                assert forall|q: int| 0 <= q < p + 1 && init_holds(items@, env@, all@[q].values@)
                    implies #[trigger] listed(states@, initial@, all@[q].values@) by {
                    if q < p {
                        assert(listed(states@, old_initial, all@[q].values@));
                        let j = choose|j: int| 0 <= j < old_initial.len() && old_initial[j] < states@.len()
                            && (#[trigger] states@[old_initial[j] as int].values@) == all@[q].values@;
                        assert(initial@[j] == old_initial[j]);
                    } else {
                        assert(initial@[old_initial.len() as int] == k);
                    }
                }
            }
        }
        p = p + 1;
    }
    if initial.len() == 0 {
        proof {
            if bld {
                reveal(graph_buildable);
                let gd = graph_domains(file.items@);
                let v = choose|v: Seq<Value>| in_product(gd, v) && #[trigger] init_holds(file.items@, graph_scope(file.items@), v);
                assert(has_values(all@, v));
                let q = choose|q: int| 0 <= q < all@.len() && (#[trigger] all@[q].values@) == v;
                assert(listed(states@, initial@, all@[q].values@));
            }
        }
        return Err(model_error(&["no initial states satisfy the init predicate"]));
    }

    let mut edges: Vec<Vec<usize>> = Vec::new();
    let mut id: usize = 0;
    while id < states.len()
        invariant
            product_size(graph_domains(file.items@)) <= max,
            max == options.max_states,
            env@ == graph_scope(file.items@),
            items@ == file.items@,
            bld == graph_buildable(file.items@, max),
            forall|k: int| 0 <= k < all@.len() ==> in_product(graph_domains(file.items@), #[trigger] all@[k].values@),
            forall|v: Seq<Value>| in_product(graph_domains(file.items@), v) ==> #[trigger] has_values(all@, v),
            n_all <= max,
            states@.len() == count_some(id_of@),
            n_all == all@.len(),
            intern_inv(all@, id_of@, states@, origin@),
            states@.len() <= max,
            id <= states@.len(),
            initial_ok(items@, env@, all@, states@, initial@, n_all as int),
            explored(items@, env@, all@, states@, edges@, id as int),
        decreases max - id,
    {
        let mut succ: Vec<usize> = Vec::new();
        let ghost start = states@;
        let mut p: usize = 0;
        while p < n_all
            invariant
                product_size(graph_domains(file.items@)) <= max,
                max == options.max_states,
                env@ == graph_scope(file.items@),
                items@ == file.items@,
            items@ == file.items@,
                bld == graph_buildable(file.items@, max),
                forall|k: int| 0 <= k < all@.len() ==> in_product(graph_domains(file.items@), #[trigger] all@[k].values@),
                forall|v: Seq<Value>| in_product(graph_domains(file.items@), v) ==> #[trigger] has_values(all@, v),
                n_all <= max,
                states@.len() == count_some(id_of@),
                n_all == all@.len(),
                id < start.len(),
                p <= n_all,
                intern_inv(all@, id_of@, states@, origin@),
                states@.len() <= max,
                extends(start, states@),
                initial_ok(items@, env@, all@, states@, initial@, n_all as int),
                explored(items@, env@, all@, states@, edges@, id as int),
                forall|j: int| 0 <= j < succ@.len() ==> (#[trigger] succ@[j]) < states@.len()
                    && trans_holds(items@, env@, states@[id as int].values@, states@[succ@[j] as int].values@),
                forall|q: int| 0 <= q < p && trans_holds(items@, env@, states@[id as int].values@, all@[q].values@)
                    ==> #[trigger] listed(states@, succ@, all@[q].values@),
            decreases n_all - p,
        {
            proof {
                if bld {
                    reveal(graph_buildable);
                    let o = origin@[id as int] as int;
                    assert(states@[id as int].values@ == all@[o].values@);
                    assert(in_product(graph_domains(file.items@), states@[id as int].values@));
                    assert(in_product(graph_domains(file.items@), all@[p as int].values@));
                    assert(trans_defined(file.items@, graph_scope(file.items@), states@[id as int].values@, all@[p as int].values@));
                    assert(trans_defined(items@, env@, states@[id as int].values@, all@[p as int].values@));
                }
            }
            let matches = transition_matches(&states[id], &all[p], items, &env)?;
            if matches {
                let ghost before = states@;
                let k = intern(p, max, &all, &mut id_of, &mut states, &mut origin)?;
                proof {
                    lemma_initial_extends(items@, env@, all@, before, states@, initial@, n_all as int);
                    lemma_explored_extends(items@, env@, all@, before, states@, edges@, id as int);
                    assert(states@[id as int] == before[id as int]);
                    assert forall|j: int| 0 <= j < succ@.len() implies (#[trigger] succ@[j]) < states@.len()
                        && trans_holds(items@, env@, states@[id as int].values@, states@[succ@[j] as int].values@) by {
                        assert(states@[succ@[j] as int] == before[succ@[j] as int]);
                    }
                    assert forall|q: int| 0 <= q < p && trans_holds(items@, env@, states@[id as int].values@, all@[q].values@)
                        implies #[trigger] listed(states@, succ@, all@[q].values@) by {
                        lemma_listed_extends(before, states@, succ@, all@[q].values@);
                    }
                }
                let ghost old_succ = succ@;
                succ.push(k);
                proof {
                    assert forall|q: int| 0 <= q < p + 1 && trans_holds(items@, env@, states@[id as int].values@, all@[q].values@)
                        implies #[trigger] listed(states@, succ@, all@[q].values@) by {
                        if q < p {
                            assert(listed(states@, old_succ, all@[q].values@));
                            let j = choose|j: int| 0 <= j < old_succ.len() && old_succ[j] < states@.len()
                                && (#[trigger] states@[old_succ[j] as int].values@) == all@[q].values@;
                            assert(succ@[j] == old_succ[j]);
                        } else {
                            assert(succ@[old_succ.len() as int] == k);
                        }
                    }
                }
            }
            p = p + 1;
        }
        let ghost old_edges = edges@;
        edges.push(succ);
        proof {
            assert(edges@[id as int]@ == succ@);
            assert forall|s: int, j: int| 0 <= s < id + 1 && 0 <= j < edges@[s]@.len() implies (#[trigger] edges@[s]@[j]) < states@.len()
                && trans_holds(items@, env@, states@[s].values@, states@[edges@[s]@[j] as int].values@) by {
                if s < id {
                    assert(edges@[s] == old_edges[s]);
                }
            }
            assert forall|s: int, q: int| 0 <= s < id + 1 && 0 <= q < all@.len() && trans_holds(items@, env@, states@[s].values@, all@[q].values@)
                implies #[trigger] listed(states@, edges@[s]@, all@[q].values@) by {
                if s < id {
                    assert(edges@[s] == old_edges[s]);
                }
            }
        }
        id = id + 1;
    }

    let mut s: usize = 0;
    while s < states.len()
        invariant
            product_size(graph_domains(file.items@)) <= max,
            max == options.max_states,
            env@ == graph_scope(file.items@),
            items@ == file.items@,
            bld == graph_buildable(file.items@, max),
            forall|k: int| 0 <= k < all@.len() ==> in_product(graph_domains(file.items@), #[trigger] all@[k].values@),
            forall|v: Seq<Value>| in_product(graph_domains(file.items@), v) ==> #[trigger] has_values(all@, v),
            n_all <= max,
            explored(items@, env@, all@, states@, edges@, states@.len() as int),
            intern_inv(all@, id_of@, states@, origin@),
            n_all == all@.len(),
            items@ == file.items@,
            s <= states@.len(),
            edges@.len() == states@.len(),
            forall|t: int| 0 <= t < s ==> (#[trigger] edges@[t]@.len()) > 0,
        decreases states@.len() - s,
    {
        if edges[s].len() == 0 {
            proof {
                if bld {
                    reveal(graph_buildable);
                    let o = origin@[s as int] as int;
                    let v = states@[s as int].values@;
                    assert(v == all@[o].values@);
                    assert(in_product(graph_domains(file.items@), v));
                    assert(has_successor(file.items@, v));
                    reveal(has_successor);
                    let w = choose|w: Seq<Value>| in_product(graph_domains(file.items@), w)
                        && #[trigger] trans_holds(file.items@, graph_scope(file.items@), v, w);
                    assert(has_values(all@, w));
                    let q = choose|q: int| 0 <= q < all@.len() && (#[trigger] all@[q].values@) == w;
                    assert(listed(states@, edges@[s as int]@, all@[q].values@));
                }
            }
            return Err(model_error(&["deadlock detected at reachable state #", usize_text(s).as_str()]));
        }
        s = s + 1;
    }

    let graph = ModelGraph {
        variables: names,
        domains,
        env,
        initial_states: initial,
        states,
        edges,
    };
    proof {
        let ds = domain_views(graph.domains@);
        assert forall|v: Seq<Value>| in_product(ds, v) && init_holds(items@, graph.env@, v)
            implies #[trigger] listed(graph.states@, graph.initial_states@, v) by {
            assert(has_values(all@, v));
            let q = choose|q: int| 0 <= q < all@.len() && (#[trigger] all@[q].values@) == v;
            assert(listed(graph.states@, graph.initial_states@, all@[q].values@));
        }
        assert forall|s: int, v: Seq<Value>| 0 <= s < graph.states@.len() && in_product(ds, v)
            && trans_holds(items@, graph.env@, graph.states@[s].values@, v)
            implies #[trigger] listed(graph.states@, graph.edges@[s]@, v) by {
            assert(has_values(all@, v));
            let q = choose|q: int| 0 <= q < all@.len() && (#[trigger] all@[q].values@) == v;
            assert(listed(graph.states@, graph.edges@[s]@, all@[q].values@));
        }
        assert forall|k: int| 0 <= k < graph.states@.len() implies in_product(ds, #[trigger] graph.states@[k].values@) by {
            assert(graph.states@[k].values@ == all@[origin@[k] as int].values@);
        }
    }
    Ok(graph)
}

impl ModelGraph {
    /// The number of edges of the graph.
    pub fn edge_count(&self) -> (r: usize)
        requires
            total_edges(self.edges@) <= usize::MAX,
        ensures
            r == total_edges(self.edges@),
    {
        let mut total: usize = 0;
        let mut i: usize = 0;
        while i < self.edges.len()
            invariant
                i <= self.edges@.len(),
                total == total_edges(self.edges@.take(i as int)),
                total_edges(self.edges@) <= usize::MAX,
            decreases self.edges@.len() - i,
        {
            proof {
                assert(self.edges@.take(i as int + 1).drop_last() == self.edges@.take(i as int));
                lemma_total_edges_prefix(self.edges@, i as int + 1);
            }
            total = total + self.edges[i].len();
            i = i + 1;
        }
        proof {
            assert(self.edges@.take(self.edges@.len() as int) == self.edges@);
        }
        total
    }

    /// The states without successors, in order.
    pub fn deadlocks(&self) -> (r: Vec<usize>)
        ensures
            forall|k: int| 0 <= k < r@.len() ==> (#[trigger] r@[k]) < self.edges@.len()
                && self.edges@[r@[k] as int]@.len() == 0,
            forall|s: int| 0 <= s < self.edges@.len() && self.edges@[s]@.len() == 0
                ==> #[trigger] r@.contains(s as usize),
            forall|a: int, b: int| 0 <= a < b < r@.len() ==> r@[a] < r@[b],
    {
        let mut out: Vec<usize> = Vec::new();
        let mut i: usize = 0;
        while i < self.edges.len()
            invariant
                i <= self.edges@.len(),
                forall|k: int| 0 <= k < out@.len() ==> (#[trigger] out@[k]) < i
                    && self.edges@[out@[k] as int]@.len() == 0,
                forall|s: int| 0 <= s < i && self.edges@[s]@.len() == 0 ==> #[trigger] out@.contains(s as usize),
                forall|a: int, b: int| 0 <= a < b < out@.len() ==> out@[a] < out@[b],
            decreases self.edges@.len() - i,
        {
            if self.edges[i].len() == 0 {
                let ghost old_out = out@;
                out.push(i);
                proof {
                    assert forall|s: int| 0 <= s < i + 1 && self.edges@[s]@.len() == 0
                        implies #[trigger] out@.contains(s as usize) by {
                        if s < i {
                            assert(old_out.contains(s as usize));
                            let k = choose|k: int| 0 <= k < old_out.len() && old_out[k] == s as usize;
                            assert(out@[k] == old_out[k]);
                        } else {
                            assert(out@[old_out.len() as int] == i);
                        }
                    }
                }
            }
            i = i + 1;
        }
        out
    }
}

/// The total number of successors listed.
pub open spec fn total_edges(edges: Seq<Vec<usize>>) -> nat
    decreases edges.len(),
{
    if edges.len() == 0 {
        0
    } else {
        total_edges(edges.drop_last()) + edges.last()@.len()
    }
}

proof fn lemma_total_edges_prefix(edges: Seq<Vec<usize>>, j: int)
    requires
        0 <= j <= edges.len(),
    ensures
        total_edges(edges.take(j)) <= total_edges(edges),
    decreases edges.len() - j,
{
    if j < edges.len() {
        assert(edges.take(j + 1).drop_last() == edges.take(j));
        lemma_total_edges_prefix(edges, j + 1);
    } else {
        assert(edges.take(j) == edges);
    }
}

/// The enum values named by a list of domain values, in order.
pub open spec fn enum_entries_of(vs: Seq<Value>) -> Seq<(String, Value)>
    decreases vs.len(),
{
    if vs.len() == 0 {
        Seq::empty()
    } else {
        let r = enum_entries_of(vs.drop_last());
        match vs.last() {
            Value::Enum(n) => r.push((n, Value::Enum(n))),
            _ => r,
        }
    }
}

/// The enum values of all the domains, one domain after another.
pub open spec fn enums_of_domains(ds: Seq<Seq<Value>>) -> Seq<(String, Value)>
    decreases ds.len(),
{
    if ds.len() == 0 {
        Seq::empty()
    } else {
        enums_of_domains(ds.drop_last()) + enum_entries_of(ds.last())
    }
}

/// The state variables with their positions, the last declared first.
pub open spec fn graph_vars(items: Seq<Item>) -> Seq<(String, usize)> {
    let n = var_decls(items).len();
    Seq::new(n, |i: int| (var_decls(items)[n - 1 - i].name, (n - 1 - i) as usize))
}

/// What the graph's evaluations see: the constants, the enum values of the
/// domains and the state variables.
pub open spec fn graph_scope(items: Seq<Item>) -> Scope {
    (spec_constants(items)->Some_0, enums_of_domains(graph_domains(items)), graph_vars(items))
}

/// Some assignment of domain values can follow `v`.
pub open spec fn has_successor(items: Seq<Item>, v: Seq<Value>) -> bool {
    exists|w: Seq<Value>| in_product(graph_domains(items), w) && #[trigger] trans_holds(items, graph_scope(items), v, w)
}

/// What building the graph needs: the domains resolve and have at most
/// `max` assignments together, every `init` and `transition` block
/// evaluates to a boolean on every assignment, some assignment is initial,
/// and every assignment has a successor.
pub open spec fn graph_buildable(items: Seq<Item>, max: usize) -> bool {
    let gd = graph_domains(items);
    let sc = graph_scope(items);
    &&& graph_domains_ok(items)
    &&& product_size(gd) <= max
    &&& forall|v: Seq<Value>| in_product(gd, v) ==> #[trigger] init_defined(items, sc, v)
    &&& forall|v: Seq<Value>, w: Seq<Value>| in_product(gd, v) && in_product(gd, w) ==> #[trigger] trans_defined(items, sc, v, w)
    &&& exists|v: Seq<Value>| in_product(gd, v) && #[trigger] init_holds(items, sc, v)
    &&& forall|v: Seq<Value>| in_product(gd, v) ==> #[trigger] has_successor(items, v)
}

} // verus!
