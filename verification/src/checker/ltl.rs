//! Explicit-state checking of LTL properties over the reachable graph.
//!
//! Each formula denotes a set of graph states: boolean connectives act on
//! sets, `◯ φ` holds where every successor satisfies `φ`, `□ φ` is the
//! greatest set inside `φ` closed under successors, and `◇ φ` and `φ 𝒰 ψ`
//! are least fixpoints. A property holds when every initial state is in its
//! set; an `invalid` block holds when some initial state is not.

use vstd::prelude::*;

use crate::checker::sets::{
    always_of, closed_until, count_true, full_set, is_always_set, is_until_set, lemma_always_unique,
    lemma_count_add, lemma_count_bounded, lemma_count_subset, lemma_until_unique, next_of, stays_in,
    subset, succ_in, until_of,
};
use crate::diagnostics::{is_model_err, CaelumError, Result};
use crate::model::eval::{eval_expr, expect_bool, spec_eval};
use crate::model::graph::{graph_wf, ModelGraph};
use crate::model::state::{clone_values, State, Value};
use crate::syntax::ast::{BinaryOp, Expr, Item, PropertyBlock, PropertyKind, SourceFile, UnaryOp};

verus! {

#[derive(Debug, Clone)]
pub struct CheckReport {
    pub status: CheckStatus,
    pub properties: Vec<PropertyResult>,
}

#[derive(Debug, Copy, Clone, PartialEq, Eq, Structural)]
pub enum CheckStatus {
    Pass,
    Fail,
    /// The engine could not decide the property (bounded checking only).
    Skipped,
}

#[derive(Debug, Clone)]
pub struct PropertyResult {
    pub name: String,
    pub kind: PropertyKind,
    pub status: CheckStatus,
    pub counterexample: Option<Counterexample>,
    /// Why the engine skipped the property, when it did.
    pub note: Option<String>,
}

#[derive(Debug, Clone)]
pub struct Counterexample {
    pub states: Vec<State>,
    /// For a lasso-shaped trace, the position the last state loops back to.
    pub cycle_start: Option<usize>,
}

// ---------------------------------------------------------------------------
// What formulas denote.

/// The states where a state formula is true; `None` when it does not
/// evaluate to a boolean in some state.
pub open spec fn state_sat(g: ModelGraph, e: Expr) -> Option<Seq<bool>> {
    if forall|s: int| 0 <= s < g.states@.len()
        ==> spec_eval(e, g.env@, Some(#[trigger] g.states@[s].values@), None) matches Some(Value::Bool(_)) {
        Some(Seq::new(g.states@.len(), |s: int| spec_eval(e, g.env@, Some(g.states@[s].values@), None) == Some(Value::Bool(true))))
    } else {
        None
    }
}

/// Pointwise combination of two sets by a boolean connective.
pub open spec fn combine(op: BinaryOp, a: Seq<bool>, b: Seq<bool>) -> Seq<bool> {
    Seq::new(a.len(), |s: int| match op {
        BinaryOp::And => a[s] && b[s],
        BinaryOp::Or => a[s] || b[s],
        BinaryOp::Implies => !a[s] || b[s],
        _ => a[s] == b[s],
    })
}

pub open spec fn complement(a: Seq<bool>) -> Seq<bool> {
    Seq::new(a.len(), |s: int| !a[s])
}

pub open spec fn is_connective(op: BinaryOp) -> bool {
    op is And || op is Or || op is Implies || op is Iff
}

/// The set of states where a formula holds; `None` when a state formula in
/// it cannot be evaluated.
pub open spec fn sat(g: ModelGraph, e: Expr) -> Option<Seq<bool>>
    decreases e,
{
    match e {
        Expr::Unary { op, expr } => match op {
            UnaryOp::Not => match sat(g, *expr) {
                Some(a) => Some(complement(a)),
                None => None,
            },
            UnaryOp::Always => match sat(g, *expr) {
                Some(a) => Some(always_of(g, a)),
                None => None,
            },
            UnaryOp::Eventually => match sat(g, *expr) {
                Some(a) => Some(until_of(g, full_set(g.states@.len()), a)),
                None => None,
            },
            UnaryOp::Next => match sat(g, *expr) {
                Some(a) => Some(next_of(g, a)),
                None => None,
            },
            UnaryOp::Neg => state_sat(g, e),
        },
        Expr::Binary { op, lhs, rhs } => if is_connective(op) || op is Until {
            match sat(g, *lhs) {
                Some(a) => match sat(g, *rhs) {
                    Some(b) => if op is Until {
                        Some(until_of(g, a, b))
                    } else {
                        Some(combine(op, a, b))
                    },
                    None => None,
                },
                None => None,
            }
        } else {
            state_sat(g, e)
        },
        _ => state_sat(g, e),
    }
}

// ---------------------------------------------------------------------------
// Computing the sets.

fn full(n: usize) -> (r: Vec<bool>)
    ensures
        r@ == full_set(n as nat),
{
    let mut out: Vec<bool> = Vec::new();
    let mut i: usize = 0;
    while i < n
        invariant
            i <= n,
            out@ =~= Seq::new(i as nat, |s: int| true),
        decreases n - i,
    {
        out.push(true);
        i = i + 1;
    }
    out
}

/// Whether every successor of `s` is in `set`.
fn all_successors_in(graph: &ModelGraph, set: &Vec<bool>, s: usize) -> (r: bool)
    requires
        graph_wf(*graph),
        s < graph.states@.len(),
        set@.len() == graph.states@.len(),
    ensures
        r == succ_in(*graph, set@, s as int),
{
    let succ = &graph.edges[s];
    let mut j: usize = 0;
    while j < succ.len()
        invariant
            graph_wf(*graph),
            s < graph.states@.len(),
            set@.len() == graph.states@.len(),
            *succ == graph.edges@[s as int],
            j <= succ@.len(),
            forall|k: int| 0 <= k < j ==> set@[#[trigger] graph.edges@[s as int]@[k] as int],
        decreases succ@.len() - j,
    {
        if !set[succ[j]] {
            return false;
        }
        j = j + 1;
    }
    true
}

/// The states where a formula without temporal operators at its top holds.
fn state_formula_set(expr: &Expr, graph: &ModelGraph) -> (r: Result<Vec<bool>>)
    ensures
        state_sat(*graph, *expr) matches Some(x) ==> r matches Ok(v) && v@ == x,
        r matches Ok(v) ==> v@.len() == graph.states@.len(),
        state_sat(*graph, *expr) is None ==> is_model_err(r),
{
    let mut out: Vec<bool> = Vec::new();
    let mut s: usize = 0;
    while s < graph.states.len()
        invariant
            s <= graph.states@.len(),
            out@.len() == s,
            forall|t: int| 0 <= t < s ==> spec_eval(*expr, graph.env@, Some(#[trigger] graph.states@[t].values@), None)
                == Some(Value::Bool(out@[t])),
        decreases graph.states@.len() - s,
    {
        let value = eval_expr(expr, &graph.env, Some(&graph.states[s]), None)?;
        let b = expect_bool(value, "property state formula")?;
        out.push(b);
        s = s + 1;
    }
    proof {
        assert(state_sat(*graph, *expr) is Some);
        assert(out@ =~= state_sat(*graph, *expr)->Some_0);
    }
    Ok(out)
}

/// The greatest set inside `base` closed under successors, by iterating
/// `x := base ∧ ◯x` down from every state.
fn always_set(graph: &ModelGraph, base: &Vec<bool>) -> (r: Vec<bool>)
    requires
        graph_wf(*graph),
        base@.len() == graph.states@.len(),
    ensures
        is_always_set(*graph, base@, r@),
{
    let n = graph.states.len();
    let ghost g = *graph;
    let mut set = full(n);
    loop
        invariant
            graph_wf(*graph),
            g == *graph,
            n == graph.states@.len(),
            base@.len() == n,
            set@.len() == n,
            forall|s: int| 0 <= s < n && base@[s] && succ_in(g, set@, s) ==> #[trigger] set@[s],
            forall|y: Seq<bool>| #[trigger] stays_in(g, base@, y) ==> subset(y, set@),
        decreases count_true(set@),
    {
        let mut next: Vec<bool> = Vec::new();
        let mut changed = false;
        let ghost mut witness: int = 0;
        let mut s: usize = 0;
        while s < n
            invariant
                graph_wf(*graph),
                g == *graph,
                n == graph.states@.len(),
                base@.len() == n,
                set@.len() == n,
                s <= n,
                forall|t: int| 0 <= t < n && base@[t] && succ_in(g, set@, t) ==> #[trigger] set@[t],
                forall|y: Seq<bool>| #[trigger] stays_in(g, base@, y) ==> subset(y, set@),
                next@.len() == s,
                forall|t: int| 0 <= t < s ==> (#[trigger] next@[t] == (base@[t] && succ_in(g, set@, t))),
                !changed ==> forall|t: int| 0 <= t < s ==> #[trigger] set@[t] == next@[t],
                changed ==> 0 <= witness < s && set@[witness] && !next@[witness],
            decreases n - s,
        {
            let keep = base[s] && all_successors_in(graph, &set, s);
            proof {
                assert(keep ==> set@[s as int]);
            }
            if set[s] && !keep {
                changed = true;
                proof {
                    witness = s as int;
                }
            }
            next.push(keep);
            s = s + 1;
        }
        if !changed {
            proof {
                assert(is_always_set(g, base@, set@));
            }
            return set;
        }
        proof {
            assert(subset(next@, set@));
            lemma_count_subset(next@, set@, witness);
            assert forall|s: int| 0 <= s < n && base@[s] && succ_in(g, next@, s) implies #[trigger] next@[s] by {
                assert forall|j: int| 0 <= j < g.edges@[s]@.len() implies set@[#[trigger] g.edges@[s]@[j] as int] by {
                    assert(next@[g.edges@[s]@[j] as int]);
                }
            }
            assert forall|y: Seq<bool>| #[trigger] stays_in(g, base@, y) implies subset(y, next@) by {
                assert(subset(y, set@));
                assert forall|s: int| 0 <= s < y.len() && #[trigger] y[s] implies next@[s] by {
                    assert(succ_in(g, y, s));
                    assert forall|j: int| 0 <= j < g.edges@[s]@.len() implies set@[#[trigger] g.edges@[s]@[j] as int] by {
                        assert(y[g.edges@[s]@[j] as int]);
                    }
                }
            }
        }
        set = next;
    }
}

/// The least set containing `rhs` and every `lhs` state whose successors
/// are all in it, by adding states until nothing changes.
fn until_set(graph: &ModelGraph, lhs: &Vec<bool>, rhs: &Vec<bool>) -> (r: Vec<bool>)
    requires
        graph_wf(*graph),
        lhs@.len() == graph.states@.len(),
        rhs@.len() == graph.states@.len(),
    ensures
        is_until_set(*graph, lhs@, rhs@, r@),
{
    let n = graph.states.len();
    let ghost g = *graph;
    let ghost r0 = rhs@;
    let mut set = copy_set(rhs);
    proof {
        lemma_count_bounded(set@);
    }
    loop
        invariant
            graph_wf(*graph),
            g == *graph,
            n == graph.states@.len(),
            lhs@.len() == n,
            r0.len() == n,
            r0 == rhs@,
            set@.len() == n,
            count_true(set@) <= n,
            subset(r0, set@),
            forall|s: int| 0 <= s < n && #[trigger] set@[s] ==> r0[s] || (lhs@[s] && succ_in(g, set@, s)),
            forall|y: Seq<bool>| #[trigger] closed_until(g, lhs@, r0, y) ==> subset(set@, y),
        decreases n - count_true(set@),
    {
        let ghost start = set@;
        let mut changed = false;
        let mut s: usize = 0;
        while s < n
            invariant
                graph_wf(*graph),
                g == *graph,
                n == graph.states@.len(),
                lhs@.len() == n,
                r0.len() == n,
                set@.len() == n,
                s <= n,
                start.len() == n,
                subset(r0, set@),
                subset(start, set@),
                count_true(set@) <= n,
                forall|t: int| 0 <= t < n && #[trigger] set@[t] ==> r0[t] || (lhs@[t] && succ_in(g, set@, t)),
                forall|y: Seq<bool>| #[trigger] closed_until(g, lhs@, r0, y) ==> subset(set@, y),
                !changed ==> set@ == start,
                !changed ==> forall|t: int| 0 <= t < s && lhs@[t] && succ_in(g, set@, t) ==> #[trigger] set@[t],
                changed ==> count_true(set@) > count_true(start),
            decreases n - s,
        {
            if !set[s] && lhs[s] && all_successors_in(graph, &set, s) {
                let ghost before = set@;
                set.set(s, true);
                proof {
                    assert forall|t: int| 0 <= t < start.len() && #[trigger] start[t] implies set@[t] by {
                        assert(before[t]);
                    }
                    assert forall|t: int| 0 <= t < r0.len() && #[trigger] r0[t] implies set@[t] by {
                        assert(before[t]);
                    }
                    lemma_count_add(before, s as int);
                    lemma_count_bounded(set@);
                    assert(set@ == before.update(s as int, true));
                    assert forall|t: int| 0 <= t < n && #[trigger] set@[t] implies r0[t] || (lhs@[t] && succ_in(g, set@, t)) by {
                        if before[t] && !r0[t] {
                            assert(succ_in(g, before, t));
                            assert forall|j: int| 0 <= j < g.edges@[t]@.len() implies set@[#[trigger] g.edges@[t]@[j] as int] by {
                                assert(before[g.edges@[t]@[j] as int]);
                            }
                        }
                        if t == s {
                            assert forall|j: int| 0 <= j < g.edges@[t]@.len() implies set@[#[trigger] g.edges@[t]@[j] as int] by {
                                assert(before[g.edges@[t]@[j] as int]);
                            }
                        }
                    }
                    assert forall|y: Seq<bool>| #[trigger] closed_until(g, lhs@, r0, y) implies subset(set@, y) by {
                        assert(subset(before, y));
                        assert forall|j: int| 0 <= j < g.edges@[s as int]@.len() implies y[#[trigger] g.edges@[s as int]@[j] as int] by {
                            assert(before[g.edges@[s as int]@[j] as int]);
                        }
                        assert(y[s as int]);
                    }
                }
                changed = true;
            }
            s = s + 1;
        }
        if !changed {
            proof {
                assert forall|t: int| 0 <= t < n implies (#[trigger] set@[t] <==> r0[t] || (lhs@[t] && succ_in(g, set@, t))) by {
                    if r0[t] {
                        assert(set@[t]);
                    }
                }
                assert(is_until_set(g, lhs@, r0, set@));
            }
            return set;
        }
    }
}

fn copy_set(a: &Vec<bool>) -> (r: Vec<bool>)
    ensures
        r@ == a@,
{
    let mut out: Vec<bool> = Vec::new();
    let mut s: usize = 0;
    while s < a.len()
        invariant
            s <= a@.len(),
            out@ == a@.take(s as int),
        decreases a@.len() - s,
    {
        out.push(a[s]);
        proof {
            assert(a@.take(s as int + 1) == a@.take(s as int).push(a@[s as int]));
        }
        s = s + 1;
    }
    assert(a@.take(a@.len() as int) == a@);
    out
}

/// The states all of whose successors are in `inner`.
fn next_set(graph: &ModelGraph, inner: &Vec<bool>) -> (r: Vec<bool>)
    requires
        graph_wf(*graph),
        inner@.len() == graph.states@.len(),
    ensures
        r@ == next_of(*graph, inner@),
        r@.len() == graph.states@.len(),
{
    let mut out: Vec<bool> = Vec::new();
    let mut s: usize = 0;
    while s < graph.states.len()
        invariant
            graph_wf(*graph),
            inner@.len() == graph.states@.len(),
            s <= graph.states@.len(),
            out@.len() == s,
            forall|t: int| 0 <= t < s ==> #[trigger] out@[t] == succ_in(*graph, inner@, t),
        decreases graph.states@.len() - s,
    {
        out.push(all_successors_in(graph, inner, s));
        s = s + 1;
    }
    assert(out@ =~= next_of(*graph, inner@));
    out
}

fn combine_sets(op: BinaryOp, a: &Vec<bool>, b: &Vec<bool>) -> (r: Vec<bool>)
    requires
        a@.len() == b@.len(),
    ensures
        r@ == combine(op, a@, b@),
        r@.len() == a@.len(),
{
    let mut out: Vec<bool> = Vec::new();
    let mut s: usize = 0;
    while s < a.len()
        invariant
            a@.len() == b@.len(),
            s <= a@.len(),
            out@.len() == s,
            forall|t: int| 0 <= t < s ==> #[trigger] out@[t] == combine(op, a@, b@)[t],
        decreases a@.len() - s,
    {
        let v = match op {
            BinaryOp::And => a[s] && b[s],
            BinaryOp::Or => a[s] || b[s],
            BinaryOp::Implies => !a[s] || b[s],
            _ => a[s] == b[s],
        };
        out.push(v);
        s = s + 1;
    }
    assert(out@ =~= combine(op, a@, b@));
    out
}

fn complement_set(a: &Vec<bool>) -> (r: Vec<bool>)
    ensures
        r@ == complement(a@),
        r@.len() == a@.len(),
{
    let mut out: Vec<bool> = Vec::new();
    let mut s: usize = 0;
    while s < a.len()
        invariant
            s <= a@.len(),
            out@.len() == s,
            forall|t: int| 0 <= t < s ==> #[trigger] out@[t] == !a@[t],
        decreases a@.len() - s,
    {
        out.push(!a[s]);
        s = s + 1;
    }
    assert(out@ =~= complement(a@));
    out
}

/// The set of states where a formula holds.
pub fn sat_set(expr: &Expr, graph: &ModelGraph) -> (r: Result<Vec<bool>>)
    requires
        graph_wf(*graph),
    ensures
        sat(*graph, *expr) matches Some(x) ==> r matches Ok(v) && v@ == x,
        sat(*graph, *expr) is None ==> is_model_err(r),
        r matches Ok(v) ==> v@.len() == graph.states@.len(),
    decreases expr,
{
    let ghost g = *graph;
    match expr {
        Expr::Unary { op, expr: inner } => match op {
            UnaryOp::Not => {
                let a = sat_set(inner, graph)?;
                Ok(complement_set(&a))
            },
            UnaryOp::Always => {
                let a = sat_set(inner, graph)?;
                let r = always_set(graph, &a);
                proof {
                    lemma_always_unique(g, a@, r@);
                }
                Ok(r)
            },
            UnaryOp::Eventually => {
                let a = sat_set(inner, graph)?;
                let all = full(graph.states.len());
                let r = until_set(graph, &all, &a);
                proof {
                    lemma_until_unique(g, full_set(g.states@.len()), a@, r@);
                }
                Ok(r)
            },
            UnaryOp::Next => {
                let a = sat_set(inner, graph)?;
                Ok(next_set(graph, &a))
            },
            UnaryOp::Neg => state_formula_set(expr, graph),
        },
        Expr::Binary { op, lhs, rhs } => {
            match op {
                BinaryOp::And | BinaryOp::Or | BinaryOp::Implies | BinaryOp::Iff => {
                    let a = sat_set(lhs, graph)?;
                    let b = sat_set(rhs, graph)?;
                    Ok(combine_sets(*op, &a, &b))
                },
                BinaryOp::Until => {
                    let a = sat_set(lhs, graph)?;
                    let b = sat_set(rhs, graph)?;
                    let r = until_set(graph, &a, &b);
                    proof {
                        lemma_until_unique(g, a@, b@, r@);
                    }
                    Ok(r)
                },
                _ => state_formula_set(expr, graph),
            }
        },
        _ => state_formula_set(expr, graph),
    }
}


// ---------------------------------------------------------------------------
// Counterexamples.

/// `ids` is a nonempty path of the graph: each state is followed by one of
/// its successors.
pub open spec fn is_path(g: ModelGraph, ids: Seq<usize>) -> bool {
    &&& ids.len() > 0
    &&& forall|k: int| 0 <= k < ids.len() ==> (#[trigger] ids[k]) < g.states@.len()
    &&& forall|k: int| 0 <= k < ids.len() - 1 ==> #[trigger] g.edges@[ids[k] as int]@.contains(ids[k + 1])
}

/// No path from `from` passes through a `target` state.
pub open spec fn no_path_reaches(g: ModelGraph, from: usize, target: Seq<bool>) -> bool {
    forall|ids: Seq<usize>| #[trigger] is_path(g, ids) && ids[0] == from
        ==> forall|k: int| 0 <= k < ids.len() ==> !target[ids[k] as int]
}

/// A shortest trace to a `target` state, or the initial state alone when no
/// target state can be reached.
pub open spec fn reaches_target(g: ModelGraph, initial: usize, ids: Seq<usize>, target: Seq<bool>) -> bool {
    (target[ids.last() as int] && no_shorter_path(g, initial, target, ids.len()))
        || (ids == seq![initial] && no_path_reaches(g, initial, target))
}

/// A trace that keeps out of `avoid` after its first state, taking the first
/// such successor each time, and either loops back to one of its own states
/// or stops where every successor is in `avoid`.
pub open spec fn avoiding_lasso(g: ModelGraph, ids: Seq<usize>, cycle: Option<usize>, avoid: Seq<bool>) -> bool {
    &&& forall|k: int| 1 <= k < ids.len() ==> !avoid[#[trigger] ids[k] as int]
    &&& match cycle {
        Some(c) => c < ids.len() && g.edges@[ids.last() as int]@.contains(ids[c as int]),
        None => forall|j: int| 0 <= j < g.edges@[ids.last() as int]@.len()
            ==> avoid[#[trigger] g.edges@[ids.last() as int]@[j] as int],
    }
}

/// The shape of the trace explaining why formula `e` fails at `initial`:
/// a path to a violating state for `□ φ` and state formulas, a lasso that
/// avoids `φ` for `◇ φ`, and one that avoids `ψ` for `φ 𝒰 ψ`.
pub open spec fn cex_shape(g: ModelGraph, e: Expr, initial: usize, ids: Seq<usize>, cycle: Option<usize>) -> bool {
    &&& is_path(g, ids)
    &&& ids[0] == initial
    &&& match e {
        Expr::Unary { op: UnaryOp::Always, expr } =>
            cycle is None && reaches_target(g, initial, ids, complement(sat(g, *expr)->Some_0)),
        Expr::Unary { op: UnaryOp::Eventually, expr } => avoiding_lasso(g, ids, cycle, sat(g, *expr)->Some_0),
        Expr::Binary { op: BinaryOp::Until, rhs, .. } => avoiding_lasso(g, ids, cycle, sat(g, *rhs)->Some_0),
        _ => cycle is None && reaches_target(g, initial, ids, complement(sat(g, e)->Some_0)),
    }
}

pub(crate) proof fn lemma_path_stays(g: ModelGraph, ids: Seq<usize>, c: Seq<bool>, k: int)
    requires
        is_path(g, ids),
        c.len() == g.states@.len(),
        c[ids[0] as int],
        forall|v: int| 0 <= v < c.len() && #[trigger] c[v] ==> succ_in(g, c, v),
        0 <= k < ids.len(),
    ensures
        c[ids[k] as int],
    decreases k,
{
    if k > 0 {
        lemma_path_stays(g, ids, c, k - 1);
        let k1 = k - 1;
        assert(g.edges@[ids[k1] as int]@.contains(ids[k1 + 1]));
        assert(ids[k1 + 1] == ids[k]);
        let e = g.edges@[ids[k - 1] as int]@;
        let j = choose|j: int| 0 <= j < e.len() && #[trigger] e[j] == ids[k];
        assert(succ_in(g, c, ids[k - 1] as int));
    }
}

fn fill_bool(n: usize, v: bool) -> (r: Vec<bool>)
    ensures
        r@ == Seq::new(n as nat, |s: int| v),
{
    let mut out: Vec<bool> = Vec::new();
    let mut i: usize = 0;
    while i < n
        invariant
            i <= n,
            out@ =~= Seq::new(i as nat, |s: int| v),
        decreases n - i,
    {
        out.push(v);
        i = i + 1;
    }
    out
}

/// No path from `initial` to a `target` state has fewer than `len` states.
#[verifier::opaque]
pub open spec fn no_shorter_path(g: ModelGraph, initial: usize, target: Seq<bool>, len: nat) -> bool {
    forall|q: Seq<usize>| #[trigger] is_path(g, q) && q[0] == initial && target[q.last() as int] ==> len <= q.len()
}

/// Every successor of `u` has been seen, at most one step deeper than `u`.
spec fn succ_close(g: ModelGraph, visited: Seq<bool>, depth: Seq<nat>, u: int) -> bool {
    forall|j: int| 0 <= j < g.edges@[u]@.len() ==> visited[#[trigger] g.edges@[u]@[j] as int]
        && depth[g.edges@[u]@[j] as int] <= depth[u] + 1
}

/// What breadth-first search keeps true of its queue: states are seen in
/// order of depth, and the successors of the states taken from the queue
/// have all been seen.
spec fn bfs_inv(g: ModelGraph, initial: usize, target: Seq<bool>, visited: Seq<bool>, pos: Seq<usize>,
    depth: Seq<nat>, queue: Seq<usize>, head: int) -> bool {
    let n = g.states@.len();
    &&& visited.len() == n && pos.len() == n && depth.len() == n
    &&& 0 <= head < queue.len()
    &&& queue[0] == initial
    &&& depth[initial as int] == 0
    &&& forall|k: int| 0 <= k < queue.len() ==> (#[trigger] queue[k]) < n && visited[queue[k] as int]
        && pos[queue[k] as int] == k
    &&& forall|v: int| 0 <= v < n && #[trigger] visited[v] ==> pos[v] < queue.len() && queue[pos[v] as int] == v
    &&& forall|k: int| head <= k < queue.len() ==> depth[queue[head] as int] <= depth[#[trigger] queue[k] as int]
    &&& forall|k: int| 0 <= k < head ==> !target[#[trigger] queue[k] as int] && succ_in(g, visited, queue[k] as int)
    &&& forall|k: int| 0 <= k < head ==> succ_close(g, visited, depth, #[trigger] queue[k] as int)
}

/// When the state at the head of the queue is a target, no path from
/// `initial` to a target is shorter than its depth plus one.
proof fn lemma_bfs_min(g: ModelGraph, initial: usize, target: Seq<bool>, visited: Seq<bool>, pos: Seq<usize>,
    depth: Seq<nat>, queue: Seq<usize>, head: usize, n: usize, mid: int)
    requires
        n == g.states@.len(),
        visited.len() == n,
        pos.len() == n,
        depth.len() == n,
        head < queue.len(),
        queue[0] == initial,
        depth[initial as int] == 0,
        forall|k: int| 0 <= k < queue.len() ==> (#[trigger] queue[k]) < n && visited[queue[k] as int]
            && pos[queue[k] as int] == k,
        forall|v: int| 0 <= v < n && #[trigger] visited[v] ==> pos[v] < queue.len() && queue[pos[v] as int] == v,
        layered(depth, queue, head as int, mid),
        forall|k: int| 0 <= k < head ==> !target[#[trigger] queue[k] as int] && succ_in(g, visited, queue[k] as int),
        forall|k: int| 0 <= k < head ==> succ_close(g, visited, depth, #[trigger] queue[k] as int),
    ensures
        no_shorter_path(g, initial, target, depth[queue[head as int] as int] + 1),
{
    reveal(no_shorter_path);
    assert(bfs_inv(g, initial, target, visited, pos, depth, queue, head as int));
    assert forall|q: Seq<usize>| #[trigger] is_path(g, q) && q[0] == initial && target[q.last() as int]
        implies depth[queue[head as int] as int] + 1 <= q.len() by {
        lemma_bfs_walk(g, initial, target, visited, pos, depth, queue, head as int, q, 0);
    }
}

/// Along a path from `initial` whose first `i` states have all been taken
/// from the queue, the `i`-th state has been seen, at depth `i` at most.
proof fn lemma_depth_along(g: ModelGraph, initial: usize, target: Seq<bool>, visited: Seq<bool>, pos: Seq<usize>,
    depth: Seq<nat>, queue: Seq<usize>, head: int, ids: Seq<usize>, i: int)
    requires
        bfs_inv(g, initial, target, visited, pos, depth, queue, head),
        is_path(g, ids),
        ids[0] == initial,
        0 <= i < ids.len(),
        forall|m: int| 0 <= m < i ==> visited[#[trigger] ids[m] as int] && pos[ids[m] as int] < head,
    ensures
        visited[ids[i] as int],
        depth[ids[i] as int] <= i,
    decreases i,
{
    if i == 0 {
        assert(visited[queue[0] as int]);
    } else {
        lemma_depth_along(g, initial, target, visited, pos, depth, queue, head, ids, i - 1);
        let u = ids[i - 1];
        assert(visited[u as int] && pos[u as int] < head);
        let k = pos[u as int] as int;
        assert(queue[k] == u);
        assert(succ_close(g, visited, depth, u as int));
        assert(g.edges@[ids[i - 1] as int]@.contains(ids[i - 1 + 1]));
        let e = g.edges@[u as int]@;
        let j = choose|j: int| 0 <= j < e.len() && e[j] == ids[i];
        assert(e[j] == ids[i]);
    }
}

/// A path from `initial` to a target state is no shorter than the depth of
/// the state at the head of the queue, plus one.
proof fn lemma_bfs_walk(g: ModelGraph, initial: usize, target: Seq<bool>, visited: Seq<bool>, pos: Seq<usize>,
    depth: Seq<nat>, queue: Seq<usize>, head: int, ids: Seq<usize>, i: int)
    requires
        bfs_inv(g, initial, target, visited, pos, depth, queue, head),
        is_path(g, ids),
        ids[0] == initial,
        target[ids.last() as int],
        0 <= i < ids.len(),
        forall|m: int| 0 <= m < i ==> visited[#[trigger] ids[m] as int] && pos[ids[m] as int] < head,
    ensures
        depth[queue[head] as int] + 1 <= ids.len(),
    decreases ids.len() - i,
{
    lemma_depth_along(g, initial, target, visited, pos, depth, queue, head, ids, i);
    let v = ids[i] as int;
    let k = pos[v] as int;
    assert(queue[k] == v);
    if k < head {
        if i == ids.len() - 1 {
            assert(!target[queue[k] as int]);
        } else {
            lemma_bfs_walk(g, initial, target, visited, pos, depth, queue, head, ids, i + 1);
        }
    } else {
        assert(depth[queue[head] as int] <= depth[queue[k] as int]);
    }
}

/// The queue holds, from `head` on, states at the depth of the head up to
/// `mid` and one deeper after it; the states before `head` are no deeper.
spec fn layered(depth: Seq<nat>, queue: Seq<usize>, head: int, mid: int) -> bool {
    &&& 0 <= head < mid <= queue.len()
    &&& forall|k: int| 0 <= k < head ==> depth[#[trigger] queue[k] as int] <= depth[queue[head] as int]
    &&& forall|k: int| head <= k < mid ==> depth[#[trigger] queue[k] as int] == depth[queue[head] as int]
    &&& forall|k: int| mid <= k < queue.len() ==> depth[#[trigger] queue[k] as int] == depth[queue[head] as int] + 1
}

/// After the successors of the state at the head of the queue have been
/// seen, the head can move on.
proof fn lemma_bfs_advance(g: ModelGraph, visited: Seq<bool>, depth: Seq<nat>, queue: Seq<usize>, head: int, mid: int,
    succ: Seq<usize>)
    requires
        layered(depth, queue, head, mid),
        succ == g.edges@[queue[head] as int]@,
        forall|m: int| 0 <= m < succ.len() ==> visited[#[trigger] succ[m] as int],
        forall|m: int| 0 <= m < succ.len() ==> depth[#[trigger] succ[m] as int] <= depth[queue[head] as int] + 1,
        forall|k: int| 0 <= k < head ==> succ_close(g, visited, depth, #[trigger] queue[k] as int),
    ensures
        forall|k: int| 0 <= k < head + 1 ==> succ_close(g, visited, depth, #[trigger] queue[k] as int),
        head + 1 < queue.len() ==> layered(depth, queue, head + 1, if head + 1 < mid { mid } else { queue.len() as int }),
{
    assert(succ_close(g, visited, depth, queue[head] as int));
    assert forall|k: int| 0 <= k < head + 1 implies succ_close(g, visited, depth, #[trigger] queue[k] as int) by {
    }
    if head + 1 < queue.len() {
        let m2 = if head + 1 < mid { mid } else { queue.len() as int };
        assert forall|k: int| 0 <= k < head + 1 implies depth[#[trigger] queue[k] as int] <= depth[queue[head + 1] as int] by {
            if k < head {
                assert(depth[queue[k] as int] <= depth[queue[head] as int]);
            }
            assert(depth[queue[head] as int] <= depth[queue[head + 1] as int]);
        }
        assert(layered(depth, queue, head + 1, m2));
    }
}

/// A path from `initial` to a `target` state found by breadth-first search,
/// or `None` when no target state is reachable.
#[verifier::rlimit(100)]
#[verifier::spinoff_prover]
fn shortest_path(initial: usize, graph: &ModelGraph, target: &Vec<bool>) -> (r: Option<Vec<usize>>)
    requires
        graph_wf(*graph),
        initial < graph.states@.len(),
        target@.len() == graph.states@.len(),
    ensures
        r matches Some(p) ==> is_path(*graph, p@) && p@[0] == initial && target@[p@.last() as int],
        r matches Some(p) ==> no_shorter_path(*graph, initial, target@, p@.len()),
        r is None ==> no_path_reaches(*graph, initial, target@),
{
    let ghost g = *graph;
    let n = graph.states.len();
    let mut visited = fill_bool(n, false);
    let mut parent: Vec<Option<usize>> = Vec::new();
    let mut pos: Vec<usize> = Vec::new();
    let mut i: usize = 0;
    while i < n
        invariant
            i <= n,
            parent@.len() == i,
            pos@.len() == i,
            forall|m: int| 0 <= m < i ==> #[trigger] pos@[m] == 0,
        decreases n - i,
    {
        parent.push(None);
        pos.push(0);
        i = i + 1;
    }
    let mut queue: Vec<usize> = Vec::new();
    proof {
        lemma_count_zero(n as nat);
        lemma_count_add(visited@, initial as int);
    }
    let ghost unvisited = visited@;
    let ghost mut depth: Seq<nat> = Seq::new(n as nat, |v: int| 0nat);
    let ghost mut mid: int = 1;
    visited.set(initial, true);
    queue.push(initial);
    proof {
        assert forall|v: int| 0 <= v < n && #[trigger] visited@[v] implies v == initial by {
            assert(!unvisited[v]);
        }
        assert(pos@[initial as int] == 0);
    }
    let mut head: usize = 0;
    while head < queue.len()
        invariant
            graph_wf(*graph),
            g == *graph,
            n == graph.states@.len(),
            initial < n,
            target@.len() == n,
            visited@.len() == n,
            parent@.len() == n,
            pos@.len() == n,
            queue@.len() == count_true(visited@),
            head <= queue@.len(),
            queue@.len() > 0,
            queue@[0] == initial,
            visited@[initial as int],
            forall|k: int| 0 <= k < queue@.len() ==> (#[trigger] queue@[k]) < n && visited@[queue@[k] as int]
                && pos@[queue@[k] as int] == k,
            forall|v: int| 0 <= v < n && #[trigger] visited@[v] ==> pos@[v] < queue@.len() && queue@[pos@[v] as int] == v,
            forall|v: int| 0 <= v < n && #[trigger] visited@[v] && v != initial ==> (parent@[v] matches Some(u)
                && u < n && visited@[u as int] && pos@[u as int] < pos@[v] && g.edges@[u as int]@.contains(v as usize)),
            forall|k: int| 0 <= k < head ==> !target@[#[trigger] queue@[k] as int] && succ_in(g, visited@, queue@[k] as int),
            depth.len() == n,
            depth[initial as int] == 0,
            forall|v: int| 0 <= v < n && #[trigger] visited@[v] && v != initial ==> (parent@[v] matches Some(u)
                && depth[v] == depth[u as int] + 1),
            head < queue@.len() ==> layered(depth, queue@, head as int, mid),
            forall|k: int| 0 <= k < head ==> succ_close(g, visited@, depth, #[trigger] queue@[k] as int),
        decreases n - head,
    {
        proof {
            lemma_count_bounded(visited@);
        }
        let state = queue[head];
        if target[state] {
            proof {
                lemma_bfs_min(g, initial, target@, visited@, pos@, depth, queue@, head, n, mid);
            }
            let found = trace_back(initial, state, graph, &parent, &pos, &visited, Ghost(depth));
            assert(no_shorter_path(*graph, initial, target@, found@.len()));
            return Some(found);
        }
        let succ = &graph.edges[state];
        let mut j: usize = 0;
        while j < succ.len()
            invariant
                graph_wf(*graph),
                g == *graph,
                n == graph.states@.len(),
                initial < n,
                target@.len() == n,
                state < n,
                head < queue@.len(),
                queue@[head as int] == state,
                *succ == g.edges@[state as int],
                j <= succ@.len(),
                visited@.len() == n,
                parent@.len() == n,
                pos@.len() == n,
                queue@.len() == count_true(visited@),
                queue@[0] == initial,
                visited@[initial as int],
                forall|k: int| 0 <= k < queue@.len() ==> (#[trigger] queue@[k]) < n && visited@[queue@[k] as int]
                    && pos@[queue@[k] as int] == k,
                forall|v: int| 0 <= v < n && #[trigger] visited@[v] ==> pos@[v] < queue@.len() && queue@[pos@[v] as int] == v,
                forall|v: int| 0 <= v < n && #[trigger] visited@[v] && v != initial ==> (parent@[v] matches Some(u)
                    && u < n && visited@[u as int] && pos@[u as int] < pos@[v] && g.edges@[u as int]@.contains(v as usize)),
                forall|k: int| 0 <= k < head ==> !target@[#[trigger] queue@[k] as int] && succ_in(g, visited@, queue@[k] as int),
                forall|m: int| 0 <= m < j ==> visited@[#[trigger] succ@[m] as int],
                depth.len() == n,
                depth[initial as int] == 0,
                forall|v: int| 0 <= v < n && #[trigger] visited@[v] && v != initial ==> (parent@[v] matches Some(u)
                    && depth[v] == depth[u as int] + 1),
                layered(depth, queue@, head as int, mid),
                forall|k: int| 0 <= k < head ==> succ_close(g, visited@, depth, #[trigger] queue@[k] as int),
                forall|m: int| 0 <= m < j ==> depth[#[trigger] succ@[m] as int] <= depth[state as int] + 1,
            decreases succ@.len() - j,
        {
            let t = succ[j];
            if !visited[t] {
                let ghost old_visited = visited@;
                let ghost old_queue = queue@;
                proof {
                    lemma_count_add(visited@, t as int);
                    assert(succ@.contains(t));
                }
                let ghost old_depth = depth;
                proof {
                    depth = depth.update(t as int, depth[state as int] + 1);
                    assert(forall|k: int| 0 <= k < old_queue.len() ==> old_queue[k] != t);
                }
                visited.set(t, true);
                parent.set(t, Some(state));
                pos.set(t, queue.len());
                queue.push(t);
                proof {
                    assert forall|k: int| 0 <= k < head implies succ_close(g, visited@, depth, #[trigger] queue@[k] as int) by {
                        assert(queue@[k] == old_queue[k]);
                        assert(succ_close(g, old_visited, old_depth, old_queue[k] as int));
                        assert forall|m: int| 0 <= m < g.edges@[queue@[k] as int]@.len()
                            implies visited@[#[trigger] g.edges@[queue@[k] as int]@[m] as int]
                            && depth[g.edges@[queue@[k] as int]@[m] as int] <= depth[queue@[k] as int] + 1 by {
                            assert(old_visited[g.edges@[queue@[k] as int]@[m] as int]);
                        }
                    }
                    assert forall|v: int| 0 <= v < n && #[trigger] visited@[v] && v != initial implies (parent@[v] matches Some(u)
                        && depth[v] == depth[u as int] + 1) by {
                        if v != t {
                            assert(old_visited[v]);
                            let u = parent@[v]->Some_0;
                            assert(old_visited[u as int]);
                        }
                    }
                    assert forall|k: int| 0 <= k < queue@.len() implies depth[#[trigger] queue@[k] as int] == old_depth[old_queue.push(t)[k] as int]
                        || k == old_queue.len() by {
                        if k < old_queue.len() {
                            assert(queue@[k] == old_queue[k]);
                        }
                    }
                    assert(queue@[head as int] == old_queue[head as int]);
                    assert(layered(depth, queue@, head as int, mid));
                    assert forall|m: int| 0 <= m < j + 1 implies depth[#[trigger] succ@[m] as int] <= depth[state as int] + 1 by {
                        if m < j {
                            assert(old_visited[succ@[m] as int]);
                        }
                    }
                    assert forall|k: int| 0 <= k < head implies !target@[#[trigger] queue@[k] as int]
                        && succ_in(g, visited@, queue@[k] as int) by {
                        assert(queue@[k] == old_queue[k]);
                        assert(succ_in(g, old_visited, queue@[k] as int));
                        assert forall|m: int| 0 <= m < g.edges@[queue@[k] as int]@.len()
                            implies visited@[#[trigger] g.edges@[queue@[k] as int]@[m] as int] by {
                            assert(old_visited[g.edges@[queue@[k] as int]@[m] as int]);
                        }
                    }
                    assert forall|v: int| 0 <= v < n && #[trigger] visited@[v] && v != initial implies (parent@[v] matches Some(u)
                        && u < n && visited@[u as int] && pos@[u as int] < pos@[v] && g.edges@[u as int]@.contains(v as usize)) by {
                        if v != t {
                            assert(old_visited[v]);
                        }
                    }
                    assert forall|m: int| 0 <= m < j + 1 implies visited@[#[trigger] succ@[m] as int] by {
                        if m < j {
                            assert(old_visited[succ@[m] as int]);
                        }
                    }
                }
            } else {
                proof {
                    let k = pos@[t as int] as int;
                    assert(queue@[k] == t);
                    if k < head {
                        assert(depth[queue@[k] as int] <= depth[queue@[head as int] as int]);
                    } else if k < mid {
                        assert(depth[queue@[k] as int] == depth[queue@[head as int] as int]);
                    } else {
                        assert(depth[queue@[k] as int] == depth[queue@[head as int] as int] + 1);
                    }
                    assert(depth[queue@[k] as int] <= depth[state as int] + 1);
                    assert forall|m: int| 0 <= m < j + 1 implies depth[#[trigger] succ@[m] as int] <= depth[state as int] + 1 by {
                    }
                }
            }
            j = j + 1;
        }
        proof {
            assert forall|m: int| 0 <= m < g.edges@[state as int]@.len() implies visited@[#[trigger] g.edges@[state as int]@[m] as int] by {
                assert(visited@[succ@[m] as int]);
            }
            lemma_bfs_advance(g, visited@, depth, queue@, head as int, mid, succ@);
            if head + 1 >= mid {
                mid = queue@.len() as int;
            }
        }
        head = head + 1;
    }
    proof {
        assert forall|v: int| 0 <= v < n && #[trigger] visited@[v] implies succ_in(g, visited@, v) && !target@[v] by {
            let k = pos@[v] as int;
            assert(queue@[k] == v);
        }
        assert forall|ids: Seq<usize>| #[trigger] is_path(g, ids) && ids[0] == initial
            implies forall|k: int| 0 <= k < ids.len() ==> !target@[ids[k] as int] by {
            assert forall|k: int| 0 <= k < ids.len() implies !target@[ids[k] as int] by {
                lemma_path_stays(g, ids, visited@, k);
                assert(ids[k] < n);
            }
        }
    }
    None
}

proof fn lemma_count_zero(m: nat)
    ensures
        count_true(Seq::new(m, |s: int| false)) == 0,
    decreases m,
{
    if m > 0 {
        assert(Seq::new(m, |s: int| false).drop_last() == Seq::new((m - 1) as nat, |s: int| false));
        lemma_count_zero((m - 1) as nat);
    }
}

/// Follows the search's parent links from `found` back to `initial`.
fn trace_back(
    initial: usize,
    found: usize,
    graph: &ModelGraph,
    parent: &Vec<Option<usize>>,
    pos: &Vec<usize>,
    visited: &Vec<bool>,
    Ghost(depth): Ghost<Seq<nat>>,
) -> (r: Vec<usize>)
    requires
        depth.len() == graph.states@.len(),
        depth[initial as int] == 0,
        forall|v: int| 0 <= v < visited@.len() && #[trigger] visited@[v] && v != initial ==> (parent@[v] matches Some(u)
            && depth[v] == depth[u as int] + 1),
        graph_wf(*graph),
        found < graph.states@.len(),
        visited@.len() == graph.states@.len(),
        parent@.len() == graph.states@.len(),
        pos@.len() == graph.states@.len(),
        visited@[found as int],
        forall|v: int| 0 <= v < visited@.len() && #[trigger] visited@[v] && v != initial ==> (parent@[v] matches Some(u)
            && u < visited@.len() && visited@[u as int] && pos@[u as int] < pos@[v] && graph.edges@[u as int]@.contains(v as usize)),
    ensures
        is_path(*graph, r@),
        r@[0] == initial,
        r@.last() == found,
        r@.len() == depth[found as int] + 1,
{
    let ghost g = *graph;
    let mut rev: Vec<usize> = Vec::new();
    rev.push(found);
    let mut cursor = found;
    loop
        invariant
            graph_wf(*graph),
            g == *graph,
            visited@.len() == g.states@.len(),
            parent@.len() == g.states@.len(),
            pos@.len() == g.states@.len(),
            forall|v: int| 0 <= v < visited@.len() && #[trigger] visited@[v] && v != initial ==> (parent@[v] matches Some(u)
                && u < visited@.len() && visited@[u as int] && pos@[u as int] < pos@[v] && g.edges@[u as int]@.contains(v as usize)),
            cursor < g.states@.len(),
            visited@[cursor as int],
            rev@.len() > 0,
            rev@[0] == found,
            rev@.last() == cursor,
            forall|k: int| 0 <= k < rev@.len() ==> (#[trigger] rev@[k]) < g.states@.len(),
            forall|k: int| 0 <= k < rev@.len() - 1 ==> #[trigger] g.edges@[rev@[k + 1] as int]@.contains(rev@[k]),
            rev@.len() + depth[cursor as int] == depth[found as int] + 1,
            found < g.states@.len(),
            depth.len() == g.states@.len(),
            depth[initial as int] == 0,
            forall|v: int| 0 <= v < visited@.len() && #[trigger] visited@[v] && v != initial ==> (parent@[v] matches Some(u)
                && depth[v] == depth[u as int] + 1),
        ensures
            cursor == initial,
            rev@.len() + depth[cursor as int] == depth[found as int] + 1,
            rev@.len() > 0,
            rev@[0] == found,
            rev@.last() == cursor,
            forall|k: int| 0 <= k < rev@.len() ==> (#[trigger] rev@[k]) < g.states@.len(),
            forall|k: int| 0 <= k < rev@.len() - 1 ==> #[trigger] g.edges@[rev@[k + 1] as int]@.contains(rev@[k]),
        decreases pos@[cursor as int],
    {
        match parent[cursor] {
            Some(u) => {
                if cursor == initial {
                    break;
                }
                let ghost old_rev = rev@;
                rev.push(u);
                proof {
                    assert forall|k: int| 0 <= k < rev@.len() - 1 implies #[trigger] g.edges@[rev@[k + 1] as int]@.contains(rev@[k]) by {
                        if k < old_rev.len() - 1 {
                            assert(rev@[k + 1] == old_rev[k + 1]);
                        }
                    }
                }
                cursor = u;
            },
            None => {
                break;
            },
        }
    }
    let mut path: Vec<usize> = Vec::new();
    let mut k: usize = rev.len();
    while k > 0
        invariant
            k <= rev@.len(),
            path@.len() == rev@.len() - k,
            forall|m: int| 0 <= m < path@.len() ==> #[trigger] path@[m] == rev@[rev@.len() - 1 - m],
        decreases k,
    {
        k = k - 1;
        path.push(rev[k]);
    }
    proof {
        let len = rev@.len();
        assert forall|m: int| 0 <= m < path@.len() - 1 implies #[trigger] g.edges@[path@[m] as int]@.contains(path@[m + 1]) by {
            assert(path@[m] == rev@[(len - 2 - m) + 1]);
            assert(path@[m + 1] == rev@[len - 2 - m]);
        }
        assert forall|m: int| 0 <= m < path@.len() implies (#[trigger] path@[m]) < g.states@.len() by {
            assert(path@[m] == rev@[len - 1 - m]);
        }
    }
    path
}

/// The first successor of `s` outside `avoid`.
fn first_not_avoided(graph: &ModelGraph, s: usize, avoid: &Vec<bool>) -> (r: Option<usize>)
    requires
        graph_wf(*graph),
        s < graph.states@.len(),
        avoid@.len() == graph.states@.len(),
    ensures
        r matches Some(t) ==> t < graph.states@.len() && graph.edges@[s as int]@.contains(t) && !avoid@[t as int],
        r is None ==> forall|j: int| 0 <= j < graph.edges@[s as int]@.len()
            ==> avoid@[#[trigger] graph.edges@[s as int]@[j] as int],
{
    let succ = &graph.edges[s];
    let mut j: usize = 0;
    while j < succ.len()
        invariant
            graph_wf(*graph),
            s < graph.states@.len(),
            avoid@.len() == graph.states@.len(),
            *succ == graph.edges@[s as int],
            j <= succ@.len(),
            forall|m: int| 0 <= m < j ==> avoid@[#[trigger] graph.edges@[s as int]@[m] as int],
        decreases succ@.len() - j,
    {
        if !avoid[succ[j]] {
            assert(succ@[j as int] == graph.edges@[s as int]@[j as int]);
            return Some(succ[j]);
        }
        j = j + 1;
    }
    None
}

/// From `initial`, repeatedly steps to the first successor outside `avoid`,
/// until a state repeats (a lasso) or no such successor exists.
fn lasso_avoiding(initial: usize, graph: &ModelGraph, avoid: &Vec<bool>) -> (r: (Vec<usize>, Option<usize>))
    requires
        graph_wf(*graph),
        initial < graph.states@.len(),
        avoid@.len() == graph.states@.len(),
    ensures
        is_path(*graph, r.0@),
        r.0@[0] == initial,
        avoiding_lasso(*graph, r.0@, r.1, avoid@),
{
    let ghost g = *graph;
    let n = graph.states.len();
    let mut seen = fill_bool(n, false);
    let mut ids: Vec<usize> = Vec::new();
    let mut state = initial;
    proof {
        lemma_count_zero(n as nat);
    }
    loop
        invariant
            graph_wf(*graph),
            g == *graph,
            n == g.states@.len(),
            avoid@.len() == n,
            seen@.len() == n,
            state < n,
            count_true(seen@) == ids@.len(),
            forall|k: int| 0 <= k < ids@.len() ==> (#[trigger] ids@[k]) < n && seen@[ids@[k] as int],
            forall|v: int| 0 <= v < n && #[trigger] seen@[v] ==> ids@.contains(v as usize),
            ids@.len() == 0 ==> state == initial,
            ids@.len() > 0 ==> ids@[0] == initial && g.edges@[ids@.last() as int]@.contains(state) && !avoid@[state as int],
            forall|k: int| 1 <= k < ids@.len() ==> !avoid@[#[trigger] ids@[k] as int],
            forall|k: int| 0 <= k < ids@.len() - 1 ==> #[trigger] g.edges@[ids@[k] as int]@.contains(ids@[k + 1]),
        decreases n - ids@.len(),
    {
        proof {
            lemma_count_bounded(seen@);
        }
        if seen[state] {
            proof {
                assert(ids@.contains(state));
            }
            let c = position_of(&ids, state);
            return (ids, Some(c));
        }
        let ghost old_ids = ids@;
        proof {
            lemma_count_add(seen@, state as int);
        }
        ids.push(state);
        seen.set(state, true);
        proof {
            lemma_count_bounded(seen@);
            assert forall|v: int| 0 <= v < n && #[trigger] seen@[v] implies ids@.contains(v as usize) by {
                if v == state {
                    assert(ids@[old_ids.len() as int] == state);
                } else {
                    assert(old_ids.contains(v as usize));
                    let k = choose|k: int| 0 <= k < old_ids.len() && old_ids[k] == v as usize;
                    assert(ids@[k] == old_ids[k]);
                }
            }
            assert forall|k: int| 0 <= k < ids@.len() - 1 implies #[trigger] g.edges@[ids@[k] as int]@.contains(ids@[k + 1]) by {
                if k < old_ids.len() - 1 {
                    assert(ids@[k + 1] == old_ids[k + 1]);
                }
            }
        }
        match first_not_avoided(graph, state, avoid) {
            Some(t) => {
                state = t;
            },
            None => {
                return (ids, None);
            },
        }
    }
}

fn position_of(ids: &Vec<usize>, v: usize) -> (r: usize)
    requires
        ids@.contains(v),
    ensures
        r < ids@.len(),
        ids@[r as int] == v,
{
    let mut k: usize = 0;
    while k < ids.len()
        invariant
            k <= ids@.len(),
            ids@.contains(v),
            forall|m: int| 0 <= m < k ==> ids@[m] != v,
        decreases ids@.len() - k,
    {
        if ids[k] == v {
            return k;
        }
        k = k + 1;
    }
    proof {
        let m = choose|m: int| 0 <= m < ids@.len() && ids@[m] == v;
        assert(false);
    }
    0
}


// ---------------------------------------------------------------------------
// Verdicts.

/// The trace `states` visits the graph states `ids`, in order.
pub open spec fn path_states(g: ModelGraph, ids: Seq<usize>, states: Seq<State>) -> bool {
    &&& states.len() == ids.len()
    &&& forall|k: int| 0 <= k < ids.len() ==> (#[trigger] states[k]).values@ == g.states@[ids[k] as int].values@
}

/// `c` is a trace of the shape `cex_shape` asks for, from `initial`.
pub open spec fn counterexample_for(g: ModelGraph, e: Expr, initial: usize, c: Counterexample) -> bool {
    exists|ids: Seq<usize>| #[trigger] cex_shape(g, e, initial, ids, c.cycle_start) && path_states(g, ids, c.states@)
}

/// Every initial state is in `x`.
pub open spec fn all_initial_in(g: ModelGraph, x: Seq<bool>) -> bool {
    forall|k: int| 0 <= k < g.initial_states@.len() ==> x[#[trigger] g.initial_states@[k] as int]
}

/// The `k`-th initial state is the first one outside `x`.
pub open spec fn first_failing(g: ModelGraph, x: Seq<bool>, k: int) -> bool {
    &&& 0 <= k < g.initial_states@.len()
    &&& !x[g.initial_states@[k] as int]
    &&& forall|m: int| 0 <= m < k ==> x[#[trigger] g.initial_states@[m] as int]
}

/// The property blocks of a file, in order.
pub open spec fn property_blocks(items: Seq<Item>) -> Seq<PropertyBlock>
    decreases items.len(),
{
    if items.len() == 0 {
        Seq::empty()
    } else {
        match items.last() {
            Item::Property(b) => property_blocks(items.drop_last()).push(b),
            _ => property_blocks(items.drop_last()),
        }
    }
}

/// The verdict on one property: a property passes when every initial state
/// satisfies it, with a trace from the first initial state that does not
/// when it fails; an `invalid` block passes when some initial state does not
/// satisfy its formula.
pub open spec fn result_for(g: ModelGraph, p: PropertyBlock, res: PropertyResult) -> bool {
    let x = sat(g, p.expr)->Some_0;
    &&& sat(g, p.expr) is Some
    &&& res.name == p.name
    &&& res.kind == p.kind
    &&& res.note is None
    &&& match p.kind {
        PropertyKind::Property => if all_initial_in(g, x) {
            res.status == CheckStatus::Pass && res.counterexample is None
        } else {
            &&& res.status == CheckStatus::Fail
            &&& exists|k: int| #[trigger] first_failing(g, x, k)
                && (res.counterexample matches Some(c) && counterexample_for(g, p.expr, g.initial_states@[k], c))
        },
        PropertyKind::Invalid => res.counterexample is None
            && res.status == (if all_initial_in(g, x) { CheckStatus::Fail } else { CheckStatus::Pass }),
    }
}

/// A report gives one verdict per property block, in order, and fails
/// exactly when one of them fails.
pub open spec fn report_for(g: ModelGraph, props: Seq<PropertyBlock>, rep: CheckReport) -> bool {
    &&& rep.properties@.len() == props.len()
    &&& forall|k: int| 0 <= k < props.len() ==> #[trigger] result_for(g, props[k], rep.properties@[k])
    &&& rep.status == (if exists|k: int| 0 <= k < props.len() && (#[trigger] rep.properties@[k]).status == CheckStatus::Fail {
        CheckStatus::Fail
    } else {
        CheckStatus::Pass
    })
}

proof fn lemma_props_prefix(items: Seq<Item>, j: int)
    requires
        0 <= j <= items.len(),
    ensures
        property_blocks(items.take(j)).len() <= property_blocks(items).len(),
        forall|k: int| 0 <= k < property_blocks(items.take(j)).len()
            ==> property_blocks(items)[k] == #[trigger] property_blocks(items.take(j))[k],
    decreases items.len() - j,
{
    if j < items.len() {
        assert(items.take(j + 1).drop_last() == items.take(j));
        lemma_props_prefix(items, j + 1);
        let a = property_blocks(items.take(j));
        let b = property_blocks(items.take(j + 1));
        assert(a.len() <= b.len());
        assert forall|k: int| 0 <= k < a.len() implies b[k] == a[k] by {}
    } else {
        assert(items.take(j) == items);
    }
}

fn states_of(graph: &ModelGraph, ids: &Vec<usize>) -> (r: Vec<State>)
    requires
        forall|k: int| 0 <= k < ids@.len() ==> (#[trigger] ids@[k]) < graph.states@.len(),
    ensures
        path_states(*graph, ids@, r@),
{
    let mut out: Vec<State> = Vec::new();
    let mut k: usize = 0;
    while k < ids.len()
        invariant
            k <= ids@.len(),
            forall|m: int| 0 <= m < ids@.len() ==> (#[trigger] ids@[m]) < graph.states@.len(),
            out@.len() == k,
            forall|m: int| 0 <= m < k ==> (#[trigger] out@[m]).values@ == graph.states@[ids@[m] as int].values@,
        decreases ids@.len() - k,
    {
        out.push(State { values: clone_values(&graph.states[ids[k]].values) });
        k = k + 1;
    }
    out
}

fn path_counterexample(initial: usize, graph: &ModelGraph, target: &Vec<bool>) -> (r: (Vec<usize>, Counterexample))
    requires
        graph_wf(*graph),
        initial < graph.states@.len(),
        target@.len() == graph.states@.len(),
    ensures
        is_path(*graph, r.0@),
        r.0@[0] == initial,
        reaches_target(*graph, initial, r.0@, target@),
        r.1.cycle_start is None,
        path_states(*graph, r.0@, r.1.states@),
{
    let ids = match shortest_path(initial, graph, target) {
        Some(p) => p,
        None => {
            let v = vec![initial];
            assert(v@ == seq![initial]);
            assert(is_path(*graph, v@));
            assert(!target@[v@[0] as int]);
            v
        },
    };
    let states = states_of(graph, &ids);
    (ids, Counterexample { states, cycle_start: None })
}

/// The trace explaining why `expr`, whose set is `set`, fails at `initial`.
fn counterexample(initial: usize, expr: &Expr, graph: &ModelGraph, set: &Vec<bool>) -> (r: Result<Counterexample>)
    requires
        graph_wf(*graph),
        initial < graph.states@.len(),
        sat(*graph, *expr) == Some(set@),
        set@.len() == graph.states@.len(),
    ensures
        r matches Ok(c) ==> counterexample_for(*graph, *expr, initial, c),
        r is Ok,
{
    let ghost g = *graph;
    match expr {
        Expr::Unary { op: UnaryOp::Always, expr: inner } => {
            let inner_set = sat_set(inner, graph)?;
            let target = complement_set(&inner_set);
            let (ids, c) = path_counterexample(initial, graph, &target);
            assert(cex_shape(g, *expr, initial, ids@, c.cycle_start));
            Ok(c)
        },
        Expr::Unary { op: UnaryOp::Eventually, expr: inner } => {
            let inner_set = sat_set(inner, graph)?;
            let (ids, cycle) = lasso_avoiding(initial, graph, &inner_set);
            let states = states_of(graph, &ids);
            let c = Counterexample { states, cycle_start: cycle };
            assert(cex_shape(g, *expr, initial, ids@, c.cycle_start));
            Ok(c)
        },
        Expr::Binary { op: BinaryOp::Until, rhs, .. } => {
            let rhs_set = sat_set(rhs, graph)?;
            let (ids, cycle) = lasso_avoiding(initial, graph, &rhs_set);
            let states = states_of(graph, &ids);
            let c = Counterexample { states, cycle_start: cycle };
            assert(cex_shape(g, *expr, initial, ids@, c.cycle_start));
            Ok(c)
        },
        _ => {
            let target = complement_set(set);
            let (ids, c) = path_counterexample(initial, graph, &target);
            assert(cex_shape(g, *expr, initial, ids@, c.cycle_start));
            Ok(c)
        },
    }
}

fn first_failing_initial(graph: &ModelGraph, set: &Vec<bool>) -> (r: Option<usize>)
    requires
        graph_wf(*graph),
        set@.len() == graph.states@.len(),
    ensures
        r matches Some(k) ==> first_failing(*graph, set@, k as int),
        r is None ==> all_initial_in(*graph, set@),
{
    let mut k: usize = 0;
    while k < graph.initial_states.len()
        invariant
            graph_wf(*graph),
            set@.len() == graph.states@.len(),
            k <= graph.initial_states@.len(),
            forall|m: int| 0 <= m < k ==> set@[#[trigger] graph.initial_states@[m] as int],
        decreases graph.initial_states@.len() - k,
    {
        if !set[graph.initial_states[k]] {
            return Some(k);
        }
        k = k + 1;
    }
    None
}

/// Checks every property block of `file` against the graph built from it.
pub fn check_properties(file: &SourceFile, graph: &ModelGraph) -> (r: Result<CheckReport>)
    requires
        graph_wf(*graph),
    ensures
        r matches Ok(rep) ==> report_for(*graph, property_blocks(file.items@), rep),
        (forall|k: int| 0 <= k < property_blocks(file.items@).len()
            ==> sat(*graph, (#[trigger] property_blocks(file.items@)[k]).expr) is Some) ==> r is Ok,
        r is Err ==> is_model_err(r),
{
    let ghost g = *graph;
    let items = &file.items;
    let mut results: Vec<PropertyResult> = Vec::new();
    let mut any_fail = false;
    let mut i: usize = 0;
    while i < items.len()
        invariant
            graph_wf(*graph),
            g == *graph,
            items@ == file.items@,
            i <= items@.len(),
            results@.len() == property_blocks(items@.take(i as int)).len(),
            forall|k: int| 0 <= k < results@.len()
                ==> #[trigger] result_for(g, property_blocks(items@.take(i as int))[k], results@[k]),
            any_fail == exists|k: int| 0 <= k < results@.len() && (#[trigger] results@[k]).status == CheckStatus::Fail,
        decreases items@.len() - i,
    {
        proof {
            assert(items@.take(i as int + 1).drop_last() == items@.take(i as int));
            assert(items@.take(i as int + 1).last() == items@[i as int]);
            lemma_props_prefix(items@, i as int + 1);
        }
        if let Item::Property(property) = &items[i] {
            let ghost pos = results@.len() as int;
            proof {
                assert(property_blocks(items@.take(i as int + 1)) == property_blocks(items@.take(i as int)).push(*property));
                assert(property_blocks(items@.take(i as int + 1))[pos] == *property);
                assert(property_blocks(items@)[pos] == *property);
            }
            let set = match sat_set(&property.expr, graph) {
                Ok(set) => set,
                Err(e) => {
                    proof {
                        assert(sat(g, property.expr) is None);
                        assert(sat(g, property_blocks(items@)[pos].expr) is None);
                    }
                    return Err(e);
                },
            };
            let failing = first_failing_initial(graph, &set);
            let (status, counterexample) = match (property.kind, failing) {
                (PropertyKind::Property, None) => (CheckStatus::Pass, None),
                (PropertyKind::Property, Some(k)) => {
                    let initial = graph.initial_states[k];
                    let c = counterexample(initial, &property.expr, graph, &set)?;
                    (CheckStatus::Fail, Some(c))
                },
                (PropertyKind::Invalid, Some(_)) => (CheckStatus::Pass, None),
                (PropertyKind::Invalid, None) => (CheckStatus::Fail, None),
            };
            let result = PropertyResult {
                name: property.name.clone(),
                kind: property.kind,
                status,
                counterexample,
                note: None,
            };
            proof {
                assert(result_for(g, *property, result));
            }
            let ghost old_results = results@;
            if status == CheckStatus::Fail {
                any_fail = true;
            }
            results.push(result);
            proof {
                assert forall|k: int| 0 <= k < results@.len()
                    implies #[trigger] result_for(g, property_blocks(items@.take(i as int + 1))[k], results@[k]) by {
                    if k < old_results.len() {
                        assert(results@[k] == old_results[k]);
                        assert(property_blocks(items@.take(i as int + 1))[k] == property_blocks(items@.take(i as int))[k]);
                    }
                }
                if any_fail {
                    if status == CheckStatus::Fail {
                        assert(results@[old_results.len() as int].status == CheckStatus::Fail);
                    } else {
                        let k = choose|k: int| 0 <= k < old_results.len() && (#[trigger] old_results[k]).status == CheckStatus::Fail;
                        assert(results@[k] == old_results[k]);
                    }
                } else {
                    assert forall|k: int| 0 <= k < results@.len() implies (#[trigger] results@[k]).status != CheckStatus::Fail by {
                        if k < old_results.len() {
                            assert(results@[k] == old_results[k]);
                        }
                    }
                }
            }
        } else {
            proof {
                assert(property_blocks(items@.take(i as int + 1)) == property_blocks(items@.take(i as int)));
            }
        }
        i = i + 1;
    }
    proof {
        assert(items@.take(items@.len() as int) == items@);
    }
    let status = if any_fail { CheckStatus::Fail } else { CheckStatus::Pass };
    Ok(CheckReport { status, properties: results })
}

} // verus!
