//! What the explicit-state checker's answers mean, stated over the sets
//! formulas denote.

use vstd::prelude::*;

use crate::checker::ltl::{
    all_initial_in, complement, is_path, lemma_path_stays, report_for, result_for, sat, state_sat, CheckReport,
    CheckStatus, PropertyResult,
};
use crate::checker::sets::{
    always_of, closed_until, is_always_set, is_until_set, lemma_always_unique, lemma_until_unique, stays_in,
    subset, succ_in, until_of,
};
use crate::model::eval::spec_eval;
use crate::model::graph::{graph_wf, ModelGraph};
use crate::model::state::Value;
use crate::syntax::ast::{BinaryOp, Expr, PropertyBlock, PropertyKind, UnaryOp};

verus! {

/// Every path of the graph that starts at `s` stays in `base`.
pub open spec fn every_path_stays(g: ModelGraph, s: int, base: Seq<bool>) -> bool {
    forall|ids: Seq<usize>| #[trigger] is_path(g, ids) && ids[0] == s
        ==> forall|k: int| 0 <= k < ids.len() ==> base[#[trigger] ids[k] as int]
}

/// Every path from an initial state stays in `base`: `base` holds in every
/// reachable state.
pub open spec fn invariant_holds(g: ModelGraph, base: Seq<bool>) -> bool {
    forall|k: int| 0 <= k < g.initial_states@.len() ==> every_path_stays(g, #[trigger] g.initial_states@[k] as int, base)
}

proof fn lemma_path_prepend(g: ModelGraph, s: usize, ids: Seq<usize>)
    requires
        graph_wf(g),
        (s as int) < g.states@.len(),
        is_path(g, ids),
        g.edges@[s as int]@.contains(ids[0]),
    ensures
        is_path(g, seq![s] + ids),
        (seq![s] + ids)[0] == s,
        forall|k: int| 0 <= k < ids.len() ==> (seq![s] + ids)[k + 1] == ids[k],
{
    let p = seq![s] + ids;
    assert forall|k: int| 0 <= k < p.len() - 1 implies #[trigger] g.edges@[p[k] as int]@.contains(p[k + 1]) by {
        if k > 0 {
            assert(p[k] == ids[k - 1]);
            assert(p[k + 1] == ids[k]);
            assert(g.edges@[ids[k - 1] as int]@.contains(ids[(k - 1) + 1]));
        }
    }
    assert forall|k: int| 0 <= k < p.len() implies (#[trigger] p[k]) < g.states@.len() by {
        if k > 0 {
            assert(p[k] == ids[k - 1]);
        }
    }
}

proof fn lemma_path_tail(g: ModelGraph, ids: Seq<usize>)
    requires
        is_path(g, ids),
        ids.len() > 1,
    ensures
        is_path(g, ids.drop_first()),
        g.edges@[ids[0] as int]@.contains(ids.drop_first()[0]),
{
    let t = ids.drop_first();
    assert forall|k: int| 0 <= k < t.len() - 1 implies #[trigger] g.edges@[t[k] as int]@.contains(t[k + 1]) by {
        assert(g.edges@[ids[k + 1] as int]@.contains(ids[(k + 1) + 1]));
    }
    assert forall|k: int| 0 <= k < t.len() implies (#[trigger] t[k]) < g.states@.len() by {
        assert(ids[k + 1] < g.states@.len());
    }
    assert(g.edges@[ids[0] as int]@.contains(ids[0int + 1]));
}

/// The set of states every path from which stays in `base` is the greatest
/// fixpoint `□ base` is defined by.
proof fn lemma_every_path_set(g: ModelGraph, base: Seq<bool>)
    requires
        graph_wf(g),
        base.len() == g.states@.len(),
    ensures
        is_always_set(g, base, Seq::new(g.states@.len(), |v: int| every_path_stays(g, v, base))),
{
    let n = g.states@.len();
    let y = Seq::new(n, |v: int| every_path_stays(g, v, base));
    assert(g.states.len() == n);
    assert forall|s: int| 0 <= s < y.len() implies (#[trigger] y[s] <==> base[s] && succ_in(g, y, s)) by {
        assert((s as usize) as int == s);
        if y[s] {
            let one = seq![s as usize];
            assert(every_path_stays(g, s, base));
            assert(is_path(g, one));
            assert(base[one[0] as int]);
            assert forall|j: int| 0 <= j < g.edges@[s]@.len() implies y[#[trigger] g.edges@[s]@[j] as int] by {
                let w = g.edges@[s]@[j];
                assert(w < n);
                assert forall|ids: Seq<usize>| #[trigger] is_path(g, ids) && ids[0] == w implies
                    forall|k: int| 0 <= k < ids.len() ==> base[#[trigger] ids[k] as int] by {
                    assert(g.edges@[s]@[j] == ids[0]);
                    assert(g.edges@[s]@.contains(ids[0]));
                    lemma_path_prepend(g, s as usize, ids);
                    let p = seq![s as usize] + ids;
                    assert(is_path(g, p) && p[0] == s);
                    assert forall|k: int| 0 <= k < ids.len() implies base[#[trigger] ids[k] as int] by {
                        assert(p[k + 1] == ids[k]);
                        assert(base[p[k + 1] as int]);
                    }
                }
            }
        }
        if base[s] && succ_in(g, y, s) {
            assert forall|ids: Seq<usize>| #[trigger] is_path(g, ids) && ids[0] == s implies
                forall|k: int| 0 <= k < ids.len() ==> base[#[trigger] ids[k] as int] by {
                assert forall|k: int| 0 <= k < ids.len() implies base[#[trigger] ids[k] as int] by {
                    if k > 0 {
                        lemma_path_tail(g, ids);
                        let t = ids.drop_first();
                        let w = t[0];
                        let e = g.edges@[s]@;
                        let j = choose|j: int| 0 <= j < e.len() && e[j] == w;
                        assert(y[e[j] as int]);
                        assert(every_path_stays(g, w as int, base));
                        assert(is_path(g, t) && t[0] == w);
                        assert(t[k - 1] == ids[k]);
                        assert(base[t[k - 1] as int]);
                    }
                }
            }
        }
    }
    assert forall|z: Seq<bool>| #[trigger] stays_in(g, base, z) implies subset(z, y) by {
        assert forall|v: int| 0 <= v < z.len() && #[trigger] z[v] implies y[v] by {
            assert forall|ids: Seq<usize>| #[trigger] is_path(g, ids) && ids[0] == v implies
                forall|k: int| 0 <= k < ids.len() ==> base[#[trigger] ids[k] as int] by {
                assert forall|k: int| 0 <= k < ids.len() implies base[#[trigger] ids[k] as int] by {
                    lemma_path_stays(g, ids, z, k);
                }
            }
        }
    }
}

/// `□` has a fixpoint on every set of the graph's size.
pub proof fn lemma_always_exists(g: ModelGraph, base: Seq<bool>)
    requires
        graph_wf(g),
        base.len() == g.states@.len(),
    ensures
        is_always_set(g, base, always_of(g, base)),
        always_of(g, base).len() == g.states@.len(),
{
    lemma_every_path_set(g, base);
    lemma_always_unique(g, base, Seq::new(g.states@.len(), |v: int| every_path_stays(g, v, base)));
}

/// `𝒰` has a least fixpoint on every pair of sets of the graph's size: the
/// states in every set closed under its rule.
pub proof fn lemma_until_exists(g: ModelGraph, lhs: Seq<bool>, rhs: Seq<bool>)
    requires
        graph_wf(g),
        lhs.len() == g.states@.len(),
        rhs.len() == g.states@.len(),
    ensures
        is_until_set(g, lhs, rhs, until_of(g, lhs, rhs)),
        until_of(g, lhs, rhs).len() == g.states@.len(),
{
    let n = g.states@.len();
    let y = Seq::new(n, |v: int| forall|z: Seq<bool>| #[trigger] closed_until(g, lhs, rhs, z) ==> z[v]);
    assert forall|z: Seq<bool>| #[trigger] closed_until(g, lhs, rhs, z) implies subset(y, z) by {
        assert forall|v: int| 0 <= v < y.len() && #[trigger] y[v] implies z[v] by {}
    }
    assert forall|s: int| 0 <= s < n && (rhs[s] || (lhs[s] && succ_in(g, y, s))) implies #[trigger] y[s] by {
        assert forall|z: Seq<bool>| #[trigger] closed_until(g, lhs, rhs, z) implies z[s] by {
            assert(subset(y, z));
            if !rhs[s] {
                assert forall|j: int| 0 <= j < g.edges@[s]@.len() implies z[#[trigger] g.edges@[s]@[j] as int] by {
                    let w = g.edges@[s]@[j] as int;
                    assert(y[w]);
                }
            }
        }
    }
    assert forall|s: int| 0 <= s < y.len() implies (#[trigger] y[s] <==> rhs[s] || (lhs[s] && succ_in(g, y, s))) by {
        if y[s] && !(rhs[s] || (lhs[s] && succ_in(g, y, s))) {
            let z = y.update(s, false);
            assert forall|v: int| 0 <= v < z.len() && (rhs[v] || (lhs[v] && succ_in(g, z, v))) implies #[trigger] z[v] by {
                if v != s {
                    if !rhs[v] {
                        assert forall|j: int| 0 <= j < g.edges@[v]@.len() implies y[#[trigger] g.edges@[v]@[j] as int] by {
                            let w = g.edges@[v]@[j] as int;
                            assert(z[w]);
                            assert(w < n);
                            if w != s {
                                assert(z[w] == y[w]);
                            }
                        }
                    }
                    assert(y[v]);
                } else {
                    assert forall|j: int| 0 <= j < g.edges@[s]@.len() implies y[#[trigger] g.edges@[s]@[j] as int] by {
                        let w = g.edges@[s]@[j] as int;
                        assert(z[w]);
                        assert(w < n);
                        if w != s {
                            assert(z[w] == y[w]);
                        }
                    }
                }
            }
            assert(closed_until(g, lhs, rhs, z));
            assert(z[s]);
        }
    }
    assert(is_until_set(g, lhs, rhs, y));
    lemma_until_unique(g, lhs, rhs, y);
}

/// Every set a formula denotes has one flag per state.
pub proof fn lemma_sat_len(g: ModelGraph, e: Expr)
    requires
        graph_wf(g),
    ensures
        sat(g, e) matches Some(x) ==> x.len() == g.states@.len(),
    decreases e,
{
    match e {
        Expr::Unary { op, expr } => {
            lemma_sat_len(g, *expr);
            if let Some(a) = sat(g, *expr) {
                match op {
                    UnaryOp::Always => lemma_always_exists(g, a),
                    UnaryOp::Eventually => lemma_until_exists(g, Seq::new(g.states@.len(), |s: int| true), a),
                    _ => {},
                }
            }
        },
        Expr::Binary { op, lhs, rhs } => {
            lemma_sat_len(g, *lhs);
            lemma_sat_len(g, *rhs);
            if let (Some(a), Some(b)) = (sat(g, *lhs), sat(g, *rhs)) {
                if op is Until {
                    lemma_until_exists(g, a, b);
                }
            }
        },
        _ => {},
    }
}

/// `□ φ` holds in a state exactly when `φ` holds all along every path from
/// it.
pub proof fn law_always_means_every_path(g: ModelGraph, phi: Expr, s: int)
    requires
        graph_wf(g),
        sat(g, phi) is Some,
        0 <= s < g.states@.len(),
    ensures
        sat(g, Expr::Unary { op: UnaryOp::Always, expr: Box::new(phi) }) matches Some(x)
            && (x[s] <==> every_path_stays(g, s, sat(g, phi)->Some_0)),
{
    let base = sat(g, phi)->Some_0;
    lemma_sat_len(g, phi);
    lemma_every_path_set(g, base);
    lemma_always_unique(g, base, Seq::new(g.states@.len(), |v: int| every_path_stays(g, v, base)));
}

/// A property `□ φ` passes exactly when `φ` holds in every reachable state:
/// all along every path from every initial state.
pub proof fn law_always_property_is_invariant(g: ModelGraph, p: PropertyBlock, phi: Expr, res: PropertyResult)
    requires
        graph_wf(g),
        p.kind == PropertyKind::Property,
        p.expr == (Expr::Unary { op: UnaryOp::Always, expr: Box::new(phi) }),
        result_for(g, p, res),
    ensures
        sat(g, phi) matches Some(base) && (res.status == CheckStatus::Pass <==> invariant_holds(g, base)),
{
    let base = sat(g, phi)->Some_0;
    let x = sat(g, p.expr)->Some_0;
    lemma_sat_len(g, phi);
    lemma_every_path_set(g, base);
    lemma_always_unique(g, base, Seq::new(g.states@.len(), |v: int| every_path_stays(g, v, base)));
    assert(x == Seq::new(g.states@.len(), |v: int| every_path_stays(g, v, base)));
    if all_initial_in(g, x) {
        assert forall|k: int| 0 <= k < g.initial_states@.len() implies every_path_stays(g, #[trigger] g.initial_states@[k] as int, base) by {
            assert(x[g.initial_states@[k] as int]);
        }
    } else {
        let k = choose|k: int| 0 <= k < g.initial_states@.len() && !x[#[trigger] g.initial_states@[k] as int];
        assert(!every_path_stays(g, g.initial_states@[k] as int, base));
    }
}

/// Negating a formula twice gives back what it denotes.
pub proof fn law_double_negation(g: ModelGraph, e: Expr)
    ensures
        sat(g, Expr::Unary { op: UnaryOp::Not, expr: Box::new(Expr::Unary { op: UnaryOp::Not, expr: Box::new(e) }) })
            == sat(g, e),
{
    reveal_with_fuel(sat, 3);
    if let Some(a) = sat(g, e) {
        assert(complement(complement(a)) =~= a);
    }
}

/// `φ ∨ ¬φ` holds in every state, whenever `φ` can be evaluated.
pub proof fn law_excluded_middle(g: ModelGraph, e: Expr)
    ensures
        sat(g, e) is Some ==> (sat(g, Expr::Binary {
            op: BinaryOp::Or,
            lhs: Box::new(e),
            rhs: Box::new(Expr::Unary { op: UnaryOp::Not, expr: Box::new(e) }),
        }) matches Some(x) && forall|s: int| 0 <= s < x.len() ==> #[trigger] x[s]),
{
    reveal_with_fuel(sat, 3);
}

/// The verdict on a property depends on that property alone: two reports
/// that check the same property, among any others, give it the same status.
pub proof fn law_verdict_independent_of_neighbors(
    g: ModelGraph,
    ps1: Seq<PropertyBlock>,
    ps2: Seq<PropertyBlock>,
    r1: CheckReport,
    r2: CheckReport,
    i: int,
    j: int,
)
    requires
        report_for(g, ps1, r1),
        report_for(g, ps2, r2),
        0 <= i < ps1.len(),
        0 <= j < ps2.len(),
        ps1[i] == ps2[j],
    ensures
        r1.properties@[i].status == r2.properties@[j].status,
        r1.properties@[i].name == r2.properties@[j].name,
{
    assert(result_for(g, ps1[i], r1.properties@[i]));
    assert(result_for(g, ps2[j], r2.properties@[j]));
}

/// An `invalid` block passes exactly when the same formula, checked as a
/// property, fails.
pub proof fn law_invalid_is_negated_property(g: ModelGraph, p: PropertyBlock, q: PropertyBlock, rp: PropertyResult, rq: PropertyResult)
    requires
        p.kind == PropertyKind::Property,
        q.kind == PropertyKind::Invalid,
        p.expr == q.expr,
        result_for(g, p, rp),
        result_for(g, q, rq),
    ensures
        rq.status == CheckStatus::Pass <==> rp.status == CheckStatus::Fail,
{
}

pub open spec fn iff_expr(phi: Expr, psi: Expr) -> Expr {
    Expr::Binary { op: BinaryOp::Iff, lhs: Box::new(phi), rhs: Box::new(psi) }
}

pub open spec fn implies_expr(phi: Expr, psi: Expr) -> Expr {
    Expr::Binary { op: BinaryOp::Implies, lhs: Box::new(phi), rhs: Box::new(psi) }
}

pub open spec fn and_expr(phi: Expr, psi: Expr) -> Expr {
    Expr::Binary { op: BinaryOp::And, lhs: Box::new(phi), rhs: Box::new(psi) }
}

/// `φ ↔ ψ` holds in exactly the states where `φ` and `ψ` agree. So the
/// biconditional is symmetric, and it denotes what `(φ → ψ) ∧ (ψ → φ)`
/// denotes.
pub proof fn law_iff_is_agreement(g: ModelGraph, phi: Expr, psi: Expr)
    requires
        graph_wf(g),
    ensures
        sat(g, iff_expr(phi, psi)) is Some <==> (sat(g, phi) is Some && sat(g, psi) is Some),
        sat(g, phi) matches Some(a) ==> (sat(g, psi) matches Some(b) ==> (sat(g, iff_expr(phi, psi)) matches Some(x)
            && x.len() == g.states@.len()
            && forall|s: int| 0 <= s < g.states@.len() ==> (#[trigger] x[s] <==> (a[s] == b[s])))),
        sat(g, iff_expr(phi, psi)) == sat(g, iff_expr(psi, phi)),
        sat(g, iff_expr(phi, psi)) == sat(g, and_expr(implies_expr(phi, psi), implies_expr(psi, phi))),
{
    lemma_sat_len(g, phi);
    lemma_sat_len(g, psi);
    reveal_with_fuel(sat, 3);
    if let (Some(a), Some(b)) = (sat(g, phi), sat(g, psi)) {
        let x = sat(g, iff_expr(phi, psi))->Some_0;
        let y = sat(g, iff_expr(psi, phi))->Some_0;
        let z = sat(g, and_expr(implies_expr(phi, psi), implies_expr(psi, phi)))->Some_0;
        assert(x =~= y);
        assert(x =~= z);
    }
}

pub open spec fn not_expr(phi: Expr) -> Expr {
    Expr::Unary { op: UnaryOp::Not, expr: Box::new(phi) }
}

pub open spec fn or_expr(phi: Expr, psi: Expr) -> Expr {
    Expr::Binary { op: BinaryOp::Or, lhs: Box::new(phi), rhs: Box::new(psi) }
}

/// `φ → ψ` denotes what `¬φ ∨ ψ` denotes.
pub proof fn law_implies_is_not_or(g: ModelGraph, phi: Expr, psi: Expr)
    requires
        graph_wf(g),
    ensures
        sat(g, implies_expr(phi, psi)) == sat(g, or_expr(not_expr(phi), psi)),
{
    lemma_sat_len(g, phi);
    lemma_sat_len(g, psi);
    reveal_with_fuel(sat, 3);
    if let (Some(a), Some(b)) = (sat(g, phi), sat(g, psi)) {
        assert(sat(g, implies_expr(phi, psi))->Some_0 =~= sat(g, or_expr(not_expr(phi), psi))->Some_0);
    }
}

/// `¬(φ ∧ ψ)` denotes what `¬φ ∨ ¬ψ` denotes.
pub proof fn law_de_morgan(g: ModelGraph, phi: Expr, psi: Expr)
    requires
        graph_wf(g),
    ensures
        sat(g, not_expr(and_expr(phi, psi))) == sat(g, or_expr(not_expr(phi), not_expr(psi))),
{
    lemma_sat_len(g, phi);
    lemma_sat_len(g, psi);
    reveal_with_fuel(sat, 3);
    if let (Some(a), Some(b)) = (sat(g, phi), sat(g, psi)) {
        assert(sat(g, not_expr(and_expr(phi, psi)))->Some_0 =~= sat(g, or_expr(not_expr(phi), not_expr(psi)))->Some_0);
    }
}

/// On state formulas the checker and the evaluator agree about the boolean
/// connectives `∧`, `∨`, `→` and `↔`: where both operands denote the states
/// the evaluator finds them true in, so does the compound formula.
pub proof fn law_connectives_agree_with_evaluator(g: ModelGraph, op: BinaryOp, phi: Expr, psi: Expr)
    requires
        graph_wf(g),
        op is And || op is Or || op is Implies || op is Iff,
        state_sat(g, phi) is Some,
        state_sat(g, psi) is Some,
        sat(g, phi) == state_sat(g, phi),
        sat(g, psi) == state_sat(g, psi),
    ensures
        state_sat(g, Expr::Binary { op, lhs: Box::new(phi), rhs: Box::new(psi) }) is Some,
        sat(g, Expr::Binary { op, lhs: Box::new(phi), rhs: Box::new(psi) })
            == state_sat(g, Expr::Binary { op, lhs: Box::new(phi), rhs: Box::new(psi) }),
{
    let e = Expr::Binary { op, lhs: Box::new(phi), rhs: Box::new(psi) };
    assert forall|s: int| 0 <= s < g.states@.len()
        implies spec_eval(e, g.env@, Some(#[trigger] g.states@[s].values@), None) matches Some(Value::Bool(_)) by {
        assert(spec_eval(phi, g.env@, Some(g.states@[s].values@), None) matches Some(Value::Bool(_)));
        assert(spec_eval(psi, g.env@, Some(g.states@[s].values@), None) matches Some(Value::Bool(_)));
    }
    let a = state_sat(g, phi)->Some_0;
    let b = state_sat(g, psi)->Some_0;
    let x = state_sat(g, e)->Some_0;
    lemma_sat_len(g, phi);
    lemma_sat_len(g, psi);
    let y = sat(g, e)->Some_0;
    assert forall|s: int| 0 <= s < g.states@.len() implies y[s] == x[s] by {
        assert(spec_eval(phi, g.env@, Some(g.states@[s].values@), None) matches Some(Value::Bool(_)));
        assert(spec_eval(psi, g.env@, Some(g.states@[s].values@), None) matches Some(Value::Bool(_)));
    }
    assert(y =~= x);
}

} // verus!
