//! Sets of graph states, held as one flag per state, and the fixpoints the
//! temporal operators are defined by.

use vstd::prelude::*;

use crate::model::graph::ModelGraph;

verus! {

/// The number of states in the set.
pub open spec fn count_true(x: Seq<bool>) -> nat
    decreases x.len(),
{
    if x.len() == 0 {
        0
    } else {
        count_true(x.drop_last()) + if x.last() { 1nat } else { 0nat }
    }
}

pub proof fn lemma_count_bounded(x: Seq<bool>)
    ensures
        count_true(x) <= x.len(),
    decreases x.len(),
{
    if x.len() > 0 {
        lemma_count_bounded(x.drop_last());
    }
}

pub proof fn lemma_count_add(x: Seq<bool>, i: int)
    requires
        0 <= i < x.len(),
        !x[i],
    ensures
        count_true(x.update(i, true)) == count_true(x) + 1,
    decreases x.len(),
{
    let y = x.update(i, true);
    if i == x.len() - 1 {
        assert(y.drop_last() == x.drop_last());
    } else {
        assert(y.drop_last() == x.drop_last().update(i, true));
        lemma_count_add(x.drop_last(), i);
    }
}

/// Every state of `a` is in `b`.
pub open spec fn subset(a: Seq<bool>, b: Seq<bool>) -> bool {
    forall|s: int| 0 <= s < a.len() && #[trigger] a[s] ==> b[s]
}

pub proof fn lemma_count_subset(a: Seq<bool>, b: Seq<bool>, w: int)
    requires
        a.len() == b.len(),
        subset(a, b),
        0 <= w < a.len(),
        b[w] && !a[w],
    ensures
        count_true(a) < count_true(b),
    decreases a.len(),
{
    if w == a.len() - 1 {
        lemma_count_subset_le(a.drop_last(), b.drop_last());
    } else {
        lemma_count_subset(a.drop_last(), b.drop_last(), w);
    }
}

pub proof fn lemma_count_subset_le(a: Seq<bool>, b: Seq<bool>)
    requires
        a.len() == b.len(),
        subset(a, b),
    ensures
        count_true(a) <= count_true(b),
    decreases a.len(),
{
    if a.len() > 0 {
        lemma_count_subset_le(a.drop_last(), b.drop_last());
    }
}

/// Every successor of state `s` is in `x`.
pub open spec fn succ_in(g: ModelGraph, x: Seq<bool>, s: int) -> bool {
    forall|j: int| 0 <= j < g.edges@[s]@.len() ==> x[#[trigger] g.edges@[s]@[j] as int]
}

/// `y` is a set of states where `base` holds and which every successor
/// stays in: an invariant set inside `base`.
pub open spec fn stays_in(g: ModelGraph, base: Seq<bool>, y: Seq<bool>) -> bool {
    &&& y.len() == g.states@.len()
    &&& forall|s: int| 0 <= s < y.len() && #[trigger] y[s] ==> base[s] && succ_in(g, y, s)
}

/// `x` is the greatest fixpoint of `x = base ∧ ◯x`: the states from which
/// every path stays in `base` for ever.
pub open spec fn is_always_set(g: ModelGraph, base: Seq<bool>, x: Seq<bool>) -> bool {
    &&& x.len() == g.states@.len()
    &&& forall|s: int| 0 <= s < x.len() ==> (#[trigger] x[s] <==> base[s] && succ_in(g, x, s))
    &&& forall|y: Seq<bool>| #[trigger] stays_in(g, base, y) ==> subset(y, x)
}

/// `y` contains `rhs`, and every `lhs` state whose successors are all in `y`.
pub open spec fn closed_until(g: ModelGraph, lhs: Seq<bool>, rhs: Seq<bool>, y: Seq<bool>) -> bool {
    &&& y.len() == g.states@.len()
    &&& forall|s: int| 0 <= s < y.len() && (rhs[s] || (lhs[s] && succ_in(g, y, s))) ==> #[trigger] y[s]
}

/// `x` is the least fixpoint of `x = rhs ∨ (lhs ∧ ◯x)`: the states from
/// which every path reaches `rhs`, through `lhs` states until then.
pub open spec fn is_until_set(g: ModelGraph, lhs: Seq<bool>, rhs: Seq<bool>, x: Seq<bool>) -> bool {
    &&& x.len() == g.states@.len()
    &&& forall|s: int| 0 <= s < x.len() ==> (#[trigger] x[s] <==> rhs[s] || (lhs[s] && succ_in(g, x, s)))
    &&& forall|y: Seq<bool>| #[trigger] closed_until(g, lhs, rhs, y) ==> subset(x, y)
}

/// The set `□ base` denotes.
pub open spec fn always_of(g: ModelGraph, base: Seq<bool>) -> Seq<bool> {
    choose|x: Seq<bool>| is_always_set(g, base, x)
}

/// The set `lhs 𝒰 rhs` denotes.
pub open spec fn until_of(g: ModelGraph, lhs: Seq<bool>, rhs: Seq<bool>) -> Seq<bool> {
    choose|x: Seq<bool>| is_until_set(g, lhs, rhs, x)
}

/// The set `◯ a` denotes: the states all of whose successors are in `a`.
pub open spec fn next_of(g: ModelGraph, a: Seq<bool>) -> Seq<bool> {
    Seq::new(g.states@.len(), |s: int| succ_in(g, a, s))
}

/// Every state.
pub open spec fn full_set(n: nat) -> Seq<bool> {
    Seq::new(n, |s: int| true)
}

/// The greatest fixpoint is unique, so it is what `always_of` picks.
pub proof fn lemma_always_unique(g: ModelGraph, base: Seq<bool>, x: Seq<bool>)
    requires
        is_always_set(g, base, x),
    ensures
        always_of(g, base) == x,
{
    let y = always_of(g, base);
    assert(is_always_set(g, base, y));
    assert(stays_in(g, base, x));
    assert(stays_in(g, base, y));
    assert(subset(x, y));
    assert(subset(y, x));
    assert(y =~= x);
}

/// The least fixpoint is unique, so it is what `until_of` picks.
pub proof fn lemma_until_unique(g: ModelGraph, lhs: Seq<bool>, rhs: Seq<bool>, x: Seq<bool>)
    requires
        is_until_set(g, lhs, rhs, x),
    ensures
        until_of(g, lhs, rhs) == x,
{
    let y = until_of(g, lhs, rhs);
    assert(is_until_set(g, lhs, rhs, y));
    assert(closed_until(g, lhs, rhs, x));
    assert(closed_until(g, lhs, rhs, y));
    assert(subset(x, y));
    assert(subset(y, x));
    assert(y =~= x);
}

} // verus!
