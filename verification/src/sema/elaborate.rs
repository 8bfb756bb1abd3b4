//! Elaboration: rewrites the surface syntax into the core syntax that type
//! checking and both checking engines understand, by expansion over finite
//! domains.
//!
//! * `unchanged(x, y except i, ...)` becomes a conjunction of `v' = v`.
//! * `transition t(p ∈ D) { ... }` becomes one transition per parameter
//!   tuple, named like `t(a, b)`, with the parameters substituted.
//! * `let v[i ∈ D] ∈ E` becomes one variable per index value, named like
//!   `v[a]`, and `v[a]` / `v[a]'` refer to it.
//! * `∀ x ∈ D: P` / `∃ x ∈ D: P` become a conjunction / disjunction over `D`.

use vstd::prelude::*;

use crate::diagnostics::{concat_strs, concat_views, i64_text, int_text, is_model_err, is_semantic_err, CaelumError, Result};
use crate::model::eval::{eval_expr, find_key, lookup, spec_eval, EvalEnv};
use crate::model::state::Value;
use crate::syntax::printer::join;
use crate::syntax::ast::{
    clone_bound, clone_domain, clone_expr, clone_strings, domain_eq, expr_eq, is_core_expr, BinaryOp,
    ConstDecl, Domain, DomainBound, Expr, FairnessConstraint, FairnessDecl, InitBlock, Item,
    FairnessStrength, PropertyBlock, QuantKind, SourceFile, TransitionBlock, TransitionParam, TypeDecl,
    UnchangedTarget, VarDecl,
};

verus! {

/// A concrete element of a finite domain.
#[derive(Debug, Clone)]
pub enum Elem {
    Bool(bool),
    Int(i64),
    Enum(String),
}

pub open spec fn elem_eq(a: Elem, b: Elem) -> bool {
    match (a, b) {
        (Elem::Bool(x), Elem::Bool(y)) => x == y,
        (Elem::Int(x), Elem::Int(y)) => x == y,
        (Elem::Enum(x), Elem::Enum(y)) => x@ == y@,
        _ => false,
    }
}

/// The bindings of a transition's parameters to the values of a tuple, the
/// last parameter first.
pub open spec fn param_bindings(ps: Seq<TransitionParam>, row: Seq<Elem>) -> Seq<(String, Elem)> {
    Seq::new(ps.len(), |i: int| (ps[ps.len() - 1 - i].name, row[ps.len() - 1 - i]))
}

/// The text of each string.
pub open spec fn string_views(ls: Seq<String>) -> Seq<Seq<char>> {
    ls.map_values(|l: String| l@)
}

/// How each element is written.
pub open spec fn elem_labels(row: Seq<Elem>) -> Seq<Seq<char>> {
    row.map_values(|e: Elem| elem_label(e))
}

/// The name of a transition's instance for a tuple, like `t(a, b)`.
pub open spec fn instance_text(base: Seq<char>, row: Seq<Elem>) -> Seq<char> {
    base + "("@ + join(elem_labels(row), ", "@) + ")"@
}

/// `o` is the instance of transition `b` for the tuple `row`.
pub open spec fn instance_of(b: TransitionBlock, row: Seq<Elem>, o: TransitionBlock) -> bool {
    &&& row.len() == b.params@.len()
    &&& o.params@.len() == 0
    &&& o.span == b.span
    &&& o.name@ == instance_text(b.name@, row)
    &&& elab_rel(b.expr, param_bindings(b.params@, row), o.expr)
}

/// `x` is one cell of the indexed variable `d`: a plain variable of the same
/// domain named after `d` and an element.
pub open spec fn cell_of(d: VarDecl, el: Elem, x: Item) -> bool {
    x matches Item::Var(v) && v.index is None && domain_eq(v.domain, d.domain) && v.span == d.span
        && v.name@ == cell_name(d.name@, el)
}

/// Every parameter's domain is written out.
pub open spec fn all_plain(ps: Seq<TransitionParam>) -> bool {
    forall|i: int| 0 <= i < ps.len() ==> (#[trigger] plain_elems(ps[i].domain)) is Some
}

/// The elements of each parameter's domain, where every one is written out.
pub open spec fn plains(ps: Seq<TransitionParam>) -> Seq<Seq<Elem>> {
    Seq::new(ps.len(), |i: int| plain_elems(ps[i].domain)->Some_0)
}

/// `x` is the instance of transition `b` for the tuple `row`.
pub open spec fn instance_at(b: TransitionBlock, row: Seq<Elem>, x: Item) -> bool {
    x matches Item::Transition(o) && instance_of(b, row, o)
}

/// `x` is a cell of the indexed variable `d`.
pub open spec fn some_cell(d: VarDecl, x: Item) -> bool {
    exists|el: Elem| #[trigger] cell_of(d, el, x)
}

/// `x` is an instance of transition `b`.
pub open spec fn some_instance(b: TransitionBlock, x: Item) -> bool {
    x matches Item::Transition(o) && exists|row: Seq<Elem>| #[trigger] instance_of(b, row, o)
}

/// `seg` is what elaboration makes of `item`: a type or constant stays as it
/// is; a plain variable stays, an indexed one becomes one cell per element
/// of its index domain (those elements, in order, where the domain is
/// written out); `init` and properties keep their names and get their
/// expressions elaborated; a transition without parameters keeps its name,
/// one with parameters becomes instances for tuples of its parameters'
/// values (one per tuple, in row-major order, where the domains are written
/// out); a fairness block stays one block.
pub open spec fn item_rel(item: Item, seg: Seq<Item>) -> bool {
    match item {
        Item::TypeDecl(_) | Item::Const(_) => seg.len() == 1 && item_same(seg[0], item),
        Item::Var(d) => match d.index {
            None => seg.len() == 1 && item_same(seg[0], item),
            Some(p) => {
                &&& forall|j: int| 0 <= j < seg.len() ==> #[trigger] some_cell(d, seg[j])
                &&& plain_elems(p.domain) matches Some(xs) ==> (seg.len() == xs.len()
                    && forall|j: int| 0 <= j < seg.len() ==> #[trigger] cell_of(d, xs[j], seg[j]))
            },
        },
        Item::Init(b) => seg.len() == 1 && (seg[0] matches Item::Init(o) && o.span == b.span
            && elab_rel(b.expr, Seq::empty(), o.expr)),
        Item::Property(b) => seg.len() == 1 && (seg[0] matches Item::Property(o) && o.kind == b.kind
            && o.name == b.name && o.span == b.span && elab_rel(b.expr, Seq::empty(), o.expr)),
        Item::Transition(b) => if b.params@.len() == 0 {
            seg.len() == 1 && (seg[0] matches Item::Transition(o) && o.name == b.name && o.params@.len() == 0
                && o.span == b.span && elab_rel(b.expr, Seq::empty(), o.expr))
        } else {
            &&& forall|j: int| 0 <= j < seg.len() ==> #[trigger] some_instance(b, seg[j])
            &&& all_plain(b.params@) ==> (seg.len() == product(plains(b.params@)).len()
                && forall|j: int| 0 <= j < seg.len() ==> #[trigger] instance_at(b, product(plains(b.params@))[j], seg[j]))
        },
        Item::Fairness(d) => seg.len() == 1 && (seg[0] matches Item::Fairness(o) && o.span == d.span),
    }
}

/// `out` is the items of `items` elaborated one after another: `segs[k]` is
/// what item `k` became.
pub open spec fn expansions(items: Seq<Item>, segs: Seq<Seq<Item>>, out: Seq<Item>) -> bool {
    &&& segs.len() == items.len()
    &&& out == segs.flatten()
    &&& forall|k: int| 0 <= k < items.len() ==> #[trigger] item_rel(items[k], segs[k])
}

/// The literal expression an element stands for.
pub open spec fn elem_expr(el: Elem) -> Expr {
    match el {
        Elem::Bool(b) => Expr::Bool(b),
        Elem::Int(i) => Expr::Int(i),
        Elem::Enum(v) => Expr::Name(v),
    }
}

/// How an element is written in generated names.
pub open spec fn elem_label(el: Elem) -> Seq<char> {
    match el {
        Elem::Bool(b) => if b { "true"@ } else { "false"@ },
        Elem::Int(i) => int_text(i as int),
        Elem::Enum(v) => v@,
    }
}

/// The name of the cell of indexed variable `base` at `el`, like `v[a]`.
pub open spec fn cell_name(base: Seq<char>, el: Elem) -> Seq<char> {
    base + "["@ + elem_label(el) + "]"@
}

/// The elements of a domain that needs no declaration to be read: `false`
/// then `true`, the variants in order, or the integers of a range given by
/// literals, in increasing order.
pub open spec fn plain_elems(d: Domain) -> Option<Seq<Elem>> {
    match d {
        Domain::Bool => Some(seq![Elem::Bool(false), Elem::Bool(true)]),
        Domain::Enum { variants } => Some(variants@.map_values(|v: String| Elem::Enum(v))),
        Domain::IntRange { start: DomainBound::Int(a), end: DomainBound::Int(b) } => if a <= b {
            Some(Seq::new((b - a + 1) as nat, |k: int| Elem::Int((a + k) as i64)))
        } else {
            None
        },
        _ => None,
    }
}

/// What an elaborated index can be read as: a literal is its element; a name
/// (a constant or an enum variant) is some element.
pub open spec fn index_elem(ix: Expr, el: Elem) -> bool {
    match ix {
        Expr::Int(v) => el == Elem::Int(v),
        Expr::Bool(v) => el == Elem::Bool(v),
        Expr::Name(_) => true,
        _ => false,
    }
}

/// `out` reads the cell of `base` at `el`, in the next state when `primed`.
pub open spec fn cell_ref(base: Seq<char>, el: Elem, primed: bool, out: Expr) -> bool {
    if primed {
        out matches Expr::PrimedName(s) && s@ == cell_name(base, el)
    } else {
        out matches Expr::Name(s) && s@ == cell_name(base, el)
    }
}

/// A state variable that an `unchanged` target stands for: the variable it
/// names, or a cell of it.
pub open spec fn target_covers(t: UnchangedTarget, n: Seq<char>) -> bool {
    n == t.name@ || exists|el: Elem| n == #[trigger] cell_name(t.name@, el)
}

/// The frame condition `n' = n`.
pub open spec fn frame_of(e: Expr) -> Option<Seq<char>> {
    match e {
        Expr::Binary { op: BinaryOp::Eq, lhs, rhs } => match (*lhs, *rhs) {
            (Expr::PrimedName(x), Expr::Name(y)) => if x@ == y@ { Some(x@) } else { None },
            _ => None,
        },
        _ => None,
    }
}

/// `terms` are frame conditions on distinct variables, each one that some
/// target of `ts` stands for.
pub open spec fn frames_for(ts: Seq<UnchangedTarget>, terms: Seq<Expr>) -> bool {
    &&& forall|i: int| 0 <= i < terms.len() ==> ((#[trigger] frame_of(terms[i])) matches Some(n) && covered(ts, n))
    &&& forall|i: int, j: int| 0 <= i < j < terms.len() ==> #[trigger] frame_of(terms[i]) != #[trigger] frame_of(terms[j])
}

/// The cells of indexed variable `n` at the elements `els`, leaving out the
/// excepted element, in order.
spec fn cells_of(n: Seq<char>, els: Seq<Elem>, exc: Option<Elem>) -> Seq<Seq<char>>
    decreases els.len(),
{
    if els.len() == 0 {
        Seq::empty()
    } else {
        let rest = cells_of(n, els.drop_last(), exc);
        if exc matches Some(x) && elem_eq(x, els.last()) {
            rest
        } else {
            rest.push(cell_name(n, els.last()))
        }
    }
}

/// The names in order, each kept only where it first occurs.
spec fn first_seen(s: Seq<Seq<char>>) -> Seq<Seq<char>>
    decreases s.len(),
{
    if s.len() == 0 {
        Seq::empty()
    } else {
        let rest = first_seen(s.drop_last());
        if rest.contains(s.last()) {
            rest
        } else {
            rest.push(s.last())
        }
    }
}

/// The lists joined one after another.
spec fn concat_lists(ls: Seq<Seq<Seq<char>>>) -> Seq<Seq<char>>
    decreases ls.len(),
{
    if ls.len() == 0 {
        Seq::empty()
    } else {
        concat_lists(ls.drop_last()) + ls.last()
    }
}

/// Each term is the frame condition of the name at its position.
spec fn frames_named(terms: Seq<Expr>, ns: Seq<Seq<char>>) -> bool {
    terms.len() == ns.len() && forall|i: int| 0 <= i < terms.len() ==> #[trigger] frame_of(terms[i]) == Some(ns[i])
}

/// Some target of `ts` stands for variable `n`.
pub open spec fn covered(ts: Seq<UnchangedTarget>, n: Seq<char>) -> bool {
    exists|k: int| 0 <= k < ts.len() && #[trigger] target_covers(ts[k], n)
}

/// One term per element.
pub open spec fn one_term_each(els: Seq<Elem>, terms: Seq<Expr>) -> bool {
    terms.len() == els.len()
}

/// One term per element: the body elaborated with `var` bound to it.
pub open spec fn terms_rel(body: Expr, var: String, els: Seq<Elem>, b: Seq<(String, Elem)>, terms: Seq<Expr>) -> bool
    decreases body, els.len() + 1,
{
    &&& terms.len() == els.len()
    &&& els.len() > 0 ==> terms_rel(body, var, els.drop_last(), b, terms.drop_last())
        && elab_rel(body, seq![(var, els.last())] + b, terms.last())
}

pub open spec fn quant_op(kind: QuantKind) -> BinaryOp {
    match kind {
        QuantKind::Forall => BinaryOp::And,
        QuantKind::Exists => BinaryOp::Or,
    }
}

pub open spec fn quant_empty(kind: QuantKind) -> Expr {
    match kind {
        QuantKind::Forall => Expr::Bool(true),
        QuantKind::Exists => Expr::Bool(false),
    }
}

/// `out` is an elaboration of `e` with `b` binding transition parameters and
/// quantified variables (the first binding of a name wins): a bound name
/// becomes its element's literal, a primed name must not be bound, an
/// indexed reference becomes the name of the cell its index selects, every
/// `unchanged` a conjunction of frame conditions on the variables its
/// targets stand for, a quantifier the conjunction (`∀`) or disjunction
/// (`∃`) of its body elaborated once per element of its domain (the
/// elements themselves where the domain is written out), and every other
/// operator keeps its shape.
pub open spec fn elab_rel(e: Expr, b: Seq<(String, Elem)>, out: Expr) -> bool
    decreases e, 0nat,
{
    match e {
        Expr::Bool(_) | Expr::Int(_) => out == e,
        Expr::Name(n) => out == match lookup(b, n@) {
            Some(el) => elem_expr(el),
            None => e,
        },
        Expr::PrimedName(n) => lookup(b, n@) is None && out == e,
        Expr::Indexed { name, index, primed } => exists|ix: Expr, el: Elem|
            #![trigger index_elem(ix, el), cell_ref(name@, el, primed, out)]
            elab_rel(*index, b, ix) && index_elem(ix, el) && cell_ref(name@, el, primed, out),
        Expr::Unchanged(ts) => exists|terms: Seq<Expr>| #[trigger] frames_for(ts@, terms)
            && out == fold_spec(terms, BinaryOp::And, Expr::Bool(true)),
        Expr::Quantifier { kind, var, domain, body } => exists|els: Seq<Elem>, terms: Seq<Expr>|
            #[trigger] one_term_each(els, terms) && terms_rel(*body, var, els, b, terms)
            && (plain_elems(domain) matches Some(xs) ==> els == xs)
            && out == fold_spec(terms, quant_op(kind), quant_empty(kind)),
        Expr::Unary { op, expr } => out matches Expr::Unary { op: o, expr: x } && o == op && elab_rel(*expr, b, *x),
        Expr::Binary { op, lhs, rhs } => out matches Expr::Binary { op: o, lhs: l, rhs: r } && o == op
            && elab_rel(*lhs, b, *l) && elab_rel(*rhs, b, *r),
    }
}

fn same_elem(a: &Elem, b: &Elem) -> (r: bool)
    ensures
        r == elem_eq(*a, *b),
{
    match (a, b) {
        (Elem::Bool(x), Elem::Bool(y)) => *x == *y,
        (Elem::Int(x), Elem::Int(y)) => *x == *y,
        (Elem::Enum(x), Elem::Enum(y)) => *x == *y,
        _ => false,
    }
}

fn clone_elem(e: &Elem) -> (r: Elem)
    ensures
        r == *e,
{
    match e {
        Elem::Bool(b) => Elem::Bool(*b),
        Elem::Int(i) => Elem::Int(*i),
        Elem::Enum(s) => Elem::Enum(s.clone()),
    }
}

/// The element a value stands for.
spec fn value_elem(v: Value) -> Elem {
    match v {
        Value::Bool(b) => Elem::Bool(b),
        Value::Int(i) => Elem::Int(i),
        Value::Enum(s) => Elem::Enum(s),
    }
}

/// Some element of `xs` is the element `e`.
spec fn in_elems(xs: Seq<Elem>, e: Elem) -> bool {
    exists|i: int| 0 <= i < xs.len() && elem_eq(#[trigger] xs[i], e)
}

/// Some name of the list is `n`.
spec fn has_name(names: Seq<String>, n: Seq<char>) -> bool {
    exists|i: int| 0 <= i < names.len() && (#[trigger] names[i])@ == n
}

/// The element an `except` index names: a transition parameter's binding,
/// else a constant's value, else the enum value of that name.
spec fn except_elem(bindings: Seq<(String, Elem)>, constants: Seq<(String, Value)>, idx: String) -> Elem {
    match lookup(bindings, idx@) {
        Some(e) => e,
        None => match lookup(constants, idx@) {
            Some(v) => value_elem(v),
            None => Elem::Enum(idx),
        },
    }
}

impl Elem {
    fn from_value(value: &Value) -> (r: Elem)
        ensures
            r == value_elem(*value),
    {
        match value {
            Value::Bool(b) => Elem::Bool(*b),
            Value::Int(i) => Elem::Int(*i),
            Value::Enum(v) => Elem::Enum(v.clone()),
        }
    }

    /// The literal expression this element stands for.
    fn to_expr(&self) -> (r: Expr)
        ensures
            is_core_expr(r),
            r == elem_expr(*self),
    {
        match self {
            Elem::Bool(b) => Expr::Bool(*b),
            Elem::Int(i) => Expr::Int(*i),
            Elem::Enum(v) => Expr::Name(v.clone()),
        }
    }

    /// The text used for the element in generated names.
    fn label(&self) -> (r: String)
        ensures
            r@ == elem_label(*self),
    {
        match self {
            Elem::Bool(b) => if *b { "true".to_owned() } else { "false".to_owned() },
            Elem::Int(i) => i64_text(*i),
            Elem::Enum(v) => v.clone(),
        }
    }
}

fn semantic_error(parts: &[&str]) -> (r: CaelumError)
    ensures
        r matches CaelumError::Semantic { message, span: None } && message@ == concat_views(parts@),
{
    CaelumError::Semantic { message: concat_strs(parts), span: None }
}

/// The elaborated form of an item: no indexed variables, no transition
/// parameters, and only core expressions in `init`, transitions and
/// properties.
pub open spec fn elaborated_item(item: Item) -> bool {
    match item {
        Item::Var(d) => d.index is None,
        Item::Init(b) => is_core_expr(b.expr),
        Item::Transition(b) => b.params@.len() == 0 && is_core_expr(b.expr),
        Item::Property(b) => is_core_expr(b.expr),
        _ => true,
    }
}

pub open spec fn is_elaborated(f: SourceFile) -> bool {
    forall|i: int| 0 <= i < f.items@.len() ==> elaborated_item(#[trigger] f.items@[i])
}

/// Two items are the same declaration (lists compared by their contents).
pub open spec fn item_same(a: Item, b: Item) -> bool {
    match (a, b) {
        (Item::TypeDecl(x), Item::TypeDecl(y)) => x.name == y.name && domain_eq(x.domain, y.domain) && x.span == y.span,
        (Item::Const(x), Item::Const(y)) => x.name == y.name && expr_eq(x.expr, y.expr) && x.span == y.span,
        (Item::Var(x), Item::Var(y)) => x.name == y.name && x.index == y.index && domain_eq(x.domain, y.domain) && x.span == y.span,
        (Item::Init(x), Item::Init(y)) => x.expr == y.expr && x.span == y.span,
        (Item::Transition(x), Item::Transition(y)) => x.name == y.name && x.params@ == y.params@ && x.expr == y.expr && x.span == y.span,
        (Item::Property(x), Item::Property(y)) => x == y,
        (Item::Fairness(x), Item::Fairness(y)) => x.span == y.span && x.constraints@.len() == y.constraints@.len()
            && forall|k: int| 0 <= k < x.constraints@.len() ==> #[trigger] constraint_same(x.constraints@[k], y.constraints@[k]),
        _ => false,
    }
}

pub open spec fn constraint_same(a: FairnessConstraint, b: FairnessConstraint) -> bool {
    a.strength == b.strength && a.transition@ == b.transition@
}

/// Left fold of `terms` with `op`; `empty` when there are none.
pub open spec fn fold_spec(terms: Seq<Expr>, op: BinaryOp, empty: Expr) -> Expr
    decreases terms.len(),
{
    if terms.len() == 0 {
        empty
    } else if terms.len() == 1 {
        terms[0]
    } else {
        Expr::Binary { op, lhs: Box::new(fold_spec(terms.drop_last(), op, empty)), rhs: Box::new(terms.last()) }
    }
}

proof fn lemma_fold_core(terms: Seq<Expr>, op: BinaryOp, empty: Expr)
    requires
        is_core_expr(empty),
        forall|k: int| 0 <= k < terms.len() ==> is_core_expr(#[trigger] terms[k]),
    ensures
        is_core_expr(fold_spec(terms, op, empty)),
    decreases terms.len(),
{
    if terms.len() > 1 {
        lemma_fold_core(terms.drop_last(), op, empty);
    }
}

/// Folds `terms` with `op`, left to right.
fn fold(terms: Vec<Expr>, op: BinaryOp, empty: Expr) -> (r: Expr)
    ensures
        r == fold_spec(terms@, op, empty),
{
    let ghost ts = terms@;
    let mut rest = terms;
    if rest.len() == 0 {
        return empty;
    }
    let n = rest.len();
    let mut acc = rest.remove(0);
    proof {
        assert(rest@ == ts.skip(1));
        assert(ts.take(1).len() == 1);
    }
    let mut i: usize = 1;
    while rest.len() > 0
        invariant
            1 <= i <= ts.len(),
            ts.len() == n,
            rest@ == ts.skip(i as int),
            acc == fold_spec(ts.take(i as int), op, empty),
        decreases rest@.len(),
    {
        assert(i < ts.len());
        let next = rest.remove(0);
        proof {
            assert(next == ts[i as int]);
            assert(ts.take(i as int + 1).drop_last() == ts.take(i as int));
            assert(ts.take(i as int + 1).last() == ts[i as int]);
            assert(rest@ == ts.skip(i as int + 1));
        }
        acc = Expr::Binary { op, lhs: Box::new(acc), rhs: Box::new(next) };
        i = i + 1;
    }
    assert(ts.take(ts.len() as int) == ts);
    acc
}


/// The failure of an elaboration step: a semantic error, or a model error
/// from evaluating a constant.
pub open spec fn elab_err<T>(r: Result<T>) -> bool {
    is_semantic_err(r) || is_model_err(r)
}

fn contains_name(names: &Vec<String>, name: &String) -> (r: bool)
    ensures
        r == exists|i: int| 0 <= i < names@.len() && (#[trigger] names@[i])@ == name@,
{
    let mut i: usize = 0;
    while i < names.len()
        invariant
            i <= names@.len(),
            forall|j: int| 0 <= j < i ==> (#[trigger] names@[j])@ != name@,
        decreases names@.len() - i,
    {
        if names[i] == *name {
            return true;
        }
        i = i + 1;
    }
    false
}

/// The generated name of an indexed variable's cell, like `power[n1]`.
fn indexed_name(base: &String, elem: &Elem) -> (r: String)
    ensures
        r@ == cell_name(base@, *elem),
{
    let label = elem.label();
    let r = concat_strs(&[base.as_str(), "[", label.as_str(), "]"]);
    proof { reveal_with_fuel(concat_views, 5); }
    r
}

/// The generated name of a transition instance, like `assign(n1, a)`.
fn instance_name(base: &String, labels: &Vec<String>) -> (r: String)
    ensures
        r@ == base@ + "("@ + join(string_views(labels@), ", "@) + ")"@,
{
    let mut out = concat_strs(&[base.as_str(), "("]);
    proof { reveal_with_fuel(concat_views, 3); }
    let ghost views = string_views(labels@);
    let mut i: usize = 0;
    while i < labels.len()
        invariant
            i <= labels@.len(),
            views == string_views(labels@),
            out@ == base@ + "("@ + join(views.take(i as int), ", "@),
        decreases labels@.len() - i,
    {
        let ghost prev = views.take(i as int);
        if i > 0 {
            out.append(", ");
        }
        out.append(labels[i].as_str());
        proof {
            let next = views.take(i + 1);
            assert(next.drop_last() =~= prev);
            assert(next.last() == labels@[i as int]@);
            if i == 0 {
                assert(join(next, ", "@) == labels@[0]@);
            }
        }
        i = i + 1;
    }
    proof { assert(views.take(labels@.len() as int) =~= views); }
    out.append(")");
    out
}

/// The contents of each row.
pub open spec fn rows_view(rows: Seq<Vec<Elem>>) -> Seq<Seq<Elem>> {
    rows.map_values(|r: Vec<Elem>| r@)
}

/// Each row extended by each element of `d` in turn, row after row.
pub open spec fn extend_rows(rows: Seq<Seq<Elem>>, d: Seq<Elem>) -> Seq<Seq<Elem>>
    decreases rows.len(),
{
    if rows.len() == 0 {
        Seq::empty()
    } else {
        extend_rows(rows.drop_last(), d) + d.map_values(|e: Elem| rows.last().push(e))
    }
}

/// The tuples taking one element of each domain, in row-major order: the
/// last domain varies fastest.
pub open spec fn product(ds: Seq<Seq<Elem>>) -> Seq<Seq<Elem>>
    decreases ds.len(),
{
    if ds.len() == 0 {
        seq![Seq::<Elem>::empty()]
    } else {
        extend_rows(product(ds.drop_last()), ds.last())
    }
}

/// Cartesian product of a list of domains, in row-major order.
fn cartesian(domains: &Vec<Vec<Elem>>) -> (r: Vec<Vec<Elem>>)
    ensures
        forall|k: int| 0 <= k < r@.len() ==> (#[trigger] r@[k])@.len() == domains@.len(),
        rows_view(r@) == product(rows_view(domains@)),
{
    let ghost ds = rows_view(domains@);
    let mut result: Vec<Vec<Elem>> = Vec::new();
    result.push(Vec::new());
    proof {
        assert(rows_view(result@) =~= product(ds.take(0)));
    }
    let mut d: usize = 0;
    while d < domains.len()
        invariant
            d <= domains@.len(),
            ds == rows_view(domains@),
            forall|k: int| 0 <= k < result@.len() ==> (#[trigger] result@[k])@.len() == d,
            rows_view(result@) == product(ds.take(d as int)),
        decreases domains@.len() - d,
    {
        let ghost cur = rows_view(result@);
        let ghost dd = domains@[d as int]@;
        let mut next: Vec<Vec<Elem>> = Vec::new();
        let mut p: usize = 0;
        proof {
            assert(rows_view(next@) =~= extend_rows(cur.take(0), dd));
        }
        while p < result.len()
            invariant
                d < domains@.len(),
                p <= result@.len(),
                cur == rows_view(result@),
                dd == domains@[d as int]@,
                forall|k: int| 0 <= k < result@.len() ==> (#[trigger] result@[k])@.len() == d,
                forall|k: int| 0 <= k < next@.len() ==> (#[trigger] next@[k])@.len() == d + 1,
                rows_view(next@) == extend_rows(cur.take(p as int), dd),
            decreases result@.len() - p,
        {
            let ghost start = rows_view(next@);
            let ghost rowp = cur[p as int];
            let mut e: usize = 0;
            proof {
                assert(rows_view(next@) =~= start + dd.take(0).map_values(|x: Elem| rowp.push(x)));
            }
            while e < domains[d].len()
                invariant
                    d < domains@.len(),
                    p < result@.len(),
                    e <= domains@[d as int]@.len(),
                    cur == rows_view(result@),
                    dd == domains@[d as int]@,
                    rowp == cur[p as int],
                    forall|k: int| 0 <= k < result@.len() ==> (#[trigger] result@[k])@.len() == d,
                    forall|k: int| 0 <= k < next@.len() ==> (#[trigger] next@[k])@.len() == d + 1,
                    rows_view(next@) == start + dd.take(e as int).map_values(|x: Elem| rowp.push(x)),
                decreases domains@[d as int]@.len() - e,
            {
                let mut row: Vec<Elem> = Vec::new();
                let mut j: usize = 0;
                while j < result[p].len()
                    invariant
                        p < result@.len(),
                        j <= result@[p as int]@.len(),
                        row@ == result@[p as int]@.take(j as int),
                    decreases result@[p as int]@.len() - j,
                {
                    row.push(clone_elem(&result[p][j]));
                    proof {
                        assert(result@[p as int]@.take(j + 1) =~= result@[p as int]@.take(j as int).push(result@[p as int]@[j as int]));
                    }
                    j = j + 1;
                }
                proof {
                    assert(result@[p as int]@.take(j as int) =~= result@[p as int]@);
                    assert(rowp == result@[p as int]@);
                }
                row.push(clone_elem(&domains[d][e]));
                let ghost before = next@;
                next.push(row);
                proof {
                    assert(rows_view(next@) =~= rows_view(before).push(rowp.push(dd[e as int])));
                    assert(dd.take(e + 1).map_values(|x: Elem| rowp.push(x))
                        =~= dd.take(e as int).map_values(|x: Elem| rowp.push(x)).push(rowp.push(dd[e as int])));
                    assert(rows_view(next@) =~= start + dd.take(e + 1).map_values(|x: Elem| rowp.push(x)));
                }
                e = e + 1;
            }
            proof {
                assert(dd.take(dd.len() as int) =~= dd);
                assert(cur.take(p + 1).drop_last() =~= cur.take(p as int));
                assert(cur.take(p + 1).last() == rowp);
                assert(rows_view(next@) == extend_rows(cur.take(p + 1), dd));
            }
            p = p + 1;
        }
        proof {
            assert(cur.take(cur.len() as int) =~= cur);
            assert(ds.take(d + 1).drop_last() =~= ds.take(d as int));
            assert(ds.take(d + 1).last() == dd);
        }
        result = next;
        d = d + 1;
    }
    proof {
        assert(ds.take(ds.len() as int) =~= ds);
    }
    result
}

/// The declarations elaboration works from.
struct Env {
    constants: Vec<(String, Value)>,
    enum_values: Vec<(String, Value)>,
    types: Vec<(String, Domain)>,
    /// Base name and index domain of each indexed state variable.
    indexed_vars: Vec<(String, Domain)>,
    /// Names of the state variables that are not indexed.
    scalar_vars: Vec<String>,
    /// Every declared name, to detect parameters that clash with one.
    declared: Vec<String>,
}

/// The variants of an enumeration domain; none for any other domain.
spec fn domain_variants(d: Domain) -> Seq<String> {
    match d {
        Domain::Enum { variants } => variants@,
        _ => Seq::empty(),
    }
}

/// The enum-value entries of a list of variants, each one put in front of
/// those before it: last variant first.
spec fn variant_entries(vs: Seq<String>) -> Seq<(String, Value)> {
    Seq::new(vs.len(), |i: int| (vs[vs.len() - 1 - i], Value::Enum(vs[vs.len() - 1 - i])))
}

fn register_enum_variants(domain: &Domain, enum_values: &mut Vec<(String, Value)>, declared: &mut Vec<String>)
    ensures
        final(enum_values)@ == variant_entries(domain_variants(*domain)) + old(enum_values)@,
        final(declared)@ == old(declared)@ + domain_variants(*domain),
{
    if let Domain::Enum { variants } = domain {
        let mut i: usize = 0;
        while i < variants.len()
            invariant
                i <= variants@.len(),
                enum_values@ == variant_entries(variants@.take(i as int)) + old(enum_values)@,
                declared@ == old(declared)@ + variants@.take(i as int),
            decreases variants@.len() - i,
        {
            let ghost before = enum_values@;
            enum_values.insert(0, (variants[i].clone(), Value::Enum(variants[i].clone())));
            declared.push(variants[i].clone());
            proof {
                let vs = variants@.take(i + 1);
                assert(variant_entries(vs) =~= seq![(variants@[i as int], Value::Enum(variants@[i as int]))]
                    + variant_entries(variants@.take(i as int)));
                assert(enum_values@ =~= variant_entries(vs) + old(enum_values)@);
                assert(declared@ =~= old(declared)@ + vs);
            }
            i = i + 1;
        }
        proof {
            assert(variants@.take(variants@.len() as int) =~= variants@);
        }
    } else {
        proof {
            assert(variant_entries(Seq::<String>::empty()) =~= Seq::empty());
            assert(enum_values@ =~= variant_entries(domain_variants(*domain)) + old(enum_values)@);
            assert(declared@ =~= old(declared)@ + domain_variants(*domain));
        }
    }
}

/// The type declarations of `items`, the last one first.
spec fn scan_types(items: Seq<Item>) -> Seq<(String, Domain)>
    decreases items.len(),
{
    if items.len() == 0 {
        Seq::empty()
    } else {
        let rest = scan_types(items.drop_last());
        match items.last() {
            Item::TypeDecl(d) => seq![(d.name, d.domain)] + rest,
            _ => rest,
        }
    }
}

/// The enum values that the domains of type and variable declarations of
/// `items` introduce, the last one first.
spec fn scan_enum_values(items: Seq<Item>) -> Seq<(String, Value)>
    decreases items.len(),
{
    if items.len() == 0 {
        Seq::empty()
    } else {
        let rest = scan_enum_values(items.drop_last());
        match items.last() {
            Item::TypeDecl(d) => variant_entries(domain_variants(d.domain)) + rest,
            Item::Var(d) => variant_entries(domain_variants(d.domain)) + rest,
            _ => rest,
        }
    }
}

/// The indexed state variables of `items` with their index domains, the
/// last one first.
spec fn scan_indexed(items: Seq<Item>) -> Seq<(String, Domain)>
    decreases items.len(),
{
    if items.len() == 0 {
        Seq::empty()
    } else {
        let rest = scan_indexed(items.drop_last());
        match items.last() {
            Item::Var(d) => match d.index {
                Some(p) => seq![(d.name, p.domain)] + rest,
                None => rest,
            },
            _ => rest,
        }
    }
}

/// The names of the state variables of `items` that are not indexed, in order.
spec fn scan_scalars(items: Seq<Item>) -> Seq<String>
    decreases items.len(),
{
    if items.len() == 0 {
        Seq::empty()
    } else {
        let rest = scan_scalars(items.drop_last());
        match items.last() {
            Item::Var(d) => if d.index is None { rest.push(d.name) } else { rest },
            _ => rest,
        }
    }
}

/// Every name that `items` declare, enum variants after their domain's
/// declaration, in order.
spec fn scan_declared(items: Seq<Item>) -> Seq<String>
    decreases items.len(),
{
    if items.len() == 0 {
        Seq::empty()
    } else {
        let rest = scan_declared(items.drop_last());
        match items.last() {
            Item::TypeDecl(d) => rest.push(d.name) + domain_variants(d.domain),
            Item::Const(d) => rest.push(d.name),
            Item::Var(d) => rest.push(d.name) + domain_variants(d.domain),
            Item::Transition(b) => rest.push(b.name),
            Item::Property(b) => rest.push(b.name),
            _ => rest,
        }
    }
}

/// The values of the constants of `items`, the last one first, each
/// evaluated with the constants before it and the enum values `ev` in
/// scope; `None` when one of them does not evaluate.
spec fn scan_constants(items: Seq<Item>, ev: Seq<(String, Value)>) -> Option<Seq<(String, Value)>>
    decreases items.len(),
{
    if items.len() == 0 {
        Some(Seq::empty())
    } else {
        let rest = scan_constants(items.drop_last(), ev);
        match items.last() {
            Item::Const(d) => match rest {
                Some(cs) => match spec_eval(d.expr, (cs, ev, Seq::empty()), None, None) {
                    Some(v) => Some(seq![(d.name, v)] + cs),
                    None => None,
                },
                None => None,
            },
            _ => rest,
        }
    }
}

/// Two association lists of domains with the same names and equal domains.
spec fn domains_alike(a: Seq<(String, Domain)>, b: Seq<(String, Domain)>) -> bool {
    a.len() == b.len() && forall|i: int| 0 <= i < a.len() ==> (#[trigger] a[i]).0 == b[i].0 && domain_eq(a[i].1, b[i].1)
}

/// The names as text.
spec fn name_views(s: Seq<String>) -> Seq<Seq<char>> {
    s.map_values(|x: String| x@)
}

/// The element an `unchanged` target excepts, if any.
spec fn except_of(env: Env, t: UnchangedTarget, b: Seq<(String, Elem)>) -> Option<Elem> {
    match t.except {
        Some(idx) => Some(except_elem(b, env.constants@, idx)),
        None => None,
    }
}

/// The variables one `unchanged` target stands for, in order: every cell of
/// an indexed variable but the excepted one (over the elements of its index
/// domain, which are known here for a plain domain), or the variable itself.
spec fn target_rel(env: Env, t: UnchangedTarget, b: Seq<(String, Elem)>, l: Seq<Seq<char>>) -> bool {
    match lookup(env.indexed_vars@, t.name@) {
        Some(d) => exists|els: Seq<Elem>| #[trigger] cells_of(t.name@, els, except_of(env, t, b)) == l
            && (plain_elems(d) matches Some(xs) ==> els == xs),
        None => l == seq![t.name@],
    }
}

/// One list of variables per target.
spec fn lists_for(env: Env, ts: Seq<UnchangedTarget>, b: Seq<(String, Elem)>, lists: Seq<Seq<Seq<char>>>) -> bool {
    lists.len() == ts.len() && forall|k: int| 0 <= k < ts.len() ==> #[trigger] target_rel(env, ts[k], b, lists[k])
}

/// The variables that `unchanged(ts)` keeps: those of each target in turn,
/// each once, in the order first seen.
spec fn unchanged_names(env: Env, ts: Seq<UnchangedTarget>, b: Seq<(String, Elem)>, ns: Seq<Seq<char>>) -> bool {
    exists|lists: Seq<Seq<Seq<char>>>| #[trigger] lists_for(env, ts, b, lists) && ns == first_seen(concat_lists(lists))
}

/// A fairness constraint as its strength and the name of its transition.
spec fn constraint_view(c: FairnessConstraint) -> (FairnessStrength, Seq<char>) {
    (c.strength, c.transition@)
}

spec fn constraint_views(cs: Seq<FairnessConstraint>) -> Seq<(FairnessStrength, Seq<char>)> {
    cs.map_values(|c: FairnessConstraint| constraint_view(c))
}

/// Each instance name of a transition, with the given strength.
spec fn instance_constraints(strength: FairnessStrength, names: Seq<String>) -> Seq<(FairnessStrength, Seq<char>)> {
    names.map_values(|n: String| (strength, n@))
}

/// Every constraint names a transition that has instances.
spec fn fairness_known(cs: Seq<FairnessConstraint>, inst: Seq<(String, Vec<String>)>) -> bool {
    forall|k: int| 0 <= k < cs.len() ==> lookup(inst, (#[trigger] cs[k]).transition@) is Some
}

/// The constraints rewritten to one per instance of their transition, in order.
spec fn renamed_constraints(cs: Seq<FairnessConstraint>, inst: Seq<(String, Vec<String>)>) -> Seq<(FairnessStrength, Seq<char>)>
    decreases cs.len(),
{
    if cs.len() == 0 {
        Seq::empty()
    } else {
        renamed_constraints(cs.drop_last(), inst)
            + instance_constraints(cs.last().strength, lookup(inst, cs.last().transition@)->Some_0@)
    }
}

/// Once a constant fails to evaluate, the constants of every longer prefix do too.
proof fn lemma_scan_constants_none(items: Seq<Item>, ev: Seq<(String, Value)>, i: int)
    requires
        0 <= i < items.len(),
        scan_constants(items.take(i + 1), ev) is None,
    ensures
        scan_constants(items, ev) is None,
    decreases items.len() - i,
{
    if i + 1 < items.len() {
        assert(items.take(i + 2).drop_last() =~= items.take(i + 1));
        lemma_scan_constants_none(items, ev, i + 1);
    } else {
        assert(items.take(i + 1) =~= items);
    }
}

impl Env {
    fn collect(file: &SourceFile) -> (r: Result<Env>)
        ensures
            r is Err ==> elab_err(r),
            r is Ok <==> scan_constants(file.items@, scan_enum_values(file.items@)) is Some,
            r matches Ok(env) ==> {
                &&& Some(env.constants@) == scan_constants(file.items@, scan_enum_values(file.items@))
                &&& env.enum_values@ == scan_enum_values(file.items@)
                &&& domains_alike(env.types@, scan_types(file.items@))
                &&& domains_alike(env.indexed_vars@, scan_indexed(file.items@))
                &&& env.scalar_vars@ == scan_scalars(file.items@)
                &&& env.declared@ == scan_declared(file.items@)
            },
    {
        let mut types: Vec<(String, Domain)> = Vec::new();
        let mut enum_values: Vec<(String, Value)> = Vec::new();
        let mut indexed_vars: Vec<(String, Domain)> = Vec::new();
        let mut scalar_vars: Vec<String> = Vec::new();
        let mut declared: Vec<String> = Vec::new();
        let ghost items = file.items@;
        let mut i: usize = 0;
        while i < file.items.len()
            invariant
                i <= items.len(),
                items == file.items@,
                domains_alike(types@, scan_types(items.take(i as int))),
                enum_values@ == scan_enum_values(items.take(i as int)),
                domains_alike(indexed_vars@, scan_indexed(items.take(i as int))),
                scalar_vars@ == scan_scalars(items.take(i as int)),
                declared@ == scan_declared(items.take(i as int)),
            decreases file.items@.len() - i,
        {
            proof {
                assert(items.take(i + 1).drop_last() =~= items.take(i as int));
                assert(items.take(i + 1).last() == items[i as int]);
            }
            let ghost t0 = types@;
            let ghost x0 = indexed_vars@;
            match &file.items[i] {
                Item::TypeDecl(decl) => {
                    declared.push(decl.name.clone());
                    types.insert(0, (decl.name.clone(), clone_domain(&decl.domain)));
                    register_enum_variants(&decl.domain, &mut enum_values, &mut declared);
                    proof {
                        let st = scan_types(items.take(i + 1));
                        assert(st == seq![(decl.name, decl.domain)] + scan_types(items.take(i as int)));
                        assert forall|j: int| 0 <= j < types@.len() implies (#[trigger] types@[j]).0 == st[j].0
                            && domain_eq(types@[j].1, st[j].1) by {
                            if j > 0 {
                                assert(types@[j] == t0[j - 1]);
                            }
                        }
                    }
                },
                Item::Const(decl) => {
                    declared.push(decl.name.clone());
                },
                Item::Var(decl) => {
                    declared.push(decl.name.clone());
                    register_enum_variants(&decl.domain, &mut enum_values, &mut declared);
                    match &decl.index {
                        Some(index) => {
                            indexed_vars.insert(0, (decl.name.clone(), clone_domain(&index.domain)));
                            proof {
                                let sx = scan_indexed(items.take(i + 1));
                                assert(sx == seq![(decl.name, index.domain)] + scan_indexed(items.take(i as int)));
                                assert forall|j: int| 0 <= j < indexed_vars@.len() implies (#[trigger] indexed_vars@[j]).0 == sx[j].0
                                    && domain_eq(indexed_vars@[j].1, sx[j].1) by {
                                    if j > 0 {
                                        assert(indexed_vars@[j] == x0[j - 1]);
                                    }
                                }
                            }
                        },
                        None => {
                            scalar_vars.push(decl.name.clone());
                        },
                    }
                },
                Item::Transition(block) => {
                    declared.push(block.name.clone());
                },
                Item::Property(block) => {
                    declared.push(block.name.clone());
                },
                _ => {},
            }
            i = i + 1;
        }
        proof {
            assert(items.take(items.len() as int) =~= items);
        }

        let ghost ev = enum_values@;
        let mut constants: Vec<(String, Value)> = Vec::new();
        let mut i: usize = 0;
        while i < file.items.len()
            invariant
                i <= items.len(),
                items == file.items@,
                enum_values@ == ev,
                ev == scan_enum_values(items),
                scan_constants(items.take(i as int), ev) == Some(constants@),
            decreases file.items@.len() - i,
        {
            proof {
                assert(items.take(i + 1).drop_last() =~= items.take(i as int));
                assert(items.take(i + 1).last() == items[i as int]);
            }
            if let Item::Const(decl) = &file.items[i] {
                let ghost cs = constants@;
                let local = EvalEnv::new(constants, enum_values, Vec::new());
                proof {
                    assert(local.variables@ =~= Seq::<(String, usize)>::empty());
                    assert(local@ == (cs, ev, Seq::<(String, usize)>::empty()));
                }
                let value = eval_expr(&decl.expr, &local, None, None);
                constants = local.constants;
                enum_values = local.enum_values;
                let value = match value {
                    Ok(v) => v,
                    Err(e) => {
                        proof {
                            assert(spec_eval(decl.expr, (cs, ev, Seq::empty()), None, None) is None);
                            assert(scan_constants(items.take(i + 1), ev) is None);
                            lemma_scan_constants_none(items, ev, i as int);
                        }
                        return Err(e);
                    },
                };
                constants.insert(0, (decl.name.clone(), value));
                proof {
                    assert(constants@ =~= seq![(decl.name, value)] + local.constants@);
                }
            }
            i = i + 1;
        }
        proof {
            assert(items.take(items.len() as int) =~= items);
        }
        Ok(Env { constants, enum_values, types, indexed_vars, scalar_vars, declared })
    }

    fn bound_value(&self, bound: &DomainBound) -> (r: Result<i64>)
        ensures
            r is Err ==> is_semantic_err(r),
            bound matches DomainBound::Int(v) ==> r == Ok::<i64, CaelumError>(*v),
    {
        match bound {
            DomainBound::Int(value) => Ok(*value),
            DomainBound::Name(name) => match find_key(&self.constants, name) {
                Some(k) => match &self.constants[k].1 {
                    Value::Int(value) => Ok(*value),
                    _ => Err(semantic_error(&["range bound `", name.as_str(), "` must be an integer"])),
                },
                None => Err(semantic_error(&["unknown range bound constant `", name.as_str(), "`"])),
            },
        }
    }

    /// The elements of a finite domain; a named type is followed through at
    /// most `fuel` further names.
    fn domain_elems_fuel(&self, domain: &Domain, fuel: usize) -> (r: Result<Vec<Elem>>)
        ensures
            r is Err ==> is_semantic_err(r),
            plain_elems(*domain) matches Some(xs) ==> (r matches Ok(v) && v@ == xs),
        decreases fuel,
    {
        match domain {
            Domain::Bool => {
                let v = vec![Elem::Bool(false), Elem::Bool(true)];
                proof {
                    assert(v@ =~= seq![Elem::Bool(false), Elem::Bool(true)]);
                }
                Ok(v)
            },
            Domain::IntRange { start, end } => {
                let a = self.bound_value(start)?;
                let b = self.bound_value(end)?;
                if a > b {
                    return Err(semantic_error(&[
                        "empty integer range ", i64_text(a).as_str(), "..", i64_text(b).as_str(),
                    ]));
                }
                let mut out: Vec<Elem> = Vec::new();
                let mut v: i64 = a;
                loop
                    invariant_except_break
                        out@.len() == v - a,
                    invariant
                        a <= v <= b,
                        out@.len() <= b - a + 1,
                        forall|k: int| 0 <= k < out@.len() ==> #[trigger] out@[k] == Elem::Int((a + k) as i64),
                    ensures
                        out@.len() == b - a + 1,
                    decreases b - v,
                {
                    out.push(Elem::Int(v));
                    if v == b {
                        break;
                    }
                    v = v + 1;
                }
                proof {
                    if plain_elems(*domain) is Some {
                        let xs = plain_elems(*domain)->Some_0;
                        assert forall|i: int| 0 <= i < out@.len() implies out@[i] == xs[i] by {
                            assert(out@[i] == Elem::Int((a + i) as i64));
                        }
                        assert(out@ =~= xs);
                    }
                }
                Ok(out)
            },
            Domain::Enum { variants } => {
                let mut out: Vec<Elem> = Vec::new();
                let mut i: usize = 0;
                while i < variants.len()
                    invariant
                        i <= variants@.len(),
                        out@.len() == i,
                        forall|k: int| 0 <= k < i ==> #[trigger] out@[k] == Elem::Enum(variants@[k]),
                    decreases variants@.len() - i,
                {
                    out.push(Elem::Enum(variants[i].clone()));
                    i = i + 1;
                }
                proof {
                    let xs = plain_elems(*domain)->Some_0;
                    assert forall|k: int| 0 <= k < out@.len() implies out@[k] == xs[k] by {
                        assert(out@[k] == Elem::Enum(variants@[k]));
                    }
                    assert(out@ =~= xs);
                }
                Ok(out)
            },
            Domain::Named(name) => {
                match find_key(&self.types, name) {
                    Some(k) => {
                        if fuel == 0 {
                            return Err(semantic_error(&["type `", name.as_str(), "` is defined in terms of itself"]));
                        }
                        self.domain_elems_fuel(&self.types[k].1, fuel - 1)
                    },
                    None => Err(semantic_error(&["unknown type `", name.as_str(), "`"])),
                }
            },
        }
    }

    /// The elements of a finite domain.
    fn domain_elems(&self, domain: &Domain) -> (r: Result<Vec<Elem>>)
        ensures
            r is Err ==> is_semantic_err(r),
            plain_elems(*domain) matches Some(xs) ==> (r matches Ok(v) && v@ == xs),
    {
        self.domain_elems_fuel(domain, self.types.len())
    }

    /// Resolves an already substituted index expression to an element.
    fn eval_index(&self, index: &Expr, var: &String) -> (r: Result<Elem>)
        ensures
            r is Err ==> is_semantic_err(r),
            r matches Ok(el) ==> index_elem(*index, el),
    {
        match index {
            Expr::Int(value) => Ok(Elem::Int(*value)),
            Expr::Bool(value) => Ok(Elem::Bool(*value)),
            Expr::Name(name) => match find_key(&self.constants, name) {
                Some(k) => Ok(Elem::from_value(&self.constants[k].1)),
                None => Ok(Elem::Enum(name.clone())),
            },
            _ => Err(semantic_error(&["index of `", var.as_str(), "` must be a concrete value or transition parameter"])),
        }
    }

    /// Checks that an index is an element of the variable's index domain.
    fn check_index_member(&self, var: &String, elem: &Elem) -> (r: Result<()>)
        ensures
            r is Err ==> is_semantic_err(r),
            r is Ok ==> lookup(self.indexed_vars@, var@) is Some,
            lookup(self.indexed_vars@, var@) matches Some(d) ==> (plain_elems(d) matches Some(xs)
                ==> (r is Ok <==> in_elems(xs, *elem))),
    {
        let k = match find_key(&self.indexed_vars, var) {
            Some(k) => k,
            None => {
                return Err(semantic_error(&["`", var.as_str(), "` is not an indexed state variable"]));
            },
        };
        let members = self.domain_elems(&self.indexed_vars[k].1)?;
        let mut i: usize = 0;
        while i < members.len()
            invariant
                i <= members@.len(),
                forall|j: int| 0 <= j < i ==> !elem_eq(#[trigger] members@[j], *elem),
                k < self.indexed_vars@.len(),
                lookup(self.indexed_vars@, var@) == Some(self.indexed_vars@[k as int].1),
                plain_elems(self.indexed_vars@[k as int].1) matches Some(xs) ==> members@ == xs,
            decreases members@.len() - i,
        {
            if same_elem(&members[i], elem) {
                proof {
                    assert(elem_eq(members@[i as int], *elem));
                }
                return Ok(());
            }
            i = i + 1;
        }
        Err(semantic_error(&[
            "index `", elem.label().as_str(), "` is not a member of the domain of `", var.as_str(), "`",
        ]))
    }

    /// Arguments of `unchanged` that are certainly not state variables get a
    /// sharper message than the generic one.
    fn reject_non_variable(&self, name: &String) -> (r: Result<()>)
        ensures
            r is Err ==> is_semantic_err(r),
            r is Ok <==> lookup(self.enum_values@, name@) is None && lookup(self.constants@, name@) is None
                && lookup(self.types@, name@) is None,
    {
        if find_key(&self.enum_values, name).is_some() {
            return Err(semantic_error(&["unchanged expects a state variable, found enum value `", name.as_str(), "`"]));
        }
        if find_key(&self.constants, name).is_some() {
            return Err(semantic_error(&["unchanged expects a state variable, found constant `", name.as_str(), "`"]));
        }
        if find_key(&self.types, name).is_some() {
            return Err(semantic_error(&["unchanged expects a state variable, found type `", name.as_str(), "`"]));
        }
        Ok(())
    }

    fn resolve_except(&self, var: &String, idx: &String, bindings: &Vec<(String, Elem)>) -> (r: Result<Elem>)
        ensures
            r is Err ==> is_semantic_err(r),
            r matches Ok(el) ==> el == except_elem(bindings@, self.constants@, *idx),
            r is Ok ==> lookup(self.indexed_vars@, var@) is Some,
            lookup(self.indexed_vars@, var@) matches Some(d) ==> (plain_elems(d) matches Some(xs)
                ==> (r is Ok <==> in_elems(xs, except_elem(bindings@, self.constants@, *idx)))),
    {
        let elem = match find_key(bindings, idx) {
            Some(k) => clone_elem(&bindings[k].1),
            None => match find_key(&self.constants, idx) {
                Some(k) => Elem::from_value(&self.constants[k].1),
                None => Elem::Enum(idx.clone()),
            },
        };
        self.check_index_member(var, &elem)?;
        Ok(elem)
    }

    /// Expands `unchanged(...)` into a conjunction of `v' = v` frame
    /// conditions, one per distinct variable, in first-seen order.
    fn expand_unchanged(&self, targets: &Vec<UnchangedTarget>, bindings: &Vec<(String, Elem)>) -> (r: Result<Expr>)
        ensures
            r matches Ok(e) ==> is_core_expr(e),
            r matches Ok(e) ==> exists|terms: Seq<Expr>| #[trigger] frames_for(targets@, terms)
                && e == fold_spec(terms, BinaryOp::And, Expr::Bool(true)),
            r matches Ok(e) ==> exists|ns: Seq<Seq<char>>, terms: Seq<Expr>| #[trigger] unchanged_names(*self, targets@, bindings@, ns)
                && #[trigger] frames_named(terms, ns) && e == fold_spec(terms, BinaryOp::And, Expr::Bool(true)),
            r is Err ==> is_semantic_err(r),
    {
        if targets.len() == 0 {
            return Err(semantic_error(&["unchanged requires at least one state variable"]));
        }
        let mut names: Vec<String> = Vec::new();
        let ghost mut lists: Seq<Seq<Seq<char>>> = Seq::empty();
        let mut t: usize = 0;
        while t < targets.len()
            invariant
                t <= targets@.len(),
                forall|i: int| 0 <= i < names@.len() ==> #[trigger] covered(targets@, names@[i]@),
                forall|i: int, j: int| 0 <= i < j < names@.len() ==> (#[trigger] names@[i])@ != (#[trigger] names@[j])@,
                lists.len() == t,
                forall|k: int| 0 <= k < t ==> #[trigger] target_rel(*self, targets@[k], bindings@, lists[k]),
                name_views(names@) == first_seen(concat_lists(lists)),
            decreases targets@.len() - t,
        {
            let target = &targets[t];
            self.reject_non_variable(&target.name)?;
            let ghost all0 = concat_lists(lists);
            match find_key(&self.indexed_vars, &target.name) {
                Some(k) => {
                    let except = match &target.except {
                        Some(idx) => Some(self.resolve_except(&target.name, idx, bindings)?),
                        None => None,
                    };
                    let ghost exc = except_of(*self, *target, bindings@);
                    assert(except == exc);
                    let elems = self.domain_elems(&self.indexed_vars[k].1)?;
                    let ghost mut cur: Seq<Seq<char>> = Seq::empty();
                    let mut e: usize = 0;
                    while e < elems.len()
                        invariant
                            t < targets@.len(),
                            *target == targets@[t as int],
                            forall|i: int| 0 <= i < names@.len() ==> #[trigger] covered(targets@, names@[i]@),
                            forall|i: int, j: int| 0 <= i < j < names@.len() ==> (#[trigger] names@[i])@ != (#[trigger] names@[j])@,
                            e <= elems@.len(),
                            except == exc,
                            cur == cells_of(target.name@, elems@.take(e as int), exc),
                            name_views(names@) == first_seen(all0 + cur),
                        decreases elems@.len() - e,
                    {
                        proof {
                            assert(elems@.take(e + 1).drop_last() =~= elems@.take(e as int));
                            assert(elems@.take(e + 1).last() == elems@[e as int]);
                        }
                        let skip = match &except {
                            Some(x) => same_elem(x, &elems[e]),
                            None => false,
                        };
                        if !skip {
                            let name = indexed_name(&target.name, &elems[e]);
                            let ghost all = all0 + cur;
                            proof {
                                assert((all0 + cur.push(name@)) =~= all.push(name@));
                                assert(all.push(name@).drop_last() =~= all);
                                cur = cur.push(name@);
                            }
                            if !contains_name(&names, &name) {
                                let ghost before = names@;
                                proof {
                                    assert(target_covers(targets@[t as int], name@));
                                    assert(covered(targets@, name@));
                                    if name_views(before).contains(name@) {
                                        let w = choose|w: int| 0 <= w < name_views(before).len() && name_views(before)[w] == name@;
                                        assert(before[w]@ == name@);
                                    }
                                }
                                names.push(name);
                                proof {
                                    assert(name_views(names@) =~= name_views(before).push(name@));
                                    assert forall|i: int| 0 <= i < names@.len() implies #[trigger] covered(targets@, names@[i]@) by {
                                        if i < before.len() { assert(names@[i] == before[i]); }
                                    }
                                    assert forall|i: int, j: int| 0 <= i < j < names@.len() implies (#[trigger] names@[i])@ != (#[trigger] names@[j])@ by {
                                        if j < before.len() {
                                            assert(names@[i] == before[i] && names@[j] == before[j]);
                                        } else {
                                            assert(names@[i] == before[i]);
                                        }
                                    }
                                }
                            } else {
                                proof {
                                    let w = choose|w: int| 0 <= w < names@.len() && (#[trigger] names@[w])@ == name@;
                                    assert(name_views(names@)[w] == name@);
                                    assert(name_views(names@).contains(name@));
                                }
                            }
                        }
                        e = e + 1;
                    }
                    proof {
                        assert(elems@.take(elems@.len() as int) =~= elems@);
                        assert(target_rel(*self, *target, bindings@, cur));
                        let old_lists = lists;
                        lists = lists.push(cur);
                        assert(lists.drop_last() =~= old_lists);
                        assert forall|kk: int| 0 <= kk < t + 1 implies #[trigger] target_rel(*self, targets@[kk], bindings@, lists[kk]) by {
                            if kk < t { assert(lists[kk] == old_lists[kk]); }
                        }
                    }
                },
                None => {
                    if contains_name(&self.scalar_vars, &target.name) {
                        if target.except.is_some() {
                            return Err(semantic_error(&[
                                "`unchanged(", target.name.as_str(), " except ...)` requires an indexed state variable",
                            ]));
                        }
                        let ghost cur = seq![target.name@];
                        let ghost all = all0 + cur;
                        proof {
                            assert(all =~= all0.push(target.name@));
                            assert(all.drop_last() =~= all0);
                        }
                        if !contains_name(&names, &target.name) {
                            let ghost before = names@;
                            proof {
                                assert(target_covers(targets@[t as int], target.name@));
                                assert(covered(targets@, target.name@));
                                if name_views(before).contains(target.name@) {
                                    let w = choose|w: int| 0 <= w < name_views(before).len() && name_views(before)[w] == target.name@;
                                    assert(before[w]@ == target.name@);
                                }
                            }
                            names.push(target.name.clone());
                            proof {
                                assert(name_views(names@) =~= name_views(before).push(target.name@));
                                assert forall|i: int| 0 <= i < names@.len() implies #[trigger] covered(targets@, names@[i]@) by {
                                    if i < before.len() { assert(names@[i] == before[i]); }
                                }
                                assert forall|i: int, j: int| 0 <= i < j < names@.len() implies (#[trigger] names@[i])@ != (#[trigger] names@[j])@ by {
                                    if j < before.len() {
                                        assert(names@[i] == before[i] && names@[j] == before[j]);
                                    } else {
                                        assert(names@[i] == before[i]);
                                    }
                                }
                            }
                        } else {
                            proof {
                                let w = choose|w: int| 0 <= w < names@.len() && (#[trigger] names@[w])@ == target.name@;
                                assert(name_views(names@)[w] == target.name@);
                                assert(name_views(names@).contains(target.name@));
                            }
                        }
                        proof {
                            assert(target_rel(*self, *target, bindings@, cur));
                            let old_lists = lists;
                            lists = lists.push(cur);
                            assert(lists.drop_last() =~= old_lists);
                            assert forall|kk: int| 0 <= kk < t + 1 implies #[trigger] target_rel(*self, targets@[kk], bindings@, lists[kk]) by {
                                if kk < t { assert(lists[kk] == old_lists[kk]); }
                            }
                        }
                    } else {
                        return Err(semantic_error(&["unchanged expects a state variable, found `", target.name.as_str(), "`"]));
                    }
                },
            }
            t = t + 1;
        }
        let mut frames: Vec<Expr> = Vec::new();
        let mut i: usize = 0;
        while i < names.len()
            invariant
                i <= names@.len(),
                frames@.len() == i,
                forall|k: int| 0 <= k < frames@.len() ==> is_core_expr(#[trigger] frames@[k]),
                forall|k: int| 0 <= k < frames@.len() ==> #[trigger] frame_of(frames@[k]) == Some(names@[k]@),
            decreases names@.len() - i,
        {
            let lhs = Expr::PrimedName(names[i].clone());
            let rhs = Expr::Name(names[i].clone());
            assert(is_core_expr(lhs) && is_core_expr(rhs));
            let frame = Expr::Binary { op: BinaryOp::Eq, lhs: Box::new(lhs), rhs: Box::new(rhs) };
            assert(is_core_expr(frame));
            assert(frame_of(frame) == Some(names@[i as int]@));
            let ghost before = frames@;
            frames.push(frame);
            proof {
                assert forall|k: int| 0 <= k < frames@.len() implies #[trigger] frame_of(frames@[k]) == Some(names@[k]@) by {
                    if k < before.len() { assert(frames@[k] == before[k]); }
                }
            }
            i = i + 1;
        }
        proof {
            lemma_fold_core(frames@, BinaryOp::And, Expr::Bool(true));
            assert forall|i: int, j: int| 0 <= i < j < frames@.len() implies #[trigger] frame_of(frames@[i]) != #[trigger] frame_of(frames@[j]) by {
                assert(names@[i]@ != names@[j]@);
            }
            assert(frames_for(targets@, frames@));
            assert(frames_named(frames@, name_views(names@)));
            assert(lists_for(*self, targets@, bindings@, lists));
            assert(unchanged_names(*self, targets@, bindings@, name_views(names@)));
        }
        Ok(fold(frames, BinaryOp::And, Expr::Bool(true)))
    }

    /// Elaborates an expression with `bindings` giving the values of the
    /// transition parameters and quantified variables in scope (the first
    /// binding of a name wins).
    fn elab_expr(&self, expr: &Expr, bindings: &Vec<(String, Elem)>) -> (r: Result<Expr>)
        ensures
            r matches Ok(e) ==> is_core_expr(e),
            r matches Ok(e) ==> elab_rel(*expr, bindings@, e),
            bindings@.len() == 0 && is_core_expr(*expr) ==> r == Ok::<Expr, CaelumError>(*expr),
            r is Err ==> is_semantic_err(r),
            expr matches Expr::PrimedName(n) ==> (lookup(bindings@, n@) is Some ==> (r matches Err(CaelumError::Semantic { message, .. })
                && message@ == "transition parameters do not have next-state values: `"@ + n@ + "'`"@)),
        decreases expr, 1nat,
    {
        match expr {
            Expr::Bool(b) => Ok(Expr::Bool(*b)),
            Expr::Int(i) => Ok(Expr::Int(*i)),
            Expr::Name(name) => match find_key(bindings, name) {
                Some(k) => Ok(bindings[k].1.to_expr()),
                None => Ok(Expr::Name(name.clone())),
            },
            Expr::PrimedName(name) => {
                if find_key(bindings, name).is_some() {
                    let parts = ["transition parameters do not have next-state values: `", name.as_str(), "'`"];
                    let e = semantic_error(&parts);
                    proof {
                        reveal_with_fuel(concat_views, 4);
                        assert(parts@.drop_last().drop_last().drop_last() =~= Seq::<&str>::empty());
                    }
                    return Err(e);
                }
                Ok(Expr::PrimedName(name.clone()))
            },
            Expr::Indexed { name, index, primed } => {
                let ix = self.elab_expr(index, bindings)?;
                let elem = self.eval_index(&ix, name)?;
                self.check_index_member(name, &elem)?;
                let scalar = indexed_name(name, &elem);
                let out = if *primed {
                    Expr::PrimedName(scalar)
                } else {
                    Expr::Name(scalar)
                };
                proof {
                    assert(elab_rel(**index, bindings@, ix) && index_elem(ix, elem) && cell_ref(name@, elem, *primed, out));
                }
                Ok(out)
            },
            Expr::Unchanged(targets) => self.expand_unchanged(targets, bindings),
            Expr::Quantifier { kind, var, domain, body } => {
                let elems = self.domain_elems(domain)?;
                let terms = self.elab_terms(var, &elems, body, bindings)?;
                let (op, empty) = match kind {
                    QuantKind::Forall => (BinaryOp::And, Expr::Bool(true)),
                    QuantKind::Exists => (BinaryOp::Or, Expr::Bool(false)),
                };
                proof {
                    lemma_fold_core(terms@, op, empty);
                }
                let ghost ts = terms@;
                let out = fold(terms, op, empty);
                proof {
                    assert(op == quant_op(*kind) && empty == quant_empty(*kind));
                    assert(terms_rel(**body, *var, elems@, bindings@, ts));
                    assert(one_term_each(elems@, ts));
                    assert(plain_elems(*domain) matches Some(xs) ==> elems@ == xs);
                    assert(elab_rel(*expr, bindings@, out));
                }
                Ok(out)
            },
            Expr::Unary { op, expr: inner } => {
                let e = self.elab_expr(inner, bindings)?;
                Ok(Expr::Unary { op: *op, expr: Box::new(e) })
            },
            Expr::Binary { op, lhs, rhs } => {
                let l = self.elab_expr(lhs, bindings)?;
                let r = self.elab_expr(rhs, bindings)?;
                Ok(Expr::Binary { op: *op, lhs: Box::new(l), rhs: Box::new(r) })
            },
        }
    }

    /// The body elaborated once per element, the element bound to `var`.
    fn elab_terms(&self, var: &String, elems: &Vec<Elem>, body: &Expr, bindings: &Vec<(String, Elem)>) -> (r: Result<Vec<Expr>>)
        ensures
            r matches Ok(ts) ==> forall|k: int| 0 <= k < ts@.len() ==> is_core_expr(#[trigger] ts@[k]),
            r matches Ok(ts) ==> terms_rel(*body, *var, elems@, bindings@, ts@),
            r is Err ==> is_semantic_err(r),
        decreases body, 2nat,
    {
        let mut terms: Vec<Expr> = Vec::new();
        let mut i: usize = 0;
        proof { assert(elems@.take(0) =~= Seq::<Elem>::empty()); }
        while i < elems.len()
            invariant
                i <= elems@.len(),
                terms@.len() == i,
                forall|k: int| 0 <= k < terms@.len() ==> is_core_expr(#[trigger] terms@[k]),
                terms_rel(*body, *var, elems@.take(i as int), bindings@, terms@),
            decreases elems@.len() - i,
        {
            let mut scope: Vec<(String, Elem)> = Vec::new();
            scope.push((var.clone(), clone_elem(&elems[i])));
            let mut j: usize = 0;
            while j < bindings.len()
                invariant
                    j <= bindings@.len(),
                    i < elems@.len(),
                    scope@ == seq![(*var, elems@[i as int])] + bindings@.take(j as int),
                decreases bindings@.len() - j,
            {
                scope.push((bindings[j].0.clone(), clone_elem(&bindings[j].1)));
                proof {
                    assert(bindings@.take(j + 1) == bindings@.take(j as int).push(bindings@[j as int]));
                    assert(scope@ =~= seq![(*var, elems@[i as int])] + bindings@.take(j + 1));
                }
                j = j + 1;
            }
            proof { assert(bindings@.take(bindings@.len() as int) == bindings@); }
            let t = self.elab_expr(body, &scope)?;
            let ghost before = terms@;
            terms.push(t);
            proof {
                assert(elems@.take(i + 1).drop_last() =~= elems@.take(i as int));
                assert(elems@.take(i + 1).last() == elems@[i as int]);
                assert(terms@.drop_last() =~= before);
            }
            i = i + 1;
        }
        proof { assert(elems@.take(elems@.len() as int) =~= elems@); }
        Ok(terms)
    }
}


/// The value bound to a name is the value of one of the entries with that name.
proof fn lemma_lookup_member<V>(m: Seq<(String, V)>, name: Seq<char>)
    requires
        lookup(m, name) is Some,
    ensures
        exists|j: int| 0 <= j < m.len() && (#[trigger] m[j]).0@ == name && Some(m[j].1) == lookup(m, name),
    decreases m.len(),
{
    if m[0].0@ != name {
        lemma_lookup_member(m.drop_first(), name);
        let j = choose|j: int| 0 <= j < m.drop_first().len() && (#[trigger] m.drop_first()[j]).0@ == name
            && Some(m.drop_first()[j].1) == lookup(m.drop_first(), name);
        assert(m[j + 1] == m.drop_first()[j]);
    } else {
        assert(m[0].0@ == name);
    }
}

fn validate_param_name(param: &TransitionParam, declared: &Vec<String>, seen: &mut Vec<String>) -> (r: Result<()>)
    ensures
        r is Err ==> is_semantic_err(r),
        r is Ok <==> !has_name(declared@, param.name@) && !has_name(old(seen)@, param.name@),
        r is Ok ==> final(seen)@ == old(seen)@.push(param.name),
        r is Err ==> final(seen)@ == old(seen)@,
        has_name(declared@, param.name@) ==> (r matches Err(CaelumError::Semantic { message, .. })
            && message@ == "transition parameter `"@ + param.name@ + "` conflicts with an existing declaration"@),
        !has_name(declared@, param.name@) && has_name(old(seen)@, param.name@) ==> (r matches Err(CaelumError::Semantic { message, .. })
            && message@ == "duplicate transition parameter `"@ + param.name@ + "`"@),
{
    if contains_name(declared, &param.name) {
        let parts = ["transition parameter `", param.name.as_str(), "` conflicts with an existing declaration"];
        let e = semantic_error(&parts);
        proof {
            reveal_with_fuel(concat_views, 4);
            assert(parts@.drop_last().drop_last().drop_last() =~= Seq::<&str>::empty());
        }
        return Err(e);
    }
    if contains_name(seen, &param.name) {
        let parts = ["duplicate transition parameter `", param.name.as_str(), "`"];
        let e = semantic_error(&parts);
        proof {
            reveal_with_fuel(concat_views, 4);
            assert(parts@.drop_last().drop_last().drop_last() =~= Seq::<&str>::empty());
        }
        return Err(e);
    }
    seen.push(param.name.clone());
    Ok(())
}

fn clone_params(v: &Vec<TransitionParam>) -> (r: Vec<TransitionParam>)
    ensures
        r@.len() == v@.len(),
{
    let mut out: Vec<TransitionParam> = Vec::new();
    let mut i: usize = 0;
    while i < v.len()
        invariant
            i <= v@.len(),
            out@.len() == i,
        decreases v@.len() - i,
    {
        out.push(TransitionParam { name: v[i].name.clone(), domain: clone_domain(&v[i].domain) });
        i = i + 1;
    }
    out
}

impl Env {
    /// One variable per index value for an indexed declaration; the
    /// declaration itself otherwise.
    fn expand_var(&self, decl: &VarDecl) -> (r: Result<Vec<Item>>)
        ensures
            r matches Ok(v) ==> forall|k: int| 0 <= k < v@.len() ==> elaborated_item(#[trigger] v@[k]),
            r matches Ok(v) ==> item_rel(Item::Var(*decl), v@),
            decl.index is None ==> (r matches Ok(v) && v@.len() == 1 && item_same(v@[0], Item::Var(*decl))),
            r is Err ==> is_semantic_err(r),
    {
        let mut out: Vec<Item> = Vec::new();
        match &decl.index {
            None => {
                out.push(Item::Var(VarDecl {
                    name: decl.name.clone(),
                    index: None,
                    domain: clone_domain(&decl.domain),
                    span: decl.span,
                }));
            },
            Some(index) => {
                let elems = self.domain_elems(&index.domain)?;
                let mut i: usize = 0;
                while i < elems.len()
                    invariant
                        i <= elems@.len(),
                        out@.len() == i,
                        forall|k: int| 0 <= k < out@.len() ==> elaborated_item(#[trigger] out@[k]),
                        forall|k: int| 0 <= k < out@.len() ==> #[trigger] cell_of(*decl, elems@[k], out@[k]),
                    decreases elems@.len() - i,
                {
                    let ghost before = out@;
                    out.push(Item::Var(VarDecl {
                        name: indexed_name(&decl.name, &elems[i]),
                        index: None,
                        domain: clone_domain(&decl.domain),
                        span: decl.span,
                    }));
                    proof {
                        assert forall|k: int| 0 <= k < out@.len() implies #[trigger] cell_of(*decl, elems@[k], out@[k]) by {
                            if k < before.len() { assert(out@[k] == before[k]); }
                        }
                    }
                    i = i + 1;
                }
                proof {
                    assert forall|j: int| 0 <= j < out@.len() implies #[trigger] some_cell(*decl, out@[j]) by {
                        assert(cell_of(*decl, elems@[j], out@[j]));
                    }
                    if plain_elems(index.domain) is Some {
                        let xs = plain_elems(index.domain)->Some_0;
                        assert forall|j: int| 0 <= j < out@.len() implies #[trigger] cell_of(*decl, xs[j], out@[j]) by {
                            assert(cell_of(*decl, elems@[j], out@[j]));
                        }
                    }
                }
            },
        }
        Ok(out)
    }

    /// The domains of a transition's parameters, each checked to be finite.
    fn param_domains(&self, block: &TransitionBlock) -> (r: Result<Vec<Vec<Elem>>>)
        ensures
            r matches Ok(d) ==> d@.len() == block.params@.len(),
            r matches Ok(d) ==> (all_plain(block.params@) ==> rows_view(d@) == plains(block.params@)),
            r is Err ==> is_semantic_err(r),
    {
        let mut domains: Vec<Vec<Elem>> = Vec::new();
        let mut i: usize = 0;
        while i < block.params.len()
            invariant
                i <= block.params@.len(),
                domains@.len() == i,
                all_plain(block.params@) ==> forall|k: int| 0 <= k < i
                    ==> (#[trigger] domains@[k])@ == plain_elems(block.params@[k].domain)->Some_0,
            decreases block.params@.len() - i,
        {
            let param = &block.params[i];
            match self.domain_elems(&param.domain) {
                Ok(d) => {
                    let ghost before = domains@;
                    proof {
                        if all_plain(block.params@) {
                            assert(plain_elems(block.params@[i as int].domain) is Some);
                        }
                    }
                    domains.push(d);
                    proof {
                        if all_plain(block.params@) {
                            assert forall|k: int| 0 <= k < i + 1
                                implies (#[trigger] domains@[k])@ == plain_elems(block.params@[k].domain)->Some_0 by {
                                if k < i { assert(domains@[k] == before[k]); }
                            }
                        }
                    }
                },
                Err(_) => {
                    return Err(semantic_error(&[
                        "transition parameter domain must be finite (parameter `", param.name.as_str(), "` of `",
                        block.name.as_str(), "`)",
                    ]));
                },
            }
            i = i + 1;
        }
        proof {
            if all_plain(block.params@) {
                assert(rows_view(domains@) =~= plains(block.params@));
            }
        }
        Ok(domains)
    }

    /// One transition per tuple of parameter values, with the parameters
    /// substituted.
    fn expand_transition(&self, block: &TransitionBlock) -> (r: Result<Vec<TransitionBlock>>)
        ensures
            r matches Ok(v) ==> forall|k: int| 0 <= k < v@.len()
                ==> (#[trigger] v@[k]).params@.len() == 0 && is_core_expr(v@[k].expr),
            block.params@.len() == 0 && is_core_expr(block.expr) ==> (r matches Ok(v) && v@.len() == 1
                && v@[0].name == block.name && v@[0].params@.len() == 0 && v@[0].expr == block.expr
                && v@[0].span == block.span),
            r matches Ok(v) ==> (block.params@.len() == 0 ==> v@.len() == 1 && v@[0].name == block.name
                && v@[0].params@.len() == 0 && v@[0].span == block.span && elab_rel(block.expr, Seq::empty(), v@[0].expr)),
            r matches Ok(v) ==> (block.params@.len() > 0 ==> forall|j: int| 0 <= j < v@.len()
                ==> #[trigger] some_instance(*block, Item::Transition(v@[j]))),
            r matches Ok(v) ==> (block.params@.len() > 0 && all_plain(block.params@)
                ==> v@.len() == product(plains(block.params@)).len() && forall|j: int| 0 <= j < v@.len()
                    ==> #[trigger] instance_at(*block, product(plains(block.params@))[j], Item::Transition(v@[j]))),
            r is Err ==> is_semantic_err(r),
    {
        let mut result: Vec<TransitionBlock> = Vec::new();
        if block.params.len() == 0 {
            let expr = self.elab_expr(&block.expr, &Vec::new())?;
            result.push(TransitionBlock { name: block.name.clone(), params: Vec::new(), expr, span: block.span });
            return Ok(result);
        }
        let mut seen: Vec<String> = Vec::new();
        let mut i: usize = 0;
        while i < block.params.len()
            decreases block.params@.len() - i,
        {
            validate_param_name(&block.params[i], &self.declared, &mut seen)?;
            i = i + 1;
        }
        let domains = self.param_domains(block)?;
        let tuples = cartesian(&domains);
        let mut t: usize = 0;
        while t < tuples.len()
            invariant
                t <= tuples@.len(),
                block.params@.len() > 0,
                domains@.len() == block.params@.len(),
                forall|k: int| 0 <= k < tuples@.len() ==> (#[trigger] tuples@[k])@.len() == domains@.len(),
                forall|k: int| 0 <= k < result@.len()
                    ==> (#[trigger] result@[k]).params@.len() == 0 && is_core_expr(result@[k].expr),
                forall|k: int| 0 <= k < result@.len() ==> #[trigger] some_instance(*block, Item::Transition(result@[k])),
                result@.len() == t,
                forall|k: int| 0 <= k < result@.len() ==> #[trigger] instance_at(*block, rows_view(tuples@)[k], Item::Transition(result@[k])),
            decreases tuples@.len() - t,
        {
            let tuple = &tuples[t];
            let mut bindings: Vec<(String, Elem)> = Vec::new();
            let mut labels: Vec<String> = Vec::new();
            let ghost ps = block.params@;
            let ghost row = tuple@;
            let mut k: usize = 0;
            proof {
                assert(bindings@ =~= param_bindings(ps.take(0), row.take(0)));
                assert(string_views(labels@) =~= elem_labels(row.take(0)));
            }
            while k < block.params.len()
                invariant
                    k <= block.params@.len(),
                    tuple@.len() == block.params@.len(),
                    ps == block.params@,
                    row == tuple@,
                    bindings@ == param_bindings(ps.take(k as int), row.take(k as int)),
                    string_views(labels@) == elem_labels(row.take(k as int)),
                decreases block.params@.len() - k,
            {
                let ghost old_b = bindings@;
                bindings.insert(0, (block.params[k].name.clone(), clone_elem(&tuple[k])));
                let label = tuple[k].label();
                let ghost old_l = labels@;
                let ghost lab = label;
                labels.push(label);
                assert(labels@ == old_l.push(lab));
                assert(string_views(old_l).len() == old_l.len());
                assert(elem_labels(row.take(k as int)).len() == k);
                assert(old_l.len() == k);
                proof {
                    assert(bindings@ =~= param_bindings(ps.take(k + 1), row.take(k + 1))) by {
                        assert forall|i: int| 0 <= i < k + 1 implies #[trigger] bindings@[i] == param_bindings(ps.take(k + 1), row.take(k + 1))[i] by {
                            if i > 0 {
                                assert(bindings@[i] == old_b[i - 1]);
                            }
                        }
                    }
                    assert(string_views(labels@) =~= elem_labels(row.take(k + 1))) by {
                        assert forall|i: int| 0 <= i < k + 1 implies #[trigger] string_views(labels@)[i]
                            == elem_labels(row.take(k + 1))[i] by {
                            if i < k {
                                assert(labels@[i] == old_l[i]);
                                assert(string_views(old_l)[i] == elem_labels(row.take(k as int))[i]);
                            }
                        }
                    }
                }
                k = k + 1;
            }
            proof {
                assert(ps.take(ps.len() as int) =~= ps);
                assert(row.take(row.len() as int) =~= row);
            }
            let expr = self.elab_expr(&block.expr, &bindings)?;
            let name = instance_name(&block.name, &labels);
            let inst = TransitionBlock { name, params: Vec::new(), expr, span: block.span };
            proof {
                assert(instance_of(*block, row, inst));
                assert(some_instance(*block, Item::Transition(inst)));
                assert(row == rows_view(tuples@)[t as int]);
            }
            let ghost before = result@;
            result.push(inst);
            proof {
                assert forall|k: int| 0 <= k < result@.len() implies #[trigger] some_instance(*block, Item::Transition(result@[k])) by {
                    if k < before.len() { assert(result@[k] == before[k]); }
                }
                assert forall|k: int| 0 <= k < result@.len() implies #[trigger] instance_at(*block, rows_view(tuples@)[k], Item::Transition(result@[k])) by {
                    if k < before.len() { assert(result@[k] == before[k]); }
                }
            }
            t = t + 1;
        }
        proof {
            if all_plain(block.params@) {
                assert(rows_view(tuples@) == product(plains(block.params@)));
                assert(rows_view(tuples@).len() == tuples@.len());
            }
        }
        Ok(result)
    }

    /// The names of the instances a transition expands into.
    fn transition_instance_names(&self, block: &TransitionBlock) -> (r: Result<Vec<String>>)
        ensures
            block.params@.len() == 0 ==> (r matches Ok(v) && v@ == seq![block.name]),
            r is Err ==> is_semantic_err(r),
    {
        let mut names: Vec<String> = Vec::new();
        if block.params.len() == 0 {
            names.push(block.name.clone());
            return Ok(names);
        }
        let domains = self.param_domains(block)?;
        let tuples = cartesian(&domains);
        let mut t: usize = 0;
        while t < tuples.len()
            decreases tuples@.len() - t,
        {
            let mut labels: Vec<String> = Vec::new();
            let mut k: usize = 0;
            while k < tuples[t].len()
                invariant
                    t < tuples@.len(),
                decreases tuples@[t as int]@.len() - k,
            {
                labels.push(tuples[t][k].label());
                k = k + 1;
            }
            names.push(instance_name(&block.name, &labels));
            t = t + 1;
        }
        Ok(names)
    }

    /// Rewrites each fairness constraint into one per instance of its
    /// transition.
    fn expand_fairness(&self, decl: &FairnessDecl, instances: &Vec<(String, Vec<String>)>) -> (r: Result<FairnessDecl>)
        ensures
            (forall|j: int| 0 <= j < instances@.len()
                ==> (#[trigger] instances@[j]).1@.len() == 1 && instances@[j].1@[0]@ == instances@[j].0@)
                ==> (r matches Ok(d) ==> d.span == decl.span && d.constraints@.len() == decl.constraints@.len()
                    && forall|k: int| 0 <= k < d.constraints@.len()
                        ==> #[trigger] constraint_same(d.constraints@[k], decl.constraints@[k])),
            r matches Ok(d) ==> d.span == decl.span,
            r is Ok <==> fairness_known(decl.constraints@, instances@),
            r matches Ok(d) ==> constraint_views(d.constraints@) == renamed_constraints(decl.constraints@, instances@),
            r is Err ==> is_semantic_err(r),
    {
        let mut constraints: Vec<FairnessConstraint> = Vec::new();
        let ghost single = forall|j: int| 0 <= j < instances@.len()
            ==> (#[trigger] instances@[j]).1@.len() == 1 && instances@[j].1@[0]@ == instances@[j].0@;
        let mut c: usize = 0;
        while c < decl.constraints.len()
            invariant
                c <= decl.constraints@.len(),
                single == forall|j: int| 0 <= j < instances@.len()
                    ==> (#[trigger] instances@[j]).1@.len() == 1 && instances@[j].1@[0]@ == instances@[j].0@,
                single ==> constraints@.len() == c,
                single ==> forall|k: int| 0 <= k < constraints@.len()
                    ==> #[trigger] constraint_same(constraints@[k], decl.constraints@[k]),
                fairness_known(decl.constraints@.take(c as int), instances@),
                constraint_views(constraints@) == renamed_constraints(decl.constraints@.take(c as int), instances@),
            decreases decl.constraints@.len() - c,
        {
            let constraint = &decl.constraints[c];
            proof {
                assert(decl.constraints@.take(c + 1).drop_last() =~= decl.constraints@.take(c as int));
                assert(decl.constraints@.take(c + 1).last() == *constraint);
            }
            let k = match find_key(instances, &constraint.transition) {
                Some(k) => k,
                None => {
                    proof {
                        assert(!fairness_known(decl.constraints@, instances@)) by {
                            assert(decl.constraints@[c as int] == *constraint);
                        }
                    }
                    return Err(semantic_error(&[
                        "unknown transition in fairness declaration `", constraint.transition.as_str(), "`",
                    ]));
                },
            };
            let names = &instances[k].1;
            proof {
                if single {
                    lemma_lookup_member(instances@, constraint.transition@);
                    let j = choose|j: int| 0 <= j < instances@.len() && (#[trigger] instances@[j]).0@ == constraint.transition@
                        && Some(instances@[j].1) == lookup(instances@, constraint.transition@);
                    assert(instances@[j].1 == *names);
                    assert(names@.len() == 1 && names@[0]@ == constraint.transition@);
                }
            }
            let ghost before = constraints@;
            let ghost base = constraint_views(constraints@);
            let mut i: usize = 0;
            while i < names.len()
                invariant
                    i <= names@.len(),
                    constraint_views(constraints@) == base + instance_constraints(constraint.strength, names@.take(i as int)),
                    constraints@.len() == before.len() + i,
                    forall|m: int| 0 <= m < before.len() ==> #[trigger] constraints@[m] == before[m],
                    forall|m: int| 0 <= m < i ==> (#[trigger] constraints@[before.len() + m]).transition == names@[m]
                        && constraints@[before.len() + m].strength == constraint.strength,
                decreases names@.len() - i,
            {
                let ghost prev = constraints@;
                constraints.push(FairnessConstraint { strength: constraint.strength, transition: names[i].clone() });
                proof {
                    assert(constraint_views(constraints@) =~= constraint_views(prev).push(constraint_view(constraints@[prev.len() as int])));
                    assert(instance_constraints(constraint.strength, names@.take(i + 1))
                        =~= instance_constraints(constraint.strength, names@.take(i as int)).push((constraint.strength, names@[i as int]@)));
                }
                i = i + 1;
            }
            proof {
                assert(names@.take(names@.len() as int) =~= names@);
                assert(lookup(instances@, constraint.transition@) == Some(*names));
                assert(fairness_known(decl.constraints@.take(c + 1), instances@)) by {
                    assert forall|m: int| 0 <= m < c + 1 implies lookup(instances@, (#[trigger] decl.constraints@.take(c + 1)[m]).transition@) is Some by {
                        if m < c {
                            assert(decl.constraints@.take(c + 1)[m] == decl.constraints@.take(c as int)[m]);
                        }
                    }
                }
            }
            proof {
                if single {
                    assert(before.len() == c);
                    assert(constraints@[before.len() + 0int].transition == names@[0]);
                    assert(constraint_same(constraints@[c as int], decl.constraints@[c as int]));
                    assert forall|m: int| 0 <= m < constraints@.len()
                        implies #[trigger] constraint_same(constraints@[m], decl.constraints@[m]) by {
                        if m < c {
                            assert(constraints@[m] == before[m]);
                        }
                    }
                }
            }
            c = c + 1;
        }
        proof {
            assert(decl.constraints@.take(decl.constraints@.len() as int) =~= decl.constraints@);
        }
        Ok(FairnessDecl { constraints, span: decl.span })
    }
}

fn clone_imports(v: &Vec<crate::syntax::ast::ImportDecl>) -> (r: Vec<crate::syntax::ast::ImportDecl>)
    ensures
        r@ == v@,
{
    let mut out: Vec<crate::syntax::ast::ImportDecl> = Vec::new();
    let mut i: usize = 0;
    while i < v.len()
        invariant
            i <= v@.len(),
            out@ == v@.take(i as int),
        decreases v@.len() - i,
    {
        out.push(crate::syntax::ast::ImportDecl { path: v[i].path.clone() });
        proof {
            assert(v@.take(i as int + 1) == v@.take(i as int).push(v@[i as int]));
        }
        i = i + 1;
    }
    assert(v@.take(v@.len() as int) == v@);
    out
}

/// The two lists hold the same declarations, position by position.
pub open spec fn items_same(a: Seq<Item>, b: Seq<Item>) -> bool {
    a.len() == b.len() && forall|i: int| 0 <= i < a.len() ==> #[trigger] item_same(a[i], b[i])
}

/// `out` is an elaboration of `file`: every item of it is elaborated, it
/// keeps the imports, and a file that is already elaborated comes back item
/// for item as it was.
pub open spec fn elaboration_of(file: SourceFile, out: SourceFile) -> bool {
    &&& is_elaborated(out)
    &&& out.imports@ == file.imports@
    &&& is_elaborated(file) ==> items_same(out.items@, file.items@)
}

/// Elaborating twice gives what elaborating once gave: the second pass
/// returns each item of the first as it was.
pub proof fn law_elaborate_idempotent(file: SourceFile, once: SourceFile, twice: SourceFile)
    requires
        elaboration_of(file, once),
        elaboration_of(once, twice),
    ensures
        items_same(twice.items@, once.items@),
        twice.imports@ == file.imports@,
{
}

/// Elaborates a merged file into the core syntax. Every item of the result
/// is elaborated, and a file that is already elaborated comes back item for
/// item as it was.
pub fn elaborate(file: &SourceFile) -> (r: Result<SourceFile>)
    ensures
        r matches Ok(out) ==> elaboration_of(*file, out),
        r matches Ok(out) ==> exists|segs: Seq<Seq<Item>>| #[trigger] expansions(file.items@, segs, out.items@),
        r matches Ok(out) ==> (out.module is Some <==> file.module is Some),
        r matches Ok(out) ==> (file.module matches Some(m) ==> out.module->Some_0.parts@ == m.parts@),
        r is Err ==> elab_err(r),
{
    let env = Env::collect(file)?;
    let items = &file.items;

    let mut instances: Vec<(String, Vec<String>)> = Vec::new();
    let ghost elab_in = is_elaborated(*file);
    let mut i: usize = 0;
    while i < items.len()
        invariant
            items@ == file.items@,
            i <= items@.len(),
            elab_in == is_elaborated(*file),
            elab_in ==> forall|j: int| 0 <= j < instances@.len()
                ==> (#[trigger] instances@[j]).1@.len() == 1 && instances@[j].1@[0]@ == instances@[j].0@,
        decreases items@.len() - i,
    {
        if let Item::Transition(block) = &items[i] {
            proof {
                if elab_in {
                    assert(elaborated_item(items@[i as int]));
                }
            }
            let names = match env.transition_instance_names(block) {
                Ok(names) => names,
                Err(e) => {
                    return Err(e);
                },
            };
            let ghost before = instances@;
            instances.insert(0, (block.name.clone(), names));
            proof {
                if elab_in {
                    assert forall|j: int| 0 <= j < instances@.len()
                        implies (#[trigger] instances@[j]).1@.len() == 1 && instances@[j].1@[0]@ == instances@[j].0@ by {
                        if j > 0 {
                            assert(instances@[j] == before[j - 1]);
                        }
                    }
                }
            }
        }
        i = i + 1;
    }

    let mut out: Vec<Item> = Vec::new();
    let ghost mut segs: Seq<Seq<Item>> = Seq::empty();
    let mut i: usize = 0;
    while i < items.len()
        invariant
            items@ == file.items@,
            i <= items@.len(),
            segs.len() == i,
            out@ == segs.flatten(),
            forall|k: int| 0 <= k < i ==> #[trigger] item_rel(items@[k], segs[k]),
            elab_in == is_elaborated(*file),
            elab_in ==> forall|j: int| 0 <= j < instances@.len()
                ==> (#[trigger] instances@[j]).1@.len() == 1 && instances@[j].1@[0]@ == instances@[j].0@,
            forall|k: int| 0 <= k < out@.len() ==> elaborated_item(#[trigger] out@[k]),
            elab_in ==> out@.len() == i,
            elab_in ==> forall|k: int| 0 <= k < out@.len() ==> #[trigger] item_same(out@[k], items@[k]),
        decreases items@.len() - i,
    {
        let ghost before = out@;
        proof {
            if elab_in {
                assert(elaborated_item(items@[i as int]));
            }
        }
        match &items[i] {
            Item::TypeDecl(decl) => {
                out.push(Item::TypeDecl(TypeDecl {
                    name: decl.name.clone(),
                    domain: clone_domain(&decl.domain),
                    span: decl.span,
                }));
            },
            Item::Const(decl) => {
                out.push(Item::Const(ConstDecl { name: decl.name.clone(), expr: clone_expr(&decl.expr), span: decl.span }));
            },
            Item::Var(decl) => {
                let mut vars = env.expand_var(decl)?;
                let ghost all_vars = vars@;
                let n0 = vars.len();
                let mut k: usize = 0;
                while vars.len() > 0
                    invariant
                        vars@ == all_vars.skip(k as int),
                        k <= all_vars.len(),
                        all_vars.len() == n0,
                        forall|m: int| 0 <= m < all_vars.len() ==> elaborated_item(#[trigger] all_vars[m]),
                        forall|m: int| 0 <= m < out@.len() ==> elaborated_item(#[trigger] out@[m]),
                        out@.len() == before.len() + k,
                        forall|m: int| 0 <= m < before.len() ==> #[trigger] out@[m] == before[m],
                        forall|m: int| 0 <= m < k ==> #[trigger] out@[before.len() + m] == all_vars[m],
                    decreases vars@.len(),
                {
                    assert(k < all_vars.len());
                    let v = vars.remove(0);
                    proof {
                        assert(v == all_vars[k as int]);
                        assert(vars@ == all_vars.skip(k as int + 1));
                    }
                    out.push(v);
                    k = k + 1;
                }
                proof {
                    assert(k == all_vars.len());
                    if elab_in {
                        assert(all_vars.len() == 1);
                        assert(out@[before.len() + 0int] == all_vars[0]);
                    }
                    let seg = out@.subrange(before.len() as int, out@.len() as int);
                    assert forall|m: int| 0 <= m < seg.len() implies seg[m] == all_vars[m] by {
                        assert(seg[m] == out@[before.len() + m]);
                    }
                    assert(seg =~= all_vars);
                }
            },
            Item::Init(block) => {
                let none: Vec<(String, Elem)> = Vec::new();
                let expr = env.elab_expr(&block.expr, &none)?;
                proof { assert(none@ =~= Seq::<(String, Elem)>::empty()); }
                out.push(Item::Init(InitBlock { expr, span: block.span }));
            },
            Item::Property(block) => {
                let none: Vec<(String, Elem)> = Vec::new();
                let expr = env.elab_expr(&block.expr, &none)?;
                proof { assert(none@ =~= Seq::<(String, Elem)>::empty()); }
                out.push(Item::Property(PropertyBlock { kind: block.kind, name: block.name.clone(), expr, span: block.span }));
            },
            Item::Transition(block) => {
                let mut blocks = env.expand_transition(block)?;
                let ghost all_blocks = blocks@;
                let n0 = blocks.len();
                let mut k: usize = 0;
                while blocks.len() > 0
                    invariant
                        blocks@ == all_blocks.skip(k as int),
                        k <= all_blocks.len(),
                        all_blocks.len() == n0,
                        forall|m: int| 0 <= m < all_blocks.len()
                            ==> (#[trigger] all_blocks[m]).params@.len() == 0 && is_core_expr(all_blocks[m].expr),
                        forall|m: int| 0 <= m < out@.len() ==> elaborated_item(#[trigger] out@[m]),
                        out@.len() == before.len() + k,
                        forall|m: int| 0 <= m < before.len() ==> #[trigger] out@[m] == before[m],
                        forall|m: int| 0 <= m < k ==> #[trigger] out@[before.len() + m] == Item::Transition(all_blocks[m]),
                    decreases blocks@.len(),
                {
                    assert(k < all_blocks.len());
                    let b = blocks.remove(0);
                    proof {
                        assert(b == all_blocks[k as int]);
                        assert(blocks@ == all_blocks.skip(k as int + 1));
                    }
                    out.push(Item::Transition(b));
                    k = k + 1;
                }
                proof {
                    assert(k == all_blocks.len());
                    if elab_in {
                        assert(all_blocks.len() == 1);
                        assert(out@[before.len() + 0int] == Item::Transition(all_blocks[0]));
                        assert(all_blocks[0].params@ =~= block.params@);
                    }
                    let seg = out@.subrange(before.len() as int, out@.len() as int);
                    assert forall|m: int| 0 <= m < seg.len() implies seg[m] == Item::Transition(all_blocks[m]) by {
                        assert(seg[m] == out@[before.len() + m]);
                    }
                    if block.params@.len() > 0 {
                        assert forall|m: int| 0 <= m < seg.len() implies #[trigger] some_instance(*block, seg[m]) by {
                            assert(some_instance(*block, Item::Transition(all_blocks[m])));
                        }
                    }
                    assert(item_rel(items@[i as int], seg));
                }
            },
            Item::Fairness(decl) => {
                let expanded = env.expand_fairness(decl, &instances)?;
                out.push(Item::Fairness(expanded));
            },
        }
        proof {
            if elab_in {
                assert(item_same(out@[i as int], items@[i as int]));
                assert forall|k: int| 0 <= k < out@.len() implies #[trigger] item_same(out@[k], items@[k]) by {
                    if k < i {
                        assert(out@[k] == before[k]);
                    }
                }
            }
            let seg = out@.subrange(before.len() as int, out@.len() as int);
            assert(out@ =~= before + seg);
            assert(item_rel(items@[i as int], seg));
            segs.lemma_flatten_push(seg);
            let old_segs = segs;
            segs = segs.push(seg);
            assert forall|k: int| 0 <= k < i + 1 implies #[trigger] item_rel(items@[k], segs[k]) by {
                if k < i { assert(segs[k] == old_segs[k]); }
            }
        }
        i = i + 1;
    }
    proof {
        assert(expansions(file.items@, segs, out@));
    }
    let module = match &file.module {
        Some(m) => Some(crate::syntax::ast::ModuleName { parts: clone_strings(&m.parts) }),
        None => None,
    };
    let result = SourceFile { module, imports: clone_imports(&file.imports), items: out };
    proof {
        assert(expansions(file.items@, segs, result.items@));
    }
    Ok(result)
}

} // verus!
