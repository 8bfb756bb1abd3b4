//! SAT solver backends for the bounded model checker. Literals are nonzero
//! integers in DIMACS numbering: variable `v` is the literal `v`, its
//! negation `-v`.

use vstd::prelude::*;

use crate::diagnostics::{concat_strs, CaelumError, Result};
use cadical::Solver as CadicalEngine;
use varisat::Solver as VarisatEngine;
use z3::ast::Bool as Z3Bool;
use z3::{Model as Z3Model, SatResult as Z3SatResult, Solver as Z3Engine};

verus! {

pub type SatLit = i32;

/// The value of a literal under an assignment of the variables (indexed
/// from 1).
pub open spec fn lit_val(asg: Seq<bool>, l: int) -> bool {
    if l > 0 { asg[l] } else { !asg[-l] }
}

/// Some literal of the clause is true.
pub open spec fn clause_sat(asg: Seq<bool>, c: Seq<SatLit>) -> bool {
    exists|k: int| 0 <= k < c.len() && lit_val(asg, #[trigger] c[k] as int)
}

/// The assignment satisfies every clause.
pub open spec fn satisfies(asg: Seq<bool>, clauses: Seq<Seq<SatLit>>) -> bool {
    forall|i: int| 0 <= i < clauses.len() ==> #[trigger] clause_sat(asg, clauses[i])
}

/// Every literal of every clause names one of the first `vars` variables.
pub open spec fn clauses_in_range(clauses: Seq<Seq<SatLit>>, vars: nat) -> bool {
    forall|i: int, k: int| 0 <= i < clauses.len() && 0 <= k < clauses[i].len()
        ==> (#[trigger] clauses[i][k]) != 0 && -vars <= clauses[i][k] <= vars
}

/// The interface the encoder drives a SAT solver through.
pub trait Solver {
    /// How many variables have been allocated.
    spec fn vars(&self) -> nat;

    /// How many variables the backend supports.
    spec fn limit(&self) -> nat;

    /// The clauses given so far, in order.
    spec fn clauses(&self) -> Seq<Seq<SatLit>>;

    /// A satisfying assignment can be read.
    spec fn has_model(&self) -> bool;

    /// Whether the backend's word that a formula is satisfiable comes with
    /// an assignment, read through `model_value`, that satisfies it.
    spec fn exact() -> bool;

    proof fn lemma_limit(&self)
        ensures
            self.limit() < i32::MAX,
    ;

    /// Whether another variable can be allocated.
    fn can_add_var(&self) -> (r: bool)
        ensures
            r == (self.vars() < self.limit()),
    ;

    fn new_var(&mut self) -> (r: i32)
        requires
            old(self).vars() < old(self).limit(),
        ensures
            r == old(self).vars() + 1,
            final(self).vars() == r,
            final(self).limit() == old(self).limit(),
            final(self).clauses() == old(self).clauses(),
    ;

    fn add_clause(&mut self, clause: &[SatLit])
        requires
            old(self).vars() <= old(self).limit(),
            forall|k: int| 0 <= k < clause@.len()
                ==> (#[trigger] clause@[k]) != 0 && -old(self).vars() <= clause@[k] <= old(self).vars(),
        ensures
            final(self).vars() == old(self).vars(),
            final(self).limit() == old(self).limit(),
            final(self).clauses() == old(self).clauses().push(clause@),
    ;

    /// Whether the clauses are satisfiable; for an exact backend, a `true`
    /// comes with a model that satisfies them, and a `false` means that no
    /// assignment does.
    fn solve(&mut self) -> (r: Result<bool>)
        requires
            old(self).vars() <= old(self).limit(),
            clauses_in_range(old(self).clauses(), old(self).vars()),
        ensures
            final(self).vars() == old(self).vars(),
            final(self).limit() == old(self).limit(),
            final(self).clauses() == old(self).clauses(),
            r == Ok::<bool, CaelumError>(true) ==> final(self).has_model(),
            r == Ok::<bool, CaelumError>(true) && Self::exact() ==> satisfies(
                Seq::new(final(self).vars() + 1, |v: int| final(self).model_val(v)),
                final(self).clauses(),
            ),
            r == Ok::<bool, CaelumError>(false) && Self::exact() ==> forall|asg: Seq<bool>|
                !#[trigger] satisfies(asg, final(self).clauses()),
            r is Err ==> r->Err_0 is Model,
    ;

    /// The value of variable `var` in the satisfying assignment read last.
    spec fn model_val(&self, var: int) -> bool;

    fn model_value(&self, var: i32) -> (r: bool)
        requires
            var > 0,
            self.has_model(),
        ensures
            r == self.model_val(var as int),
    ;
}

// ---------------------------------------------------------------------------
// varisat

#[verifier::external_type_specification]
#[verifier::external_body]
pub struct ExVarisatSolver<'a>(VarisatEngine<'a>);

/// The number of variables varisat supports (`Var::max_count`).
pub const VARISAT_MAX_VARS: usize = 268435456;

/// The clauses a varisat solver holds, in the order they were added, in
/// DIMACS numbering.
pub uninterp spec fn varisat_formula(solver: VarisatEngine<'static>) -> Seq<Seq<i32>>;

/// The last `solve` found the solver's formula satisfiable.
pub uninterp spec fn varisat_solved(solver: VarisatEngine<'static>) -> bool;

/// `varisat::Solver::new`: an empty solver.
#[verifier::external_body]
fn varisat_new() -> (r: VarisatEngine<'static>)
    ensures
        varisat_formula(r) == Seq::<Seq<i32>>::empty(),
{
    VarisatEngine::new()
}

/// `ExtendFormula::add_clause` on a varisat solver, each literal given in
/// DIMACS numbering and turned into a `Lit` by `Lit::from_dimacs`, which
/// supports variables up to `VARISAT_MAX_VARS`; the clause joins the formula.
#[verifier::external_body]
fn varisat_add_clause(solver: &mut VarisatEngine<'static>, clause: &[i32])
    requires
        forall|k: int| 0 <= k < clause@.len()
            ==> (#[trigger] clause@[k]) != 0 && -VARISAT_MAX_VARS <= clause@[k] <= VARISAT_MAX_VARS,
    ensures
        varisat_formula(*final(solver)) == varisat_formula(*old(solver)).push(clause@),
{
    let lits: Vec<varisat::Lit> = clause.iter().map(|&l| varisat::Lit::from_dimacs(l as isize)).collect();
    varisat::ExtendFormula::add_clause(solver, &lits);
}

/// `varisat::Solver::solve`: whether the clauses added are satisfiable, or
/// the text of the solver's error; the formula stays as it was, and a
/// `false` means that no assignment satisfies it. Varisat refuses to solve
/// again after an unrecoverable error; the one caller never does.
#[verifier::external_body]
fn varisat_solve(solver: &mut VarisatEngine<'static>) -> (r: core::result::Result<bool, String>)
    ensures
        varisat_formula(*final(solver)) == varisat_formula(*old(solver)),
        r == core::result::Result::<bool, String>::Ok(true) ==> varisat_solved(*final(solver)),
        r == core::result::Result::<bool, String>::Ok(false) ==> forall|asg: Seq<bool>|
            !#[trigger] satisfies(asg, varisat_formula(*final(solver))),
{
    solver.solve().map_err(|e| format!("{e}"))
}

/// `varisat::Solver::model`: after a satisfiable solve, "the set of literals
/// that satisfy the formula", in DIMACS numbering: every clause has a literal
/// in it, and it holds no literal together with its negation.
#[verifier::external_body]
fn varisat_model(solver: &VarisatEngine<'static>) -> (r: Option<Vec<i32>>)
    requires
        varisat_solved(*solver),
    ensures
        r is Some,
        r matches Some(m) ==> forall|i: int| #![trigger varisat_formula(*solver)[i]] 0 <= i < varisat_formula(*solver).len()
            ==> exists|k: int| 0 <= k < varisat_formula(*solver)[i].len()
                && m@.contains(#[trigger] varisat_formula(*solver)[i][k]),
        r matches Some(m) ==> forall|j: int, k: int| 0 <= j < m@.len() && 0 <= k < m@.len()
            ==> (#[trigger] m@[j]) != -(#[trigger] m@[k]),
        r matches Some(m) ==> forall|j: int| 0 <= j < m@.len() ==> (#[trigger] m@[j]) != 0 && m@[j] != i32::MIN,
{
    solver.model().map(|m| m.iter().map(|l| l.to_dimacs() as i32).collect())
}

pub struct VarisatSolver {
    solver: VarisatEngine<'static>,
    next_var: u32,
    last_model: Vec<bool>,
    /// Set once the solver reported an error; it is not asked again.
    failed: bool,
}

impl VarisatSolver {
    pub fn new() -> (r: Self)
        ensures
            r.vars() == 0,
            r.limit() == VARISAT_MAX_VARS,
            r.clauses() == Seq::<Seq<SatLit>>::empty(),
    {
        Self { solver: varisat_new(), next_var: 0, last_model: Vec::new(), failed: false }
    }
}

impl Solver for VarisatSolver {
    closed spec fn vars(&self) -> nat {
        self.next_var as nat
    }

    closed spec fn limit(&self) -> nat {
        VARISAT_MAX_VARS as nat
    }

    closed spec fn clauses(&self) -> Seq<Seq<SatLit>> {
        varisat_formula(self.solver)
    }

    closed spec fn has_model(&self) -> bool {
        true
    }

    open spec fn exact() -> bool {
        true
    }

    closed spec fn model_val(&self, var: int) -> bool {
        0 <= var < self.last_model@.len() && self.last_model@[var]
    }

    proof fn lemma_limit(&self) {
    }

    fn can_add_var(&self) -> (r: bool) {
        (self.next_var as usize) < VARISAT_MAX_VARS
    }

    fn new_var(&mut self) -> (r: i32) {
        self.next_var = self.next_var + 1;
        self.next_var as i32
    }

    fn add_clause(&mut self, clause: &[SatLit]) {
        varisat_add_clause(&mut self.solver, clause);
    }

    fn solve(&mut self) -> (r: Result<bool>) {
        if self.failed {
            return Err(CaelumError::Model { message: "varisat solver error: solver already failed".to_owned() });
        }
        let result = match varisat_solve(&mut self.solver) {
            Ok(b) => b,
            Err(message) => {
                self.failed = true;
                return Err(CaelumError::Model { message: concat_strs(&["varisat solver error: ", message.as_str()]) });
            },
        };
        if result {
            let model = match varisat_model(&self.solver) {
                Some(m) => m,
                None => Vec::new(),
            };
            let ghost f = varisat_formula(self.solver);
            let count = self.next_var as usize;
            let size: usize = if count < usize::MAX { count + 1 } else { count };
            let mut values: Vec<bool> = Vec::new();
            let mut i: usize = 0;
            while i < size
                invariant
                    i <= size,
                    values@.len() == i,
                decreases size - i,
            {
                values.push(false);
                i = i + 1;
            }
            let mut k: usize = 0;
            while k < model.len()
                invariant
                    values@.len() == size,
                    k <= model@.len(),
                    forall|j: int, l: int| 0 <= j < model@.len() && 0 <= l < model@.len()
                        ==> (#[trigger] model@[j]) != -(#[trigger] model@[l]),
                    forall|j: int| 0 <= j < model@.len() ==> (#[trigger] model@[j]) != 0 && model@[j] != i32::MIN,
                    forall|j: int| 0 <= j < k && lit_index(#[trigger] model@[j]) < size
                        ==> values@[lit_index(model@[j])] == (model@[j] > 0),
                decreases model@.len() - k,
            {
                let lit = model[k];
                if lit != i32::MIN {
                    let idx: usize = if lit < 0 { (-lit) as usize } else { lit as usize };
                    if idx < values.len() {
                        let ghost before = values@;
                        values.set(idx, lit > 0);
                        proof {
                            assert forall|j: int| 0 <= j < k + 1 && lit_index(#[trigger] model@[j]) < size
                                implies values@[lit_index(model@[j])] == (model@[j] > 0) by {
                                if lit_index(model@[j]) == idx {
                                    assert(model@[j] != -model@[k as int]);
                                    assert(model@[j] == lit);
                                }
                            }
                        }
                    }
                }
                k = k + 1;
            }
            self.last_model = values;
            proof {
                let asg = Seq::new(self.vars() + 1, |v: int| self.model_val(v));
                assert forall|i: int| 0 <= i < f.len() implies #[trigger] clause_sat(asg, f[i]) by {
                    let kk = choose|kk: int| 0 <= kk < f[i].len() && model@.contains(#[trigger] f[i][kk]);
                    let l = f[i][kk];
                    let j = choose|j: int| 0 <= j < model@.len() && model@[j] == l;
                    assert(l != 0 && -self.vars() <= l <= self.vars());
                    assert(lit_index(model@[j]) < size);
                    assert(lit_val(asg, l as int));
                }
            }
        }
        Ok(result)
    }

    fn model_value(&self, var: i32) -> (r: bool) {
        let idx = var as usize;
        if idx < self.last_model.len() {
            self.last_model[idx]
        } else {
            false
        }
    }
}

/// The variable a literal names.
pub open spec fn lit_index(l: i32) -> int {
    if l < 0 { -l } else { l as int }
}

// ---------------------------------------------------------------------------
// CaDiCaL

/// A CaDiCaL solver instance. Verus cannot declare `cadical::Solver`
/// itself (its type parameter is bound by a trait of the crate), so it is
/// held here, out of the verifier's sight.
#[verifier::external_body]
pub struct CadicalHandle {
    inner: CadicalEngine<cadical::Timeout>,
}

/// What `cadical::Solver::status` returns: the outcome of the last solve,
/// `None` once a clause has been added since.
pub uninterp spec fn cadical_status(solver: CadicalHandle) -> Option<bool>;

/// The clauses a CaDiCaL solver holds, in the order they were added, in
/// DIMACS numbering.
pub uninterp spec fn cadical_formula(solver: CadicalHandle) -> Seq<Seq<i32>>;

/// What `cadical::Solver::value` returns for a literal in the last solution.
pub uninterp spec fn cadical_value_of(solver: CadicalHandle, lit: i32) -> Option<bool>;

/// `cadical::Solver::new`: an empty solver.
#[verifier::external_body]
fn cadical_new() -> (r: CadicalHandle)
    ensures
        cadical_status(r) is None,
        cadical_formula(r) == Seq::<Seq<i32>>::empty(),
{
    CadicalHandle { inner: CadicalEngine::new() }
}

/// `cadical::Solver::add_clause`, whose literals must be nonzero and
/// different from `i32::MIN`: the clause joins the formula and the solver's
/// status becomes `None`.
#[verifier::external_body]
fn cadical_add_clause(solver: &mut CadicalHandle, clause: &[i32])
    requires
        forall|k: int| 0 <= k < clause@.len() ==> (#[trigger] clause@[k]) != 0 && clause@[k] != i32::MIN,
    ensures
        cadical_status(*final(solver)) is None,
        cadical_formula(*final(solver)) == cadical_formula(*old(solver)).push(clause@),
{
    solver.inner.add_clause(clause.iter().copied());
}

/// `cadical::Solver::solve`: `Some(true)` when satisfiable, `Some(false)`
/// when not (no assignment satisfies the formula), `None` when the solver
/// gave up; it is also the new status, and the formula stays as it was. After `Some(true)`, the solution makes a
/// literal of every clause true, and a negated literal takes the opposite
/// value of its literal.
#[verifier::external_body]
fn cadical_solve(solver: &mut CadicalHandle) -> (r: Option<bool>)
    ensures
        cadical_status(*final(solver)) == r,
        cadical_formula(*final(solver)) == cadical_formula(*old(solver)),
        r == Some(false) ==> forall|asg: Seq<bool>| !#[trigger] satisfies(asg, cadical_formula(*final(solver))),
        r == Some(true) ==> forall|i: int| #![trigger cadical_formula(*final(solver))[i]] 0 <= i < cadical_formula(*final(solver)).len()
            ==> exists|k: int| 0 <= k < cadical_formula(*final(solver))[i].len()
                && cadical_value_of(*final(solver), #[trigger] cadical_formula(*final(solver))[i][k]) == Some(true),
        r == Some(true) ==> forall|l: i32| l != 0 && l != i32::MIN
            ==> #[trigger] cadical_value_of(*final(solver), (-l) as i32) == match cadical_value_of(*final(solver), l) {
                Some(b) => Some(!b),
                None => None::<bool>,
            },
{
    solver.inner.solve()
}

/// `cadical::Solver::value`: the value of a literal in the last solution,
/// which must exist; `None` when either value satisfies the formula.
#[verifier::external_body]
fn cadical_value(solver: &CadicalHandle, lit: i32) -> (r: Option<bool>)
    requires
        cadical_status(*solver) == Some(true),
        lit != 0,
        lit != i32::MIN,
    ensures
        r == cadical_value_of(*solver, lit),
{
    solver.inner.value(lit)
}

pub struct CadicalSolver {
    solver: CadicalHandle,
    next_var: u32,
}

impl CadicalSolver {
    pub fn new() -> (r: Self)
        ensures
            r.vars() == 0,
            r.limit() == i32::MAX - 1,
            r.clauses() == Seq::<Seq<SatLit>>::empty(),
    {
        Self { solver: cadical_new(), next_var: 0 }
    }
}

impl Solver for CadicalSolver {
    closed spec fn vars(&self) -> nat {
        self.next_var as nat
    }

    closed spec fn limit(&self) -> nat {
        (i32::MAX - 1) as nat
    }

    closed spec fn clauses(&self) -> Seq<Seq<SatLit>> {
        cadical_formula(self.solver)
    }

    closed spec fn has_model(&self) -> bool {
        cadical_status(self.solver) == Some(true)
    }

    open spec fn exact() -> bool {
        true
    }

    closed spec fn model_val(&self, var: int) -> bool {
        cadical_value_of(self.solver, var as i32) == Some(true)
    }

    proof fn lemma_limit(&self) {
    }

    fn can_add_var(&self) -> (r: bool) {
        self.next_var < (i32::MAX - 1) as u32
    }

    fn new_var(&mut self) -> (r: i32) {
        self.next_var = self.next_var + 1;
        self.next_var as i32
    }

    fn add_clause(&mut self, clause: &[SatLit]) {
        cadical_add_clause(&mut self.solver, clause);
    }

    fn solve(&mut self) -> (r: Result<bool>) {
        let r = match cadical_solve(&mut self.solver) {
            Some(true) => Ok(true),
            Some(false) => Ok(false),
            None => Err(CaelumError::Model { message: "cadical solver returned unknown".to_owned() }),
        };
        proof {
            if r == Ok::<bool, CaelumError>(true) {
                let f = cadical_formula(self.solver);
                let asg = Seq::new(self.vars() + 1, |v: int| self.model_val(v));
                assert forall|i: int| 0 <= i < f.len() implies #[trigger] clause_sat(asg, f[i]) by {
                    let k = choose|k: int| 0 <= k < f[i].len()
                        && cadical_value_of(self.solver, #[trigger] f[i][k]) == Some(true);
                    let l = f[i][k];
                    assert(l != 0 && -self.vars() <= l <= self.vars());
                    if l < 0 {
                        assert(cadical_value_of(self.solver, (-l) as i32) == Some(false));
                    }
                    assert(lit_val(asg, l as int));
                }
            }
        }
        r
    }

    fn model_value(&self, var: i32) -> (r: bool) {
        match cadical_value(&self.solver, var) {
            Some(b) => b,
            None => false,
        }
    }
}


// ---------------------------------------------------------------------------
// Z3, used as a plain SAT solver: each variable is a fresh boolean constant
// and each clause the disjunction of its literals.

#[verifier::external_type_specification]
#[verifier::external_body]
pub struct ExZ3Solver(Z3Engine);

#[verifier::external_type_specification]
#[verifier::external_body]
pub struct ExZ3Bool(Z3Bool);

#[verifier::external_type_specification]
#[verifier::external_body]
pub struct ExZ3Model(Z3Model);

/// `z3::Solver::new`: an empty solver in the thread's context.
#[verifier::external_body]
fn z3_solver_new() -> Z3Engine {
    Z3Engine::new()
}

/// `z3::ast::Bool::fresh_const`: a boolean constant distinct from every
/// other.
#[verifier::external_body]
fn z3_fresh_bool() -> Z3Bool {
    Z3Bool::fresh_const("v")
}

/// `z3::ast::Bool::from_bool`: the constant `false` when given `false`.
#[verifier::external_body]
fn z3_bool_const(value: bool) -> Z3Bool {
    Z3Bool::from_bool(value)
}

/// `Clone` on a Z3 term: the same term.
#[verifier::external_body]
fn z3_clone(term: &Z3Bool) -> (r: Z3Bool)
    ensures
        r == *term,
{
    term.clone()
}

/// `z3::ast::Bool::not`: the negation of a term.
#[verifier::external_body]
fn z3_not(term: &Z3Bool) -> Z3Bool {
    term.not()
}

/// `z3::ast::Bool::or`: the disjunction of the terms, which it takes no more
/// than `u32::MAX` of.
#[verifier::external_body]
fn z3_or(terms: &[Z3Bool]) -> Z3Bool
    requires
        terms@.len() <= u32::MAX,
{
    Z3Bool::or(terms)
}

/// `z3::Solver::assert`: adds a constraint.
#[verifier::external_body]
fn z3_assert(solver: &Z3Engine, term: &Z3Bool) {
    solver.assert(term)
}

/// `z3::Solver::check`: `Some(true)` when satisfiable, `Some(false)` when
/// not, `None` when Z3 gave up.
#[verifier::external_body]
fn z3_check(solver: &Z3Engine) -> Option<bool> {
    match solver.check() {
        Z3SatResult::Sat => Some(true),
        Z3SatResult::Unsat => Some(false),
        Z3SatResult::Unknown => None,
    }
}

/// `z3::Solver::get_model`: the model of the last satisfiable check.
#[verifier::external_body]
fn z3_get_model(solver: &Z3Engine) -> Option<Z3Model> {
    solver.get_model()
}

/// `z3::Model::eval` with model completion: the value the model gives a
/// term.
#[verifier::external_body]
fn z3_eval(model: &Z3Model, term: &Z3Bool) -> Option<Z3Bool> {
    model.eval(term, true)
}

/// `z3::ast::Bool::as_bool`: the truth value of a constant term.
#[verifier::external_body]
fn z3_as_bool(term: &Z3Bool) -> Option<bool> {
    term.as_bool()
}

/// How many terms one call of `z3_or` is given.
pub const Z3_OR_CHUNK: usize = 4294967295;

pub struct Z3Solver {
    solver: Z3Engine,
    /// `vars[i]` is variable `i + 1`.
    vars: Vec<Z3Bool>,
    /// After a satisfiable check, the value of each variable, indexed from 1.
    last_model: Vec<bool>,
    solved: bool,
    /// The clauses given so far.
    given: Ghost<Seq<Seq<SatLit>>>,
}

impl Z3Solver {
    pub fn new() -> (r: Self)
        ensures
            r.vars() == 0,
            r.limit() == i32::MAX - 1,
            r.clauses() == Seq::<Seq<SatLit>>::empty(),
    {
        Self { solver: z3_solver_new(), vars: Vec::new(), last_model: Vec::new(), solved: false, given: Ghost(Seq::empty()) }
    }

    /// The term of a literal: its variable, negated for a negative literal.
    fn lit(&self, l: SatLit) -> (r: Z3Bool)
        requires
            l != 0,
            -self.vars@.len() <= l <= self.vars@.len(),
            self.vars@.len() < i32::MAX,
        ensures
            l > 0 ==> r == self.vars@[l - 1],
    {
        if l > 0 {
            z3_clone(&self.vars[(l - 1) as usize])
        } else {
            z3_not(&self.vars[(-l - 1) as usize])
        }
    }
}

impl Solver for Z3Solver {
    closed spec fn vars(&self) -> nat {
        self.vars@.len()
    }

    closed spec fn clauses(&self) -> Seq<Seq<SatLit>> {
        self.given@
    }

    /// `z3::Model::eval` may fail to give a variable its value, which is
    /// then read as `false`.
    open spec fn exact() -> bool {
        false
    }

    closed spec fn limit(&self) -> nat {
        (i32::MAX - 1) as nat
    }

    closed spec fn has_model(&self) -> bool {
        self.solved
    }

    closed spec fn model_val(&self, var: int) -> bool {
        0 <= var < self.last_model@.len() && self.last_model@[var]
    }

    proof fn lemma_limit(&self) {
    }

    fn can_add_var(&self) -> (r: bool) {
        self.vars.len() < (i32::MAX - 1) as usize
    }

    fn new_var(&mut self) -> (r: i32) {
        self.vars.push(z3_fresh_bool());
        self.vars.len() as i32
    }

    fn add_clause(&mut self, clause: &[SatLit]) {
        proof { self.given@ = self.given@.push(clause@); }
        if clause.len() == 0 {
            z3_assert(&self.solver, &z3_bool_const(false));
            return;
        }
        // The disjunction is built a chunk of `Z3_OR_CHUNK` terms at a time.
        let mut acc: Option<Z3Bool> = None;
        let mut chunk: Vec<Z3Bool> = Vec::new();
        let mut i: usize = 0;
        while i < clause.len()
            invariant
                i <= clause@.len(),
                chunk@.len() < Z3_OR_CHUNK,
                self.vars@.len() < i32::MAX,
                forall|k: int| 0 <= k < clause@.len()
                    ==> (#[trigger] clause@[k]) != 0 && -self.vars@.len() <= clause@[k] <= self.vars@.len(),
            decreases clause@.len() - i,
        {
            chunk.push(self.lit(clause[i]));
            if chunk.len() == Z3_OR_CHUNK || i + 1 == clause.len() {
                let part = z3_or(chunk.as_slice());
                acc = match acc {
                    None => Some(part),
                    Some(prev) => {
                        let pair = vec![prev, part];
                        Some(z3_or(pair.as_slice()))
                    },
                };
                chunk = Vec::new();
            }
            i = i + 1;
        }
        if let Some(term) = acc {
            z3_assert(&self.solver, &term);
        }
    }

    fn solve(&mut self) -> (r: Result<bool>) {
        match z3_check(&self.solver) {
            Some(true) => match z3_get_model(&self.solver) {
                Some(m) => {
                    let mut values: Vec<bool> = Vec::new();
                    values.push(false);
                    let mut i: usize = 0;
                    while i < self.vars.len()
                        decreases self.vars@.len() - i,
                    {
                        let value = match z3_eval(&m, &self.vars[i]) {
                            Some(term) => match z3_as_bool(&term) {
                                Some(b) => b,
                                None => false,
                            },
                            None => false,
                        };
                        values.push(value);
                        i = i + 1;
                    }
                    self.last_model = values;
                    self.solved = true;
                    Ok(true)
                },
                None => Err(CaelumError::Model { message: "z3 solver found no model".to_owned() }),
            },
            Some(false) => Ok(false),
            None => Err(CaelumError::Model { message: "z3 solver returned unknown".to_owned() }),
        }
    }

    fn model_value(&self, var: i32) -> (r: bool) {
        let idx = var as usize;
        if idx < self.last_model.len() {
            self.last_model[idx]
        } else {
            false
        }
    }
}

} // verus!
