//! Bounded model checking: the transition system unrolled to a fixed depth
//! is encoded as a propositional formula and handed to a SAT solver.
//! Safety only: `□ φ` and state formulas, `φ` free of temporal operators but
//! `◯`; other properties are skipped with a note.

pub mod encode;
pub mod run;
pub mod setup;
pub mod solver;
pub mod sym;
pub mod unroll;

pub use unroll::BmcOptions;

use vstd::prelude::*;

use crate::bmc::setup::{bmc_tables, derefs, prepare, prepared_from, BmcSpec};
use crate::bmc::solver::{CadicalSolver, VarisatSolver, Z3Solver};
use crate::bmc::unroll::{bmc_result_for, check_property_with_solver, shape_of, violating_run};
use crate::checker::ltl::{property_blocks, CheckReport, CheckStatus, PropertyResult};
use crate::diagnostics::{is_model_err, Result};
use crate::model::graph::{spec_constants, var_decls};
use crate::syntax::ast::SourceFile;

verus! {

/// The SAT solver bounded checking runs on.
#[derive(Debug, Clone, Copy, PartialEq, Eq, Structural)]
pub enum SolverBackend {
    Varisat,
    Cadical,
    Z3,
}

impl Default for SolverBackend {
    fn default() -> (r: Self)
        ensures
            r == SolverBackend::Varisat,
    {
        SolverBackend::Varisat
    }
}

/// A bounded-checking report on the properties `props`: one result per
/// property, in order, and a failing report exactly when one of them fails.
pub open spec fn bmc_report_for(props: Seq<crate::syntax::ast::PropertyBlock>, depth: nat, width: int, rep: CheckReport) -> bool {
    &&& rep.properties@.len() == props.len()
    &&& forall|k: int| 0 <= k < props.len() ==> #[trigger] bmc_result_for(props[k], depth, width, rep.properties@[k])
    &&& rep.status == (if exists|k: int| 0 <= k < props.len() && (#[trigger] rep.properties@[k]).status == CheckStatus::Fail {
        CheckStatus::Fail
    } else {
        CheckStatus::Pass
    })
}

/// Every counterexample the report holds is a run of the system read from
/// `spec` that violates its property.
pub open spec fn counterexamples_are_runs(spec: BmcSpec, props: Seq<crate::syntax::ast::PropertyBlock>, depth: nat, rep: CheckReport) -> bool {
    forall|k: int| 0 <= k < props.len() && k < rep.properties@.len()
        ==> ((#[trigger] rep.properties@[k]).counterexample matches Some(c)
            ==> violating_run(spec, props[k], depth as int, c.states@))
}

/// Checks every property of a file by bounded model checking, each with a
/// fresh solver of the given backend. With varisat or CaDiCaL, every
/// counterexample reported is a run of the file's system that violates its
/// property.
pub fn check_with_bmc(file: &SourceFile, options: &BmcOptions, backend: SolverBackend) -> (r: Result<CheckReport>)
    ensures
        r is Ok ==> spec_constants(file.items@) is Some
            && bmc_tables(file.items@, file.items@, spec_constants(file.items@)->Some_0) is Some,
        r matches Ok(rep) ==> bmc_report_for(property_blocks(file.items@), options.depth as nat, var_decls(file.items@).len() as int, rep),
        !(backend is Z3) ==> (r matches Ok(rep) ==> exists|s: BmcSpec| prepared_from(file.items@, s)
            && #[trigger] counterexamples_are_runs(s, property_blocks(file.items@), options.depth as nat, rep)),
        spec_constants(file.items@) is Some && bmc_tables(file.items@, file.items@, spec_constants(file.items@)->Some_0) is Some
            && (forall|k: int| 0 <= k < property_blocks(file.items@).len()
                ==> #[trigger] shape_of(property_blocks(file.items@)[k].expr) is Unsupported) ==> r is Ok,
        r is Err ==> is_model_err(r),
{
    let spec = prepare(file)?;
    let ghost props = property_blocks(file.items@);
    let ghost width = var_decls(file.items@).len() as int;
    let mut results: Vec<PropertyResult> = Vec::new();
    let mut any_fail = false;
    let mut i: usize = 0;
    while i < spec.properties.len()
        invariant
            derefs(spec.properties@) == props,
            props == property_blocks(file.items@),
            spec.variables@.len() == width,
            i <= spec.properties@.len(),
            results@.len() == i,
            forall|k: int| 0 <= k < i ==> #[trigger] bmc_result_for(props[k], options.depth as nat, width, results@[k]),
            any_fail == exists|k: int| 0 <= k < results@.len() && (#[trigger] results@[k]).status == CheckStatus::Fail,
            !(backend is Z3) ==> forall|k: int| 0 <= k < i ==> ((#[trigger] results@[k]).counterexample matches Some(c)
                ==> violating_run(spec, props[k], options.depth as int, c.states@)),
        decreases spec.properties@.len() - i,
    {
        let property = spec.properties[i];
        proof {
            assert(props[i as int] == *property);
        }
        proof {
            if shape_of(property.expr) is Unsupported {
            } else {
                assert(!(forall|k: int| 0 <= k < property_blocks(file.items@).len()
                    ==> #[trigger] shape_of(property_blocks(file.items@)[k].expr) is Unsupported)) by {
                    assert(props[i as int] == *property);
                }
            }
        }
        let result = match backend {
            SolverBackend::Varisat => check_property_with_solver(&spec, property, options, VarisatSolver::new()),
            SolverBackend::Cadical => check_property_with_solver(&spec, property, options, CadicalSolver::new()),
            SolverBackend::Z3 => check_property_with_solver(&spec, property, options, Z3Solver::new()),
        }?;
        let ghost before = results@;
        if result.status == CheckStatus::Fail {
            any_fail = true;
        }
        results.push(result);
        proof {
            assert forall|k: int| 0 <= k < i + 1 implies #[trigger] bmc_result_for(props[k], options.depth as nat, width, results@[k]) by {
                if k < i {
                    assert(results@[k] == before[k]);
                }
            }
            if !(backend is Z3) {
                assert forall|k: int| 0 <= k < i + 1 implies ((#[trigger] results@[k]).counterexample matches Some(c)
                    ==> violating_run(spec, props[k], options.depth as int, c.states@)) by {
                    if k < i {
                        assert(results@[k] == before[k]);
                    }
                }
            }
            if any_fail {
                if result.status == CheckStatus::Fail {
                    assert(results@[i as int].status == CheckStatus::Fail);
                } else {
                    let k = choose|k: int| 0 <= k < before.len() && (#[trigger] before[k]).status == CheckStatus::Fail;
                    assert(results@[k] == before[k]);
                }
            } else {
                assert forall|k: int| 0 <= k < results@.len() implies (#[trigger] results@[k]).status != CheckStatus::Fail by {
                    if k < before.len() {
                        assert(results@[k] == before[k]);
                    }
                }
            }
        }
        i = i + 1;
    }
    let status = if any_fail { CheckStatus::Fail } else { CheckStatus::Pass };
    let rep = CheckReport { status, properties: results };
    proof {
        if !(backend is Z3) {
            assert(counterexamples_are_runs(spec, props, options.depth as nat, rep));
        }
    }
    Ok(rep)
}

} // verus!
