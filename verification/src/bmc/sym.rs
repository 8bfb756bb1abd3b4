//! Symbolic values: what an expression's value is under a SAT assignment.

use vstd::prelude::*;

use crate::bmc::solver::SatLit;

verus! {

/// A boolean is one literal; an integer or enum value is a list of the
/// values it may take, each with the literal that selects it.
#[derive(Debug, Clone)]
pub enum SymVal {
    Bool(SatLit),
    Int(Vec<(i64, SatLit)>),
    Enum { enum_type: String, values: Vec<(String, SatLit)> },
}

impl SymVal {
    pub fn as_bool(&self) -> (r: Option<SatLit>)
        ensures
            *self matches SymVal::Bool(l) ==> r == Some(l),
            !(*self is Bool) ==> r is None,
    {
        match self {
            SymVal::Bool(lit) => Some(*lit),
            _ => None,
        }
    }

    pub fn as_int(&self) -> (r: Option<&[(i64, SatLit)]>)
        ensures
            *self matches SymVal::Int(v) ==> (r matches Some(s) && s@ == v@),
            !(*self is Int) ==> r is None,
    {
        match self {
            SymVal::Int(values) => Some(values.as_slice()),
            _ => None,
        }
    }

    pub fn kind_label(&self) -> (r: &'static str)
        ensures
            r == (match *self {
                SymVal::Bool(_) => "bool",
                SymVal::Int(_) => "int",
                SymVal::Enum { .. } => "enum",
            }),
    {
        match self {
            SymVal::Bool(_) => "bool",
            SymVal::Int(_) => "int",
            SymVal::Enum { .. } => "enum",
        }
    }
}

} // verus!
