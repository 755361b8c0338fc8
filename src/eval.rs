//! What a request to a machine reports back.
use vstd::prelude::*;

verus! {

/// A variable bound to a concrete field element.
#[derive(Clone, Copy, Debug, PartialEq, Eq, Structural)]
pub struct Assignment {
    pub variable: u64,
    pub value: u64,
}

/// Why a request could not be fully answered yet.
#[derive(Clone, Copy, Debug, PartialEq, Eq, Structural)]
pub enum IncompleteCause {
    /// Some key-side expression is not yet a constant.
    NonConstantKey,
    /// Some value column of the addressed row is still unknown.
    NonConstantValue,
}

/// Whether a request was fully answered.
#[derive(Clone, Copy, Debug, PartialEq, Eq, Structural)]
pub enum EvalStatus {
    Complete,
    Incomplete(IncompleteCause),
}

/// The bindings a request produced, and whether it is done.
#[derive(Debug)]
pub struct EvalValue {
    pub updates: Vec<Assignment>,
    pub status: EvalStatus,
}

/// A failure that no further information can repair.
#[derive(Debug)]
pub enum EvalError {
    /// The constant key tuple is not an address of the memory.
    KeyNotFound(Vec<u64>),
    /// An equation with no unknowns does not hold.
    ConstraintUnsatisfiable,
}

pub type EvalResult = Result<EvalValue, EvalError>;

impl EvalValue {
    pub fn complete(updates: Vec<Assignment>) -> (r: EvalValue)
        ensures
            r.updates@ == updates@,
            r.status == EvalStatus::Complete,
    {
        EvalValue { updates, status: EvalStatus::Complete }
    }

    pub fn incomplete_with_constraints(updates: Vec<Assignment>, cause: IncompleteCause) -> (r:
        EvalValue)
        ensures
            r.updates@ == updates@,
            r.status == EvalStatus::Incomplete(cause),
    {
        EvalValue { updates, status: EvalStatus::Incomplete(cause) }
    }

    pub fn incomplete(cause: IncompleteCause) -> (r: EvalValue)
        ensures
            r.updates@.len() == 0,
            r.status == EvalStatus::Incomplete(cause),
    {
        EvalValue { updates: Vec::new(), status: EvalStatus::Incomplete(cause) }
    }
}

} // verus!
