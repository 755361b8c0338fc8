//! Affine expressions over row-local unknowns, and solving them against a value.
use vstd::prelude::*;
use crate::field::{MODULUS, modulus, is_fe, inverse_spec, fe_sub, fe_mul, fe_inverse};
use crate::eval::{Assignment, EvalError};

verus! {

/// `offset + sum of coefficient * variable`, over the field.
#[derive(Debug)]
pub struct AffineExpression {
    /// Pairs of (variable, coefficient).
    pub coefficients: Vec<(u64, u64)>,
    pub offset: u64,
}

impl AffineExpression {
    /// Canonical field elements, non-zero coefficients, each variable once.
    pub open spec fn wf(&self) -> bool {
        &&& is_fe(self.offset)
        &&& forall|i: int|
            0 <= i < self.coefficients@.len() ==> 0 < #[trigger] self.coefficients@[i].1 < MODULUS
        &&& forall|i: int, j: int|
            0 <= i < j < self.coefficients@.len() ==> #[trigger] self.coefficients@[i].0
                != #[trigger] self.coefficients@[j].0
    }

    /// The expression's value when it has no unknowns.
    pub open spec fn constant_spec(&self) -> Option<u64> {
        if self.coefficients@.len() == 0 {
            Some(self.offset)
        } else {
            None
        }
    }

    /// The bindings that make `self - v = 0` hold, or `None` on a contradiction.
    /// With two or more unknowns nothing can be concluded yet.
    pub open spec fn solution(&self, v: u64) -> Option<Seq<Assignment>> {
        if self.coefficients@.len() == 0 {
            if self.offset == v {
                Some(seq![])
            } else {
                None
            }
        } else if self.coefficients@.len() == 1 {
            let (x, c) = self.coefficients@[0];
            Some(
                seq![Assignment {
                    variable: x,
                    value: (((v - self.offset) % modulus()) * inverse_spec(c) % modulus()) as u64,
                }],
            )
        } else {
            Some(seq![])
        }
    }

    pub fn from_constant(c: u64) -> (r: AffineExpression)
        requires
            is_fe(c),
        ensures
            r.wf(),
            r.constant_spec() == Some(c),
    {
        AffineExpression { coefficients: Vec::new(), offset: c }
    }

    /// The expression `1 * x`.
    pub fn from_variable(x: u64) -> (r: AffineExpression)
        ensures
            r.wf(),
            r.coefficients@ == seq![(x, 1u64)],
            r.offset == 0,
    {
        let mut coefficients: Vec<(u64, u64)> = Vec::new();
        coefficients.push((x, 1u64));
        AffineExpression { coefficients, offset: 0 }
    }

    pub fn constant_value(&self) -> (r: Option<u64>)
        ensures
            r == self.constant_spec(),
    {
        if self.coefficients.len() == 0 {
            Some(self.offset)
        } else {
            None
        }
    }

    /// Solves `self - v = 0` for the unknowns it contains.
    pub fn solve_for(&self, v: u64) -> (r: Result<Vec<Assignment>, EvalError>)
        requires
            self.wf(),
            is_fe(v),
        ensures
            match self.solution(v) {
                Some(s) => r is Ok && r->Ok_0@ == s,
                None => r is Err && r->Err_0 is ConstraintUnsatisfiable,
            },
    {
        if self.coefficients.len() == 0 {
            if self.offset == v {
                Ok(Vec::new())
            } else {
                Err(EvalError::ConstraintUnsatisfiable)
            }
        } else if self.coefficients.len() == 1 {
            let (x, c) = self.coefficients[0];
            let d = fe_sub(v, self.offset);
            let inv = fe_inverse(c);
            let value = fe_mul(d, inv);
            let mut r: Vec<Assignment> = Vec::new();
            r.push(Assignment { variable: x, value });
            Ok(r)
        } else {
            Ok(Vec::new())
        }
    }
}

} // verus!
