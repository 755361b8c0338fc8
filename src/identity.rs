//! Polynomial references, lookup identities and the fixed data of a trace.
use vstd::prelude::*;
use crate::field::is_fe;

verus! {

#[derive(Clone, Copy, Debug, PartialEq, Eq, Structural)]
pub enum PolynomialType {
    /// A witness column, produced during witness generation.
    Committed,
    /// A fixed column, known beforehand.
    Constant,
    /// A named expression over other polynomials.
    Intermediate,
}

/// A polynomial: its index among the polynomials of its type, and the type.
#[derive(Clone, Copy, Debug, PartialEq, Eq, Structural)]
pub struct PolyId {
    pub id: u64,
    pub ptype: PolynomialType,
}

/// A reference to a polynomial at the current row, or at the next one.
#[derive(Clone, Copy, Debug, PartialEq, Eq, Structural)]
pub struct AlgebraicReference {
    pub poly_id: PolyId,
    pub next: bool,
}

/// An algebraic expression. Anything but a plain reference or a number is
/// carried by an identifier of the compound expression.
#[derive(Clone, Copy, Debug, PartialEq, Eq, Structural)]
pub enum Expression {
    Reference(AlgebraicReference),
    Number(u64),
    Compound(u64),
}

/// An optional selector and a list of expressions: one side of a lookup.
#[derive(Debug)]
pub struct SelectedExpressions {
    pub selector: Option<Expression>,
    pub expressions: Vec<Expression>,
}

#[derive(Clone, Copy, Debug, PartialEq, Eq, Structural)]
pub enum IdentityKind {
    Polynomial,
    Plookup,
    Permutation,
    Connect,
}

#[derive(Debug)]
pub struct Identity {
    pub kind: IdentityKind,
    pub left: SelectedExpressions,
    pub right: SelectedExpressions,
}

/// A witness column: its name and the values supplied from outside, if any.
#[derive(Debug)]
pub struct WitnessColumn {
    pub name: String,
    pub external_values: Option<Vec<u64>>,
}

/// The trace degree, the fixed columns' values and the witness columns.
#[derive(Debug)]
pub struct FixedData {
    pub degree: u64,
    /// Indexed by the `id` of a constant polynomial.
    pub fixed_cols: Vec<Vec<u64>>,
    /// Indexed by the `id` of a committed polynomial.
    pub witness_cols: Vec<WitnessColumn>,
}

impl SelectedExpressions {
    /// Both sides have the same selector and the same expressions.
    pub open spec fn same_as(&self, other: &SelectedExpressions) -> bool {
        self.selector == other.selector && self.expressions@ == other.expressions@
    }

    pub fn same(&self, other: &SelectedExpressions) -> (r: bool)
        ensures
            r == self.same_as(other),
    {
        if self.selector != other.selector {
            return false;
        }
        if self.expressions.len() != other.expressions.len() {
            return false;
        }
        let n = self.expressions.len();
        let mut i: usize = 0;
        while i < n
            invariant
                n == self.expressions@.len(),
                n == other.expressions@.len(),
                0 <= i <= n,
                forall|j: int| 0 <= j < i ==> self.expressions@[j] == other.expressions@[j],
            decreases n - i,
        {
            if self.expressions[i] != other.expressions[i] {
                return false;
            }
            i = i + 1;
        }
        assert(self.expressions@ =~= other.expressions@);
        true
    }

    pub fn copy(&self) -> (r: SelectedExpressions)
        ensures
            r.same_as(self),
    {
        let n = self.expressions.len();
        let mut expressions: Vec<Expression> = Vec::new();
        let mut i: usize = 0;
        while i < n
            invariant
                n == self.expressions@.len(),
                0 <= i <= n,
                expressions@ == self.expressions@.subrange(0, i as int),
            decreases n - i,
        {
            expressions.push(self.expressions[i]);
            i = i + 1;
            assert(expressions@ =~= self.expressions@.subrange(0, i as int));
        }
        assert(expressions@ =~= self.expressions@);
        SelectedExpressions { selector: self.selector, expressions }
    }
}

impl FixedData {
    /// The value of external column `poly` at `row`, if one was supplied.
    pub open spec fn external_at(&self, poly: u64, row: int) -> Option<u64> {
        match self.witness_cols@[poly as int].external_values {
            Some(v) => if 0 <= row < v@.len() {
                Some(v@[row])
            } else {
                None
            },
            None => None,
        }
    }

    /// Every fixed column has one value per row, the degree fits in memory,
    /// and the supplied witness values are field elements.
    pub open spec fn wf(&self) -> bool {
        &&& self.degree <= usize::MAX
        &&& forall|k: int|
            0 <= k < self.fixed_cols@.len() ==> #[trigger] self.fixed_cols@[k]@.len()
                == self.degree
        &&& forall|c: int, i: int|
            0 <= c < self.witness_cols@.len() && (#[trigger] self.witness_cols@[c]).external_values
                is Some && 0 <= i < self.witness_cols@[c].external_values->0@.len()
                ==> is_fe(#[trigger] self.witness_cols@[c].external_values->0@[i])
    }

    pub fn external_witness(&self, row: usize, poly: u64) -> (r: Option<u64>)
        requires
            poly < self.witness_cols@.len(),
        ensures
            r == self.external_at(poly, row as int),
    {
        let n = self.witness_cols.len();
        assert(poly < n);
        let p = poly as usize;
        match &self.witness_cols[p].external_values {
            Some(v) => if row < v.len() {
                Some(v[row])
            } else {
                None
            },
            None => None,
        }
    }
}

} // verus!
