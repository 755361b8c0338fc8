//! The write-once memory machine: a fixed address space built from constant
//! columns, and value columns where each cell is written at most once.
use vstd::prelude::*;
use std::collections::HashMap;
use crate::field::is_fe;
use crate::affine::AffineExpression;
use crate::eval::{Assignment, EvalError, EvalResult, EvalStatus, EvalValue, IncompleteCause};
use crate::identity::{
    Expression,
    FixedData,
    Identity,
    IdentityKind,
    PolyId,
    PolynomialType,
    SelectedExpressions,
};

verus! {

/// An expression that addresses the memory: a reference to a constant column.
pub open spec fn is_key_expr(e: Expression) -> bool {
    e is Reference && e->Reference_0.poly_id.ptype == PolynomialType::Constant
}

pub open spec fn poly_of(e: Expression) -> PolyId {
    e->Reference_0.poly_id
}

/// Of the first `n` items, those whose right-hand expression is a key column
/// (`key`) or a value column (`!key`), in order.
pub open spec fn select<A>(rhs: Seq<Expression>, items: Seq<A>, key: bool, n: nat) -> Seq<A>
    decreases n,
{
    if n == 0 {
        seq![]
    } else {
        let p = select(rhs, items, key, (n - 1) as nat);
        if is_key_expr(rhs[n - 1]) == key {
            p.push(items[n - 1])
        } else {
            p
        }
    }
}

pub open spec fn polys_of(rhs: Seq<Expression>) -> Seq<PolyId> {
    rhs.map_values(|e: Expression| poly_of(e))
}

pub open spec fn key_polys_of(rhs: Seq<Expression>) -> Seq<PolyId> {
    select(rhs, polys_of(rhs), true, rhs.len())
}

pub open spec fn value_polys_of(rhs: Seq<Expression>) -> Seq<PolyId> {
    select(rhs, polys_of(rhs), false, rhs.len())
}

/// The key tuple of `row`: the values of the key columns there.
pub open spec fn key_at(fixed: FixedData, keys: Seq<PolyId>, row: int) -> Seq<u64> {
    Seq::new(keys.len(), |j: int| fixed.fixed_cols@[keys[j].id as int]@[row])
}

/// Every referenced polynomial exists; witness references are to the current row.
pub open spec fn refs_valid(fixed: FixedData, rhs: SelectedExpressions) -> bool {
    forall|j: int|
        0 <= j < rhs.expressions@.len() && (#[trigger] rhs.expressions@[j]) is Reference ==> {
            let r = rhs.expressions@[j]->Reference_0;
            if r.poly_id.ptype == PolynomialType::Constant {
                r.poly_id.id < fixed.fixed_cols@.len()
            } else {
                r.poly_id.ptype == PolynomialType::Committed && r.poly_id.id
                    < fixed.witness_cols@.len() && !r.next
            }
        }
}

/// No two rows below the degree share a key tuple.
pub open spec fn keys_distinct(fixed: FixedData, keys: Seq<PolyId>) -> bool {
    forall|r1: int, r2: int|
        0 <= r1 < r2 < fixed.degree ==> key_at(fixed, keys, r1) != key_at(fixed, keys, r2)
}

/// When the identities describe a write-once memory.
pub open spec fn accepts(fixed: FixedData, connecting: Seq<Identity>, n_other: nat) -> bool {
    let rhs = connecting[0].right;
    &&& n_other == 0
    &&& forall|i: int| 0 <= i < connecting.len() ==> (#[trigger] connecting[i]).right.same_as(&rhs)
    &&& rhs.selector is None
    &&& forall|j: int| 0 <= j < rhs.expressions@.len() ==> (#[trigger] rhs.expressions@[j]) is Reference
    &&& forall|j: int|
        0 <= j < rhs.expressions@.len() && is_key_expr(#[trigger] rhs.expressions@[j])
            ==> !rhs.expressions@[j]->Reference_0.next
    &&& keys_distinct(fixed, key_polys_of(rhs.expressions@))
}

/// The first value of a key tuple, or zero for the empty tuple: the
/// Address Table files each row under this value of its key.
pub open spec fn bucket_of(key: Seq<u64>) -> u64 {
    if key.len() == 0 {
        0
    } else {
        key[0]
    }
}

fn bucket(key: &Vec<u64>) -> (r: u64)
    ensures
        r == bucket_of(key@),
{
    if key.len() == 0 {
        0
    } else {
        key[0]
    }
}

/// `buckets` files each of the rows below `n`, and only those, under the
/// first value of its key in `keys`.
spec fn indexes(buckets: Map<u64, Vec<usize>>, keys: Seq<Vec<u64>>, n: int) -> bool {
    &&& forall|b: u64, t: int|
        buckets.contains_key(b) && 0 <= t < buckets[b]@.len() ==> (#[trigger] buckets[b]@[t]) < n
            && bucket_of(keys[buckets[b]@[t] as int]@) == b
    &&& forall|r: int|
        0 <= r < n ==> buckets.contains_key(bucket_of((#[trigger] keys[r])@)) && buckets[bucket_of(
            keys[r]@,
        )]@.contains(r as usize)
}

/// A memory machine with a fixed address space, where each address can hold
/// only one value during the lifetime of the program.
pub struct WriteOnceMemory<'a> {
    fixed_data: &'a FixedData,
    /// The right-hand side shared by all connecting identities.
    rhs: SelectedExpressions,
    key_polys: Vec<PolyId>,
    /// The witness polynomials of the right-hand side, the memory's payload.
    value_polys: Vec<PolyId>,
    /// The key tuple of each row.
    key_to_index: Vec<Vec<u64>>,
    /// The rows under each first key value, for lookup.
    buckets: HashMap<u64, Vec<usize>>,
    /// The content of each row that a request has reached.
    data: Vec<Option<Vec<Option<u64>>>>,
}

impl<'a> WriteOnceMemory<'a> {
    pub closed spec fn fixed(&self) -> FixedData {
        *self.fixed_data
    }

    pub closed spec fn rhs(&self) -> SelectedExpressions {
        self.rhs
    }

    pub closed spec fn value_polys(&self) -> Seq<PolyId> {
        self.value_polys@
    }

    pub closed spec fn key_polys(&self) -> Seq<PolyId> {
        self.key_polys@
    }

    /// The Address Table: the key tuple of each row.
    pub closed spec fn keys(&self) -> Seq<Seq<u64>> {
        self.key_to_index@.map_values(|k: Vec<u64>| k@)
    }

    /// The Memory Store: for each row, its slots if a request has reached it.
    pub closed spec fn memory(&self) -> Seq<Option<Seq<Option<u64>>>> {
        self.data@.map_values(
            |o: Option<Vec<Option<u64>>>|
                match o {
                    Some(v) => Some(v@),
                    None => None,
                },
        )
    }

    pub closed spec fn wf(&self) -> bool {
        let fixed = *self.fixed_data;
        let rhs = self.rhs.expressions@;
        &&& fixed.wf()
        &&& self.rhs.selector is None
        &&& forall|j: int| 0 <= j < rhs.len() ==> (#[trigger] rhs[j]) is Reference
        &&& refs_valid(fixed, self.rhs)
        &&& self.key_polys@ == key_polys_of(rhs)
        &&& self.value_polys@ == value_polys_of(rhs)
        &&& self.key_to_index@.len() == fixed.degree
        &&& forall|r: int|
            0 <= r < fixed.degree ==> (#[trigger] self.key_to_index@[r])@ == key_at(
                fixed,
                self.key_polys@,
                r,
            )
        &&& keys_distinct(fixed, self.key_polys@)
        &&& indexes(self.buckets@, self.key_to_index@, fixed.degree as int)
        &&& self.data@.len() == fixed.degree
        &&& forall|r: int|
            0 <= r < self.data@.len() && (#[trigger] self.data@[r]) is Some ==> {
                let v = self.data@[r]->0@;
                &&& v.len() == self.value_polys@.len()
                &&& forall|i: int| 0 <= i < v.len() && (#[trigger] v[i]) is Some ==> is_fe(v[i]->0)
            }
    }
}


impl<'a> WriteOnceMemory<'a> {
    /// Builds the machine from the identities that connect to it, or returns
    /// `None` where they do not describe a write-once memory.
    pub fn try_new(
        fixed_data: &'a FixedData,
        connecting_identities: &[Identity],
        identities: &[Identity],
    ) -> (r: Option<Self>)
        requires
            fixed_data.wf(),
            connecting_identities@.len() > 0,
            refs_valid(*fixed_data, connecting_identities@[0].right),
        ensures
            r is Some <==> accepts(*fixed_data, connecting_identities@, identities@.len()),
            r is Some ==> {
                let m = r->0;
                &&& m.wf()
                &&& m.fixed() == *fixed_data
                &&& m.rhs().same_as(&connecting_identities@[0].right)
                &&& m.key_polys() == key_polys_of(connecting_identities@[0].right.expressions@)
                &&& m.value_polys() == value_polys_of(connecting_identities@[0].right.expressions@)
                &&& m.keys().len() == fixed_data.degree
                &&& forall|row: int|
                    0 <= row < fixed_data.degree ==> #[trigger] m.keys()[row] == key_at(
                        *fixed_data,
                        m.key_polys(),
                        row,
                    )
                &&& m.memory().len() == fixed_data.degree
                &&& forall|row: int| 0 <= row < m.memory().len() ==> m.memory()[row] is None
            },
    {
        if identities.len() != 0 {
            return None;
        }
        let rhs = &connecting_identities[0].right;
        let mut i: usize = 0;
        while i < connecting_identities.len()
            invariant
                0 <= i <= connecting_identities@.len(),
                *rhs == connecting_identities@[0].right,
                forall|k: int| 0 <= k < i ==> (#[trigger] connecting_identities@[k]).right.same_as(rhs),
            decreases connecting_identities@.len() - i,
        {
            if !connecting_identities[i].right.same(rhs) {
                return None;
            }
            i = i + 1;
        }
        if rhs.selector.is_some() {
            return None;
        }
        let ghost exprs = rhs.expressions@;
        let n = rhs.expressions.len();
        let mut key_polys: Vec<PolyId> = Vec::new();
        let mut value_polys: Vec<PolyId> = Vec::new();
        let mut j: usize = 0;
        while j < n
            invariant
                n == exprs.len(),
                exprs == rhs.expressions@,
                *rhs == connecting_identities@[0].right,
                0 <= j <= n,
                forall|t: int| 0 <= t < j ==> (#[trigger] exprs[t]) is Reference,
                forall|t: int| 0 <= t < j && is_key_expr(#[trigger] exprs[t]) ==> !exprs[t]->Reference_0.next,
                key_polys@ == select(exprs, polys_of(exprs), true, j as nat),
                value_polys@ == select(exprs, polys_of(exprs), false, j as nat),
            decreases n - j,
        {
            match rhs.expressions[j] {
                Expression::Reference(r) => {
                    if r.poly_id.ptype == PolynomialType::Constant {
                        if r.next {
                            assert(is_key_expr(exprs[j as int]));
                            return None;
                        }
                        key_polys.push(r.poly_id);
                    } else {
                        value_polys.push(r.poly_id);
                    }
                },
                _ => {
                    assert(!(exprs[j as int] is Reference));
                    return None;
                },
            }
            j = j + 1;
        }
        let ghost fixed = *fixed_data;
        let ghost kp = key_polys@;
        proof {
            assert forall|t: int| 0 <= t < kp.len() implies #[trigger] kp[t].id < fixed.fixed_cols@.len() && kp[t].ptype == PolynomialType::Constant by {
                lemma_select_index(exprs, polys_of(exprs), true, n as nat, t);
            }
        }
        let degree = fixed_data.degree as usize;
        let mut key_to_index: Vec<Vec<u64>> = Vec::new();
        let mut buckets: HashMap<u64, Vec<usize>> = HashMap::new();
        let mut row: usize = 0;
        while row < degree
            invariant
                fixed == *fixed_data,
                fixed.wf(),
                degree == fixed.degree,
                kp == key_polys@,
                connecting_identities@.len() > 0,
                kp == key_polys_of(connecting_identities@[0].right.expressions@),
                forall|t: int| 0 <= t < kp.len() ==> #[trigger] kp[t].id < fixed.fixed_cols@.len(),
                0 <= row <= degree,
                key_to_index@.len() == row,
                forall|r: int| 0 <= r < row ==> (#[trigger] key_to_index@[r])@ == key_at(fixed, kp, r),
                forall|r1: int, r2: int| 0 <= r1 < r2 < row ==> key_at(fixed, kp, r1) != key_at(fixed, kp, r2),
                indexes(buckets@, key_to_index@, row as int),
            decreases degree - row,
        {
            let mut key: Vec<u64> = Vec::new();
            let mut t: usize = 0;
            while t < key_polys.len()
                invariant
                    fixed == *fixed_data,
                    fixed.wf(),
                    degree == fixed.degree,
                    kp == key_polys@,
                    forall|t: int| 0 <= t < kp.len() ==> #[trigger] kp[t].id < fixed.fixed_cols@.len(),
                    0 <= row < degree,
                    0 <= t <= kp.len(),
                    key@ == key_at(fixed, kp, row as int).subrange(0, t as int),
                decreases kp.len() - t,
            {
                let id = key_polys[t].id;
                let cols = fixed_data.fixed_cols.len();
                assert(id < cols);
                let col = &fixed_data.fixed_cols[id as usize];
                key.push(col[row]);
                t = t + 1;
                assert(key@ =~= key_at(fixed, kp, row as int).subrange(0, t as int));
            }
            assert(key@ =~= key_at(fixed, kp, row as int));
            let b = bucket(&key);
            let ghost old_buckets = buckets@;
            let mut rows: Vec<usize> = match buckets.remove(&b) {
                Some(v) => v,
                None => Vec::new(),
            };
            assert(old_buckets.contains_key(b) ==> rows@ == old_buckets[b]@);
            assert(!old_buckets.contains_key(b) ==> rows@.len() == 0);
            let mut t: usize = 0;
            while t < rows.len()
                invariant
                    fixed == *fixed_data,
                    degree == fixed.degree,
                    row < degree,
                    connecting_identities@.len() > 0,
                    kp == key_polys_of(connecting_identities@[0].right.expressions@),
                    0 <= t <= rows@.len(),
                    key_to_index@.len() == row,
                    key@ == key_at(fixed, kp, row as int),
                    forall|q: int| 0 <= q < row ==> (#[trigger] key_to_index@[q])@ == key_at(fixed, kp, q),
                    indexes(old_buckets, key_to_index@, row as int),
                    old_buckets.contains_key(b) ==> rows@ == old_buckets[b]@,
                    !old_buckets.contains_key(b) ==> rows@.len() == 0,
                    forall|q: int| 0 <= q < t ==> key_at(fixed, kp, (#[trigger] rows@[q]) as int) != key_at(fixed, kp, row as int),
                decreases rows@.len() - t,
            {
                let r = rows[t];
                assert(r < row);
                if same_key(&key_to_index[r], &key) {
                    // Duplicate keys: not a write-once memory.
                    assert(key_at(fixed, kp, r as int) == key_at(fixed, kp, row as int));
                    return None;
                }
                t = t + 1;
            }
            proof {
                assert forall|r1: int| 0 <= r1 < row implies key_at(fixed, kp, r1) != key_at(fixed, kp, row as int) by {
                    if key_at(fixed, kp, r1) == key_at(fixed, kp, row as int) {
                        assert(bucket_of(key_to_index@[r1]@) == b);
                        assert(old_buckets[b]@.contains(r1 as usize));
                        let q = choose|q: int| 0 <= q < rows@.len() && rows@[q] == r1 as usize;
                        assert(key_at(fixed, kp, rows@[q] as int) != key_at(fixed, kp, row as int));
                    }
                }
            }
            let ghost old_rows = rows@;
            rows.push(row);
            let ghost rows_v = rows;
            buckets.insert(b, rows);
            let ghost old_keys = key_to_index@;
            key_to_index.push(key);
            proof {
                assert(buckets@ =~= old_buckets.insert(b, rows_v));
                assert(rows_v@ == old_rows.push(row as usize));
                assert forall|r: int| 0 <= r < row implies key_to_index@[r] == old_keys[r] by {}
                let nb = buckets@;
                assert forall|c: u64, t: int| nb.contains_key(c) && 0 <= t < nb[c]@.len() implies (#[trigger] nb[c]@[t]) < row + 1
                    && bucket_of(key_to_index@[nb[c]@[t] as int]@) == c by {
                    if c == b && t == old_rows.len() {
                    } else if c == b {
                        assert(nb[c]@[t] == old_rows[t]);
                    }
                }
                assert forall|r: int| 0 <= r < row + 1 implies nb.contains_key(bucket_of((#[trigger] key_to_index@[r])@)) && nb[bucket_of(
                    key_to_index@[r]@,
                )]@.contains(r as usize) by {
                    if r == row {
                        assert(nb[b]@[old_rows.len() as int] == row);
                    } else {
                        let c = bucket_of(key_to_index@[r]@);
                        if c == b {
                            let q = choose|q: int| 0 <= q < old_rows.len() && old_rows[q] == r as usize;
                            assert(nb[b]@[q] == r as usize);
                        }
                    }
                }
            }
            row = row + 1;
        }
        let mut data: Vec<Option<Vec<Option<u64>>>> = Vec::new();
        let mut r: usize = 0;
        while r < degree
            invariant
                0 <= r <= degree,
                data@.len() == r,
                forall|q: int| 0 <= q < r ==> (#[trigger] data@[q]) is None,
            decreases degree - r,
        {
            data.push(None);
            r = r + 1;
        }
        let m = WriteOnceMemory { fixed_data, rhs: rhs.copy(), key_polys, value_polys, key_to_index, buckets, data };
        assert(m.rhs.expressions@ == exprs);
        Some(m)
    }
}


/// What a request comes to, on the model.
pub enum LookupOutcome {
    /// Some key-side expression is not a constant yet.
    NonConstantKey,
    /// The constant key tuple addresses no row.
    KeyNotFound(Seq<u64>),
    /// A value-side equation contradicts the known value.
    Contradiction,
    /// The row addressed, its reconciled slots and the bindings found.
    Resolved { row: int, values: Seq<Option<u64>>, updates: Seq<Assignment> },
}

/// The known value of a slot wins; otherwise the request's constant, if any.
pub open spec fn reconcile(request: Option<u64>, source: Option<u64>) -> Option<u64> {
    match source {
        Some(v) => Some(v),
        None => request,
    }
}

/// The bindings from solving the first `n` value expressions against their
/// known values, in order; `None` if one of them is contradictory.
pub open spec fn collected(vs: Seq<AffineExpression>, sources: Seq<Option<u64>>, n: nat) -> Option<
    Seq<Assignment>,
>
    decreases n,
{
    if n == 0 {
        Some(seq![])
    } else {
        match collected(vs, sources, (n - 1) as nat) {
            None => None,
            Some(p) => match sources[n - 1] {
                None => Some(p),
                Some(v) => match vs[n - 1].solution(v) {
                    None => None,
                    Some(s) => Some(p + s),
                },
            },
        }
    }
}

impl<'a> WriteOnceMemory<'a> {
    /// The row whose key tuple is `key`, if any.
    pub open spec fn row_of(&self, key: Seq<u64>) -> Option<int> {
        if exists|r: int| 0 <= r < self.keys().len() && self.keys()[r] == key {
            Some(choose|r: int| 0 <= r < self.keys().len() && self.keys()[r] == key)
        } else {
            None
        }
    }

    /// What the Memory Store holds for value column `i` of `row`.
    pub open spec fn stored(&self, row: int, i: int) -> Option<u64> {
        match self.memory()[row] {
            Some(v) => v[i],
            None => None,
        }
    }

    /// The value supplied from outside for value column `i` at `row`.
    pub open spec fn external(&self, row: int, i: int) -> Option<u64> {
        self.fixed().external_at(self.value_polys()[i].id, row)
    }

    /// The source of truth for a slot: the outside value, else the stored one.
    pub open spec fn source(&self, row: int, i: int) -> Option<u64> {
        match self.external(row, i) {
            Some(e) => Some(e),
            None => self.stored(row, i),
        }
    }

    pub open spec fn key_side(&self, left: Seq<AffineExpression>) -> Seq<AffineExpression> {
        select(self.rhs().expressions@, left, true, self.rhs().expressions@.len())
    }

    pub open spec fn value_side(&self, left: Seq<AffineExpression>) -> Seq<AffineExpression> {
        select(self.rhs().expressions@, left, false, self.rhs().expressions@.len())
    }

    /// The key tuple of a request whose key side is constant.
    pub open spec fn request_key(&self, left: Seq<AffineExpression>) -> Seq<u64> {
        self.key_side(left).map_values(|e: AffineExpression| e.offset)
    }

    /// The row that a request with a constant key side addresses.
    pub open spec fn request_row(&self, left: Seq<AffineExpression>) -> Option<int> {
        self.row_of(self.request_key(left))
    }

    /// The outcome of a request with left-hand side `left`.
    pub open spec fn outcome(&self, left: Seq<AffineExpression>) -> LookupOutcome {
        let ks = self.key_side(left);
        let vs = self.value_side(left);
        if exists|t: int| 0 <= t < ks.len() && (#[trigger] ks[t]).constant_spec() is None {
            LookupOutcome::NonConstantKey
        } else {
            let key = ks.map_values(|e: AffineExpression| e.offset);
            match self.row_of(key) {
                None => LookupOutcome::KeyNotFound(key),
                Some(row) => {
                    let sources = Seq::new(vs.len(), |i: int| self.source(row, i));
                    match collected(vs, sources, vs.len()) {
                        None => LookupOutcome::Contradiction,
                        Some(u) => LookupOutcome::Resolved {
                            row,
                            values: Seq::new(
                                vs.len(),
                                |i: int| reconcile(vs[i].constant_spec(), sources[i]),
                            ),
                            updates: u,
                        },
                    }
                },
            }
        }
    }

    /// Every slot of `values` is known.
    pub open spec fn all_known(values: Seq<Option<u64>>) -> bool {
        forall|i: int| 0 <= i < values.len() ==> (#[trigger] values[i]) is Some
    }

    /// `r` and the state `after` are what a request with left-hand side `left`
    /// to this machine gives.
    pub open spec fn answers(&self, after: &Self, left: Seq<AffineExpression>, r: &EvalResult) -> bool {
        match self.outcome(left) {
            LookupOutcome::NonConstantKey => {
                &&& r is Ok
                &&& r->Ok_0.updates@.len() == 0
                &&& r->Ok_0.status == EvalStatus::Incomplete(IncompleteCause::NonConstantKey)
                &&& after.memory() == self.memory()
            },
            LookupOutcome::KeyNotFound(key) => {
                &&& r is Err
                &&& r->Err_0 is KeyNotFound
                &&& r->Err_0->KeyNotFound_0@ == key
                &&& after.memory() == self.memory()
            },
            LookupOutcome::Contradiction => {
                &&& r is Err
                &&& r->Err_0 is ConstraintUnsatisfiable
                &&& after.memory() == self.memory()
            },
            LookupOutcome::Resolved { row, values, updates } => {
                &&& r is Ok
                &&& r->Ok_0.updates@ == updates
                &&& r->Ok_0.status == if Self::all_known(values) {
                    EvalStatus::Complete
                } else {
                    EvalStatus::Incomplete(IncompleteCause::NonConstantValue)
                }
                &&& after.memory() == self.memory().update(row, Some(values))
            },
        }
    }

    /// The parts of the machine that no request changes.
    pub open spec fn same_layout(&self, other: &WriteOnceMemory) -> bool {
        &&& self.fixed() == other.fixed()
        &&& self.rhs() == other.rhs()
        &&& self.value_polys() == other.value_polys()
        &&& self.key_polys() == other.key_polys()
        &&& self.keys() == other.keys()
    }
}


impl<'a> WriteOnceMemory<'a> {
    /// The row whose key tuple is `key`: a scan of the rows filed under its
    /// first value.
    fn find_row(&self, key: &Vec<u64>) -> (r: Option<usize>)
        requires
            self.wf(),
        ensures
            match self.row_of(key@) {
                Some(row) => r == Some(row as usize),
                None => r is None,
            },
    {
        let b = bucket(key);
        let ghost fixed = *self.fixed_data;
        let rows = match self.buckets.get(&b) {
            Some(rows) => rows,
            None => {
                proof {
                    if exists|q: int| 0 <= q < self.keys().len() && self.keys()[q] == key@ {
                        let q = choose|q: int| 0 <= q < self.keys().len() && self.keys()[q] == key@;
                        assert(self.key_to_index@[q]@ == key@);
                    }
                }
                return None;
            },
        };
        assert(self.buckets@.contains_key(b) && self.buckets@[b] == *rows);
        let mut t: usize = 0;
        while t < rows.len()
            invariant
                self.wf(),
                self.buckets@.contains_key(b),
                self.buckets@[b] == *rows,
                b == bucket_of(key@),
                0 <= t <= rows@.len(),
                forall|q: int| 0 <= q < t ==> self.keys()[(#[trigger] rows@[q]) as int] != key@,
            decreases rows@.len() - t,
        {
            let r = rows[t];
            if same_key(&self.key_to_index[r], key) {
                proof {
                    assert(self.keys()[r as int] == key@);
                    let c = choose|q: int| 0 <= q < self.keys().len() && self.keys()[q] == key@;
                    if c != r {
                        if c < r {
                            assert(key_at(fixed, self.key_polys@, c) != key_at(fixed, self.key_polys@, r as int));
                        } else {
                            assert(key_at(fixed, self.key_polys@, r as int) != key_at(fixed, self.key_polys@, c));
                        }
                    }
                }
                return Some(r);
            }
            t = t + 1;
        }
        proof {
            if exists|q: int| 0 <= q < self.keys().len() && self.keys()[q] == key@ {
                let q = choose|q: int| 0 <= q < self.keys().len() && self.keys()[q] == key@;
                assert(self.key_to_index@[q]@ == key@);
                assert(rows@.contains(q as usize));
                let u = choose|u: int| 0 <= u < rows@.len() && rows@[u] == q as usize;
                assert(self.keys()[rows@[u] as int] != key@);
            }
        }
        None
    }

    fn process_plookup_internal(&mut self, left: &[AffineExpression]) -> (r: EvalResult)
        requires
            old(self).wf(),
            left@.len() == old(self).rhs().expressions@.len(),
            forall|j: int| 0 <= j < left@.len() ==> (#[trigger] left@[j]).wf(),
        ensures
            final(self).wf(),
            final(self).same_layout(old(self)),
            old(self).answers(final(self), left@, &r),
    {
        let ghost rhs = self.rhs.expressions@;
        let n = self.rhs.expressions.len();
        let ghost ks = self.key_side(left@);
        let ghost vs = self.value_side(left@);
        let mut key: Vec<u64> = Vec::new();
        let mut key_ok = true;
        // Positions in `left` of the value-side expressions.
        let mut vals: Vec<usize> = Vec::new();
        let mut j: usize = 0;
        while j < n
            invariant
                self.wf(),
                rhs == self.rhs.expressions@,
                n == rhs.len(),
                left@.len() == n,
                0 <= j <= n,
                key_ok == forall|t: int|
                    0 <= t < select(rhs, left@, true, j as nat).len()
                        ==> (#[trigger] select(rhs, left@, true, j as nat)[t]).constant_spec() is Some,
                key_ok ==> key@ == select(rhs, left@, true, j as nat).map_values(
                    |e: AffineExpression| e.offset,
                ),
                vals@.len() == select(rhs, left@, false, j as nat).len(),
                forall|t: int|
                    0 <= t < vals@.len() ==> #[trigger] vals@[t] < n && left@[vals@[t] as int]
                        == select(rhs, left@, false, j as nat)[t],
            decreases n - j,
        {
            let is_key = match self.rhs.expressions[j] {
                Expression::Reference(r) => r.poly_id.ptype == PolynomialType::Constant,
                _ => false,
            };
            let ghost prev_k = select(rhs, left@, true, j as nat);
            assert(is_key == is_key_expr(rhs[j as int]));
            if is_key {
                match left[j].constant_value() {
                    Some(c) => {
                        if key_ok {
                            key.push(c);
                        }
                    },
                    None => {
                        key_ok = false;
                    },
                }
                assert(select(rhs, left@, true, (j + 1) as nat) == prev_k.push(left@[j as int]));
                assert(key_ok ==> key@ =~= select(rhs, left@, true, (j + 1) as nat).map_values(
                    |e: AffineExpression| e.offset,
                ));
                proof {
                    let next = select(rhs, left@, true, (j + 1) as nat);
                    if left@[j as int].constant_spec() is Some {
                        assert forall|t: int| 0 <= t < next.len() && (forall|t: int|
                            0 <= t < prev_k.len() ==> (#[trigger] prev_k[t]).constant_spec() is Some)
                            implies (#[trigger] next[t]).constant_spec() is Some by {
                            if t < prev_k.len() {
                                assert(next[t] == prev_k[t]);
                            }
                        }
                        assert forall|t: int| 0 <= t < prev_k.len() && (forall|t: int|
                            0 <= t < next.len() ==> (#[trigger] next[t]).constant_spec() is Some)
                            implies (#[trigger] prev_k[t]).constant_spec() is Some by {
                            assert(next[t] == prev_k[t]);
                        }
                    } else {
                        assert(next[prev_k.len() as int].constant_spec() is None);
                    }
                }
            } else {
                vals.push(j);
            }
            j = j + 1;
        }
        assert(ks == select(rhs, left@, true, n as nat));
        if !key_ok {
            return Ok(EvalValue::incomplete(IncompleteCause::NonConstantKey));
        }
        let found = self.find_row(&key);
        let row = match found {
            Some(row) => row,
            None => {
                return Err(EvalError::KeyNotFound(key));
            },
        };
        let m = vals.len();
        let ghost key_seq = ks.map_values(|e: AffineExpression| e.offset);
        assert(forall|t: int| 0 <= t < ks.len() ==> (#[trigger] ks[t]).constant_spec() is Some);
        assert(self.row_of(key_seq) == Some(row as int));
        proof {
            lemma_select_len(rhs, left@, polys_of(rhs), false, n as nat);
        }
        let ghost sources = Seq::new(vs.len(), |i: int| self.source(row as int, i));
        let mut updates: Vec<Assignment> = Vec::new();
        let mut values: Vec<Option<u64>> = Vec::new();
        let mut i: usize = 0;
        while i < m
            invariant
                self.wf(),
                m == vals@.len(),
                m == vs.len(),
                m == self.value_polys@.len(),
                vs == select(rhs, left@, false, n as nat),
                rhs == self.rhs.expressions@,
                n == rhs.len(),
                left@.len() == n,
                forall|j: int| 0 <= j < left@.len() ==> (#[trigger] left@[j]).wf(),
                forall|t: int|
                    0 <= t < vals@.len() ==> #[trigger] vals@[t] < n && left@[vals@[t] as int] == vs[t],
                row < self.data@.len(),
                ks == self.key_side(left@),
                vs == self.value_side(left@),
                forall|t: int| 0 <= t < ks.len() ==> (#[trigger] ks[t]).constant_spec() is Some,
                key_seq == ks.map_values(|e: AffineExpression| e.offset),
                self.row_of(key_seq) == Some(row as int),
                sources == Seq::new(vs.len(), |i: int| self.source(row as int, i)),
                0 <= i <= m,
                collected(vs, sources, i as nat) == Some(updates@),
                values@ == Seq::new(i as nat, |k: int| reconcile(vs[k].constant_spec(), sources[k])),
                forall|k: int| 0 <= k < i && (#[trigger] values@[k]) is Some ==> is_fe(values@[k]->0),
            decreases m - i,
        {
            let p = self.value_polys[i].id;
            proof {
                lemma_select_index(rhs, polys_of(rhs), false, n as nat, i as int);
            }
            let ext = self.fixed_data.external_witness(row, p);
            let src = match ext {
                Some(e) => Some(e),
                None => match &self.data[row] {
                    Some(v) => v[i],
                    None => None,
                },
            };
            assert(src == sources[i as int]);
            let e = &left[vals[i]];
            match src {
                None => {
                    values.push(e.constant_value());
                },
                Some(v) => {
                    match e.solve_for(v) {
                        Ok(s) => {
                            let mut s = s;
                            updates.append(&mut s);
                            values.push(Some(v));
                        },
                        Err(err) => {
                            assert(e.solution(v) is None);
                            assert(collected(vs, sources, (i + 1) as nat) is None);
                            proof {
                                lemma_collected_none(vs, sources, (i + 1) as nat, m as nat);
                                assert(self.outcome(left@) == LookupOutcome::Contradiction);
                            }
                            return Err(err);
                        },
                    }
                },
            }
            i = i + 1;
            assert(values@ =~= Seq::new(i as nat, |k: int| reconcile(vs[k].constant_spec(), sources[k])));
        }
        let mut complete = true;
        let mut k: usize = 0;
        while k < m
            invariant
                m == values@.len(),
                0 <= k <= m,
                complete == forall|q: int| 0 <= q < k ==> (#[trigger] values@[q]) is Some,
            decreases m - k,
        {
            if values[k].is_none() {
                complete = false;
            }
            k = k + 1;
        }
        let ghost new_values = values@;
        self.data.set(row, Some(values));
        proof {
            assert(self.memory() =~= old(self).memory().update(row as int, Some(new_values)));
        }
        if complete {
            Ok(EvalValue::complete(updates))
        } else {
            Ok(EvalValue::incomplete_with_constraints(updates, IncompleteCause::NonConstantValue))
        }
    }
}

impl<'a> WriteOnceMemory<'a> {
    /// Handles a lookup into this machine's right-hand side, or declines
    /// (`None`) a request meant for another machine.
    pub fn process_plookup(
        &mut self,
        kind: IdentityKind,
        left: &[AffineExpression],
        right: &SelectedExpressions,
    ) -> (r: Option<EvalResult>)
        requires
            old(self).wf(),
            left@.len() == right.expressions@.len(),
            forall|j: int| 0 <= j < left@.len() ==> (#[trigger] left@[j]).wf(),
        ensures
            final(self).wf(),
            final(self).same_layout(old(self)),
            r is Some <==> (right.same_as(&old(self).rhs()) && kind == IdentityKind::Plookup),
            r is None ==> final(self).memory() == old(self).memory(),
            r is Some ==> old(self).answers(final(self), left@, &r->0),
    {
        if kind == IdentityKind::Plookup && right.same(&self.rhs) {
            Some(self.process_plookup_internal(left))
        } else {
            None
        }
    }

    /// The dense column of value column `i` once witness generation is done.
    pub open spec fn final_column(&self, i: int) -> Seq<u64> {
        let degree = self.fixed().degree as nat;
        match self.fixed().witness_cols@[self.value_polys()[i].id as int].external_values {
            Some(ext) => Seq::new(degree, |r: int| if r < ext@.len() { ext@[r] } else { 0 }),
            None => Seq::new(
                degree,
                |r: int|
                    match self.memory()[r] {
                        Some(v) => match v[i] {
                            Some(x) => x,
                            None => 0,
                        },
                        None => 0,
                    },
            ),
        }
    }

    /// The name of the witness column behind value column `i`.
    pub open spec fn column_name(&self, i: int) -> Seq<char> {
        self.fixed().witness_cols@[self.value_polys()[i].id as int].name@
    }

    /// The value columns, by name, as dense columns of the trace's length.
    pub fn take_witness_col_values(&self) -> (r: Vec<(String, Vec<u64>)>)
        requires
            self.wf(),
        ensures
            r@.len() == self.value_polys().len(),
            forall|i: int|
                0 <= i < r@.len() ==> (#[trigger] r@[i]).0@ == self.column_name(i) && r@[i].1@
                    == self.final_column(i),
    {
        let degree = self.fixed_data.degree as usize;
        let ghost rhs = self.rhs.expressions@;
        let m = self.value_polys.len();
        let mut result: Vec<(String, Vec<u64>)> = Vec::new();
        let mut i: usize = 0;
        while i < m
            invariant
                self.wf(),
                rhs == self.rhs.expressions@,
                m == self.value_polys@.len(),
                degree == self.fixed().degree,
                0 <= i <= m,
                result@.len() == i,
                forall|k: int|
                    0 <= k < i ==> (#[trigger] result@[k]).0@ == self.column_name(k) && result@[k].1@
                        == self.final_column(k),
            decreases m - i,
        {
            proof {
                lemma_select_index(rhs, polys_of(rhs), false, rhs.len(), i as int);
            }
            let p = self.value_polys[i].id;
            let n_cols = self.fixed_data.witness_cols.len();
            assert(p < n_cols);
            let wc = &self.fixed_data.witness_cols[p as usize];
            let mut column: Vec<u64> = Vec::new();
            let mut r: usize = 0;
            match &wc.external_values {
                Some(ext) => {
                    // Outside values may cover only part of the trace.
                    while r < degree
                        invariant
                            0 <= r <= degree,
                            column@ =~= Seq::new(r as nat, |q: int| if q < ext@.len() { ext@[q] } else { 0 }),
                        decreases degree - r,
                    {
                        if r < ext.len() {
                            column.push(ext[r]);
                        } else {
                            column.push(0);
                        }
                        r = r + 1;
                    }
                },
                None => {
                    while r < degree
                        invariant
                            self.wf(),
                            degree == self.fixed().degree,
                            m == self.value_polys@.len(),
                            i < m,
                            0 <= r <= degree,
                            column@ =~= Seq::new(
                                r as nat,
                                |q: int|
                                    match self.memory()[q] {
                                        Some(v) => match v[i as int] {
                                            Some(x) => x,
                                            None => 0,
                                        },
                                        None => 0,
                                    },
                            ),
                        decreases degree - r,
                    {
                        match &self.data[r] {
                            Some(v) => column.push(v[i].unwrap_or(0)),
                            None => column.push(0),
                        }
                        r = r + 1;
                    }
                },
            }
            result.push((wc.name.clone(), column));
            i = i + 1;
        }
        result
    }
}

proof fn lemma_collected_none(vs: Seq<AffineExpression>, sources: Seq<Option<u64>>, i: nat, n: nat)
    requires
        i <= n,
        collected(vs, sources, i) is None,
    ensures
        collected(vs, sources, n) is None,
    decreases n,
{
    if n > i {
        lemma_collected_none(vs, sources, i, (n - 1) as nat);
    }
}

proof fn lemma_select_len<A, B>(rhs: Seq<Expression>, a: Seq<A>, b: Seq<B>, key: bool, n: nat)
    ensures
        select(rhs, a, key, n).len() == select(rhs, b, key, n).len(),
    decreases n,
{
    if n > 0 {
        lemma_select_len(rhs, a, b, key, (n - 1) as nat);
    }
}

proof fn lemma_select_index<A>(rhs: Seq<Expression>, items: Seq<A>, key: bool, n: nat, t: int)
    requires
        0 <= t < select(rhs, items, key, n).len(),
    ensures
        exists|j: int| 0 <= j < n && is_key_expr(rhs[j]) == key && select(rhs, items, key, n)[t] == items[j],
    decreases n,
{
    let p = select(rhs, items, key, (n - 1) as nat);
    if t < p.len() {
        lemma_select_index(rhs, items, key, (n - 1) as nat, t);
    } else {
        assert(select(rhs, items, key, n)[t] == items[n - 1]);
    }
}

fn same_key(a: &Vec<u64>, b: &Vec<u64>) -> (r: bool)
    ensures
        r == (a@ == b@),
{
    if a.len() != b.len() {
        return false;
    }
    let mut i: usize = 0;
    while i < a.len()
        invariant
            a@.len() == b@.len(),
            0 <= i <= a@.len(),
            forall|j: int| 0 <= j < i ==> a@[j] == b@[j],
        decreases a@.len() - i,
    {
        if a[i] != b[i] {
            return false;
        }
        i = i + 1;
    }
    assert(a@ =~= b@);
    true
}

} // verus!

verus! {

proof fn lemma_collected_all_unset(vs: Seq<AffineExpression>, sources: Seq<Option<u64>>, n: nat)
    requires
        forall|k: int| 0 <= k < n ==> (#[trigger] sources[k]) is None,
    ensures
        collected(vs, sources, n) == Some(Seq::<Assignment>::empty()),
    decreases n,
{
    if n > 0 {
        lemma_collected_all_unset(vs, sources, (n - 1) as nat);
    }
}

proof fn lemma_collected_single(
    vs: Seq<AffineExpression>,
    sources: Seq<Option<u64>>,
    n: nat,
    i: int,
    s: Seq<Assignment>,
)
    requires
        forall|k: int| 0 <= k < n && k != i ==> (#[trigger] sources[k]) is None || vs[k].solution(sources[k]->0) == Some(Seq::<Assignment>::empty()),
        0 <= i,
        sources[i] is Some,
        vs[i].solution(sources[i]->0) == Some(s),
    ensures
        collected(vs, sources, n) == Some(if i < n { s } else { Seq::<Assignment>::empty() }),
    decreases n,
{
    if n > 0 {
        lemma_collected_single(vs, sources, (n - 1) as nat, i, s);
        let k = n - 1;
        if k == i {
            assert(Seq::<Assignment>::empty() + s =~= s);
        } else if sources[k] is Some {
            let p = if i < n - 1 { s } else { Seq::<Assignment>::empty() };
            assert(p + Seq::<Assignment>::empty() =~= p);
        }
    }
}

impl<'a> WriteOnceMemory<'a> {
    proof fn lemma_sides(&self, left: Seq<AffineExpression>)
        requires
            self.wf(),
            left.len() == self.rhs().expressions@.len(),
        ensures
            self.value_side(left).len() == self.value_polys().len(),
            self.fixed().wf(),
            self.memory().len() == self.fixed().degree,
            forall|i: int| 0 <= i < self.value_polys().len() ==> (#[trigger] self.value_polys()[i]).id < self.fixed().witness_cols@.len(),
    {
        let rhs = self.rhs.expressions@;
        lemma_select_len(rhs, left, polys_of(rhs), false, rhs.len());
        assert forall|i: int| 0 <= i < self.value_polys().len() implies (#[trigger] self.value_polys()[i]).id < self.fixed().witness_cols@.len() by {
            lemma_select_index(rhs, polys_of(rhs), false, rhs.len(), i);
        }
    }

    proof fn lemma_source_is_fe(&self, row: int, i: int)
        requires
            self.wf(),
            0 <= row < self.fixed().degree,
            0 <= i < self.value_polys().len(),
            self.source(row, i) is Some,
        ensures
            is_fe(self.source(row, i)->0),
    {
        let rhs = self.rhs.expressions@;
        lemma_select_index(rhs, polys_of(rhs), false, rhs.len(), i);
        if self.external(row, i) is None {
            let v = self.data@[row]->0@;
            assert(self.memory()[row] == Some(v));
            assert(is_fe(v[i]->0));
        }
    }

    /// A request that reaches a row no request has reached before, where no
    /// outside values exist, stores the constants of its value side, emits no
    /// updates, and is complete exactly when every value-side expression is a
    /// constant.
    pub proof fn lemma_first_write(&self, left: Seq<AffineExpression>)
        requires
            self.wf(),
            left.len() == self.rhs().expressions@.len(),
            forall|t: int|
                0 <= t < self.key_side(left).len() ==> (#[trigger] self.key_side(left)[t]).constant_spec() is Some,
            self.request_row(left) is Some,
            self.memory()[self.request_row(left)->0] is None,
            forall|i: int|
                0 <= i < self.value_polys().len() ==> #[trigger] self.external(
                    self.request_row(left)->0,
                    i,
                ) is None,
        ensures
            ({
                let row = self.request_row(left)->0;
                let vs = self.value_side(left);
                match self.outcome(left) {
                    LookupOutcome::Resolved { row: r, values, updates } => {
                        &&& r == row
                        &&& updates.len() == 0
                        &&& values == Seq::new(vs.len(), |i: int| vs[i].constant_spec())
                        &&& (Self::all_known(values) <==> forall|i: int|
                            0 <= i < vs.len() ==> (#[trigger] vs[i]).constant_spec() is Some)
                    },
                    _ => false,
                }
            }),
    {
        self.lemma_sides(left);
        let ks = self.key_side(left);
        let vs = self.value_side(left);
        let row = self.row_of(ks.map_values(|e: AffineExpression| e.offset))->0;
        let sources = Seq::new(vs.len(), |i: int| self.source(row, i));
        assert forall|k: int| 0 <= k < vs.len() implies (#[trigger] sources[k]) is None by {
            assert(self.external(row, k) is None);
        }
        lemma_collected_all_unset(vs, sources, vs.len());
        let values = Seq::new(vs.len(), |i: int| reconcile(vs[i].constant_spec(), sources[i]));
        assert(values =~= Seq::new(vs.len(), |i: int| vs[i].constant_spec()));
        assert(!(exists|t: int| 0 <= t < ks.len() && (#[trigger] ks[t]).constant_spec() is None));
        assert(self.outcome(left) == LookupOutcome::Resolved { row, values, updates: Seq::<Assignment>::empty() });
        assert(Self::all_known(values) <==> forall|i: int|
            0 <= i < vs.len() ==> (#[trigger] vs[i]).constant_spec() is Some) by {
            if Self::all_known(values) {
                assert forall|i: int| 0 <= i < vs.len() implies (#[trigger] vs[i]).constant_spec() is Some by {
                    assert(values[i] is Some);
                }
            }
            if forall|i: int| 0 <= i < vs.len() ==> (#[trigger] vs[i]).constant_spec() is Some {
                assert forall|i: int| 0 <= i < values.len() implies (#[trigger] values[i]) is Some by {
                    assert(vs[i].constant_spec() is Some);
                }
            }
        }
    }

    /// A request whose constant value differs from the value already settled
    /// for a column of its row, with no outside value there, fails.
    pub proof fn lemma_conflicting_write(&self, left: Seq<AffineExpression>, i: int)
        requires
            self.wf(),
            left.len() == self.rhs().expressions@.len(),
            forall|t: int|
                0 <= t < self.key_side(left).len() ==> (#[trigger] self.key_side(left)[t]).constant_spec() is Some,
            self.request_row(left) is Some,
            0 <= i < self.value_polys().len(),
            ({
                let row = self.request_row(left)->0;
                &&& self.external(row, i) is None
                &&& self.stored(row, i) is Some
                &&& self.value_side(left)[i].constant_spec() is Some
                &&& self.value_side(left)[i].constant_spec() != self.stored(row, i)
            }),
        ensures
            self.outcome(left) == LookupOutcome::Contradiction,
    {
        self.lemma_sides(left);
        let ks = self.key_side(left);
        let vs = self.value_side(left);
        let row = self.row_of(ks.map_values(|e: AffineExpression| e.offset))->0;
        let sources = Seq::new(vs.len(), |k: int| self.source(row, k));
        assert(sources[i] == self.stored(row, i));
        assert(vs[i].solution(sources[i]->0) is None);
        assert(collected(vs, sources, (i + 1) as nat) is None) by {
            if collected(vs, sources, i as nat) is None {
            }
        }
        lemma_collected_none(vs, sources, (i + 1) as nat, vs.len());
    }

    /// At a row where every value column is known, a request whose value
    /// column `i` is a bare unknown `x`, and whose other value columns agree
    /// with what is known, binds `x` to the known value and is complete.
    pub proof fn lemma_read_back(&self, left: Seq<AffineExpression>, i: int, x: u64)
        requires
            self.wf(),
            left.len() == self.rhs().expressions@.len(),
            forall|t: int|
                0 <= t < self.key_side(left).len() ==> (#[trigger] self.key_side(left)[t]).constant_spec() is Some,
            self.request_row(left) is Some,
            0 <= i < self.value_polys().len(),
            i < self.value_side(left).len(),
            self.value_side(left)[i].coefficients@ == seq![(x, 1u64)],
            self.value_side(left)[i].offset == 0,
            ({
                let row = self.request_row(left)->0;
                forall|k: int|
                    0 <= k < self.value_side(left).len() ==> #[trigger] self.source(row, k) is Some && (k
                        != i ==> self.value_side(left)[k].constant_spec() == self.source(row, k))
            }),
        ensures
            ({
                let row = self.request_row(left)->0;
                match self.outcome(left) {
                    LookupOutcome::Resolved { row: r, values, updates } => {
                        &&& r == row
                        &&& updates == seq![Assignment { variable: x, value: self.source(row, i)->0 }]
                        &&& Self::all_known(values)
                    },
                    _ => false,
                }
            }),
    {
        self.lemma_sides(left);
        let ks = self.key_side(left);
        let vs = self.value_side(left);
        let row = self.row_of(ks.map_values(|e: AffineExpression| e.offset))->0;
        let sources = Seq::new(vs.len(), |k: int| self.source(row, k));
        let v = sources[i]->0;
        self.lemma_source_is_fe(row, i);
        vstd::arithmetic::power::lemma1_pow((crate::field::MODULUS - 2) as nat);
        vstd::arithmetic::div_mod::lemma_small_mod(1, crate::field::MODULUS as nat);
        vstd::arithmetic::div_mod::lemma_small_mod(v as nat, crate::field::MODULUS as nat);
        assert(crate::field::inverse_spec(1) == 1);
        let s = seq![Assignment { variable: x, value: v }];
        assert(vs[i].coefficients@[0] == (x, 1u64));
        assert((v - vs[i].offset) % crate::field::modulus() == v);
        assert(((v - vs[i].offset) % crate::field::modulus()) * crate::field::inverse_spec(1) % crate::field::modulus() == v);
        let c = vs[i].coefficients@[0].1;
        assert(c == 1);
        assert(crate::field::inverse_spec(c) == 1);
        assert(vs[i].solution(v) == Some(s));
        assert forall|k: int| 0 <= k < vs.len() && k != i implies (#[trigger] sources[k]) is None
            || vs[k].solution(sources[k]->0) == Some(Seq::<Assignment>::empty()) by {
            assert(self.source(row, k) is Some);
        }
        lemma_collected_single(vs, sources, vs.len(), i, s);
    }

    /// A request whose constant key addresses no row fails, whatever its value side.
    pub proof fn lemma_unknown_address(&self, left: Seq<AffineExpression>)
        requires
            forall|t: int|
                0 <= t < self.key_side(left).len() ==> (#[trigger] self.key_side(left)[t]).constant_spec() is Some,
            self.request_row(left) is None,
        ensures
            self.outcome(left) == LookupOutcome::KeyNotFound(self.request_key(left)),
    {
    }

    /// An outside value for a slot is what a request reconciles to and what the
    /// finished column holds, whatever the Memory Store holds.
    pub proof fn lemma_override_wins(&self, left: Seq<AffineExpression>, i: int)
        requires
            self.wf(),
            left.len() == self.rhs().expressions@.len(),
            0 <= i < self.value_polys().len(),
            self.request_row(left) is Some,
            self.external(self.request_row(left)->0, i) is Some,
        ensures
            ({
                let row = self.request_row(left)->0;
                let e = self.external(row, i);
                &&& self.final_column(i)[row] == e->0
                &&& match self.outcome(left) {
                    LookupOutcome::Resolved { values, .. } => values[i] == e,
                    _ => true,
                }
            }),
    {
        self.lemma_sides(left);
        let row = self.request_row(left)->0;
        assert(0 <= row < self.fixed().degree);
    }

    /// Write-once: a request never changes a slot that already has a known
    /// value; the row it settles keeps every known value as it was.
    pub proof fn lemma_known_slots_kept(&self, left: Seq<AffineExpression>, i: int)
        requires
            self.wf(),
            left.len() == self.rhs().expressions@.len(),
            0 <= i < self.value_polys().len(),
        ensures
            match self.outcome(left) {
                LookupOutcome::Resolved { row, values, .. } => self.source(row, i) is Some
                    ==> values[i] == self.source(row, i),
                _ => true,
            },
    {
        self.lemma_sides(left);
    }

    /// A row that no request has reached and that has no outside value ends
    /// as zero in the finished column.
    pub proof fn lemma_untouched_row_is_zero(&self, row: int, i: int)
        requires
            self.wf(),
            0 <= row < self.fixed().degree,
            0 <= i < self.value_polys().len(),
            self.memory()[row] is None,
            self.external(row, i) is None,
        ensures
            self.final_column(i)[row] == 0,
    {
    }
}

} // verus!
