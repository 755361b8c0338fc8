use write_once_memory::affine::AffineExpression;
use write_once_memory::eval::{Assignment, EvalError, EvalResult, EvalStatus, IncompleteCause};
use write_once_memory::field::{fe_add, fe_inverse, fe_mul, fe_sub, MODULUS};
use write_once_memory::identity::{
    AlgebraicReference, Expression, FixedData, Identity, IdentityKind, PolyId, PolynomialType,
    SelectedExpressions, WitnessColumn,
};
use write_once_memory::memory::WriteOnceMemory;

fn fixed_ref(id: u64) -> Expression {
    Expression::Reference(AlgebraicReference {
        poly_id: PolyId { id, ptype: PolynomialType::Constant },
        next: false,
    })
}

fn witness_ref(id: u64) -> Expression {
    Expression::Reference(AlgebraicReference {
        poly_id: PolyId { id, ptype: PolynomialType::Committed },
        next: false,
    })
}

fn selected(expressions: Vec<Expression>) -> SelectedExpressions {
    SelectedExpressions { selector: None, expressions }
}

fn lookup(right: SelectedExpressions) -> Identity {
    Identity { kind: IdentityKind::Plookup, left: selected(vec![]), right }
}

fn column(name: &str, external_values: Option<Vec<u64>>) -> WitnessColumn {
    WitnessColumn { name: name.to_string(), external_values }
}

/// Degree 4, one key column `ADDR = i`, one value column `v`.
fn simple_fixed(external: Option<Vec<u64>>) -> FixedData {
    FixedData {
        degree: 4,
        fixed_cols: vec![vec![0, 1, 2, 3]],
        witness_cols: vec![column("main.v", external)],
    }
}

fn simple_rhs() -> SelectedExpressions {
    selected(vec![fixed_ref(0), witness_ref(0)])
}

fn c(v: u64) -> AffineExpression {
    AffineExpression::from_constant(v)
}

fn x(id: u64) -> AffineExpression {
    AffineExpression::from_variable(id)
}

fn request(m: &mut WriteOnceMemory, left: Vec<AffineExpression>) -> EvalResult {
    m.process_plookup(IdentityKind::Plookup, &left, &simple_rhs()).unwrap()
}

fn columns(m: &WriteOnceMemory) -> Vec<(String, Vec<u64>)> {
    m.take_witness_col_values()
}

#[test]
fn scenario_store_load_conflict_finalize() {
    let fixed = simple_fixed(None);
    let ids = vec![lookup(simple_rhs())];
    let mut m = WriteOnceMemory::try_new(&fixed, &ids, &[]).unwrap();

    let r = request(&mut m, vec![c(2), x(10)]).unwrap();
    assert_eq!(r.status, EvalStatus::Incomplete(IncompleteCause::NonConstantValue));
    assert!(r.updates.is_empty());

    let r = request(&mut m, vec![c(2), c(7)]).unwrap();
    assert_eq!(r.status, EvalStatus::Complete);
    assert!(r.updates.is_empty());

    let r = request(&mut m, vec![c(2), x(10)]).unwrap();
    assert_eq!(r.status, EvalStatus::Complete);
    assert_eq!(r.updates, vec![Assignment { variable: 10, value: 7 }]);

    let r = request(&mut m, vec![c(2), c(8)]);
    assert!(matches!(r, Err(EvalError::ConstraintUnsatisfiable)));

    let cols = columns(&m);
    assert_eq!(cols.len(), 1);
    assert_eq!(cols[0].0, "main.v");
    assert_eq!(cols[0].1, vec![0, 0, 7, 0]);
}

#[test]
fn reasserting_the_stored_value_is_complete_without_updates() {
    let fixed = simple_fixed(None);
    let ids = vec![lookup(simple_rhs())];
    let mut m = WriteOnceMemory::try_new(&fixed, &ids, &[]).unwrap();
    assert_eq!(request(&mut m, vec![c(1), c(5)]).unwrap().status, EvalStatus::Complete);
    let r = request(&mut m, vec![c(1), c(5)]).unwrap();
    assert_eq!(r.status, EvalStatus::Complete);
    assert!(r.updates.is_empty());
    assert_eq!(columns(&m)[0].1, vec![0, 5, 0, 0]);
}

#[test]
fn accepts_a_write_once_memory() {
    let fixed = simple_fixed(None);
    let ids = vec![lookup(simple_rhs()), lookup(simple_rhs())];
    assert!(WriteOnceMemory::try_new(&fixed, &ids, &[]).is_some());
}

#[test]
fn rejects_other_identities() {
    let fixed = simple_fixed(None);
    let ids = vec![lookup(simple_rhs())];
    let other = vec![Identity {
        kind: IdentityKind::Polynomial,
        left: selected(vec![witness_ref(0)]),
        right: selected(vec![]),
    }];
    assert!(WriteOnceMemory::try_new(&fixed, &ids, &other).is_none());
}

#[test]
fn rejects_mismatched_right_hand_sides() {
    let fixed = FixedData {
        degree: 4,
        fixed_cols: vec![vec![0, 1, 2, 3]],
        witness_cols: vec![column("main.v", None), column("main.w", None)],
    };
    let ids = vec![
        lookup(simple_rhs()),
        lookup(selected(vec![fixed_ref(0), witness_ref(1)])),
    ];
    assert!(WriteOnceMemory::try_new(&fixed, &ids, &[]).is_none());
}

#[test]
fn rejects_a_selector() {
    let fixed = simple_fixed(None);
    let rhs = SelectedExpressions {
        selector: Some(fixed_ref(0)),
        expressions: vec![fixed_ref(0), witness_ref(0)],
    };
    assert!(WriteOnceMemory::try_new(&fixed, &[lookup(rhs)], &[]).is_none());
}

#[test]
fn rejects_compound_expressions() {
    let fixed = simple_fixed(None);
    let rhs = selected(vec![fixed_ref(0), Expression::Compound(1)]);
    assert!(WriteOnceMemory::try_new(&fixed, &[lookup(rhs)], &[]).is_none());
    let rhs = selected(vec![Expression::Number(3), witness_ref(0)]);
    assert!(WriteOnceMemory::try_new(&fixed, &[lookup(rhs)], &[]).is_none());
}

#[test]
fn rejects_duplicate_keys() {
    let fixed = FixedData {
        degree: 4,
        fixed_cols: vec![vec![0, 1, 1, 3]],
        witness_cols: vec![column("main.v", None)],
    };
    assert!(WriteOnceMemory::try_new(&fixed, &[lookup(simple_rhs())], &[]).is_none());
}

#[test]
fn rejects_shifted_key_column() {
    let fixed = simple_fixed(None);
    let key_next = Expression::Reference(AlgebraicReference {
        poly_id: PolyId { id: 0, ptype: PolynomialType::Constant },
        next: true,
    });
    let rhs = selected(vec![key_next, witness_ref(0)]);
    assert!(WriteOnceMemory::try_new(&fixed, &[lookup(rhs)], &[]).is_none());
}

#[test]
fn two_key_columns_form_one_address() {
    let fixed = FixedData {
        degree: 4,
        fixed_cols: vec![vec![0, 0, 1, 1], vec![0, 1, 0, 1]],
        witness_cols: vec![column("main.v", None)],
    };
    let rhs = || selected(vec![fixed_ref(0), fixed_ref(1), witness_ref(0)]);
    let ids = vec![lookup(rhs())];
    let mut m = WriteOnceMemory::try_new(&fixed, &ids, &[]).unwrap();
    let left = vec![c(1), c(0), c(9)];
    let r = m.process_plookup(IdentityKind::Plookup, &left, &rhs()).unwrap().unwrap();
    assert_eq!(r.status, EvalStatus::Complete);
    assert_eq!(columns(&m)[0].1, vec![0, 0, 9, 0]);
}

#[test]
fn declines_other_requests() {
    let fixed = simple_fixed(None);
    let ids = vec![lookup(simple_rhs())];
    let mut m = WriteOnceMemory::try_new(&fixed, &ids, &[]).unwrap();
    let left = vec![c(0), c(1)];
    assert!(m.process_plookup(IdentityKind::Permutation, &left, &simple_rhs()).is_none());
    let other = selected(vec![fixed_ref(0), witness_ref(1)]);
    assert!(m.process_plookup(IdentityKind::Plookup, &left, &other).is_none());
    assert_eq!(columns(&m)[0].1, vec![0, 0, 0, 0]);
}

#[test]
fn non_constant_key_is_incomplete() {
    let fixed = simple_fixed(None);
    let ids = vec![lookup(simple_rhs())];
    let mut m = WriteOnceMemory::try_new(&fixed, &ids, &[]).unwrap();
    let r = request(&mut m, vec![x(1), c(4)]).unwrap();
    assert_eq!(r.status, EvalStatus::Incomplete(IncompleteCause::NonConstantKey));
    assert!(r.updates.is_empty());
    assert_eq!(columns(&m)[0].1, vec![0, 0, 0, 0]);
}

#[test]
fn unknown_address_fails() {
    let fixed = simple_fixed(None);
    let ids = vec![lookup(simple_rhs())];
    let mut m = WriteOnceMemory::try_new(&fixed, &ids, &[]).unwrap();
    match request(&mut m, vec![c(9), x(1)]) {
        Err(EvalError::KeyNotFound(key)) => assert_eq!(key, vec![9]),
        other => panic!("unexpected {:?}", other),
    }
    assert!(matches!(request(&mut m, vec![c(4), c(1)]), Err(EvalError::KeyNotFound(_))));
}

#[test]
fn override_wins_in_requests_and_columns() {
    let fixed = simple_fixed(Some(vec![5, 6]));
    let ids = vec![lookup(simple_rhs())];
    let mut m = WriteOnceMemory::try_new(&fixed, &ids, &[]).unwrap();
    let r = request(&mut m, vec![c(0), x(3)]).unwrap();
    assert_eq!(r.status, EvalStatus::Complete);
    assert_eq!(r.updates, vec![Assignment { variable: 3, value: 5 }]);
    assert!(matches!(request(&mut m, vec![c(1), c(7)]), Err(EvalError::ConstraintUnsatisfiable)));
    // Row 3 has no outside value: it is stored, but the outside column is what comes out.
    assert_eq!(request(&mut m, vec![c(3), c(8)]).unwrap().status, EvalStatus::Complete);
    assert_eq!(columns(&m)[0].1, vec![5, 6, 0, 0]);
}

#[test]
fn outside_column_longer_than_degree_is_cut() {
    let fixed = simple_fixed(Some(vec![1, 2, 3, 4, 5, 6]));
    let m = WriteOnceMemory::try_new(&fixed, &[lookup(simple_rhs())], &[]).unwrap();
    assert_eq!(columns(&m)[0].1, vec![1, 2, 3, 4]);
}

#[test]
fn incomplete_while_any_value_column_is_unknown() {
    let fixed = FixedData {
        degree: 2,
        fixed_cols: vec![vec![10, 20]],
        witness_cols: vec![column("main.a", None), column("main.b", None)],
    };
    let rhs = || selected(vec![witness_ref(0), fixed_ref(0), witness_ref(1)]);
    let mut m = WriteOnceMemory::try_new(&fixed, &[lookup(rhs())], &[]).unwrap();
    let r = m.process_plookup(IdentityKind::Plookup, &vec![c(4), c(20), x(1)], &rhs());
    let r = r.unwrap().unwrap();
    assert_eq!(r.status, EvalStatus::Incomplete(IncompleteCause::NonConstantValue));
    assert!(r.updates.is_empty());
    let r = m.process_plookup(IdentityKind::Plookup, &vec![x(2), c(20), c(6)], &rhs());
    let r = r.unwrap().unwrap();
    assert_eq!(r.status, EvalStatus::Complete);
    assert_eq!(r.updates, vec![Assignment { variable: 2, value: 4 }]);
    let cols = columns(&m);
    assert_eq!(cols[0], ("main.a".to_string(), vec![0, 4]));
    assert_eq!(cols[1], ("main.b".to_string(), vec![0, 6]));
}

#[test]
fn solves_with_a_coefficient() {
    let fixed = simple_fixed(None);
    let ids = vec![lookup(simple_rhs())];
    let mut m = WriteOnceMemory::try_new(&fixed, &ids, &[]).unwrap();
    request(&mut m, vec![c(0), c(7)]).unwrap();
    // 2 * x + 1 = 7
    let e = AffineExpression { coefficients: vec![(4, 2)], offset: 1 };
    let r = request(&mut m, vec![c(0), e]).unwrap();
    assert_eq!(r.updates, vec![Assignment { variable: 4, value: 3 }]);
    // 2 * y = 7 - 6 = 1, so y = (p + 1) / 2
    request(&mut m, vec![c(1), c(1)]).unwrap();
    let e = AffineExpression { coefficients: vec![(5, 2)], offset: 0 };
    let r = request(&mut m, vec![c(1), e]).unwrap();
    assert_eq!(r.updates, vec![Assignment { variable: 5, value: (MODULUS + 1) / 2 }]);
}

#[test]
fn two_unknowns_give_no_bindings() {
    let fixed = simple_fixed(None);
    let ids = vec![lookup(simple_rhs())];
    let mut m = WriteOnceMemory::try_new(&fixed, &ids, &[]).unwrap();
    request(&mut m, vec![c(3), c(7)]).unwrap();
    let e = AffineExpression { coefficients: vec![(1, 1), (2, 1)], offset: 0 };
    let r = request(&mut m, vec![c(3), e]).unwrap();
    assert_eq!(r.status, EvalStatus::Complete);
    assert!(r.updates.is_empty());
}

#[test]
fn untouched_rows_are_zero() {
    let fixed = simple_fixed(None);
    let ids = vec![lookup(simple_rhs())];
    let mut m = WriteOnceMemory::try_new(&fixed, &ids, &[]).unwrap();
    request(&mut m, vec![c(0), c(1)]).unwrap();
    request(&mut m, vec![c(3), x(1)]).unwrap();
    assert_eq!(columns(&m)[0].1, vec![1, 0, 0, 0]);
}

#[test]
fn field_arithmetic() {
    assert_eq!(fe_add(MODULUS - 1, 2), 1);
    assert_eq!(fe_sub(1, 2), MODULUS - 1);
    assert_eq!(fe_mul(MODULUS - 1, MODULUS - 1), 1);
    assert_eq!(fe_mul(3, fe_inverse(3)), 1);
    assert_eq!(fe_inverse(1), 1);
}
