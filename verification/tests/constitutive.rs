use lau_constitutive_compute::{
    verify_splitting, ComputationCategory, ConservationByConstruction, Idempotent,
    SplittingVerification,
};
use std::marker::PhantomData;

#[test]
fn test_idempotent_concept() {
    // For f64, the idempotent e(x) = x.floor() is idempotent: floor(floor(x)) = floor(x)
    let e = |x: f64| x.floor();
    assert_eq!(e(e(3.7)), e(3.7));
    assert_eq!(e(e(0.5)), e(0.5));
    assert_eq!(e(e(-1.2)), e(-1.2));
}

#[test]
fn test_conservation_by_construction() {
    let cbc = ConservationByConstruction::new(
        |s: &i64| *s as f64,
        |a: &f64| {
            let rounded = a.round();
            if (*a - rounded).abs() < 1e-10 {
                Some(rounded as i64)
            } else {
                None
            }
        },
    );
    assert!(cbc.is_conserved(&3.0));
    assert!(!cbc.is_conserved(&3.5));
    assert!(cbc.verify_conservation(&[1, 2, 3, -5]));
}

#[test]
fn test_conservation_construct_goes_through_inclusion() {
    let cbc = ConservationByConstruction::new(|s: &i64| (*s * 2) as f64, |a: &f64| Some(*a as i64));
    assert_eq!(cbc.construct(&21), 42.0);
}

#[test]
fn test_conservation_fails_on_lost_value() {
    // The retraction only recognises even values; 3 is built to 3.0 and lost.
    let cbc = ConservationByConstruction {
        inclusion: |s: &i64| *s as f64,
        retraction: |a: &f64| if (*a as i64) % 2 == 0 { Some(*a as i64) } else { None },
        marker: PhantomData,
    };
    assert!(cbc.verify_conservation(&[2, 4]));
    assert!(!cbc.verify_conservation(&[2, 3, 4]));
    assert!(cbc.verify_conservation(&[]));
}

#[test]
fn test_karoubi_splitting_identity() {
    // The trivial splitting: A = S, e = id
    let e = |a: &f64| *a;
    let r = |a: &f64| *a;
    let i = |s: &f64| *s;
    let v = verify_splitting(r, i, e, &[1.0, 2.0], &[3.0, 4.0]);
    assert!(v.is_valid);
}

#[test]
fn test_karoubi_splitting_floor_retraction() {
    // A = f64, S = i64, e = floor, r = floor, i = as f64
    let e = |a: &f64| a.floor();
    let r = |a: &f64| a.floor() as i64;
    let i = |s: &i64| *s as f64;
    let v = verify_splitting(r, i, e, &[0, 1, -1, 42, -100], &[0.3, 1.7, -0.5, 42.9]);
    assert_eq!(v, SplittingVerification { ri_is_id: true, ir_is_e: true, is_valid: true });
}

#[test]
fn test_karoubi_splitting_truncation_is_not_floor() {
    // Truncation toward zero differs from floor below zero: i∘r ≠ e at -0.5.
    let e = |a: &f64| a.floor();
    let r = |a: &f64| *a as i64;
    let i = |s: &i64| *s as f64;
    let v = verify_splitting(r, i, e, &[0, 1, -1, 42, -100], &[0.3, 1.7, -0.5, 42.9]);
    assert!(v.ri_is_id);
    assert!(!v.ir_is_e);
    assert!(!v.is_valid);
}

#[test]
fn test_karoubi_splitting_bad_inclusion() {
    // An inclusion that shifts by one breaks r∘i = id.
    let e = |a: &i64| *a;
    let r = |a: &i64| *a;
    let i = |s: &i64| *s + 1;
    let v = verify_splitting(r, i, e, &[5], &[]);
    assert!(!v.ri_is_id);
    assert!(!v.is_valid);
}

#[test]
fn test_computation_category_names() {
    assert_eq!(ComputationCategory::Hodge.to_string(), "Hodge");
    assert_eq!(ComputationCategory::CRDT.to_string(), "CRDT");
    assert_eq!(ComputationCategory::Symplectic.to_string(), "Symplectic");
    assert_eq!(ComputationCategory::Warp.to_string(), "Warp");
}

#[test]
fn test_idempotent_holds_labels() {
    let idem: Idempotent<f64> = Idempotent {
        carrier_label: "f64".to_string(),
        description: "floor".to_string(),
        marker: PhantomData,
    };
    assert_eq!(idem.carrier_label, "f64");
    assert_eq!(idem.description, "floor");
}
