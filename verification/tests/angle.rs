use qarrot_optimizer::operation::angle::Angle;
use qarrot_optimizer::operation::phase::Phase;
use qarrot_optimizer::operation::{OperationKind, Pauli};

#[test]
fn test_sign_bit_assign() {
    let angle1 = Angle::PlusPi8;
    let angle2 = Angle::MinusPi8;

    assert_eq!(angle1.use_sign_bit(true), Angle::MinusPi8);
    assert_eq!(angle1.use_sign_bit(false), Angle::PlusPi8);

    assert_eq!(angle2.use_sign_bit(true), Angle::MinusPi8);
    assert_eq!(angle2.use_sign_bit(false), Angle::PlusPi8);
}

#[test]
fn angle_codes() {
    assert_eq!(Angle::Pi2.code(), 0);
    assert_eq!(Angle::PlusPi8.code(), 1);
    assert_eq!(Angle::MinusPi8.code(), -1);
    assert_eq!(Angle::PlusPi4.code(), 2);
    assert_eq!(Angle::MinusPi4.code(), -2);
    for code in -2i8..=2 {
        assert_eq!(Angle::from_code(code).code(), code);
        assert_eq!(Angle::from_code(code).neg().code(), -code);
    }
    assert_eq!(Angle::try_from_code(3), None);
    assert_eq!(Angle::try_from_code(-3), None);
    assert_eq!(Angle::try_from_code(2), Some(Angle::PlusPi4));
}

#[test]
fn angle_predicates() {
    assert!(Angle::PlusPi8.is_pi8());
    assert!(Angle::MinusPi8.is_pi8());
    assert!(!Angle::Pi2.is_pi8());
    assert!(!Angle::PlusPi4.is_pi8());
    assert!(Angle::MinusPi4.sign_bit());
    assert!(!Angle::Pi2.sign_bit());
    assert_eq!(Angle::Pi2.use_sign_bit(true), Angle::Pi2);
    assert_eq!(Angle::PlusPi4.use_sign_bit(true), Angle::MinusPi4);
    assert_eq!(Angle::MinusPi4.use_sign_bit(false), Angle::PlusPi4);
}

#[test]
fn phase_and_kind() {
    assert!(Phase::Negative.sign_bit());
    assert!(!Phase::Positive.sign_bit());
    assert_eq!(Phase::from(true), Phase::Negative);
    assert_eq!(Phase::from(false), Phase::Positive);
    assert_eq!(Phase::from_i64(-3), Phase::Negative);
    assert_eq!(Phase::from_i64(0), Phase::Positive);
    assert!(OperationKind::Measurement { phase: Phase::Positive }.is_measurement());
    assert!(!OperationKind::Nop.is_measurement());
    assert!(OperationKind::Rotation { angle: Angle::Pi2 }.is_rotation());
    assert!(!OperationKind::Nop.is_rotation());
    assert!(Pauli::X.has_x() && !Pauli::X.has_z());
    assert!(Pauli::Y.has_x() && Pauli::Y.has_z());
    assert!(!Pauli::Z.has_x() && Pauli::Z.has_z());
}
