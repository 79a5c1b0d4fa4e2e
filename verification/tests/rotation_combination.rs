use qarrot_optimizer::basis::{Basis, Basis8};
use qarrot_optimizer::operation::angle::Angle;
use qarrot_optimizer::operation::angle::Angle::{MinusPi4, MinusPi8, Pi2, PlusPi4, PlusPi8};
use qarrot_optimizer::operation::phase::Phase;
use qarrot_optimizer::operation::Operation;
use qarrot_optimizer::optimization::rotation_combination::{
    add_angles, compute_next_index, compute_next_index_slice, fold_adjacent_rotations,
    inner_reduce_rotations_no_ordering, reduce_rotations_no_ordering,
    reduce_rotations_no_ordering_slice, try_combine_rotations, OptimizeRotationsAdjacent,
    RotationCombineResult,
};

#[test]
fn test_reduce_none() {
    let mut operations = Vec::new();
    let changed = reduce_rotations_no_ordering::<Basis8>(&mut operations, &mut Vec::new());
    assert!(operations.is_empty());
    assert!(!changed);
}

#[test]
fn test_reduce_one() {
    let mut basis = Basis8::zero(5);
    basis.set_bit(2, true);

    let mut operations = vec![Operation::rotation(basis.clone(), basis.clone(), Angle::PlusPi8)];
    let op = operations[0].clone();
    let changed = reduce_rotations_no_ordering::<Basis8>(&mut operations, &mut Vec::new());
    assert_eq!(operations.len(), 1);
    assert!(operations[0] == op);
    assert!(!changed);
}

#[test]
fn test_reduce_i() {
    let mut basis = Basis8::zero(5);
    basis.set_bit(2, true);

    let mut operations = vec![
        Operation::rotation(basis.clone(), basis.clone(), Angle::PlusPi4),
        Operation::rotation(basis.clone(), basis.clone(), Angle::MinusPi4),
    ];

    let changed = reduce_rotations_no_ordering(&mut operations, &mut Vec::new());
    assert!(operations.is_empty());
    assert!(changed);
}

#[test]
fn test_reduce_single() {
    let mut basis = Basis8::zero(5);
    basis.set_bit(2, true);

    let mut operations = vec![
        Operation::rotation(basis.clone(), basis.clone(), Angle::PlusPi8),
        Operation::rotation(basis.clone(), basis.clone(), Angle::PlusPi8),
    ];

    let changed = reduce_rotations_no_ordering(&mut operations, &mut Vec::new());
    assert_eq!(operations.len(), 1);
    assert!(operations[0].is_rotation());
    assert!(operations[0].as_rotation().unwrap().angle == &Angle::PlusPi4);
    assert!(changed);
}

#[test]
fn test_reduce_cannot() {
    let mut basis1 = Basis8::zero(5);
    basis1.set_bit(2, true);

    let mut basis2 = Basis8::zero(5);
    basis2.set_bit(3, true);

    let mut operations = vec![
        Operation::rotation(basis1.clone(), basis1.clone(), Angle::PlusPi8),
        Operation::rotation(basis2.clone(), basis2.clone(), Angle::MinusPi8),
    ];

    let op1 = operations[0].clone();
    let op2 = operations[1].clone();

    let changed = reduce_rotations_no_ordering(&mut operations, &mut Vec::new());

    assert_eq!(operations.len(), 2);

    assert_eq!(operations[0], op1);
    assert_eq!(operations[1], op2);
    assert!(!changed);
}

#[test]
fn test_reduce_three_two() {
    let mut basis = Basis8::zero(5);
    basis.set_bit(2, true);

    let mut basis2 = Basis8::zero(5);
    basis2.set_bit(3, true);

    let mut operations = vec![
        Operation::rotation(basis.clone(), basis.clone(), Angle::PlusPi8),
        Operation::rotation(basis.clone(), basis.clone(), Angle::PlusPi8),
        Operation::rotation(basis2.clone(), basis2.clone(), Angle::PlusPi8),
    ];

    let op = operations[2].clone();

    let changed = reduce_rotations_no_ordering(&mut operations, &mut Vec::new());
    assert_eq!(operations.len(), 2);
    assert!(changed);
    assert!(operations[0].is_rotation());
    assert!(operations[0].as_rotation().unwrap().angle == &Angle::PlusPi4);
    assert_eq!(operations[1], op);
}

#[test]
fn test_reduce_three_two_swap() {
    let mut basis = Basis8::zero(5);
    basis.set_bit(2, true);

    let mut basis2 = Basis8::zero(5);
    basis2.set_bit(3, true);

    let mut operations = vec![
        Operation::rotation(basis2.clone(), basis2.clone(), Angle::PlusPi8),
        Operation::rotation(basis.clone(), basis.clone(), Angle::PlusPi8),
        Operation::rotation(basis.clone(), basis.clone(), Angle::PlusPi8),
    ];

    let op = operations[0].clone();

    let changed = reduce_rotations_no_ordering(&mut operations, &mut Vec::new());
    assert_eq!(operations.len(), 2);
    assert!(changed);
    assert!(operations[1].is_rotation());
    assert!(operations[1].as_rotation().unwrap().angle == &Angle::PlusPi4);
    assert_eq!(operations[0], op);
}

#[test]
fn test_reduce_half() {
    let basisn = |which| {
        let mut basis = Basis8::zero(8);
        basis.set_bit(which, true);
        basis
    };

    // group 1
    let basis_y_0 = basisn(0);

    // group 2
    let basis_y_1 = basisn(1);

    let mut operations = vec![
        // group 1 (combine to identity)
        Operation::rotation(basis_y_0, basis_y_0, Angle::PlusPi8),
        Operation::rotation(basis_y_0, basis_y_0, Angle::MinusPi8),
        // non combinable
        Operation::rotation(basisn(2), basisn(2), Angle::PlusPi4),
        Operation::rotation(basisn(3), basisn(3), Angle::PlusPi4),
        // group 2 (combine to pi/2)
        Operation::rotation(basis_y_1, basis_y_1, Angle::PlusPi4),
        Operation::rotation(basis_y_1, basis_y_1, Angle::PlusPi4),
        // non combinable
        Operation::rotation(basisn(4), basisn(4), Angle::Pi2),
        Operation::rotation(basisn(5), basisn(5), Angle::MinusPi4),
    ];

    let changed = reduce_rotations_no_ordering(&mut operations, &mut Vec::new());
    assert!(changed);
    assert_eq!(operations.len(), 5);
}

fn y(which: usize, angle: Angle) -> Operation<Basis8> {
    let mut basis = Basis8::zero(8);
    basis.set_bit(which, true);
    Operation::rotation(basis, basis, angle)
}

fn identity(angle: Angle) -> Operation<Basis8> {
    Operation::rotation(Basis8::zero(8), Basis8::zero(8), angle)
}

fn combined(a: Angle, b: Angle) -> Option<Option<Angle>> {
    match try_combine_rotations(&y(1, a), &y(1, b)) {
        RotationCombineResult::KeepNeither => Some(None),
        RotationCombineResult::KeepBoth => None,
        RotationCombineResult::CombineTo(op) => Some(Some(*op.as_rotation().unwrap().angle)),
        other => panic!("unexpected {:?}", other),
    }
}

#[test]
fn the_combine_table_row_by_row() {
    // angles that add up to nothing drop both rotations
    assert_eq!(combined(Pi2, Pi2), Some(None));
    assert_eq!(combined(PlusPi8, MinusPi8), Some(None));
    assert_eq!(combined(MinusPi8, PlusPi8), Some(None));
    assert_eq!(combined(PlusPi4, MinusPi4), Some(None));
    assert_eq!(combined(MinusPi4, PlusPi4), Some(None));
    // pi/2 with -pi/4 is +pi/4
    assert_eq!(combined(Pi2, MinusPi4), Some(Some(PlusPi4)));
    assert_eq!(combined(MinusPi4, Pi2), Some(Some(PlusPi4)));
    // pi/2 with +-pi/8 keeps both
    assert_eq!(combined(Pi2, PlusPi8), None);
    assert_eq!(combined(Pi2, MinusPi8), None);
    assert_eq!(combined(PlusPi8, Pi2), None);
    assert_eq!(combined(MinusPi8, Pi2), None);
    // a sum of size 3 keeps both
    assert_eq!(combined(PlusPi8, PlusPi4), None);
    assert_eq!(combined(PlusPi4, PlusPi8), None);
    assert_eq!(combined(MinusPi8, MinusPi4), None);
    assert_eq!(combined(MinusPi4, MinusPi8), None);
    // a sum of size 4 is code 0
    assert_eq!(combined(PlusPi4, PlusPi4), Some(Some(Pi2)));
    assert_eq!(combined(MinusPi4, MinusPi4), Some(Some(Pi2)));
    // every other pair adds up
    assert_eq!(combined(PlusPi8, PlusPi8), Some(Some(PlusPi4)));
    assert_eq!(combined(MinusPi8, MinusPi8), Some(Some(MinusPi4)));
    assert_eq!(combined(PlusPi4, MinusPi8), Some(Some(PlusPi8)));
    assert_eq!(combined(MinusPi8, PlusPi4), Some(Some(PlusPi8)));
    assert_eq!(combined(MinusPi4, PlusPi8), Some(Some(MinusPi8)));
    assert_eq!(combined(PlusPi8, MinusPi4), Some(Some(MinusPi8)));
    assert_eq!(combined(Pi2, PlusPi4), Some(Some(PlusPi4)));
    assert_eq!(combined(PlusPi4, Pi2), Some(Some(PlusPi4)));
    assert_eq!(add_angles(PlusPi8, PlusPi8), Some(Some(PlusPi4)));
    assert_eq!(add_angles(PlusPi8, PlusPi4), None);
}

#[test]
fn identities_and_other_axes() {
    assert!(matches!(
        try_combine_rotations(&identity(PlusPi8), &identity(PlusPi8)),
        RotationCombineResult::KeepNeither
    ));
    assert!(matches!(
        try_combine_rotations(&identity(PlusPi8), &y(1, PlusPi8)),
        RotationCombineResult::KeepLast
    ));
    assert!(matches!(
        try_combine_rotations(&y(1, PlusPi8), &identity(PlusPi8)),
        RotationCombineResult::KeepFirst
    ));
    assert!(matches!(
        try_combine_rotations(&y(1, PlusPi8), &y(2, PlusPi8)),
        RotationCombineResult::KeepBoth
    ));
    let measurement = Operation::measurement(Basis8::zero(8), Basis8::zero(8), Phase::Positive);
    assert!(matches!(
        try_combine_rotations(&measurement, &y(1, PlusPi8)),
        RotationCombineResult::KeepBoth
    ));
    assert!(matches!(
        try_combine_rotations(&y(1, PlusPi8), &measurement),
        RotationCombineResult::KeepBoth
    ));
}

#[test]
fn next_index_skips_cleared_slots() {
    let slots = [true, false, false, true, false];
    assert_eq!(compute_next_index(&slots, 0), 3);
    assert_eq!(compute_next_index(&slots, 3), 5);
    assert_eq!(compute_next_index(&slots, 4), 5);
    assert_eq!(compute_next_index(&slots, 9), 5);
    let mut ops = vec![y(0, Angle::PlusPi8), y(1, Angle::PlusPi8), y(2, Angle::PlusPi8)];
    ops[1].set_nop();
    assert_eq!(compute_next_index_slice(&ops, 0), 2);
    assert_eq!(compute_next_index_slice(&ops, 2), 3);
}

#[test]
fn slice_reduction_leaves_tombstones() {
    let mut ops = vec![
        y(0, Angle::PlusPi8),
        y(1, Angle::PlusPi8),
        y(0, Angle::PlusPi8),
        y(1, Angle::MinusPi8),
    ];
    let changed = reduce_rotations_no_ordering_slice(&mut ops);
    assert!(changed);
    assert_eq!(ops.len(), 4);
    assert_eq!(ops[0], y(0, Angle::PlusPi4));
    assert!(ops[1].is_nop());
    assert!(ops[2].is_nop());
    assert!(ops[3].is_nop());
    let again = reduce_rotations_no_ordering_slice(&mut ops);
    assert!(!again);
}

#[test]
fn an_identity_before_a_rotation_leaves_the_rotation() {
    let mut ops = vec![identity(Angle::PlusPi8), y(1, Angle::PlusPi8)];
    let changed = reduce_rotations_no_ordering_slice(&mut ops);
    assert!(changed);
    assert!(ops[0].is_nop());
    assert_eq!(ops[1], y(1, Angle::PlusPi8));
    let mut ops = vec![identity(Angle::PlusPi8), y(1, Angle::PlusPi8)];
    let changed = reduce_rotations_no_ordering(&mut ops, &mut Vec::new());
    assert!(changed);
    assert_eq!(ops, vec![y(1, Angle::PlusPi8)]);
}

#[test]
fn a_single_identity_is_removed() {
    let mut ops = vec![identity(Angle::PlusPi8)];
    assert!(inner_reduce_rotations_no_ordering(&mut ops, &mut Vec::new()));
    assert!(ops.is_empty());
    let mut ops = vec![identity(Angle::PlusPi8)];
    assert!(reduce_rotations_no_ordering_slice(&mut ops));
    assert!(ops[0].is_nop());
}

#[test]
fn the_streaming_folder_step_by_step() {
    let mut folder = OptimizeRotationsAdjacent::<Basis8>::new();
    assert_eq!(folder.pre_op_count(), 0);
    // nothing pending: the operation is held back
    assert_eq!(folder.next(Some(y(0, Angle::PlusPi8))), Some(None));
    // same axis: folds into the pending one
    assert_eq!(folder.next(Some(y(0, Angle::PlusPi8))), Some(None));
    // another axis: the pending one comes out
    assert_eq!(folder.next(Some(y(1, Angle::PlusPi8))), Some(Some(y(0, Angle::PlusPi4))));
    // an identity rotation is dropped
    assert_eq!(folder.next(Some(identity(Angle::PlusPi4))), Some(None));
    // the inverse cancels the pending one
    assert_eq!(folder.next(Some(y(1, Angle::MinusPi8))), Some(None));
    assert_eq!(folder.pre_op_count(), 5);
    // at the end nothing is pending
    assert_eq!(folder.next(None), None);
    assert_eq!(folder.next(None), None);
    assert_eq!(folder.pre_op_count(), 5);
}

#[test]
fn the_streaming_folder_hands_out_the_pending_operation_at_the_end() {
    let mut folder = OptimizeRotationsAdjacent::<Basis8>::new();
    let m = Operation::measurement(Basis8::zero(8), Basis8::zero(8), Phase::Negative);
    assert_eq!(folder.next(Some(m)), Some(None));
    assert_eq!(folder.next(Some(y(0, Angle::Pi2))), Some(Some(m)));
    assert_eq!(folder.next(None), Some(Some(y(0, Angle::Pi2))));
    assert_eq!(folder.next(None), None);
}

#[test]
fn folding_a_whole_circuit() {
    let ops = vec![
        y(0, Angle::PlusPi8),
        y(0, Angle::PlusPi8),
        y(0, Angle::PlusPi8),
        y(1, Angle::Pi2),
        y(1, Angle::Pi2),
        y(2, Angle::PlusPi4),
    ];
    let (folded, read) = fold_adjacent_rotations(ops);
    assert_eq!(read, 6);
    assert_eq!(folded, vec![y(0, Angle::PlusPi4), y(0, Angle::PlusPi8), y(2, Angle::PlusPi4)]);
}
