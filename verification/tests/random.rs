use qarrot_optimizer::basis::{Basis, Basis16, Basis8, DBasis};
use qarrot_optimizer::operation::angle::Angle;
use qarrot_optimizer::operation::Operation;
use qarrot_optimizer::random::rand_basis;
use qarrot_optimizer::tester::{Divergence, Tester};
use qarrot_optimizer::input::parser::parse_circuit;
use rand::rngs::SmallRng;
use rand::SeedableRng;

#[test]
fn random_bases_lie_on_their_qubits_and_vary() {
    let mut rng = SmallRng::seed_from_u64(5);
    let mut seen_set = false;
    let mut seen_clear = false;
    for _ in 0..64 {
        let b = rand_basis::<Basis16>(9, &mut rng);
        for q in 9..16 {
            assert!(!b.get_bit(q));
        }
        seen_set = seen_set || b.get_bit(0);
        seen_clear = seen_clear || !b.get_bit(0);
    }
    assert!(seen_set && seen_clear);
    let d = rand_basis::<DBasis>(200, &mut rng);
    assert!(d.popcnt() <= 200);
}

#[test]
fn random_angles_and_operations() {
    let mut rng = SmallRng::seed_from_u64(6);
    let mut codes = [false; 5];
    let mut rotations = 0;
    let mut measurements = 0;
    for _ in 0..200 {
        codes[(Angle::rand(&mut rng).code() + 2) as usize] = true;
        let op = Operation::<Basis16>::rand(9, &mut rng);
        assert!(!op.is_nop());
        assert!(op.lies_on(9));
        if op.is_rotation() {
            rotations += 1;
        } else {
            measurements += 1;
        }
    }
    assert!(codes.iter().all(|seen| *seen));
    assert!(rotations > 0 && measurements > 0);
}

fn compare(reference: &str, this: &str, n: usize) -> Result<(), Divergence> {
    let r = parse_circuit::<Basis16>(reference.as_bytes(), n).unwrap();
    let t = parse_circuit::<Basis16>(this.as_bytes(), n).unwrap();
    Tester::<Basis16>::new(r, t, n).test_all()
}

#[test]
fn circuits_compared_up_to_the_order_within_layers() {
    let a = "Rotate 1: ZI\nRotate 1: IZ\nRotate 1: XX\nMeasure +: ZZ\n";
    assert_eq!(compare(a, a, 2), Ok(()));
    let swapped = "Rotate 1: IZ\nRotate 1: ZI\nRotate 1: XX\nMeasure +: ZZ\n";
    assert_eq!(compare(a, swapped, 2), Ok(()));
    let moved = "Rotate 1: ZI\nRotate 1: XX\nRotate 1: IZ\nMeasure +: ZZ\n";
    assert!(compare(a, moved, 2).is_err());
    assert_eq!(compare(a, "Rotate 1: ZI\n", 2), Err(Divergence::MoreLines { line: 2 }));
    assert_eq!(compare("Rotate 1: ZI\n", a, 2), Err(Divergence::FewerLines { line: 2 }));
    assert_eq!(
        compare("Measure +: ZZ\n", "Measure -: ZZ\n", 2),
        Err(Divergence::Operation { line: 1 })
    );
    assert_eq!(
        compare("Rotate 1: ZZ\n", "Rotate 2: ZZ\n", 2),
        Err(Divergence::Pi8 { line: 1 })
    );
    assert_eq!(
        compare("Rotate 1: ZZ\n", "Measure +: ZZ\n", 2),
        Err(Divergence::Operation { line: 1 })
    );
    assert_eq!(
        compare("Rotate 1: ZI\nRotate 1: IZ\nMeasure +: ZZ\n", "Rotate 1: ZI\nRotate 1: IX\nMeasure +: ZZ\n", 2),
        Err(Divergence::Group { line: 3 })
    );
}

/// Writes operations out as the scratch files hold them, and reads them
/// back.
fn test_rw(n_qubits: usize, ops: &[Operation<Basis8>]) {
    let mut text = String::new();
    for op in ops {
        text.push_str(&op.as_string(n_qubits));
        text.push('\n');
    }
    let read = parse_circuit::<Basis8>(text.as_bytes(), n_qubits).unwrap();
    assert_eq!(read.len(), ops.len());
    for op_idx in 0..ops.len() {
        assert_eq!(ops[op_idx], read[op_idx]);
    }
    // now, write fewer
    let lines: Vec<&str> = text.lines().take(ops.len() / 2).collect();
    let fewer = parse_circuit::<Basis8>(lines.join("\n").as_bytes(), n_qubits).unwrap();
    assert_eq!(fewer.len(), ops.len() / 2);
}

#[test]
fn test_rw_b8() {
    let n_qubits = 8;
    let mut rng = SmallRng::seed_from_u64(123);
    let mut ops = vec![Operation::<Basis8>::rand(n_qubits, &mut rng)];
    test_rw(n_qubits, &ops);
    for _ in 0..10 {
        ops.push(Operation::<Basis8>::rand(n_qubits, &mut rng));
    }
    test_rw(n_qubits, &ops);
}

#[test]
fn a_rotation_that_commutes_with_its_group_in_one_circuit_only() {
    // the group is open with one rotation in each circuit; the next rotation
    // of the reference commutes with its group, that of the circuit does not
    assert_eq!(
        compare("Rotate 1: ZI\nRotate 1: IZ\n", "Rotate 1: XI\nRotate 1: ZI\n", 2),
        Err(Divergence::Commutation { line: 2 })
    );
    // neither commutes: the groups are closed, and they differ
    assert_eq!(
        compare("Rotate 1: ZI\nRotate 1: XI\n", "Rotate 1: XI\nRotate 1: ZI\n", 2),
        Err(Divergence::Group { line: 2 })
    );
    // neither commutes, and the groups were settled
    assert_eq!(compare("Rotate 1: ZI\nRotate 1: XI\n", "Rotate 1: ZI\nRotate 1: XI\n", 2), Ok(()));
}
