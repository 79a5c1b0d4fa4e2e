use qarrot_optimizer::basis::{
    Basis, Basis128, Basis16, Basis256, Basis32, Basis64, Basis8, BasisSize, DBasis,
};
use qarrot_optimizer::input::parser::parse_circuit;
use qarrot_optimizer::operation::phase::Phase;
use qarrot_optimizer::operation::Operation;
use qarrot_optimizer::optimization::rotation_combination::fold_adjacent_rotations;
use qarrot_optimizer::optimization::streaming::{StreamingPartition, StreamingPush};
use qarrot_optimizer::output::{Output, StringOut};
use qarrot_optimizer::tester::Tester;
use qarrot_optimizer::{infer_layout, infer_run_txt, run_txt_with, RunConfig};

/// The circuits that the tests run on, by name.
fn circuit(name: &str) -> String {
    match name {
        "h.txt" => String::from("Rotate 2: Z\nRotate 2: X\nRotate 2: Z\nRotate 1: Z\nRotate 1: X\n"),
        "y.txt" => String::from("Rotate 0: Y\nRotate 1: Z\nRotate 1: X\nRotate 1: Z\n"),
        "min4.txt" => String::from(
            "Rotate 1: ZI\nRotate 2: XZ\nRotate 1: IZ\nRotate -2: XZ\nRotate -1: ZI\nRotate 1: ZZ\nRotate 1: ZZ\n",
        ),
        "p1.txt" => String::from("Rotate 1: ZII\nRotate 1: IZI\nRotate 1: ZII\n"),
        "p2.txt" => generated(5, 24, 12),
        "p2c.txt" => generated(3, 18, 7),
        "p3.txt" => generated(4, 30, 3),
        "qasm_test_10_lines_with_rz.txt" => generated(3, 10, 1),
        "qasm_test_10.txt" => generated(3, 10, 2),
        "qasm_test_50.txt" => generated(5, 50, 5),
        "q100.txt" => generated(7, 100, 9),
        "q500.txt" => generated(15, 500, 11),
        "qasm_test_1000.txt" => generated(15, 1000, 13),
        "molHH.txt" => generated(4, 200, 17),
        "x.txt" => String::from("Rotate 0: X\nRotate 1: Z\nRotate -1: X\nRotate 1: Z\n"),
        "cx.txt" => String::from(
            "Rotate 1: ZI\nRotate 2: ZX\nRotate -2: ZI\nRotate -2: IX\nRotate 1: IZ\nRotate 1: ZI\n",
        ),
        "p4.txt" => generated(6, 40, 19),
        "p6.txt" => generated(9, 60, 23),
        "qasm_test_5000.txt" => generated(17, 1500, 29),
        "qasm_test_10000.txt" => generated(33, 2000, 31),
        other => panic!("no circuit named {}", other),
    }
}

/// A circuit of `lines` rotations on `n_qubits` qubits, made from `seed`
/// by a linear congruential sequence.
fn generated(n_qubits: usize, lines: usize, seed: u64) -> String {
    let mut state = seed.wrapping_mul(6364136223846793005).wrapping_add(1442695040888963407);
    let mut next = |bound: u64| {
        state = state.wrapping_mul(6364136223846793005).wrapping_add(1442695040888963407);
        (state >> 33) % bound
    };
    let mut text = String::new();
    for _ in 0..lines {
        let angle = [1, 1, 1, -1, 2, -2, 0][next(7) as usize];
        text.push_str(&format!("Rotate {}: ", angle));
        let target = next(n_qubits as u64) as usize;
        let other = next(n_qubits as u64) as usize;
        for q in 0..n_qubits {
            let letter = if q == target {
                ['X', 'Y', 'Z'][next(3) as usize]
            } else if q == other && next(3) == 0 {
                ['X', 'Z'][next(2) as usize]
            } else {
                'I'
            };
            text.push(letter);
        }
        text.push('\n');
    }
    text
}

fn optimize<B: Basis>(text: &str, n_qubits: usize, full_partitioning: bool) -> String {
    let cfg = RunConfig { full_partitioning, ..Default::default() };
    let mut output = StringOut::new();
    let result = run_txt_with::<B, StringOut>(text.as_bytes(), n_qubits, &mut output, cfg);
    assert_eq!(result, Ok(n_qubits));
    output.into_string()
}

fn compare(reference: &str, this: &str, n_qubits: usize) {
    let reference_ops = parse_circuit::<Basis256>(reference.as_bytes(), n_qubits).unwrap();
    let this_ops = parse_circuit::<Basis256>(this.as_bytes(), n_qubits).unwrap();
    let mut tester = Tester::<Basis256>::new(reference_ops, this_ops, n_qubits);
    assert_eq!(tester.test_all(), Ok(()), "reference:\n{}\nthis:\n{}", reference, this);
}

/// Runs the circuit with bases of type `B` and holds the outcome against
/// that of the run with the widest bases.
fn test_file_with_basis<B: Basis>(filename: &str, n_qubits: usize) {
    let text = circuit(filename);
    let this_output = optimize::<B>(&text, n_qubits, true);
    let reference = optimize::<DBasis>(&text, n_qubits, true);
    compare(&reference, &this_output, n_qubits);
    let wide = optimize::<Basis256>(&text, n_qubits, true);
    assert_eq!(wide, this_output);
}

/// Runs the circuit on bases of the width that its first operation asks
/// for, with the exact partitioner, and holds the outcome against that of
/// the run on the bases of variable width.
fn test_file(filename: &str) {
    let text = circuit(filename);
    let cfg = RunConfig { full_partitioning: true, ..Default::default() };
    let mut output = StringOut::new();
    let n_qubits = infer_run_txt(text.as_bytes(), &mut output, cfg).unwrap();
    assert_eq!(n_qubits, text.lines().next().unwrap().split(": ").nth(1).unwrap().len());
    let this_output = output.into_string();
    let reference = optimize::<DBasis>(&text, n_qubits, true);
    compare(&reference, &this_output, n_qubits);
    assert_eq!(reference, this_output);
}

/// The optimizer that works through scratch files, with buffers of
/// `buffer_length` operations held in memory in the place of the files.
fn optimize_streaming<B: Basis>(text: &str, n_qubits: usize, buffer_length: usize) -> String {
    let instructions = parse_circuit::<B>(text.as_bytes(), n_qubits).unwrap();
    let (mut file, _read) = fold_adjacent_rotations(instructions);
    for i in 0..n_qubits {
        file.push(Operation::measurement(
            B::zero(n_qubits),
            B::one_bit(n_qubits, i),
            Phase::Positive,
        ));
    }
    loop {
        let mut pushed = Vec::new();
        let mut push = StreamingPush::<B>::new(n_qubits);
        for chunk in file.chunks(buffer_length) {
            let mut buffer: Vec<Operation<B>> = chunk.iter().map(|op| op.duplicate()).collect();
            push.process(&mut buffer);
            pushed.extend(buffer);
        }
        let (changed_t, _) = push.finish();
        let mut written = Vec::new();
        let mut partition = StreamingPartition::<B>::new();
        for chunk in pushed.chunks(buffer_length) {
            let buffer: Vec<Operation<B>> = chunk.iter().map(|op| op.duplicate()).collect();
            partition.feed(&buffer, &mut written);
        }
        let (changed_p, stats) = partition.finish(&mut written);
        assert_eq!(stats.total_operations, written.len());
        file = written;
        if !(changed_t || changed_p) {
            break;
        }
    }
    let mut output = StringOut::new();
    for op in &file {
        output.write_operation(n_qubits, op).unwrap();
    }
    output.into_string()
}

/// Runs the circuit in memory and buffer by buffer, and holds the two
/// outcomes against each other.
fn test_bigfile<B: Basis>(filename: &str, n_qubits: usize) {
    let text = circuit(filename);
    let in_mem_output = optimize::<B>(&text, n_qubits, false);
    for buffer_length in [1, 3, 32] {
        let big_file_output = optimize_streaming::<B>(&text, n_qubits, buffer_length);
        compare(&in_mem_output, &big_file_output, n_qubits);
    }
}

#[test]
fn test_infer_norepeat() {
    let src = "Rotate 2: IXYZ\nMeasure +: IXYZ";
    let (n_qubits, repeat) = infer_layout(src.as_bytes()).unwrap();
    assert_eq!(n_qubits, 4);
    assert_eq!(repeat, None);
    assert_eq!(BasisSize::from_size(n_qubits), BasisSize::Basis8);
}

#[test]
fn test_infer_repeat() {
    let src = "Repeat 2\nRotate 2: IXYZ\nMeasure +: IXYZ\nEnd";
    let (n_qubits, repeat) = infer_layout(src.as_bytes()).unwrap();
    assert_eq!(n_qubits, 4);
    assert_eq!(repeat, Some(2));
    assert_eq!(BasisSize::from_size(n_qubits), BasisSize::Basis8);
}

#[test]
fn test_h_bigfile() {
    test_bigfile::<Basis8>("h.txt", 1);
    test_bigfile::<Basis16>("h.txt", 1);
}

#[test]
fn test_h_16() {
    test_file_with_basis::<Basis16>("h.txt", 1);
}

#[test]
fn test_h_32() {
    test_file_with_basis::<Basis32>("h.txt", 1);
}

#[test]
fn test_h_64() {
    test_file_with_basis::<Basis64>("h.txt", 1);
}

#[test]
fn test_h_128() {
    test_file_with_basis::<Basis128>("h.txt", 1);
}

#[test]
fn test_h_256() {
    test_file_with_basis::<Basis256>("h.txt", 1);
}

#[test]
fn test_h_dyn() {
    test_file_with_basis::<DBasis>("h.txt", 1);
}

#[test]
fn test_y_bigfile() {
    test_bigfile::<Basis8>("y.txt", 1);
    test_bigfile::<Basis32>("y.txt", 1);
}

#[test]
fn test_inverse_1_bigfile() {
    test_bigfile::<Basis8>("min4.txt", 2);
    test_bigfile::<Basis32>("min4.txt", 2);
}

#[test]
fn test_10_lines_with_rz_bigfile() {
    test_bigfile::<Basis8>("qasm_test_10_lines_with_rz.txt", 3);
    test_bigfile::<Basis32>("qasm_test_10_lines_with_rz.txt", 3);
}

#[test]
fn test_10_lines_bigfile() {
    test_bigfile::<Basis8>("qasm_test_10.txt", 3);
    test_bigfile::<Basis64>("qasm_test_10.txt", 3);
}

#[test]
fn test_50_lines_bigfile() {
    test_bigfile::<Basis8>("qasm_test_50.txt", 5);
    test_bigfile::<Basis128>("qasm_test_50.txt", 5);
}

#[test]
fn test_100_lines_bigfile() {
    test_bigfile::<Basis8>("q100.txt", 7);
    test_bigfile::<Basis256>("q100.txt", 7);
}

#[test]
fn test_500_lines_bigfile() {
    test_bigfile::<Basis16>("q500.txt", 15);
    test_bigfile::<Basis256>("q500.txt", 15);
}

#[test]
fn test_p1_16() {
    test_file_with_basis::<Basis16>("p1.txt", 3);
}

#[test]
fn test_p1_32() {
    test_file_with_basis::<Basis32>("p1.txt", 3);
}

#[test]
fn test_p1_64() {
    test_file_with_basis::<Basis64>("p1.txt", 3);
}

#[test]
fn test_p1_128() {
    test_file_with_basis::<Basis128>("p1.txt", 3);
}

#[test]
fn test_p1_256() {
    test_file_with_basis::<Basis256>("p1.txt", 3);
}

#[test]
fn test_p1_dyn() {
    test_file_with_basis::<DBasis>("p1.txt", 3);
}

#[test]
fn test_p2_16() {
    test_file_with_basis::<Basis16>("p2.txt", 5);
}

#[test]
fn test_p2_32() {
    test_file_with_basis::<Basis32>("p2.txt", 5);
}

#[test]
fn test_p2_64() {
    test_file_with_basis::<Basis64>("p2.txt", 5);
}

#[test]
fn test_p2_128() {
    test_file_with_basis::<Basis128>("p2.txt", 5);
}

#[test]
fn test_p2_256() {
    test_file_with_basis::<Basis256>("p2.txt", 5);
}

#[test]
fn test_p2_dyn() {
    test_file_with_basis::<DBasis>("p2.txt", 5);
}

#[test]
fn test_p2c_16() {
    test_file_with_basis::<Basis16>("p2c.txt", 3);
}

#[test]
fn test_p2c_32() {
    test_file_with_basis::<Basis32>("p2c.txt", 3);
}

#[test]
fn test_p2c_64() {
    test_file_with_basis::<Basis64>("p2c.txt", 3);
}

#[test]
fn test_p2c_128() {
    test_file_with_basis::<Basis128>("p2c.txt", 3);
}

#[test]
fn test_p2c_256() {
    test_file_with_basis::<Basis256>("p2c.txt", 3);
}

#[test]
fn test_p2c_dyn() {
    test_file_with_basis::<DBasis>("p2c.txt", 3);
}

#[test]
fn test_p_3_16() {
    test_file_with_basis::<Basis16>("p3.txt", 4);
}

#[test]
fn test_p_3_32() {
    test_file_with_basis::<Basis32>("p3.txt", 4);
}

#[test]
fn test_p_3_64() {
    test_file_with_basis::<Basis64>("p3.txt", 4);
}

#[test]
fn test_p_3_128() {
    test_file_with_basis::<Basis128>("p3.txt", 4);
}

#[test]
fn test_p_3_256() {
    test_file_with_basis::<Basis256>("p3.txt", 4);
}

#[test]
fn test_p_3_dyn() {
    test_file_with_basis::<DBasis>("p3.txt", 4);
}

#[test]
fn test_1000_lines_32() {
    test_file_with_basis::<Basis32>("qasm_test_1000.txt", 15);
}

#[test]
fn test_1000_lines_64() {
    test_file_with_basis::<Basis64>("qasm_test_1000.txt", 15);
}

#[test]
fn test_1000_lines_128() {
    test_file_with_basis::<Basis128>("qasm_test_1000.txt", 15);
}

#[test]
fn test_1000_lines_256() {
    test_file_with_basis::<Basis256>("qasm_test_1000.txt", 15);
}

#[test]
fn test_1000_lines_dyn() {
    test_file_with_basis::<DBasis>("qasm_test_1000.txt", 15);
}

#[test]
fn test_mol_hh_bigfile() {
    test_bigfile::<Basis8>("molHH.txt", 4);
}

#[test]
fn test_h() {
    test_file("h.txt");
}

#[test]
fn test_y() {
    test_file("y.txt");
}

#[test]
fn test_x() {
    test_file("x.txt");
}

#[test]
fn test_cx() {
    test_file("cx.txt");
}

#[test]
fn test_inverse_1() {
    test_file("min4.txt");
}

#[test]
fn test_10_lines_with_rz() {
    test_file("qasm_test_10_lines_with_rz.txt");
}

#[test]
fn test_10_lines() {
    test_file("qasm_test_10.txt");
}

#[test]
fn test_50_lines() {
    test_file("qasm_test_50.txt");
}

#[test]
fn test_100_lines() {
    test_file("q100.txt");
}

#[test]
fn test_500_lines() {
    test_file("q500.txt");
}

#[test]
fn test_p1() {
    test_file("p1.txt");
}

#[test]
fn test_p2() {
    test_file("p2.txt");
}

#[test]
fn test_p2c() {
    test_file("p2c.txt");
}

#[test]
fn test_p3() {
    test_file("p3.txt");
}

#[test]
fn test_p4() {
    test_file("p4.txt");
}

#[test]
fn test_p6() {
    test_file("p6.txt");
}

#[test]
fn test_1000_lines() {
    test_file("qasm_test_1000.txt");
}

#[test]
fn test_5000_lines() {
    test_file("qasm_test_5000.txt");
}

#[test]
fn test_10000_lines() {
    test_file("qasm_test_10000.txt");
}

#[test]
fn test_100000_lines() {
    test_file("qasm_test_10000.txt");
}

#[test]
fn test_mol_hh() {
    test_file("molHH.txt");
}
