use qarrot_optimizer::basis::{Basis, Basis8, DBasis};
use qarrot_optimizer::error::ParseError;
use qarrot_optimizer::input::lexer::{Pauli, Token, TokenIterator};
use qarrot_optimizer::input::parser::{complete_op, parse_circuit, InstructionIterator};
use qarrot_optimizer::operation::angle::Angle;
use qarrot_optimizer::operation::phase::Phase;
use qarrot_optimizer::operation::{basis, Operation, OperationKind};
use qarrot_optimizer::output::{fmt_operation, Output, StringOut, Void};
use qarrot_optimizer::{infer_layout, infer_n_qubits, infer_run_txt, RunConfig, RunError};

fn op(line: &str) -> Operation<Basis8> {
    let n = line.split(": ").nth(1).unwrap().trim().len();
    let mut ops = parse_circuit::<Basis8>(line.as_bytes(), n).unwrap();
    assert_eq!(ops.len(), 1);
    ops.pop().unwrap()
}

fn line(op: &Operation<Basis8>, n: usize) -> String {
    let mut buf = String::from("leftover");
    fmt_operation(&mut buf, n, op);
    buf
}

#[test]
fn operations_read_from_lines() {
    let r = op("Rotate -2: IXYZ");
    assert_eq!(r.kind, OperationKind::Rotation { angle: Angle::MinusPi4 });
    assert_eq!(r.x, Basis8::with_true_bits(4, &[1, 2]));
    assert_eq!(r.z, Basis8::with_true_bits(4, &[2, 3]));
    let m = op("Measure -: ZZ");
    assert_eq!(m.kind, OperationKind::Measurement { phase: Phase::Negative });
    assert!(m.x.is_zero());
    assert_eq!(m.z, Basis8::with_true_bits(2, &[0, 1]));
    assert!(m.is_measurement() && !m.is_rotation() && !m.is_nop() && !m.is_identity());
    assert!(m.as_measurement().is_some() && m.as_rotation().is_none());
    assert!(op("Rotate 1: III").is_identity());
    assert!(op("Rotate 1: III").as_rotation().unwrap().is_identity());
}

#[test]
fn lines_written_and_read_again() {
    for text in [
        "Rotate -2: IXYZ\n",
        "Rotate -1: IXYZ\n",
        "Rotate 0: ZZZZZZZZ\n",
        "Rotate 1: X\n",
        "Rotate 2: YIIY\n",
        "Measure +: IXYZ\n",
        "Measure -: IIII\n",
    ] {
        let parsed = op(text);
        let n = text.trim().split(": ").nth(1).unwrap().len();
        assert_eq!(line(&parsed, n), text);
        assert_eq!(op(&line(&parsed, n)), parsed);
    }
}

#[test]
fn repeat_blocks_are_unrolled() {
    let ops = parse_circuit::<Basis8>(b"Repeat 3\nRotate 1: Z\nEnd", 1).unwrap();
    assert_eq!(ops, vec![op("Rotate 1: Z"), op("Rotate 1: Z"), op("Rotate 1: Z")]);
    let text = "Measure +: XZ\nRepeat 2\n Rotate 1: ZI\n Rotate 2: IX\nEnd\nRepeat 0\nRotate 0: YY\nEnd\nRotate -1: ZZ\n";
    let ops = parse_circuit::<Basis8>(text.as_bytes(), 2).unwrap();
    let expected: Vec<Operation<Basis8>> = [
        "Measure +: XZ",
        "Rotate 1: ZI",
        "Rotate 2: IX",
        "Rotate 1: ZI",
        "Rotate 2: IX",
        "Rotate -1: ZZ",
    ]
    .iter()
    .map(|l| op(l))
    .collect();
    assert_eq!(ops, expected);
    assert_eq!(parse_circuit::<Basis8>(b"", 3).unwrap(), vec![]);
}

#[test]
fn each_parser_error() {
    let parse = |text: &str, n: usize| parse_circuit::<Basis8>(text.as_bytes(), n).unwrap_err();
    assert_eq!(parse("End\n", 1), ParseError::EndOutsideRepeat);
    assert_eq!(parse("Rotate 1: ZZ\n", 1), ParseError::PauliOutOfOrder);
    assert_eq!(
        parse("Rotate 1: Z\n", 2),
        ParseError::UnexpectedEof { found: 1, expected: 2 }
    );
    assert_eq!(
        parse("Rotate 1: Z\nMeasure +: ZZ\n", 2),
        ParseError::UnexpectedToken { found: 1, expected: 2 }
    );
    assert_eq!(parse("Repeat 2\nRotate 1: Z\n", 1), ParseError::EofInRepeat);
    assert_eq!(parse("Repeat 2\nRepeat 2\nRotate 1: Z\nEnd\nEnd\n", 1), ParseError::NestedRepeat);
    assert_eq!(parse("Repeat 2\nEnd\n", 1), ParseError::EmptyRepeat);
    assert_eq!(parse("Repeat 2\nRotate 1: ZZ\nEnd\n", 1), ParseError::PauliOutOfOrder);
    assert_eq!(parse("Rotate 1: Z\nbad\n", 1), ParseError::UnrecognizedLine { line: 2 });
    assert_eq!(parse("Rotate 1: Z\nRotate 7: Z\n", 1), ParseError::AngleTooLarge { line: 2 });
}

#[test]
fn the_parser_hands_out_operations_before_an_error() {
    let lexer = TokenIterator::new(b"Rotate 1: Z\nRepeat 2\nRotate 2: X\nEnd\nEnd\n");
    let mut parser = InstructionIterator::<Basis8>::new(1, lexer, 16, false);
    assert_eq!(parser.next().unwrap(), Some(&op("Rotate 1: Z")));
    assert_eq!(parser.next().unwrap(), Some(&op("Rotate 2: X")));
    assert_eq!(parser.next().unwrap(), Some(&op("Rotate 2: X")));
    assert_eq!(parser.next(), Err(ParseError::EndOutsideRepeat));
}

#[test]
fn operations_put_before_the_text() {
    let lexer = TokenIterator::new(b"Rotate 2: X\nEnd\nMeasure +: Z\n");
    let mut parser = InstructionIterator::<Basis8>::new(1, lexer, 16, false);
    parser.prepend_repeat(2, op("Rotate 1: Z")).unwrap();
    let ops = parser.collect().unwrap();
    let expected: Vec<Operation<Basis8>> =
        ["Rotate 1: Z", "Rotate 2: X", "Rotate 1: Z", "Rotate 2: X", "Measure +: Z"]
            .iter()
            .map(|l| op(l))
            .collect();
    assert_eq!(ops, expected);
    let lexer = TokenIterator::new(b"Measure +: Z\n");
    let mut parser = InstructionIterator::<Basis8>::new(1, lexer, 16, false);
    parser.prepend_op(op("Rotate 1: Z"));
    assert_eq!(parser.collect().unwrap(), vec![op("Rotate 1: Z"), op("Measure +: Z")]);
}

#[test]
fn complete_op_builds_from_tokens() {
    let tokens = [Token::Rotate(2), Token::Pauli(Pauli::X), Token::Pauli(Pauli::Y)];
    assert_eq!(complete_op::<Basis8>(2, &tokens), Ok(op("Rotate 2: XY")));
    assert_eq!(complete_op::<Basis8>(2, &tokens[..1]), Err(ParseError::TooFewTokens));
    assert_eq!(
        complete_op::<Basis8>(3, &tokens),
        Err(ParseError::UnexpectedEof { found: 2, expected: 3 })
    );
    let bad = [Token::End, Token::Pauli(Pauli::X)];
    assert_eq!(complete_op::<Basis8>(1, &bad), Err(ParseError::InvalidStart));
    let bad = [Token::Rotate(5), Token::Pauli(Pauli::X)];
    assert_eq!(complete_op::<Basis8>(1, &bad), Err(ParseError::AngleTooLarge { line: 0 }));
    let bad = [Token::Rotate(1), Token::End];
    assert_eq!(
        complete_op::<Basis8>(1, &bad),
        Err(ParseError::UnexpectedToken { found: 0, expected: 1 })
    );
}

#[test]
fn the_number_of_qubits_is_that_of_the_first_operation() {
    assert_eq!(infer_n_qubits(b"\n\nRotate 1: ZZZ\nRotate 1: Z\n"), Ok(3));
    assert_eq!(infer_layout(b"Repeat 7\nMeasure +: ZZ\nEnd"), Ok((2, Some(7))));
    assert_eq!(infer_n_qubits(b""), Err(ParseError::Empty));
    assert_eq!(infer_n_qubits(b"Repeat 2\n"), Err(ParseError::EofInRepeat));
    assert_eq!(infer_n_qubits(b"Repeat 2\nRepeat 2\n"), Err(ParseError::NestedRepeat));
    assert_eq!(infer_n_qubits(b"Repeat 2\nEnd\n"), Err(ParseError::EmptyRepeat));
    assert_eq!(infer_n_qubits(b"what\n"), Err(ParseError::UnrecognizedLine { line: 1 }));
}

#[test]
fn a_circuit_from_text_to_text() {
    let mut output = StringOut::new();
    let n = infer_run_txt(b"Rotate 1: ZI\nRotate 1: ZI\nRotate 1: IZ\n", &mut output, RunConfig::default());
    assert_eq!(n, Ok(2));
    assert_eq!(output.output(), "Rotate 1: IZ\nMeasure +: ZI\nMeasure +: IZ\n");
    let mut output = StringOut::new();
    let bypass = RunConfig { bypass: true, ..Default::default() };
    assert_eq!(infer_run_txt(b"Rotate 1: ZI\nRotate 1: ZI\n", &mut output, bypass), Ok(2));
    assert_eq!(output.output(), "Rotate 1: ZI\nRotate 1: ZI\n");
    let mut void = Void {};
    assert_eq!(infer_run_txt(b"Rotate 1: ZI\n", &mut void, RunConfig::default()), Ok(2));
    assert_eq!(void.flush(), Ok(()));
    assert_eq!(
        infer_run_txt(b"Rotate 1: ZI\nRotate 1: Z\n", &mut void, RunConfig::default()),
        Err(RunError::Parse(ParseError::UnexpectedEof { found: 1, expected: 2 }))
    );
    assert_eq!(
        infer_run_txt(b"", &mut void, RunConfig::default()),
        Err(RunError::Parse(ParseError::Empty))
    );
}

#[test]
fn a_circuit_too_wide_for_the_fixed_bases() {
    let mut text = String::from("Rotate 1: ");
    for _ in 0..300 {
        text.push('Z');
    }
    text.push_str("\nRotate 1: ");
    for _ in 0..300 {
        text.push('Z');
    }
    text.push('\n');
    let mut output = StringOut::new();
    assert_eq!(infer_run_txt(text.as_bytes(), &mut output, RunConfig::default()), Ok(300));
    let lines: Vec<&str> = output.output().lines().collect();
    assert_eq!(lines.len(), 300);
    assert!(lines.iter().all(|l| l.starts_with("Measure")));
    let ops = parse_circuit::<DBasis>(text.as_bytes(), 300).unwrap();
    assert_eq!(ops[0].x.popcnt(), 0);
    assert_eq!(ops[0].z.popcnt(), 300);
}

#[test]
fn single_qubit_rotations() {
    let (x, z) = basis::<Basis8>(3, 1, qarrot_optimizer::operation::Pauli::Y);
    assert_eq!(x, Basis8::one_bit(3, 1));
    assert_eq!(z, Basis8::one_bit(3, 1));
    let r = Operation::<Basis8>::pauli_angle(qarrot_optimizer::operation::Pauli::X, Angle::PlusPi8, 3, 2);
    assert_eq!(r, op("Rotate 1: IIX"));
    assert!(r.lies_on(3));
    assert!(!r.lies_on(2));
    let mut n = r;
    n.set_nop();
    assert!(n.is_nop());
    assert!(r.commutes_with(&op("Rotate 1: IIX")));
    assert!(!r.commutes_with(&op("Rotate 1: IIZ")));
    assert!(!r.commutes_with_likely(&op("Rotate 1: IIZ")));
    assert!(r.commutes_with_likely(&op("Rotate 1: ZZI")));
    assert!(r.same(&r.duplicate()));
}

#[test]
fn a_circuit_that_the_bases_cannot_hold() {
    let mut void = Void {};
    let text = b"Rotate 1: ZZZZZZZZZ\n";
    assert_eq!(
        qarrot_optimizer::run_txt_with::<Basis8, Void>(text, 9, &mut void, RunConfig::default()),
        Err(RunError::TooLarge)
    );
    assert_eq!(
        qarrot_optimizer::run_txt_with::<DBasis, Void>(text, 9, &mut void, RunConfig::default()),
        Ok(9)
    );
}
