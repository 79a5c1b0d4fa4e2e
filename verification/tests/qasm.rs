use qarrot_optimizer::basis::{Basis, Basis16, Basis8};
use qarrot_optimizer::error::ParseError;
use qarrot_optimizer::operation::angle::Angle;
use qarrot_optimizer::operation::{Operation, Pauli};
use qarrot_optimizer::output::StringOut;
use qarrot_optimizer::qasm::lexer::{FixedGate, Token, TokenIterator};
use qarrot_optimizer::qasm::parser::{qasm_to_rotations, InstructionIterator};
use qarrot_optimizer::{infer_run_qasm, RunConfig, RunError};
use std::collections::VecDeque;

fn tokens(src: &str) -> Vec<Token> {
    let mut lexer = TokenIterator::new(src.as_bytes());
    let mut out = Vec::new();
    while let Some(token) = lexer.next().unwrap() {
        out.push(token);
    }
    out
}

fn error(src: &str) -> ParseError {
    TokenIterator::new(src.as_bytes()).collect().unwrap_err()
}

#[test]
fn test_qasm_version() {
    let src = "OPENQASM 2.0;\n";
    let tok = tokens(src);
    assert_eq!(tok.len(), 1);
    assert_eq!(tok[0], Token::Version(2));
}

#[test]
fn test_qasm_include() {
    let src = r#"include "qelib.inc";"#;
    let tok = tokens(src);
    assert_eq!(tok.len(), 1);
    assert_eq!(tok[0], Token::Include(b"qelib.inc".to_vec()));
}

#[test]
fn test_qasm_qreg() {
    let src = r"qreg asdf[3];";
    let tok = tokens(src);
    assert_eq!(tok.len(), 1);
    assert_eq!(tok[0], Token::QregDecl(b"asdf".to_vec(), 3));
}

#[test]
fn test_qasm_fixed_gates() {
    let src = "h q[3];\n";
    let tok = tokens(src);
    assert_eq!(tok.len(), 1);
    assert_eq!(tok[0], Token::FixedGate(FixedGate::H, vec![3]));
}

#[test]
fn test_qasm_multi_qubit() {
    let src = "cx q[3], q[4];\n";
    let tok = tokens(src);
    assert_eq!(tok.len(), 1);
    assert_eq!(tok[0], Token::FixedGate(FixedGate::Cx, vec![3, 4]));

    let src = "cx q[3], q[4];";
    let tok = tokens(src);
    assert_eq!(tok.len(), 1);
    assert_eq!(tok[0], Token::FixedGate(FixedGate::Cx, vec![3, 4]));
}

#[test]
fn test_qasm_file() {
    let src = r#"
    OPENQASM 2.0;
    include "qelib1.inc";
    qreg q[14];
    creg c[14];
    h q[1];
    t q[14];
    t q[12];
    t q[1];
    cx q[12],q[14];
    cx q[1],q[12];
    "#;

    let tok = tokens(src);
    assert_eq!(tok.len(), 9);
}

#[test]
fn test_qasm_to_rotation() {
    let src = r#"
    OPENQASM 2.0;
    include "qelib1.inc";
    qreg q[14];
    creg c[14];
    h q[1];
    t q[14];
    t q[12];
    t q[1];
    cx q[12],q[14];
    cx q[1],q[12];
"#;
    let mut lexer = TokenIterator::new(src.as_bytes());

    let mut seen_openqasm = false;
    let mut n_qubits = None;

    while let Some(tok) = lexer.next().unwrap() {
        match tok {
            Token::Version(_) => {
                seen_openqasm = true;
            },
            Token::Include(_) => (),
            Token::QregDecl(_, qubits) => {
                n_qubits = Some(qubits);
                break;
            },
            Token::FixedGate(_, _) => panic!("found OpenQASM gate before a qreg declaration"),
        }
    }

    if !seen_openqasm {
        panic!("missing OpenQASM version declaration");
    }

    let n_qubits = n_qubits.unwrap();
    assert_eq!(n_qubits, 14);

    let mut parser = InstructionIterator::<Basis16>::new(4, lexer, 32).unwrap();

    let mut parsed = Vec::new();
    while let Some(op) = parser.next().unwrap() {
        parsed.push(op);
    }

    assert_eq!(parsed.len(), 12);
}

#[test]
fn statements_with_odd_spacing() {
    assert_eq!(tokens("  OPENQASM   3.1  ;  \n"), vec![Token::Version(3)]);
    assert_eq!(tokens("OPENQASM 200;"), vec![Token::Version(2)]);
    assert_eq!(tokens("OPENQASM 12x34 ;"), vec![Token::Version(12)]);
    assert_eq!(tokens("include \"abc\";"), vec![Token::Include(b"abc".to_vec())]);
    assert_eq!(tokens("include \"a b\" ;"), vec![Token::Include(b"a b".to_vec())]);
    assert_eq!(tokens("qreg  r_1[12] ;\r\n"), vec![Token::QregDecl(b"r_1".to_vec(), 12)]);
    assert_eq!(tokens("creg c[2];\ncreg d[2];"), vec![]);
    assert_eq!(
        tokens("tdg q[0];\nsdg q[1];\ns q[2];\nx q[3];\ny q[4];"),
        vec![
            Token::FixedGate(FixedGate::Tdg, vec![0]),
            Token::FixedGate(FixedGate::Sdg, vec![1]),
            Token::FixedGate(FixedGate::S, vec![2]),
            Token::FixedGate(FixedGate::X, vec![3]),
            Token::FixedGate(FixedGate::Y, vec![4]),
        ]
    );
    assert_eq!(error("x q[3];y q[4];"), ParseError::UnrecognizedLine { line: 1 });
    assert_eq!(tokens("z a[1],   b[2],c[3]  ;"), vec![Token::FixedGate(FixedGate::Z, vec![1, 2, 3])]);
}

#[test]
fn each_statement_error() {
    assert_eq!(error("OPENQASM 2;"), ParseError::UnknownGate { line: 1 });
    assert_eq!(error("OPENQASM 200.0;"), ParseError::BadNumber { line: 1 });
    assert_eq!(error("\ninclude \"ab\";"), ParseError::UnrecognizedLine { line: 2 });
    assert_eq!(error("qreg q[99999999999];"), ParseError::BadNumber { line: 1 });
    assert_eq!(error("rz q[0];"), ParseError::UnknownGate { line: 1 });
    assert_eq!(error("qregx q[0];"), ParseError::UnknownGate { line: 1 });
    assert_eq!(error("h q;"), ParseError::BadQubit);
    assert_eq!(error("cx q[0], r;"), ParseError::BadQubit);
    assert_eq!(error("h q[99999999999];"), ParseError::BadNumber { line: 1 });
    assert_eq!(error("h q[0]"), ParseError::UnrecognizedLine { line: 1 });
    assert_eq!(error("h q[0] , q[1];"), ParseError::UnrecognizedLine { line: 1 });
    assert_eq!(error("h q[];"), ParseError::UnrecognizedLine { line: 1 });
    assert_eq!(error("h q[0];\nh \u{e9}[0];"), ParseError::NonAscii { line: 2 });
}

#[test]
fn peek_and_pop_line() {
    let mut lexer = TokenIterator::new(b"h q[0];\n\nt q[1];\n");
    assert_eq!(lexer.peek().unwrap(), Some(&Token::FixedGate(FixedGate::H, vec![0])));
    let mut line = Vec::new();
    lexer.pop_line(&mut line).unwrap();
    assert_eq!(line, vec![Token::FixedGate(FixedGate::H, vec![0])]);
    lexer.pop_line(&mut line).unwrap();
    assert_eq!(line.len(), 2);
    assert_eq!(lexer.pop().unwrap(), None);
    assert_eq!(lexer.peek().unwrap(), None);
}

fn rotation(n: usize, pauli: &[(usize, Pauli)], angle: Angle) -> Operation<Basis8> {
    let mut x = Basis8::zero(n);
    let mut z = Basis8::zero(n);
    for (q, p) in pauli {
        if p.has_x() {
            x.set_bit_true(*q);
        }
        if p.has_z() {
            z.set_bit_true(*q);
        }
    }
    Operation::rotation(x, z, angle)
}

fn gate(g: FixedGate, qubits: Vec<usize>) -> Vec<Operation<Basis8>> {
    let mut ops = VecDeque::new();
    qasm_to_rotations::<Basis8>(4, &g, &qubits, &mut ops).unwrap();
    ops.into_iter().collect()
}

#[test]
fn every_gate_as_rotations() {
    let z1 = [(1, Pauli::Z)];
    let x1 = [(1, Pauli::X)];
    assert_eq!(
        gate(FixedGate::H, vec![1]),
        vec![
            rotation(4, &z1, Angle::PlusPi4),
            rotation(4, &x1, Angle::PlusPi4),
            rotation(4, &z1, Angle::PlusPi4)
        ]
    );
    assert_eq!(gate(FixedGate::T, vec![1]), vec![rotation(4, &z1, Angle::PlusPi8)]);
    assert_eq!(gate(FixedGate::Tdg, vec![1]), vec![rotation(4, &z1, Angle::MinusPi8)]);
    assert_eq!(gate(FixedGate::S, vec![1]), vec![rotation(4, &z1, Angle::PlusPi4)]);
    assert_eq!(gate(FixedGate::Sdg, vec![1]), vec![rotation(4, &z1, Angle::MinusPi4)]);
    assert_eq!(gate(FixedGate::X, vec![1]), vec![rotation(4, &x1, Angle::Pi2)]);
    assert_eq!(gate(FixedGate::Y, vec![1]), vec![rotation(4, &[(1, Pauli::Y)], Angle::Pi2)]);
    assert_eq!(gate(FixedGate::Z, vec![1]), vec![rotation(4, &z1, Angle::Pi2)]);
    assert_eq!(
        gate(FixedGate::Cx, vec![0, 2]),
        vec![
            rotation(4, &[(0, Pauli::Z), (2, Pauli::X)], Angle::PlusPi4),
            rotation(4, &[(0, Pauli::Z)], Angle::MinusPi4),
            rotation(4, &[(2, Pauli::X)], Angle::MinusPi4)
        ]
    );
    let mut ops = VecDeque::<Operation<Basis8>>::new();
    assert_eq!(
        qasm_to_rotations::<Basis8>(4, &FixedGate::Cx, &vec![0], &mut ops),
        Err(ParseError::BadQubit)
    );
    assert_eq!(
        qasm_to_rotations::<Basis8>(4, &FixedGate::H, &vec![8], &mut ops),
        Err(ParseError::BadQubit)
    );
    assert_eq!(
        qasm_to_rotations::<Basis8>(4, &FixedGate::H, &vec![], &mut ops),
        Err(ParseError::BadQubit)
    );
    assert!(ops.is_empty());
}

fn run(src: &str) -> Result<(usize, String), RunError> {
    let mut output = StringOut::new();
    let n = infer_run_qasm(src.as_bytes(), &mut output, RunConfig::default())?;
    Ok((n, output.into_string()))
}

#[test]
fn a_program_from_text_to_text() {
    let src = "OPENQASM 2.0;\ninclude \"qelib1.inc\";\nqreg q[2];\ncreg c[2];\nt q[0];\nt q[0];\nt q[1];\n";
    let (n, text) = run(src).unwrap();
    assert_eq!(n, 2);
    assert_eq!(text, "Rotate 1: IZ\nMeasure +: ZI\nMeasure +: IZ\n");
    let bypass = RunConfig { bypass: true, ..Default::default() };
    let mut output = StringOut::new();
    assert_eq!(infer_run_qasm(src.as_bytes(), &mut output, bypass), Ok(2));
    assert_eq!(output.into_string(), "Rotate 1: ZI\nRotate 1: ZI\nRotate 1: IZ\n");
}

#[test]
fn each_program_error() {
    assert_eq!(run("qreg q[2];"), Err(RunError::Parse(ParseError::MissingVersion)));
    assert_eq!(run(""), Err(RunError::Parse(ParseError::MissingVersion)));
    assert_eq!(run("OPENQASM 2.0;"), Err(RunError::Parse(ParseError::MissingRegister)));
    assert_eq!(run("OPENQASM 2.0;\nh q[0];"), Err(RunError::Parse(ParseError::GateBeforeRegister)));
    assert_eq!(run("h q[0];\nqreg q[2];"), Err(RunError::Parse(ParseError::GateBeforeRegister)));
    assert_eq!(
        run("OPENQASM 2.0;\nqreg q[2];\nqreg r[2];"),
        Err(RunError::Parse(ParseError::SecondRegister))
    );
    assert_eq!(
        run("OPENQASM 2.0;\nqreg q[2];\nOPENQASM 2.0;"),
        Err(RunError::Parse(ParseError::UnexpectedVersion))
    );
    assert_eq!(run("OPENQASM 2.0;\nqreg q[2];\nh q[2];"), Err(RunError::Parse(ParseError::BadQubit)));
    assert_eq!(run("OPENQASM 2.0;\nqreg q[2];\nh q[9];"), Err(RunError::Parse(ParseError::BadQubit)));
    assert_eq!(
        run("OPENQASM 2.0;\nqreg q[2];\nfoo bar;"),
        Err(RunError::Parse(ParseError::UnknownGate { line: 3 }))
    );
}
