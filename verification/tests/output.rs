use qarrot_optimizer::basis::{Basis, Basis16, Basis8, DBasis};
use qarrot_optimizer::operation::angle::Angle;
use qarrot_optimizer::operation::phase::Phase;
use qarrot_optimizer::operation::Operation;
use qarrot_optimizer::output::{fmt_operation, Output, OutputError, StringOut, Void};
use qarrot_optimizer::symplectic::Symplectic;
use qarrot_optimizer::{
    capped_buffer_length, infer_run_txt, CompressionAlgorithm, InputType, RunConfig, RunError,
};
use qarrot_optimizer::optimization::MAX_PREALLOC_OPERATIONS;

/// An output that counts its lines and fails after a number of them.
struct Counting {
    lines: Vec<String>,
    room: usize,
    flushed: usize,
}

impl Output for Counting {
    fn flush(&mut self) -> Result<(), OutputError> {
        self.flushed += 1;
        Ok(())
    }

    fn write_operation<B: Basis>(
        &mut self,
        n_qubits: usize,
        operation: &Operation<B>,
    ) -> Result<(), OutputError> {
        if self.lines.len() == self.room {
            return Err(OutputError { code: 28 });
        }
        self.lines.push(operation.as_string(n_qubits));
        Ok(())
    }
}

#[test]
fn an_output_of_the_caller_gets_the_lines() {
    let mut output = Counting { lines: Vec::new(), room: 10, flushed: 0 };
    let n = infer_run_txt(b"Rotate 1: ZI\nRotate 1: ZI\nRotate -1: IX\n", &mut output, RunConfig::default());
    assert_eq!(n, Ok(2));
    assert_eq!(output.lines, vec!["Rotate -1: IX", "Measure +: ZI", "Measure +: IZ"]);
    let mut output = Counting { lines: Vec::new(), room: 1, flushed: 0 };
    let n = infer_run_txt(b"Rotate 1: ZI\nRotate 1: ZI\nRotate -1: IX\n", &mut output, RunConfig::default());
    assert_eq!(n, Err(RunError::Output(OutputError { code: 28 })));
    assert_eq!(output.lines, vec!["Rotate -1: IX"]);
}

#[test]
fn lines_of_operations() {
    let r = Operation::rotation(
        Basis8::with_true_bits(4, &[1, 2]),
        Basis8::with_true_bits(4, &[2, 3]),
        Angle::MinusPi8,
    );
    assert_eq!(r.as_string(4), "Rotate -1: IXYZ");
    assert_eq!(r.as_string(2), "Rotate -1: IX");
    let mut buf = String::from("what was there");
    fmt_operation(&mut buf, 4, &r);
    assert_eq!(buf, "Rotate -1: IXYZ\n");
    let m = Operation::measurement(DBasis::zero(130), DBasis::one_bit(130, 129), Phase::Negative);
    let line = m.as_string(130);
    assert_eq!(line.len(), "Measure -: ".len() + 130);
    assert!(line.starts_with("Measure -: IIII"));
    assert!(line.ends_with("IIIZ"));
    let mut out = StringOut::new();
    out.write_operation(4, &r).unwrap();
    out.write_operation(4, &r).unwrap();
    assert_eq!(out.flush(), Ok(()));
    assert_eq!(out.output(), "Rotate -1: IXYZ\nRotate -1: IXYZ\n");
    let mut void = Void {};
    assert_eq!(void.write_operation(4, &r), Ok(()));
}

#[test]
fn pauli_strings_written_out() {
    let p = Symplectic::<Basis16>::from_bitstring(9, 1, "0000110110000000", "0000010000000000");
    assert_eq!(p.dbg_out(9), "Symplectic16 { 1 | 0b000011011 | 0b000001000 }");
    let mut buf = String::from("> ");
    p.dbg(&mut buf, 3);
    assert_eq!(buf, "> Symplectic16 { 1 | 0b000 | 0b000 }");
    let d = Symplectic::<DBasis>::zero(129);
    assert_eq!(d.dbg_out(2), "Symplectic256 { 0 | 0b00 | 0b00 }");
    assert_eq!(Symplectic::<Basis8>::zero(1).dbg_out(0), "Symplectic8 { 0 | 0b | 0b }");
}

#[test]
fn names_of_formats_and_compressions() {
    assert_eq!(CompressionAlgorithm::from_extension(b"gz"), Some(CompressionAlgorithm::GZip));
    assert_eq!(CompressionAlgorithm::from_extension(b"gzip"), Some(CompressionAlgorithm::GZip));
    assert_eq!(CompressionAlgorithm::from_extension(b"GZ"), None);
    assert_eq!(CompressionAlgorithm::from_extension(b"zip"), None);
    assert_eq!(CompressionAlgorithm::from_extension(b""), None);
    assert_eq!(InputType::from_name(b"qasm"), InputType::Qasm);
    assert_eq!(InputType::from_name(b"QASM"), InputType::Qasm);
    assert_eq!(InputType::from_name(b"Txt"), InputType::Txt);
    assert_eq!(InputType::from_name(b"text"), InputType::Other);
    assert_eq!(InputType::from_name(b"tx\x54"), InputType::Txt);
    assert_eq!(InputType::from_name(b"tx\x94"), InputType::Other);
    assert_eq!(InputType::default(), InputType::Other);
    assert_eq!(capped_buffer_length(16384), 16384);
    assert_eq!(capped_buffer_length(MAX_PREALLOC_OPERATIONS), MAX_PREALLOC_OPERATIONS);
    assert_eq!(capped_buffer_length(MAX_PREALLOC_OPERATIONS + 1), MAX_PREALLOC_OPERATIONS);
    assert_eq!(MAX_PREALLOC_OPERATIONS, (2usize << 33) / 96);
}
