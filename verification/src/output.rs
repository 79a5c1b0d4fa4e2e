//! The textual form of the circuit that comes out.
use crate::basis::Basis;
use crate::bits::bit_traits::BitSeq;
use crate::operation::angle::Angle;
use crate::operation::phase::Phase;
use crate::operation::{Operation, OperationKind, OperationView};
use vstd::prelude::*;
use vstd::string::StringExecFns;

verus! {

/// The letter of the Pauli operator with the given components.
pub open spec fn pauli_letter(x: bool, z: bool) -> char {
    if x && z {
        'Y'
    } else if x {
        'X'
    } else if z {
        'Z'
    } else {
        'I'
    }
}

/// The Pauli string of an operation on `n` qubits, as letters.
pub open spec fn pauli_text(op: OperationView, n: int) -> Seq<char> {
    Seq::new(n as nat, |q: int| pauli_letter(op.x[q], op.z[q]))
}

/// The angle code as text.
pub open spec fn angle_text(angle: Angle) -> Seq<char> {
    match angle {
        Angle::Pi2 => seq!['0'],
        Angle::PlusPi8 => seq!['1'],
        Angle::MinusPi8 => seq!['-', '1'],
        Angle::PlusPi4 => seq!['2'],
        Angle::MinusPi4 => seq!['-', '2'],
    }
}

/// What stands before the colon of a line.
pub open spec fn head_text(kind: OperationKind) -> Seq<char> {
    match kind {
        OperationKind::Nop => Seq::empty(),
        OperationKind::Measurement { phase } => seq!['M', 'e', 'a', 's', 'u', 'r', 'e', ' '].push(
            if phase == Phase::Negative {
                '-'
            } else {
                '+'
            },
        ),
        OperationKind::Rotation { angle } => seq!['R', 'o', 't', 'a', 't', 'e', ' '] + angle_text(
            angle,
        ),
    }
}

/// The line of an operation that is no tombstone: `Measure +: XYZ` or
/// `Rotate 2: XYZ`, with a line feed at the end.
pub open spec fn format_operation(op: OperationView, n: int) -> Seq<char> {
    format_line(op, n) + seq!['\n']
}

/// The line of an operation without the line feed.
pub open spec fn format_line(op: OperationView, n: int) -> Seq<char> {
    head_text(op.kind) + seq![':', ' '] + pauli_text(op, n)
}

/// Writes the line of an operation, which is no tombstone, into `buf` in
/// the place of what it held.
pub fn fmt_operation<B: Basis>(buf: &mut String, n_qubits: usize, operation: &Operation<B>)
    requires
        operation.wf(),
        n_qubits <= operation.x.seq().len(),
        !(operation.kind is Nop),
    ensures
        final(buf)@ == format_operation(operation@, n_qubits as int),
{
    write_line(buf, n_qubits, operation);
    proof {
        reveal_strlit("\n");
    }
    buf.append("\n");
}

impl<B: Basis> Operation<B> {
    /// The line of the operation, which is no tombstone, without the line
    /// feed.
    pub fn as_string(&self, n_qubits: usize) -> (r: String)
        requires
            self.wf(),
            n_qubits <= self.x.seq().len(),
            !(self.kind is Nop),
        ensures
            r@ == format_line(self@, n_qubits as int),
    {
        let mut buf = String::new();
        write_line(&mut buf, n_qubits, self);
        buf
    }
}

/// Writes the line of an operation without the line feed into `buf` in the
/// place of what it held.
fn write_line<B: Basis>(buf: &mut String, n_qubits: usize, operation: &Operation<B>)
    requires
        operation.wf(),
        n_qubits <= operation.x.seq().len(),
        !(operation.kind is Nop),
    ensures
        final(buf)@ == format_line(operation@, n_qubits as int),
{
    proof {
        operation.lemma_widths();
    }
    *buf = String::new();
    match operation.kind {
        OperationKind::Nop => {},
        OperationKind::Measurement { phase } => {
            proof {
                reveal_strlit("Measure ");
                reveal_strlit("+");
                reveal_strlit("-");
            }
            buf.append("Measure ");
            match phase {
                Phase::Positive => buf.append("+"),
                Phase::Negative => buf.append("-"),
            }
            assert(buf@ =~= head_text(operation.kind));
        },
        OperationKind::Rotation { angle } => {
            proof {
                reveal_strlit("Rotate ");
                reveal_strlit("0");
                reveal_strlit("1");
                reveal_strlit("-1");
                reveal_strlit("2");
                reveal_strlit("-2");
            }
            buf.append("Rotate ");
            match angle {
                Angle::Pi2 => buf.append("0"),
                Angle::PlusPi8 => buf.append("1"),
                Angle::MinusPi8 => buf.append("-1"),
                Angle::PlusPi4 => buf.append("2"),
                Angle::MinusPi4 => buf.append("-2"),
            }
            assert(buf@ =~= head_text(operation.kind));
        },
    }
    proof {
        reveal_strlit(": ");
        reveal_strlit("I");
        reveal_strlit("X");
        reveal_strlit("Y");
        reveal_strlit("Z");
    }
    buf.append(": ");
    let ghost start = buf@;
    assert(start =~= head_text(operation.kind) + seq![':', ' ']);
    let mut q: usize = 0;
    while q < n_qubits
        invariant
            q <= n_qubits,
            operation.wf(),
            n_qubits <= operation.x.seq().len(),
            operation.x.seq().len() == operation.z.seq().len(),
            "I"@ == seq!['I'],
            "X"@ == seq!['X'],
            "Y"@ == seq!['Y'],
            "Z"@ == seq!['Z'],
            buf@ == start + pauli_text(operation@, q as int),
        decreases n_qubits - q,
    {
        let x = operation.x.get_bit(q);
        let z = operation.z.get_bit(q);
        if x && z {
            buf.append("Y");
        } else if x {
            buf.append("X");
        } else if z {
            buf.append("Z");
        } else {
            buf.append("I");
        }
        assert(buf@ =~= start + pauli_text(operation@, q + 1));
        q += 1;
    }
}

/// The lines of a circuit without tombstones, one after the other.
pub open spec fn format_circuit(ops: Seq<OperationView>, n: int) -> Seq<char>
    decreases ops.len(),
{
    if ops.len() == 0 {
        Seq::empty()
    } else {
        format_circuit(ops.drop_last(), n) + format_operation(ops.last(), n)
    }
}

/// Where the circuit is written to.
pub trait Output {
    /// Whether the output keeps what is written to it. One that says
    /// nothing of it keeps nothing.
    open spec fn keeps(&self) -> bool {
        false
    }

    /// What was written so far, where the output keeps it.
    open spec fn text(&self) -> Seq<char> {
        Seq::empty()
    }

    /// Whether writing to the output never fails. One that says nothing
    /// of it may fail.
    open spec fn reliable(&self) -> bool {
        false
    }

    /// Forces out what was written.
    fn flush(&mut self) -> (r: Result<(), OutputError>)
        ensures
            final(self).keeps() == old(self).keeps(),
            final(self).text() == old(self).text(),
            final(self).reliable() == old(self).reliable(),
            old(self).reliable() ==> r is Ok,
    ;

    /// Writes the line of an operation, which is no tombstone.
    fn write_operation<B: Basis>(&mut self, n_qubits: usize, operation: &Operation<B>) -> (r:
        Result<(), OutputError>)
        requires
            operation.wf(),
            n_qubits <= operation.x.seq().len(),
            !(operation.kind is Nop),
        ensures
            final(self).keeps() == old(self).keeps(),
            final(self).reliable() == old(self).reliable(),
            old(self).reliable() ==> r is Ok,
            r is Ok && old(self).keeps() ==> final(self).text() == old(self).text()
                + format_operation(operation@, n_qubits as int),
    ;
}

/// The output could not be written.
#[derive(Clone, Copy, Debug, PartialEq, Eq, Structural)]
pub struct OutputError {
    /// The code of the failure, as the system gives it; 0 if it gives none.
    pub code: i32,
}

/// An output that throws away what is written to it.
#[derive(Debug)]
pub struct Void {}

impl Output for Void {
    open spec fn reliable(&self) -> bool {
        true
    }

    fn flush(&mut self) -> (r: Result<(), OutputError>) {
        Ok(())
    }

    fn write_operation<B: Basis>(&mut self, _n_qubits: usize, _operation: &Operation<B>) -> (r:
        Result<(), OutputError>) {
        Ok(())
    }
}

/// An output that collects the lines in a string.
#[derive(Debug)]
pub struct StringOut {
    single: String,
    output: String,
}

impl StringOut {
    /// An output that holds no text yet.
    pub fn new() -> (r: Self)
        ensures
            r.text().len() == 0,
    {
        Self { single: String::new(), output: String::new() }
    }

    /// The text that was collected.
    pub fn output(&self) -> (r: &String)
        ensures
            r@ == self.text(),
    {
        &self.output
    }

    /// The text that was collected.
    pub fn into_string(self) -> (r: String)
        ensures
            r@ == self.text(),
    {
        self.output
    }
}

impl Output for StringOut {
    open spec fn keeps(&self) -> bool {
        true
    }

    closed spec fn text(&self) -> Seq<char> {
        self.output@
    }

    open spec fn reliable(&self) -> bool {
        true
    }

    fn flush(&mut self) -> (r: Result<(), OutputError>) {
        Ok(())
    }

    fn write_operation<B: Basis>(&mut self, n_qubits: usize, operation: &Operation<B>) -> (r:
        Result<(), OutputError>) {
        fmt_operation(&mut self.single, n_qubits, operation);
        self.output.append(self.single.as_str());
        Ok(())
    }
}

} // verus!
