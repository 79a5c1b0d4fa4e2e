//! The parser of the OpenQASM 2.0 front-end: every gate becomes the
//! rotations that make it up.
use crate::basis::Basis;
use crate::bits::bit_traits::BitSeq;
use crate::error::ParseError;
use crate::input::parser::Stream;
use crate::operation::angle::Angle;
use crate::operation::{all_wf, views, Operation, OperationKind, OperationView};
use crate::qasm::lexer::{token_views, FixedGate, Token, TokenIterator, TokenView};
use std::collections::VecDeque;
use vstd::prelude::*;

verus! {

/// The rotation by `angle` about the Pauli string with X on the qubits
/// `xs` and Z on the qubits `zs`, a qubit in both making Y.
pub open spec fn rotation_on(width: nat, xs: Seq<usize>, zs: Seq<usize>, angle: Angle) -> OperationView {
    OperationView {
        x: Seq::new(width, |q: int| xs.contains(q as usize) && q <= usize::MAX),
        z: Seq::new(width, |q: int| zs.contains(q as usize) && q <= usize::MAX),
        kind: OperationKind::Rotation { angle },
    }
}

/// The rotations that make up a gate on a list of qubits; none if it
/// lacks a qubit or a qubit lies beyond the width of the bases.
pub open spec fn gate_ops(gate: FixedGate, qubits: Seq<usize>, width: nat) -> Option<
    Seq<OperationView>,
> {
    if qubits.len() == 0 || qubits[0] >= width {
        None
    } else {
        let q = qubits[0];
        let none = Seq::<usize>::empty();
        match gate {
            FixedGate::H => Some(
                seq![
                    rotation_on(width, none, seq![q], Angle::PlusPi4),
                    rotation_on(width, seq![q], none, Angle::PlusPi4),
                    rotation_on(width, none, seq![q], Angle::PlusPi4),
                ],
            ),
            FixedGate::T => Some(seq![rotation_on(width, none, seq![q], Angle::PlusPi8)]),
            FixedGate::Tdg => Some(seq![rotation_on(width, none, seq![q], Angle::MinusPi8)]),
            FixedGate::S => Some(seq![rotation_on(width, none, seq![q], Angle::PlusPi4)]),
            FixedGate::Sdg => Some(seq![rotation_on(width, none, seq![q], Angle::MinusPi4)]),
            FixedGate::X => Some(seq![rotation_on(width, seq![q], none, Angle::Pi2)]),
            FixedGate::Y => Some(seq![rotation_on(width, seq![q], seq![q], Angle::Pi2)]),
            FixedGate::Z => Some(seq![rotation_on(width, none, seq![q], Angle::Pi2)]),
            FixedGate::Cx => if qubits.len() < 2 || qubits[1] >= width {
                None
            } else {
                let t = qubits[1];
                Some(
                    seq![
                        rotation_on(width, seq![t], seq![q], Angle::PlusPi4),
                        rotation_on(width, none, seq![q], Angle::MinusPi4),
                        rotation_on(width, seq![t], none, Angle::MinusPi4),
                    ],
                )
            },
        }
    }
}

/// The operations that the statements from index `at` on stand for, after
/// the declaration of the register: the rotations of every gate, in
/// order. Include statements are passed over. A statement in error ends
/// the stream.
pub open spec fn program_ops(tokens: Seq<TokenView>, at: int, width: nat) -> Stream
    decreases tokens.len() - at,
{
    if at < 0 || at >= tokens.len() {
        Stream { ops: Seq::empty(), error: None }
    } else {
        match tokens[at] {
            TokenView::Version(_) => Stream {
                ops: Seq::empty(),
                error: Some(ParseError::UnexpectedVersion),
            },
            TokenView::Include(_) => program_ops(tokens, at + 1, width),
            TokenView::QregDecl(_, _) => Stream {
                ops: Seq::empty(),
                error: Some(ParseError::SecondRegister),
            },
            TokenView::FixedGate(gate, qubits) => match gate_ops(gate, qubits, width) {
                None => Stream { ops: Seq::empty(), error: Some(ParseError::BadQubit) },
                Some(ops) => {
                    let rest = program_ops(tokens, at + 1, width);
                    Stream { ops: ops + rest.ops, error: rest.error }
                },
            },
        }
    }
}

/// Builds the rotation by `angle` about the Pauli string with X on the
/// qubits `xs` and Z on the qubits `zs`.
fn rotation<B: Basis>(n_qubits: usize, xs: &[usize], zs: &[usize], angle: Angle) -> (r: Operation<
    B,
>)
    requires
        B::fits(n_qubits),
        forall|j: int| 0 <= j < xs@.len() ==> xs@[j] < B::capacity_of(n_qubits),
        forall|j: int| 0 <= j < zs@.len() ==> zs@[j] < B::capacity_of(n_qubits),
    ensures
        r.wf_for(n_qubits),
        r@ == rotation_on(B::capacity_of(n_qubits), xs@, zs@, angle),
{
    let x = B::with_true_bits(n_qubits, xs);
    let z = B::with_true_bits(n_qubits, zs);
    proof {
        let width = B::capacity_of(n_qubits);
        assert(x.seq() =~= Seq::new(width, |q: int| xs@.contains(q as usize) && q <= usize::MAX)) by {
            assert forall|q: int| 0 <= q < width implies x.seq()[q] == (xs@.contains(q as usize)
                && q <= usize::MAX) by {
                x.lemma_capacity(n_qubits);
                if x.seq()[q] {
                    let j = choose|j: int| 0 <= j < xs@.len() && xs@[j] == q;
                    assert(xs@[j] == q as usize);
                }
                if xs@.contains(q as usize) && q <= usize::MAX {
                    let j = choose|j: int| 0 <= j < xs@.len() && xs@[j] == q as usize;
                    assert(xs@[j] == q);
                }
            }
        }
        assert(z.seq() =~= Seq::new(width, |q: int| zs@.contains(q as usize) && q <= usize::MAX)) by {
            assert forall|q: int| 0 <= q < width implies z.seq()[q] == (zs@.contains(q as usize)
                && q <= usize::MAX) by {
                z.lemma_capacity(n_qubits);
                if z.seq()[q] {
                    let j = choose|j: int| 0 <= j < zs@.len() && zs@[j] == q;
                    assert(zs@[j] == q as usize);
                }
                if zs@.contains(q as usize) && q <= usize::MAX {
                    let j = choose|j: int| 0 <= j < zs@.len() && zs@[j] == q as usize;
                    assert(zs@[j] == q);
                }
            }
        }
    }
    Operation::rotation(x, z, angle)
}

/// Appends to `ops` the rotations that make up a gate on the given qubits.
pub fn qasm_to_rotations<B: Basis>(
    n_qubits: usize,
    gate: &FixedGate,
    qregs: &Vec<usize>,
    ops: &mut VecDeque<Operation<B>>,
) -> (r: Result<(), ParseError>)
    requires
        B::fits(n_qubits),
        all_wf(old(ops)@, B::class_of(n_qubits)),
    ensures
        all_wf(final(ops)@, B::class_of(n_qubits)),
        match gate_ops(*gate, qregs@, B::capacity_of(n_qubits)) {
            Some(rotations) => r is Ok && views(final(ops)@) == views(old(ops)@) + rotations,
            None => r == Err::<(), ParseError>(ParseError::BadQubit) && final(ops)@ == old(ops)@,
        },
{
    let capacity = B::capacity_for(n_qubits);
    if qregs.len() == 0 || qregs[0] >= capacity {
        return Err(ParseError::BadQubit);
    }
    let q = qregs[0];
    let ghost before = views(ops@);
    let ghost start = ops@;
    let ghost width = B::capacity_of(n_qubits);
    let one: [usize; 1] = [q];
    let none: [usize; 0] = [];
    proof {
        assert(one@ =~= seq![q]);
        assert(none@ =~= Seq::<usize>::empty());
    }
    match gate {
        FixedGate::H => {
            let a = rotation::<B>(n_qubits, none.as_slice(), one.as_slice(), Angle::PlusPi4);
            let b = rotation::<B>(n_qubits, one.as_slice(), none.as_slice(), Angle::PlusPi4);
            let c = rotation::<B>(n_qubits, none.as_slice(), one.as_slice(), Angle::PlusPi4);
            ops.push_back(a);
            ops.push_back(b);
            ops.push_back(c);
            assert(views(ops@) =~= before + seq![a@, b@, c@]);
        },
        FixedGate::T => {
            let a = rotation::<B>(n_qubits, none.as_slice(), one.as_slice(), Angle::PlusPi8);
            ops.push_back(a);
            assert(views(ops@) =~= before + seq![a@]);
        },
        FixedGate::Tdg => {
            let a = rotation::<B>(n_qubits, none.as_slice(), one.as_slice(), Angle::MinusPi8);
            ops.push_back(a);
            assert(views(ops@) =~= before + seq![a@]);
        },
        FixedGate::S => {
            let a = rotation::<B>(n_qubits, none.as_slice(), one.as_slice(), Angle::PlusPi4);
            ops.push_back(a);
            assert(views(ops@) =~= before + seq![a@]);
        },
        FixedGate::Sdg => {
            let a = rotation::<B>(n_qubits, none.as_slice(), one.as_slice(), Angle::MinusPi4);
            ops.push_back(a);
            assert(views(ops@) =~= before + seq![a@]);
        },
        FixedGate::X => {
            let a = rotation::<B>(n_qubits, one.as_slice(), none.as_slice(), Angle::Pi2);
            ops.push_back(a);
            assert(views(ops@) =~= before + seq![a@]);
        },
        FixedGate::Y => {
            let a = rotation::<B>(n_qubits, one.as_slice(), one.as_slice(), Angle::Pi2);
            ops.push_back(a);
            assert(views(ops@) =~= before + seq![a@]);
        },
        FixedGate::Z => {
            let a = rotation::<B>(n_qubits, none.as_slice(), one.as_slice(), Angle::Pi2);
            ops.push_back(a);
            assert(views(ops@) =~= before + seq![a@]);
        },
        FixedGate::Cx => {
            if qregs.len() < 2 || qregs[1] >= capacity {
                return Err(ParseError::BadQubit);
            }
            let t = qregs[1];
            let target: [usize; 1] = [t];
            proof {
                assert(target@ =~= seq![t]);
            }
            let a = rotation::<B>(n_qubits, target.as_slice(), one.as_slice(), Angle::PlusPi4);
            let b = rotation::<B>(n_qubits, none.as_slice(), one.as_slice(), Angle::MinusPi4);
            let c = rotation::<B>(n_qubits, target.as_slice(), none.as_slice(), Angle::MinusPi4);
            ops.push_back(a);
            ops.push_back(b);
            ops.push_back(c);
            assert(views(ops@) =~= before + seq![a@, b@, c@]);
        },
    }
    Ok(())
}

/// The parser: hands out the operations of a program one by one.
#[derive(Debug)]
pub struct InstructionIterator<B: Basis> {
    tokens: Vec<Token>,
    at: usize,
    buf_size: usize,
    n_qubits: usize,
    operation_buf: VecDeque<Operation<B>>,
}

impl<B: Basis> InstructionIterator<B> {
    /// The number of qubits of the program.
    pub closed spec fn qubits(&self) -> usize {
        self.n_qubits
    }

    /// The state is sound.
    pub closed spec fn wf(&self) -> bool {
        &&& B::fits(self.n_qubits)
        &&& self.at <= self.tokens@.len()
        &&& all_wf(self.operation_buf@, B::class_of(self.n_qubits))
    }

    /// The operations that are still to come, and the error after them.
    pub closed spec fn pending(&self) -> Stream {
        let rest = program_ops(
            token_views(self.tokens@),
            self.at as int,
            B::capacity_of(self.n_qubits),
        );
        Stream { ops: views(self.operation_buf@) + rest.ops, error: rest.error }
    }

    /// A parser of the statements `tokens[at..]`.
    pub fn from_tokens(n_qubits: usize, tokens: Vec<Token>, at: usize, buf_size: usize) -> (r: Self)
        requires
            B::fits(n_qubits),
            at <= tokens@.len(),
        ensures
            r.wf(),
            r.qubits() == n_qubits,
            r.pending() == program_ops(token_views(tokens@), at as int, B::capacity_of(n_qubits)),
    {
        let r = Self { tokens, at, buf_size, n_qubits, operation_buf: VecDeque::new() };
        proof {
            let rest = program_ops(token_views(tokens@), at as int, B::capacity_of(n_qubits));
            assert(views(r.operation_buf@) + rest.ops =~= rest.ops);
        }
        r
    }

    /// A parser of the statements that the lexer has left.
    pub fn new(n_qubits: usize, source: TokenIterator<'_>, buf_size: usize) -> (r: Result<
        Self,
        ParseError,
    >)
        requires
            source.wf(),
            B::fits(n_qubits),
        ensures
            match source.remaining() {
                Ok(tokens) => r is Ok && r->Ok_0.wf() && r->Ok_0.qubits() == n_qubits
                    && r->Ok_0.pending() == program_ops(tokens, 0, B::capacity_of(n_qubits)),
                Err(e) => r is Err && r->Err_0 == e,
            },
    {
        let mut source = source;
        match source.collect() {
            Ok(tokens) => Ok(Self::from_tokens(n_qubits, tokens, 0, buf_size)),
            Err(e) => Err(e),
        }
    }

    /// Turns statements into operations until the buffer holds one or the
    /// statements are at their end.
    fn fill_buff(&mut self) -> (r: Result<(), ParseError>)
        requires
            old(self).wf(),
            old(self).operation_buf@.len() == 0,
        ensures
            final(self).qubits() == old(self).qubits(),
            match r {
                Ok(()) => final(self).wf() && final(self).pending() == old(self).pending() && (
                final(self).operation_buf@.len() == 0 ==> old(self).pending() == (Stream {
                    ops: Seq::empty(),
                    error: None,
                })),
                Err(e) => old(self).pending() == (Stream { ops: Seq::empty(), error: Some(e) }),
            },
    {
        let n = self.tokens.len();
        let ghost tokens = token_views(self.tokens@);
        let ghost width = B::capacity_of(self.n_qubits);
        let ghost before = self.pending();
        proof {
            assert(views(self.operation_buf@) =~= Seq::<OperationView>::empty());
            assert(before.ops =~= program_ops(tokens, self.at as int, width).ops);
        }
        while self.at < n && self.operation_buf.len() == 0
            invariant
                n == self.tokens@.len(),
                tokens == token_views(self.tokens@),
                width == B::capacity_of(self.n_qubits),
                self.n_qubits == old(self).n_qubits,
                self.wf(),
                self.pending() == before,
                before == old(self).pending(),
                self.at < n && self.operation_buf@.len() == 0 ==> before == program_ops(
                    tokens,
                    self.at as int,
                    width,
                ),
                self.at >= n && self.operation_buf@.len() == 0 ==> before == (Stream {
                    ops: Seq::empty(),
                    error: None,
                }),
            decreases n - self.at,
        {
            let at = self.at;
            proof {
                assert(tokens[at as int] == self.tokens@[at as int]@);
            }
            match &self.tokens[at] {
                Token::Version(_) => {
                    return Err(ParseError::UnexpectedVersion);
                },
                Token::Include(_) => {
                    self.at = at + 1;
                    proof {
                        let rest = program_ops(tokens, at + 1, width);
                        assert(views(self.operation_buf@) + rest.ops =~= rest.ops);
                    }
                },
                Token::QregDecl(_, _) => {
                    return Err(ParseError::SecondRegister);
                },
                Token::FixedGate(gate, qregs) => {
                    match qasm_to_rotations(self.n_qubits, gate, qregs, &mut self.operation_buf) {
                        Ok(()) => {},
                        Err(e) => {
                            return Err(e);
                        },
                    }
                    self.at = at + 1;
                    proof {
                        let rotations = gate_ops(*gate, qregs@, width)->Some_0;
                        let rest = program_ops(tokens, at + 1, width);
                        assert(views(self.operation_buf@) =~= rotations);
                    }
                },
            }
        }
        Ok(())
    }

    /// The next operation, if one is left.
    pub fn next(&mut self) -> (r: Result<Option<Operation<B>>, ParseError>)
        requires
            old(self).wf(),
        ensures
            final(self).qubits() == old(self).qubits(),
            match r {
                Ok(Some(op)) => {
                    &&& final(self).wf()
                    &&& old(self).pending().ops.len() > 0
                    &&& op@ == old(self).pending().ops[0]
                    &&& op.wf_for(old(self).qubits())
                    &&& final(self).pending() == (Stream {
                        ops: old(self).pending().ops.skip(1),
                        error: old(self).pending().error,
                    })
                },
                Ok(None) => final(self).wf() && old(self).pending() == (Stream {
                    ops: Seq::empty(),
                    error: None,
                }) && final(self).pending() == old(self).pending(),
                Err(e) => old(self).pending() == (Stream { ops: Seq::empty(), error: Some(e) }),
            },
    {
        if self.operation_buf.len() == 0 {
            match self.fill_buff() {
                Ok(()) => {},
                Err(e) => {
                    return Err(e);
                },
            }
        }
        let ghost before = views(self.operation_buf@);
        let ghost rest = program_ops(
            token_views(self.tokens@),
            self.at as int,
            B::capacity_of(self.n_qubits),
        );
        match self.operation_buf.pop_front() {
            Some(front) => {
                proof {
                    assert(views(self.operation_buf@) =~= before.skip(1));
                    assert(before[0] == front@);
                    assert((before + rest.ops).skip(1) =~= before.skip(1) + rest.ops);
                }
                Ok(Some(front))
            },
            None => Ok(None),
        }
    }

    /// All operations that are left, or the error after them.
    pub fn collect(&mut self) -> (r: Result<Vec<Operation<B>>, ParseError>)
        requires
            old(self).wf(),
        ensures
            match old(self).pending().error {
                Some(e) => r == Err::<Vec<Operation<B>>, ParseError>(e),
                None => r is Ok && views(r->Ok_0@) == old(self).pending().ops && all_wf(
                    r->Ok_0@,
                    B::class_of(old(self).qubits()),
                ),
            },
    {
        let mut out: Vec<Operation<B>> = Vec::new();
        let ghost all = self.pending();
        proof {
            assert(views(out@) + all.ops =~= all.ops);
        }
        loop
            invariant
                self.wf(),
                self.n_qubits == old(self).n_qubits,
                all == old(self).pending(),
                self.pending().error == all.error,
                views(out@) + self.pending().ops == all.ops,
                all_wf(out@, B::class_of(self.n_qubits)),
            decreases self.pending().ops.len(),
        {
            let ghost left = self.pending();
            let ghost done = views(out@);
            match self.next() {
                Ok(Some(op)) => {
                    out.push(op);
                    proof {
                        assert(views(out@) =~= done.push(left.ops[0]));
                        assert(done.push(left.ops[0]) + left.ops.skip(1) =~= done + left.ops);
                    }
                },
                Ok(None) => {
                    proof {
                        assert(done + left.ops =~= done);
                    }
                    return Ok(out);
                },
                Err(e) => {
                    return Err(e);
                },
            }
        }
    }
}

} // verus!
