//! The parser of the textual circuit format: from tokens to operations,
//! with repeat blocks unrolled.
use crate::basis::Basis;
use crate::bits::bit_traits::BitSeq;
use crate::bitseq::within;
use crate::error::ParseError;
use crate::input::lexer::{lex_ahead, Ahead, Pauli, Token, TokenIterator};
use crate::operation::angle::Angle;
use crate::operation::phase::Phase;
use crate::operation::{
    all_wf, every, lemma_every_concat, op_on, views, Operation, OperationKind, OperationView,
};
use crate::optimization::rotation_combination::op_live;
use vstd::prelude::*;

verus! {

/// Whether the Pauli operator has an X component.
pub open spec fn pauli_has_x(p: Pauli) -> bool {
    p == Pauli::X || p == Pauli::Y
}

/// Whether the Pauli operator has a Z component.
pub open spec fn pauli_has_z(p: Pauli) -> bool {
    p == Pauli::Z || p == Pauli::Y
}

/// The number of Pauli tokens in a row from index `at` on, at most `n`.
pub open spec fn pauli_run(tokens: Seq<Token>, at: int, n: int) -> int
    decreases n,
{
    if n <= 0 || at < 0 || at >= tokens.len() || !(tokens[at] is Pauli) {
        0
    } else {
        1 + pauli_run(tokens, at + 1, n - 1)
    }
}

/// The x part (or the z part) that the `n` Pauli tokens from index `at` on
/// spell.
pub open spec fn pauli_bits(tokens: Seq<Token>, at: int, n: int, width: nat, x_part: bool) -> Seq<
    bool,
> {
    Seq::new(
        width,
        |q: int|
            q < n && (tokens[at + q] matches Token::Pauli(p) && if x_part {
                pauli_has_x(p)
            } else {
                pauli_has_z(p)
            }),
    )
}

/// The operation that starts with the token at index `at`, a rotation or
/// a measurement, and the index after it.
pub open spec fn op_at(ahead: Ahead, at: int, n: int, width: nat) -> Result<
    (OperationView, int),
    ParseError,
> {
    let tokens = ahead.tokens;
    let run = pauli_run(tokens, at + 1, n);
    if run < n {
        if at + 1 + run >= tokens.len() {
            Err(
                match ahead.error {
                    Some(e) => e,
                    None => ParseError::UnexpectedEof { found: run as usize, expected: n as usize },
                },
            )
        } else {
            Err(ParseError::UnexpectedToken { found: run as usize, expected: n as usize })
        }
    } else {
        let x = pauli_bits(tokens, at + 1, n, width, true);
        let z = pauli_bits(tokens, at + 1, n, width, false);
        match tokens[at] {
            Token::Measure(phase) => Ok(
                (OperationView { x, z, kind: OperationKind::Measurement { phase } }, at + 1 + n),
            ),
            Token::Rotate(code) => if -2 <= code <= 2 {
                Ok(
                    (
                        OperationView {
                            x,
                            z,
                            kind: OperationKind::Rotation { angle: Angle::of_code(code as int) },
                        },
                        at + 1 + n,
                    ),
                )
            } else {
                Err(ParseError::AngleTooLarge { line: 0 })
            },
            _ => Err(ParseError::InvalidStart),
        }
    }
}

/// The operations of the body of a repeat block from index `at` on, up to
/// its `End`, and the index after the `End`.
pub open spec fn body_at(ahead: Ahead, at: int, n: int, width: nat) -> Result<
    (Seq<OperationView>, int),
    ParseError,
>
    decreases ahead.tokens.len() - at,
{
    let tokens = ahead.tokens;
    if at < 0 || n < 0 {
        Err(ParseError::EofInRepeat)
    } else if at >= tokens.len() {
        Err(
            match ahead.error {
                Some(e) => e,
                None => ParseError::EofInRepeat,
            },
        )
    } else {
        match tokens[at] {
            Token::Repeat(_) => Err(ParseError::NestedRepeat),
            Token::End => Ok((Seq::empty(), at + 1)),
            Token::Pauli(_) => Err(ParseError::PauliOutOfOrder),
            _ => match op_at(ahead, at, n, width) {
                Err(e) => Err(e),
                Ok((op, next)) => if at < next <= tokens.len() {
                    match body_at(ahead, next, n, width) {
                        Err(e) => Err(e),
                        Ok((rest, end)) => Ok((seq![op] + rest, end)),
                    }
                } else {
                    Err(ParseError::EofInRepeat)
                },
            },
        }
    }
}

/// `k` copies of `body`, one after the other.
pub open spec fn repeated(body: Seq<OperationView>, k: nat) -> Seq<OperationView>
    decreases k,
{
    if k == 0 {
        Seq::empty()
    } else {
        body + repeated(body, (k - 1) as nat)
    }
}

/// The operations that a parser will hand out, and the error that it will
/// report after them, if any.
pub struct Stream {
    pub ops: Seq<OperationView>,
    pub error: Option<ParseError>,
}

/// The operations that the tokens from index `at` on spell, block by
/// block: a block is one operation or one repeat block, which counts as
/// many times as it says. A block in error ends the stream.
pub open spec fn stream_at(ahead: Ahead, at: int, n: int, width: nat) -> Stream
    decreases ahead.tokens.len() - at,
{
    let tokens = ahead.tokens;
    if at < 0 || n < 0 {
        Stream { ops: Seq::empty(), error: Some(ParseError::Empty) }
    } else if at >= tokens.len() {
        Stream { ops: Seq::empty(), error: ahead.error }
    } else {
        match tokens[at] {
            Token::Repeat(count) => match body_at(ahead, at + 1, n, width) {
                Err(e) => Stream { ops: Seq::empty(), error: Some(e) },
                Ok((body, next)) => {
                    if body.len() == 0 {
                        Stream { ops: Seq::empty(), error: Some(ParseError::EmptyRepeat) }
                    } else if at < next <= tokens.len() {
                        let rest = stream_at(ahead, next, n, width);
                        Stream { ops: repeated(body, count as nat) + rest.ops, error: rest.error }
                    } else {
                        Stream { ops: Seq::empty(), error: Some(ParseError::EmptyRepeat) }
                    }
                },
            },
            Token::End => Stream { ops: Seq::empty(), error: Some(ParseError::EndOutsideRepeat) },
            Token::Pauli(_) => Stream {
                ops: Seq::empty(),
                error: Some(ParseError::PauliOutOfOrder),
            },
            _ => match op_at(ahead, at, n, width) {
                Err(e) => Stream { ops: Seq::empty(), error: Some(e) },
                Ok((op, next)) => if at < next <= tokens.len() {
                    let rest = stream_at(ahead, next, n, width);
                    Stream { ops: seq![op] + rest.ops, error: rest.error }
                } else {
                    Stream { ops: Seq::empty(), error: Some(ParseError::Empty) }
                },
            },
        }
    }
}

/// The body of a repeat block ends after where it starts.
pub proof fn lemma_body_at(ahead: Ahead, at: int, n: int, width: nat)
    requires
        0 <= at,
        0 <= n,
    ensures
        body_at(ahead, at, n, width) matches Ok((body, next)) ==> at < next <= ahead.tokens.len(),
    decreases ahead.tokens.len() - at,
{
    if at < ahead.tokens.len() {
        match op_at(ahead, at, n, width) {
            Ok((op, next)) => {
                lemma_pauli_run(ahead.tokens, at + 1, n);
                lemma_body_at(ahead, next, n, width);
            },
            Err(_) => {},
        }
    }
}

/// A run of Pauli tokens lies within the tokens.
pub proof fn lemma_pauli_run(tokens: Seq<Token>, at: int, n: int)
    requires
        0 <= at,
    ensures
        0 <= pauli_run(tokens, at, n),
        pauli_run(tokens, at, n) <= n || n < 0,
        at + pauli_run(tokens, at, n) <= tokens.len() || pauli_run(tokens, at, n) == 0,
        forall|j: int|
            at <= j < at + pauli_run(tokens, at, n) ==> j < tokens.len() && #[trigger] tokens[j] is Pauli,
        pauli_run(tokens, at, n) < n ==> at + pauli_run(tokens, at, n) >= tokens.len() || !(
        tokens[at + pauli_run(tokens, at, n)] is Pauli),
    decreases n,
{
    if !(n <= 0 || at >= tokens.len() || !(tokens[at] is Pauli)) {
        lemma_pauli_run(tokens, at + 1, n - 1);
    }
}

/// Builds the operation that the tokens spell: a rotation or measurement
/// token followed by one Pauli token for each qubit.
pub fn complete_op<B: Basis>(n_qubits: usize, tokens: &[Token]) -> (r: Result<
    Operation<B>,
    ParseError,
>)
    requires
        B::fits(n_qubits),
    ensures
        tokens@.len() <= 1 ==> r == Err::<Operation<B>, ParseError>(ParseError::TooFewTokens),
        tokens@.len() > 1 ==> match op_at(
            Ahead { tokens: tokens@, error: None },
            0,
            n_qubits as int,
            B::capacity_of(n_qubits),
        ) {
            Ok((op, next)) => r is Ok && r->Ok_0@ == op && r->Ok_0.wf_for(n_qubits),
            Err(e) => r == Err::<Operation<B>, ParseError>(e),
        },
{
    let count = tokens.len();
    if count <= 1 {
        return Err(ParseError::TooFewTokens);
    }
    let mut x = B::zero(n_qubits);
    let mut z = B::zero(n_qubits);
    let ghost width = B::capacity_of(n_qubits);
    proof {
        x.lemma_capacity(n_qubits);
        lemma_pauli_run(tokens@, 1, n_qubits as int);
    }
    let mut qb: usize = 0;
    while qb < n_qubits
        invariant
            qb <= n_qubits <= width,
            count == tokens@.len(),
            count > 1,
            B::fits(n_qubits),
            width == B::capacity_of(n_qubits),
            x.wf(),
            z.wf(),
            x.class() == B::class_of(n_qubits),
            z.class() == B::class_of(n_qubits),
            x.seq().len() == width,
            z.seq().len() == width,
            pauli_run(tokens@, 1, n_qubits as int) >= qb,
            x.seq() == pauli_bits(tokens@, 1, qb as int, width, true),
            z.seq() == pauli_bits(tokens@, 1, qb as int, width, false),
        decreases n_qubits - qb,
    {
        proof {
            lemma_run_step(tokens@, 1, n_qubits as int, qb as int);
        }
        if qb + 1 >= count {
            return Err(ParseError::UnexpectedEof { found: qb, expected: n_qubits });
        }
        let p = match tokens[qb + 1] {
            Token::Pauli(p) => p,
            _ => {
                return Err(ParseError::UnexpectedToken { found: qb, expected: n_qubits });
            },
        };
        match p {
            Pauli::X => {
                x.set_bit_true(qb);
            },
            Pauli::Y => {
                x.set_bit_true(qb);
                z.set_bit_true(qb);
            },
            Pauli::Z => {
                z.set_bit_true(qb);
            },
            Pauli::I => {},
        }
        assert(x.seq() =~= pauli_bits(tokens@, 1, qb + 1, width, true));
        assert(z.seq() =~= pauli_bits(tokens@, 1, qb + 1, width, false));
        qb += 1;
    }
    match tokens[0] {
        Token::Measure(phase) => Ok(Operation::measurement(x, z, phase)),
        Token::Rotate(angle) => match Angle::try_from_code(angle as i64) {
            Some(angle) => Ok(Operation::rotation(x, z, angle)),
            None => Err(ParseError::AngleTooLarge { line: 0 }),
        },
        _ => Err(ParseError::InvalidStart),
    }
}

/// How a run of Pauli tokens goes on after `k` of them.
pub proof fn lemma_run_step(tokens: Seq<Token>, at: int, n: int, k: int)
    requires
        0 <= at,
        0 <= k < n,
        pauli_run(tokens, at, n) >= k,
    ensures
        (at + k < tokens.len() && tokens[at + k] is Pauli) ==> pauli_run(tokens, at, n) >= k + 1,
        !(at + k < tokens.len() && tokens[at + k] is Pauli) ==> pauli_run(tokens, at, n) == k,
    decreases k,
{
    if k > 0 {
        assert(pauli_run(tokens, at, n) == 1 + pauli_run(tokens, at + 1, n - 1));
        lemma_run_step(tokens, at + 1, n - 1, k - 1);
    } else {
        lemma_pauli_run(tokens, at + 1, n - 1);
    }
}

/// The tokens ahead once `at` of them were taken.
pub open spec fn shifted(ahead: Ahead, at: int) -> Ahead {
    Ahead { tokens: ahead.tokens.skip(at), error: ahead.error }
}

/// A run of Pauli tokens is the same run whether or not tokens before it
/// were taken.
pub proof fn lemma_shift_run(tokens: Seq<Token>, d: int, k: int, n: int)
    requires
        0 <= d <= tokens.len(),
        0 <= k,
    ensures
        pauli_run(tokens.skip(d), k, n) == pauli_run(tokens, d + k, n),
    decreases n,
{
    if n > 0 && d + k < tokens.len() {
        assert(tokens.skip(d)[k] == tokens[d + k]);
        if tokens[d + k] is Pauli {
            lemma_shift_run(tokens, d, k + 1, n - 1);
        }
    }
}

/// An operation is the same operation whether or not tokens before it
/// were taken.
pub proof fn lemma_shift_op(ahead: Ahead, d: int, k: int, n: int, width: nat)
    requires
        0 <= d <= ahead.tokens.len(),
        0 <= k,
        0 <= n,
        d + k < ahead.tokens.len(),
    ensures
        match op_at(ahead, d + k, n, width) {
            Ok((op, next)) => op_at(shifted(ahead, d), k, n, width) == Ok::<
                (OperationView, int),
                ParseError,
            >((op, next - d)),
            Err(e) => op_at(shifted(ahead, d), k, n, width) == Err::<
                (OperationView, int),
                ParseError,
            >(e),
        },
{
    let tokens = ahead.tokens;
    lemma_shift_run(tokens, d, k + 1, n);
    lemma_pauli_run(tokens, d + k + 1, n);
    assert(tokens.skip(d)[k] == tokens[d + k]);
    if pauli_run(tokens, d + k + 1, n) == n {
        if n > 0 {
            assert(tokens[d + k + n] is Pauli);
        }
        assert(d + k + 1 + n <= tokens.len());
        assert(pauli_bits(tokens.skip(d), k + 1, n, width, true) =~= pauli_bits(
            tokens,
            d + k + 1,
            n,
            width,
            true,
        ));
        assert(pauli_bits(tokens.skip(d), k + 1, n, width, false) =~= pauli_bits(
            tokens,
            d + k + 1,
            n,
            width,
            false,
        ));
    }
}

/// The body of a repeat block is the same whether or not tokens before it
/// were taken.
pub proof fn lemma_shift_body(ahead: Ahead, d: int, k: int, n: int, width: nat)
    requires
        0 <= d <= ahead.tokens.len(),
        0 <= k,
        0 <= n,
    ensures
        match body_at(ahead, d + k, n, width) {
            Ok((body, next)) => body_at(shifted(ahead, d), k, n, width) == Ok::<
                (Seq<OperationView>, int),
                ParseError,
            >((body, next - d)),
            Err(e) => body_at(shifted(ahead, d), k, n, width) == Err::<
                (Seq<OperationView>, int),
                ParseError,
            >(e),
        },
    decreases ahead.tokens.len() - (d + k),
{
    let tokens = ahead.tokens;
    if d + k < tokens.len() {
        assert(tokens.skip(d)[k] == tokens[d + k]);
        match tokens[d + k] {
            Token::Repeat(_) => {},
            Token::End => {},
            Token::Pauli(_) => {},
            _ => {
                lemma_shift_op(ahead, d, k, n, width);
                match op_at(ahead, d + k, n, width) {
                    Ok((op, next)) => {
                        if d + k < next <= tokens.len() {
                            lemma_shift_body(ahead, d, next - d, n, width);
                        }
                    },
                    Err(_) => {},
                }
            },
        }
    }
}

/// The stream of operations is the same whether or not tokens before it
/// were taken.
pub proof fn lemma_shift_stream(ahead: Ahead, d: int, k: int, n: int, width: nat)
    requires
        0 <= d <= ahead.tokens.len(),
        0 <= k,
        0 <= n,
    ensures
        stream_at(shifted(ahead, d), k, n, width) == stream_at(ahead, d + k, n, width),
    decreases ahead.tokens.len() - (d + k),
{
    let tokens = ahead.tokens;
    if d + k < tokens.len() {
        assert(tokens.skip(d)[k] == tokens[d + k]);
        match tokens[d + k] {
            Token::Repeat(count) => {
                lemma_shift_body(ahead, d, k + 1, n, width);
                match body_at(ahead, d + k + 1, n, width) {
                    Ok((body, next)) => {
                        if body.len() > 0 && d + k < next <= tokens.len() {
                            lemma_shift_stream(ahead, d, next - d, n, width);
                        }
                    },
                    Err(_) => {},
                }
            },
            Token::End => {},
            Token::Pauli(_) => {},
            _ => {
                lemma_shift_op(ahead, d, k, n, width);
                match op_at(ahead, d + k, n, width) {
                    Ok((op, next)) => {
                        if d + k < next <= tokens.len() {
                            lemma_shift_stream(ahead, d, next - d, n, width);
                        }
                    },
                    Err(_) => {},
                }
            },
        }
    }
}

/// Reads one Pauli token for each qubit and gives the x part and the z
/// part that they spell.
fn paulis<B: Basis>(
    n_qubits: usize,
    source: &mut TokenIterator<'_>,
    Ghost(base): Ghost<Ahead>,
    Ghost(at): Ghost<int>,
) -> (r: Result<(B, B), ParseError>)
    requires
        old(source).wf(),
        B::fits(n_qubits),
        0 <= at <= base.tokens.len(),
        old(source).ahead() == shifted(base, at),
    ensures
        final(source).wf(),
        final(source).source() == old(source).source(),
        ({
            let run = pauli_run(base.tokens, at, n_qubits as int);
            match r {
                Ok((x, z)) => {
                    &&& run == n_qubits
                    &&& at + n_qubits <= base.tokens.len()
                    &&& x.wf() && z.wf()
                    &&& x.class() == B::class_of(n_qubits)
                    &&& z.class() == B::class_of(n_qubits)
                    &&& x.seq() == pauli_bits(
                        base.tokens,
                        at,
                        n_qubits as int,
                        B::capacity_of(n_qubits),
                        true,
                    )
                    &&& z.seq() == pauli_bits(
                        base.tokens,
                        at,
                        n_qubits as int,
                        B::capacity_of(n_qubits),
                        false,
                    )
                    &&& final(source).ahead() == shifted(base, at + n_qubits)
                },
                Err(e) => run < n_qubits && e == if at + run >= base.tokens.len() {
                    match base.error {
                        Some(e) => e,
                        None => ParseError::UnexpectedEof { found: run as usize, expected: n_qubits },
                    }
                } else {
                    ParseError::UnexpectedToken { found: run as usize, expected: n_qubits }
                },
            }
        }),
{
    let mut x = B::zero(n_qubits);
    let mut z = B::zero(n_qubits);
    let ghost width = B::capacity_of(n_qubits);
    proof {
        x.lemma_capacity(n_qubits);
        lemma_pauli_run(base.tokens, at, n_qubits as int);
        assert(base.tokens.skip(at).len() == base.tokens.len() - at);
    }
    let mut qb: usize = 0;
    while qb < n_qubits
        invariant
            qb <= n_qubits <= width,
            B::fits(n_qubits),
            width == B::capacity_of(n_qubits),
            0 <= at <= base.tokens.len(),
            at + qb <= base.tokens.len(),
            source.wf(),
            source.source() == old(source).source(),
            source.ahead() == shifted(base, at + qb),
            x.wf(),
            z.wf(),
            x.class() == B::class_of(n_qubits),
            z.class() == B::class_of(n_qubits),
            x.seq().len() == width,
            z.seq().len() == width,
            pauli_run(base.tokens, at, n_qubits as int) >= qb,
            x.seq() == pauli_bits(base.tokens, at, qb as int, width, true),
            z.seq() == pauli_bits(base.tokens, at, qb as int, width, false),
        decreases n_qubits - qb,
    {
        proof {
            lemma_run_step(base.tokens, at, n_qubits as int, qb as int);
            assert(base.tokens.skip(at + qb).len() == base.tokens.len() - (at + qb));
            if at + qb < base.tokens.len() {
                assert(base.tokens.skip(at + qb)[0] == base.tokens[at + qb]);
            }
        }
        let tok = match source.next() {
            Ok(Some(tok)) => tok,
            Ok(None) => {
                return Err(ParseError::UnexpectedEof { found: qb, expected: n_qubits });
            },
            Err(e) => {
                return Err(e);
            },
        };
        let p = match tok {
            Token::Pauli(p) => p,
            _ => {
                return Err(ParseError::UnexpectedToken { found: qb, expected: n_qubits });
            },
        };
        match p {
            Pauli::X => {
                x.set_bit_true(qb);
            },
            Pauli::Y => {
                x.set_bit_true(qb);
                z.set_bit_true(qb);
            },
            Pauli::Z => {
                z.set_bit_true(qb);
            },
            Pauli::I => {},
        }
        assert(x.seq() =~= pauli_bits(base.tokens, at, qb + 1, width, true));
        assert(z.seq() =~= pauli_bits(base.tokens, at, qb + 1, width, false));
        assert(base.tokens.skip(at + qb).skip(1) =~= base.tokens.skip(at + qb + 1));
        qb += 1;
    }
    Ok((x, z))
}

/// Reads the Pauli tokens of a measurement whose first token was taken.
fn complete_measurement<B: Basis>(
    n_qubits: usize,
    source: &mut TokenIterator<'_>,
    phase: Phase,
    Ghost(base): Ghost<Ahead>,
    Ghost(at): Ghost<int>,
) -> (r: Result<Operation<B>, ParseError>)
    requires
        old(source).wf(),
        B::fits(n_qubits),
        0 <= at < base.tokens.len(),
        base.tokens[at] == Token::Measure(phase),
        old(source).ahead() == shifted(base, at + 1),
    ensures
        final(source).wf(),
        final(source).source() == old(source).source(),
        match r {
            Ok(op) => op.wf_for(n_qubits) && op_at(
                base,
                at,
                n_qubits as int,
                B::capacity_of(n_qubits),
            ) == Ok::<(OperationView, int), ParseError>((op@, at + 1 + n_qubits)) && at + 1
                + n_qubits <= base.tokens.len() && final(source).ahead() == shifted(
                base,
                at + 1 + n_qubits,
            ),
            Err(e) => op_at(base, at, n_qubits as int, B::capacity_of(n_qubits)) == Err::<
                (OperationView, int),
                ParseError,
            >(e),
        },
{
    match paulis::<B>(n_qubits, source, Ghost(base), Ghost(at + 1)) {
        Ok((x, z)) => Ok(Operation::measurement(x, z, phase)),
        Err(e) => Err(e),
    }
}

/// Reads the Pauli tokens of a rotation whose first token was taken.
fn complete_rotation<B: Basis>(
    n_qubits: usize,
    source: &mut TokenIterator<'_>,
    code: i8,
    Ghost(base): Ghost<Ahead>,
    Ghost(at): Ghost<int>,
) -> (r: Result<Operation<B>, ParseError>)
    requires
        old(source).wf(),
        B::fits(n_qubits),
        0 <= at < base.tokens.len(),
        base.tokens[at] == Token::Rotate(code),
        old(source).ahead() == shifted(base, at + 1),
    ensures
        final(source).wf(),
        final(source).source() == old(source).source(),
        match r {
            Ok(op) => op.wf_for(n_qubits) && op_at(
                base,
                at,
                n_qubits as int,
                B::capacity_of(n_qubits),
            ) == Ok::<(OperationView, int), ParseError>((op@, at + 1 + n_qubits)) && at + 1
                + n_qubits <= base.tokens.len() && final(source).ahead() == shifted(
                base,
                at + 1 + n_qubits,
            ),
            Err(e) => op_at(base, at, n_qubits as int, B::capacity_of(n_qubits)) == Err::<
                (OperationView, int),
                ParseError,
            >(e),
        },
{
    match paulis::<B>(n_qubits, source, Ghost(base), Ghost(at + 1)) {
        Ok((x, z)) => match Angle::try_from_code(code as i64) {
            Some(angle) => Ok(Operation::rotation(x, z, angle)),
            None => Err(ParseError::AngleTooLarge { line: 0 }),
        },
        Err(e) => Err(e),
    }
}

/// Reads the Pauli tokens of an operation whose first token, a rotation
/// or a measurement, was taken.
fn read_operation<B: Basis>(
    n_qubits: usize,
    source: &mut TokenIterator<'_>,
    first: Token,
    Ghost(base): Ghost<Ahead>,
    Ghost(at): Ghost<int>,
) -> (r: Result<Operation<B>, ParseError>)
    requires
        old(source).wf(),
        B::fits(n_qubits),
        0 <= at < base.tokens.len(),
        base.tokens[at] == first,
        first is Measure || first is Rotate,
        old(source).ahead() == shifted(base, at + 1),
    ensures
        final(source).wf(),
        final(source).source() == old(source).source(),
        match r {
            Ok(op) => op.wf_for(n_qubits) && op_at(
                base,
                at,
                n_qubits as int,
                B::capacity_of(n_qubits),
            ) == Ok::<(OperationView, int), ParseError>((op@, at + 1 + n_qubits)) && at + 1
                + n_qubits <= base.tokens.len() && final(source).ahead() == shifted(
                base,
                at + 1 + n_qubits,
            ),
            Err(e) => op_at(base, at, n_qubits as int, B::capacity_of(n_qubits)) == Err::<
                (OperationView, int),
                ParseError,
            >(e),
        },
{
    match first {
        Token::Measure(phase) => complete_measurement::<B>(
            n_qubits,
            source,
            phase,
            Ghost(base),
            Ghost(at),
        ),
        Token::Rotate(code) => complete_rotation::<B>(
            n_qubits,
            source,
            code,
            Ghost(base),
            Ghost(at),
        ),
        _ => Err(ParseError::InvalidStart),
    }
}

/// How the body of a repeat block goes on after one more operation.
proof fn lemma_body_step(
    base: Ahead,
    at: int,
    cur: int,
    n: int,
    width: nat,
    read: Seq<OperationView>,
    op: OperationView,
)
    requires
        0 <= cur < base.tokens.len(),
        0 <= n,
        base.tokens[cur] is Measure || base.tokens[cur] is Rotate,
        op_at(base, cur, n, width) == Ok::<(OperationView, int), ParseError>((op, cur + 1 + n)),
        cur + 1 + n <= base.tokens.len(),
        body_at(base, at, n, width) == match body_at(base, cur, n, width) {
            Ok((rest, end)) => Ok::<(Seq<OperationView>, int), ParseError>((read + rest, end)),
            Err(e) => Err(e),
        },
    ensures
        body_at(base, at, n, width) == match body_at(base, cur + 1 + n, n, width) {
            Ok((rest, end)) => Ok::<(Seq<OperationView>, int), ParseError>(
                (read.push(op) + rest, end),
            ),
            Err(e) => Err(e),
        },
{
    match body_at(base, cur + 1 + n, n, width) {
        Ok((rest, end)) => {
            assert(read + (seq![op] + rest) =~= read.push(op) + rest);
        },
        Err(_) => {},
    }
}

/// The contents of a run of operations with one more.
proof fn lemma_views_push<B: Basis>(
    buf: Seq<Operation<B>>,
    op: Operation<B>,
    start: Seq<OperationView>,
    read: Seq<OperationView>,
)
    requires
        views(buf) == start + read,
    ensures
        views(buf.push(op)) == start + read.push(op@),
{
    assert(views(buf).len() == buf.len());
    assert(views(buf.push(op)) =~= views(buf).push(op@));
    assert((start + read).push(op@) =~= start + read.push(op@));
}

/// The parser: hands out the operations of a circuit text one by one,
/// reading the text block by block. A block is one operation or one repeat
/// block; the operations of a repeat block are kept until all its
/// repetitions were handed out.
#[derive(Debug)]
pub struct InstructionIterator<'a, B: Basis> {
    source: TokenIterator<'a>,
    target_buf_size: usize,
    shrink_after_repeat: bool,
    n_qubits: usize,
    operation_buf: Vec<Operation<B>>,
    index_in_operation_buf: usize,
    repeats_remaining: usize,
}

/// The operations of a circuit text on `n` qubits, or the first error.
pub open spec fn parse(source: Seq<u8>, n: int, width: nat) -> Result<Seq<OperationView>, ParseError> {
    let stream = stream_at(lex_ahead(source, 0, 0), 0, n, width);
    match stream.error {
        Some(e) => Err(e),
        None => Ok(stream.ops),
    }
}

impl<'a, B: Basis> InstructionIterator<'a, B> {
    /// The number of qubits of the circuit.
    pub closed spec fn qubits(&self) -> usize {
        self.n_qubits
    }

    /// The lexer that the tokens come from.
    pub closed spec fn lexer(&self) -> TokenIterator<'a> {
        self.source
    }

    /// The operations of the current block.
    pub closed spec fn block(&self) -> Seq<Operation<B>> {
        self.operation_buf@
    }

    /// How many operations of the current block were handed out in this
    /// repetition.
    pub closed spec fn taken(&self) -> int {
        self.index_in_operation_buf as int
    }

    /// How many repetitions of the current block are still to come.
    pub closed spec fn repeats(&self) -> nat {
        self.repeats_remaining as nat
    }

    /// The state is sound.
    pub open spec fn wf(&self) -> bool {
        &&& self.lexer().wf()
        &&& B::fits(self.qubits())
        &&& all_wf(self.block(), B::class_of(self.qubits()))
        &&& 0 <= self.taken() <= self.block().len()
        &&& (self.repeats() > 0 ==> self.block().len() > 0)
    }

    /// Nothing was read or handed out yet.
    pub open spec fn fresh(&self) -> bool {
        self.taken() == 0 && self.block().len() == 0 && self.repeats() == 0
    }

    /// The operations that are still to come, and the error after them.
    pub open spec fn pending(&self) -> Stream {
        let rest = stream_at(
            self.lexer().ahead(),
            0,
            self.qubits() as int,
            B::capacity_of(self.qubits()),
        );
        Stream {
            ops: views(self.block()).skip(self.taken()) + repeated(
                views(self.block()),
                self.repeats(),
            ) + rest.ops,
            error: rest.error,
        }
    }

    /// A parser for a circuit on `n_qubits` qubits that reads its tokens from `source`.
    pub fn new(
        n_qubits: usize,
        source: TokenIterator<'a>,
        target_buf_size: usize,
        shrink_after_repeat: bool,
    ) -> (r: Self)
        requires
            source.wf(),
            B::fits(n_qubits),
        ensures
            r.wf(),
            r.fresh(),
            r.qubits() == n_qubits,
            r.lexer() == source,
    {
        Self {
            source,
            target_buf_size,
            shrink_after_repeat,
            n_qubits,
            operation_buf: Vec::new(),
            index_in_operation_buf: 0,
            repeats_remaining: 0,
        }
    }

    /// Puts an operation before all that is to come. Nothing was read or
    /// handed out yet.
    pub fn prepend_op(&mut self, op: Operation<B>)
        requires
            old(self).wf(),
            old(self).fresh(),
            op.wf_for(old(self).qubits()),
        ensures
            final(self).wf(),
            final(self).qubits() == old(self).qubits(),
            final(self).pending() == (Stream {
                ops: seq![op@] + old(self).pending().ops,
                error: old(self).pending().error,
            }),
    {
        let ghost rest = old(self).pending();
        self.operation_buf.push(op);
        proof {
            assert(views(self.operation_buf@) =~= seq![op@]);
            assert(views(old(self).operation_buf@) =~= Seq::<OperationView>::empty());
            assert(repeated(views(self.operation_buf@), 0) =~= Seq::<OperationView>::empty());
            assert(self.pending().ops =~= seq![op@] + rest.ops);
        }
    }

    /// Reads the operations of a repeat block up to its `End` and appends
    /// them to the current block.
    fn read_body(&mut self, Ghost(base): Ghost<Ahead>, Ghost(at): Ghost<int>) -> (r: Result<
        (),
        ParseError,
    >)
        requires
            old(self).wf(),
            0 <= at <= base.tokens.len(),
            old(self).lexer().ahead() == shifted(base, at),
        ensures
            final(self).lexer().wf(),
            final(self).qubits() == old(self).qubits(),
            final(self).taken() == old(self).taken(),
            final(self).repeats() == old(self).repeats(),
            all_wf(final(self).block(), B::class_of(old(self).qubits())),
            match r {
                Ok(()) => body_at(
                    base,
                    at,
                    old(self).qubits() as int,
                    B::capacity_of(old(self).qubits()),
                ) matches Ok((body, next)) && views(final(self).block()) == views(
                    old(self).block(),
                ) + body && at < next <= base.tokens.len() && final(self).lexer().ahead()
                    == shifted(base, next),
                Err(e) => body_at(
                    base,
                    at,
                    old(self).qubits() as int,
                    B::capacity_of(old(self).qubits()),
                ) == Err::<(Seq<OperationView>, int), ParseError>(e),
            },
    {
        let ghost n = self.n_qubits as int;
        let ghost width = B::capacity_of(self.n_qubits);
        let ghost start = views(self.operation_buf@);
        let ghost mut cur = at;
        let ghost mut read = Seq::<OperationView>::empty();
        proof {
            assert(start + read =~= start);
        }
        loop
            invariant
                self.source.wf(),
                self.n_qubits == old(self).n_qubits,
                self.index_in_operation_buf == old(self).index_in_operation_buf,
                self.repeats_remaining == old(self).repeats_remaining,
                n == self.n_qubits,
                width == B::capacity_of(self.n_qubits),
                B::fits(self.n_qubits),
                all_wf(self.operation_buf@, B::class_of(self.n_qubits)),
                0 <= at <= cur <= base.tokens.len(),
                self.source.ahead() == shifted(base, cur),
                views(self.operation_buf@) == start + read,
                start == views(old(self).operation_buf@),
                body_at(base, at, n, width) == match body_at(base, cur, n, width) {
                    Ok((rest, end)) => Ok::<(Seq<OperationView>, int), ParseError>(
                        (read + rest, end),
                    ),
                    Err(e) => Err(e),
                },
            decreases base.tokens.len() - cur,
        {
            proof {
                assert(base.tokens.skip(cur).len() == base.tokens.len() - cur);
                if cur < base.tokens.len() {
                    assert(base.tokens.skip(cur)[0] == base.tokens[cur]);
                }
                lemma_body_at(base, cur, n, width);
            }
            let token = match self.source.peek() {
                Ok(Some(token)) => *token,
                Ok(None) => {
                    return Err(ParseError::EofInRepeat);
                },
                Err(e) => {
                    return Err(e);
                },
            };
            match token {
                Token::Repeat(_) => {
                    return Err(ParseError::NestedRepeat);
                },
                Token::End => {
                    let _ = self.source.next();
                    proof {
                        assert(read + Seq::<OperationView>::empty() =~= read);
                        assert(base.tokens.skip(cur).skip(1) =~= base.tokens.skip(cur + 1));
                        assert(base.tokens[cur] == Token::End);
                        assert(body_at(base, cur, n, width) == Ok::<
                            (Seq<OperationView>, int),
                            ParseError,
                        >((Seq::empty(), cur + 1)));
                        assert(body_at(base, at, n, width) == Ok::<
                            (Seq<OperationView>, int),
                            ParseError,
                        >((read, cur + 1)));
                        assert(self.source.ahead() == shifted(base, cur + 1));
                    }
                    return Ok(());
                },
                Token::Pauli(_) => {
                    return Err(ParseError::PauliOutOfOrder);
                },
                first => {
                    let _ = self.source.next();
                    proof {
                        assert(base.tokens.skip(cur).skip(1) =~= base.tokens.skip(cur + 1));
                    }
                    let op = match read_operation::<B>(
                        self.n_qubits,
                        &mut self.source,
                        first,
                        Ghost(base),
                        Ghost(cur),
                    ) {
                        Ok(op) => op,
                        Err(e) => {
                            return Err(e);
                        },
                    };
                    proof {
                        lemma_body_step(base, at, cur, n, width, read, op@);
                        lemma_views_push(self.operation_buf@, op, start, read);
                        read = read.push(op@);
                        cur = cur + 1 + n;
                    }
                    self.operation_buf.push(op);
                },
            }
        }
    }
}

/// The stream that starts with an operation.
proof fn lemma_stream_op(base: Ahead, n: int, width: nat, op: OperationView)
    requires
        0 <= n,
        base.tokens.len() > 0,
        base.tokens[0] is Measure || base.tokens[0] is Rotate,
        op_at(base, 0, n, width) == Ok::<(OperationView, int), ParseError>((op, 1 + n)),
        1 + n <= base.tokens.len(),
    ensures
        stream_at(base, 0, n, width) == (Stream {
            ops: seq![op] + stream_at(shifted(base, 1 + n), 0, n, width).ops,
            error: stream_at(shifted(base, 1 + n), 0, n, width).error,
        }),
{
    lemma_shift_stream(base, 1 + n, 0, n, width);
}

/// The stream that starts with a repeat block.
proof fn lemma_stream_repeat(base: Ahead, n: int, width: nat)
    requires
        0 <= n,
        base.tokens.len() > 0,
        base.tokens[0] is Repeat,
    ensures
        match body_at(base, 1, n, width) {
            Ok((body, next)) => if body.len() > 0 {
                stream_at(base, 0, n, width) == (Stream {
                    ops: repeated(body, base.tokens[0]->Repeat_0 as nat) + stream_at(
                        shifted(base, next),
                        0,
                        n,
                        width,
                    ).ops,
                    error: stream_at(shifted(base, next), 0, n, width).error,
                })
            } else {
                stream_at(base, 0, n, width) == (Stream {
                    ops: Seq::empty(),
                    error: Some(ParseError::EmptyRepeat),
                })
            },
            Err(e) => stream_at(base, 0, n, width) == (Stream { ops: Seq::empty(), error: Some(e) }),
        },
{
    lemma_body_at(base, 1, n, width);
    match body_at(base, 1, n, width) {
        Ok((body, next)) => {
            lemma_shift_stream(base, next, 0, n, width);
        },
        Err(_) => {},
    }
}

/// The operation that was read before a block, as a circuit.
pub open spec fn first_of<B: Basis>(prepend: Option<Operation<B>>) -> Seq<OperationView> {
    match prepend {
        Some(op) => seq![op@],
        None => Seq::<OperationView>::empty(),
    }
}

/// Repetitions unfold one at a time.
pub proof fn lemma_repeated(body: Seq<OperationView>, k: nat)
    ensures
        k > 0 ==> repeated(body, k) == body + repeated(body, (k - 1) as nat),
        repeated(body, 0) == Seq::<OperationView>::empty(),
        body.len() == 0 ==> repeated(body, k).len() == 0,
    decreases k,
{
    if k > 0 {
        lemma_repeated(body, (k - 1) as nat);
    }
}

impl<'a, B: Basis> InstructionIterator<'a, B> {
    /// Reads a repeat block of `r` repetitions whose `Repeat` token was
    /// taken, and makes it the current block. `prepend` is an operation of
    /// the block that was read before.
    fn read_repeat(
        &mut self,
        r: usize,
        prepend: Option<Operation<B>>,
        Ghost(base): Ghost<Ahead>,
        Ghost(at): Ghost<int>,
    ) -> (res: Result<(), ParseError>)
        requires
            old(self).lexer().wf(),
            B::fits(old(self).qubits()),
            0 <= at <= base.tokens.len(),
            old(self).lexer().ahead() == shifted(base, at),
            prepend matches Some(op) ==> op.wf_for(old(self).qubits()),
        ensures
            final(self).lexer().wf(),
            final(self).qubits() == old(self).qubits(),
            ({
                let n = old(self).qubits() as int;
                let width = B::capacity_of(old(self).qubits());
                let first = first_of(prepend);
                match res {
                    Ok(()) => {
                        &&& final(self).wf()
                        &&& final(self).block().len() > 0
                        &&& body_at(base, at, n, width) matches Ok((body, next)) && (first
                            + body).len() > 0 && at < next <= base.tokens.len() && final(self).lexer().ahead() == shifted(base, next) && views(final(self).block()).skip(
                            final(self).taken(),
                        ) + repeated(views(final(self).block()), final(self).repeats()) == repeated(
                            first + body,
                            r as nat,
                        )
                    },
                    Err(e) => match body_at(base, at, n, width) {
                        Ok((body, next)) => (first + body).len() == 0 && e
                            == ParseError::EmptyRepeat,
                        Err(inner) => e == inner,
                    },
                }
            }),
    {
        self.index_in_operation_buf = 0;
        self.repeats_remaining = 0;
        self.operation_buf.clear();
        let ghost wanted = first_of(prepend);
        if let Some(op) = prepend {
            self.operation_buf.push(op);
        }
        let ghost first = views(self.operation_buf@);
        proof {
            assert(first =~= wanted);
        }
        match self.read_body(Ghost(base), Ghost(at)) {
            Ok(()) => {},
            Err(e) => {
                return Err(e);
            },
        }
        let ghost block = views(self.operation_buf@);
        proof {
            let body = body_at(
                base,
                at,
                self.n_qubits as int,
                B::capacity_of(self.n_qubits),
            )->Ok_0.0;
            assert(block == first + body);
            assert(block.len() == self.operation_buf@.len());
        }
        if self.operation_buf.len() == 0 {
            return Err(ParseError::EmptyRepeat);
        }
        proof {
            lemma_repeated(block, r as nat);
            lemma_repeated(block, 0);
        }
        if r == 0 {
            self.index_in_operation_buf = self.operation_buf.len();
            self.repeats_remaining = 0;
            assert(block.skip(block.len() as int) =~= Seq::<OperationView>::empty());
            assert(Seq::<OperationView>::empty() + repeated(block, 0) =~= repeated(block, 0));
        } else {
            self.index_in_operation_buf = 0;
            self.repeats_remaining = r - 1;
            assert(block.skip(0) =~= block);
        }
        Ok(())
    }

    /// Puts a repeat block before all that is to come: `repeats`
    /// repetitions of `op` and of the operations up to the next `End`.
    /// Nothing was read or handed out yet.
    pub fn prepend_repeat(&mut self, repeats: usize, op: Operation<B>) -> (res: Result<
        (),
        ParseError,
    >)
        requires
            old(self).wf(),
            old(self).fresh(),
            op.wf_for(old(self).qubits()),
        ensures
            final(self).lexer().wf(),
            final(self).qubits() == old(self).qubits(),
            ({
                let n = old(self).qubits() as int;
                let width = B::capacity_of(old(self).qubits());
                let ahead = old(self).lexer().ahead();
                match body_at(ahead, 0, n, width) {
                    Ok((body, next)) => res is Ok && final(self).wf() && final(self).pending() == (
                    Stream {
                        ops: repeated(seq![op@] + body, repeats as nat) + stream_at(
                            ahead,
                            next,
                            n,
                            width,
                        ).ops,
                        error: stream_at(ahead, next, n, width).error,
                    }),
                    Err(e) => res == Err::<(), ParseError>(e),
                }
            }),
    {
        let ghost base = self.source.ahead();
        let ghost n = self.n_qubits as int;
        let ghost width = B::capacity_of(self.n_qubits);
        proof {
            assert(base.tokens.skip(0) =~= base.tokens);
        }
        match self.read_repeat(repeats, Some(op), Ghost(base), Ghost(0)) {
            Ok(()) => {
                proof {
                    let next = body_at(base, 0, n, width)->Ok_0.1;
                    lemma_shift_stream(base, next, 0, n, width);
                }
                Ok(())
            },
            Err(e) => Err(e),
        }
    }

    /// Reads the next block and makes it the current block. At the end of
    /// the text the current block is left empty.
    #[verifier::rlimit(50)]
    fn read_next_chunk(&mut self) -> (res: Result<(), ParseError>)
        requires
            old(self).wf(),
            old(self).taken() == old(self).block().len(),
            old(self).repeats() == 0,
        ensures
            final(self).lexer().wf(),
            final(self).qubits() == old(self).qubits(),
            match res {
                Ok(()) => {
                    &&& final(self).wf()
                    &&& final(self).pending() == old(self).pending()
                    &&& final(self).block().len() == 0 ==> old(self).pending() == (Stream {
                        ops: Seq::empty(),
                        error: None,
                    })
                    &&& final(self).block().len() > 0 ==> final(self).lexer().ahead().tokens.len()
                        < old(self).lexer().ahead().tokens.len()
                },
                Err(e) => old(self).pending() == (Stream { ops: Seq::empty(), error: Some(e) }),
            },
    {
        let ghost base = self.source.ahead();
        let ghost n = self.n_qubits as int;
        let ghost width = B::capacity_of(self.n_qubits);
        let ghost before = self.pending();
        proof {
            assert(views(self.operation_buf@).skip(self.index_in_operation_buf as int)
                =~= Seq::<OperationView>::empty());
            lemma_repeated(views(self.operation_buf@), 0);
            assert(before.ops =~= stream_at(base, 0, n, width).ops);
            assert(base.tokens.skip(0) =~= base.tokens);
        }
        self.index_in_operation_buf = 0;
        self.operation_buf.clear();
        proof {
            assert(views(self.operation_buf@) =~= Seq::<OperationView>::empty());
            lemma_repeated(views(self.operation_buf@), 0);
        }
        let first = match self.source.next() {
            Ok(Some(first)) => first,
            Ok(None) => {
                assert(self.pending().ops =~= before.ops);
                return Ok(());
            },
            Err(e) => {
                return Err(e);
            },
        };
        proof {
            assert(base.tokens.skip(0).skip(1) =~= base.tokens.skip(1));
            assert(base.tokens[0] == first);
        }
        match first {
            Token::Repeat(r) => {
                proof {
                    lemma_stream_repeat(base, n, width);
                }
                match self.read_repeat(r as usize, None, Ghost(base), Ghost(1)) {
                    Ok(()) => {
                        proof {
                            let body = body_at(base, 1, n, width)->Ok_0.0;
                            assert(Seq::<OperationView>::empty() + body =~= body);
                            assert(base.tokens.skip(body_at(base, 1, n, width)->Ok_0.1).len()
                                < base.tokens.len());
                        }
                        Ok(())
                    },
                    Err(e) => {
                        proof {
                            match body_at(base, 1, n, width) {
                                Ok((body, next)) => {
                                    assert(Seq::<OperationView>::empty() + body =~= body);
                                },
                                Err(_) => {},
                            }
                        }
                        Err(e)
                    },
                }
            },
            Token::End => Err(ParseError::EndOutsideRepeat),
            Token::Pauli(_) => Err(ParseError::PauliOutOfOrder),
            first => {
                let op = match read_operation::<B>(
                    self.n_qubits,
                    &mut self.source,
                    first,
                    Ghost(base),
                    Ghost(0),
                ) {
                    Ok(op) => op,
                    Err(e) => {
                        return Err(e);
                    },
                };
                proof {
                    lemma_stream_op(base, n, width, op@);
                }
                self.operation_buf.push(op);
                proof {
                    assert(views(self.operation_buf@) =~= seq![op@]);
                    assert(views(self.operation_buf@).skip(0) =~= seq![op@]);
                    lemma_repeated(views(self.operation_buf@), 0);
                    assert(base.tokens.skip(1 + n).len() < base.tokens.len());
                }
                Ok(())
            },
        }
    }

    /// The next operation, if one is left.
    pub fn next(&mut self) -> (r: Result<Option<&Operation<B>>, ParseError>)
        requires
            old(self).wf(),
        ensures
            final(self).lexer().wf(),
            final(self).qubits() == old(self).qubits(),
            match r {
                Ok(Some(op)) => {
                    &&& final(self).wf()
                    &&& old(self).pending().ops.len() > 0
                    &&& op@ == old(self).pending().ops[0]
                    &&& op.wf_for(old(self).qubits())
                    &&& final(self).pending() == (Stream {
                        ops: old(self).pending().ops.skip(1),
                        error: old(self).pending().error,
                    })
                },
                Ok(None) => final(self).wf() && old(self).pending() == (Stream {
                    ops: Seq::empty(),
                    error: None,
                }) && final(self).pending() == old(self).pending(),
                Err(e) => old(self).pending() == (Stream { ops: Seq::empty(), error: Some(e) }),
            },
    {
        let ghost before = self.pending();
        loop
            invariant
                self.wf(),
                self.n_qubits == old(self).n_qubits,
                self.pending() == before,
                before == old(self).pending(),
            decreases
                    self.source.ahead().tokens.len(),
                    self.operation_buf@.len() - self.index_in_operation_buf,
                    self.repeats_remaining,
        {
            let ghost block = views(self.operation_buf@);
            let ghost rest = stream_at(
                self.source.ahead(),
                0,
                self.n_qubits as int,
                B::capacity_of(self.n_qubits),
            );
            if self.index_in_operation_buf < self.operation_buf.len() {
                self.index_in_operation_buf += 1;
                proof {
                    let i = self.index_in_operation_buf as int;
                    assert(before.ops[0] == block[i - 1]);
                    assert(before.ops.skip(1) =~= block.skip(i) + repeated(
                        block,
                        self.repeats_remaining as nat,
                    ) + rest.ops);
                }
                return Ok(Some(&self.operation_buf[self.index_in_operation_buf - 1]));
            }
            if self.repeats_remaining > 0 {
                proof {
                    lemma_repeated(block, self.repeats_remaining as nat);
                    assert(block.skip(block.len() as int) =~= Seq::<OperationView>::empty());
                    assert(before.ops =~= block + repeated(
                        block,
                        (self.repeats_remaining - 1) as nat,
                    ) + rest.ops);
                    assert(before.ops.skip(1) =~= block.skip(1) + repeated(
                        block,
                        (self.repeats_remaining - 1) as nat,
                    ) + rest.ops);
                }
                self.repeats_remaining -= 1;
                self.index_in_operation_buf = 1;
                return Ok(Some(&self.operation_buf[0]));
            }
            match self.read_next_chunk() {
                Ok(()) => {},
                Err(e) => {
                    return Err(e);
                },
            }
            if self.operation_buf.len() == 0 {
                return Ok(None);
            }
        }
    }

    /// All operations that are left, or the error after them.
    pub fn collect(&mut self) -> (r: Result<Vec<Operation<B>>, ParseError>)
        requires
            old(self).wf(),
        ensures
            match old(self).pending().error {
                Some(e) => r == Err::<Vec<Operation<B>>, ParseError>(e),
                None => r is Ok && views(r->Ok_0@) == old(self).pending().ops && all_wf(
                    r->Ok_0@,
                    B::class_of(old(self).qubits()),
                ),
            },
    {
        let mut out: Vec<Operation<B>> = Vec::new();
        let ghost all = self.pending();
        proof {
            assert(views(out@) + all.ops =~= all.ops);
        }
        loop
            invariant
                self.wf(),
                self.n_qubits == old(self).n_qubits,
                all == old(self).pending(),
                self.pending().error == all.error,
                views(out@) + self.pending().ops == all.ops,
                all_wf(out@, B::class_of(self.n_qubits)),
            decreases self.pending().ops.len(),
        {
            let ghost left = self.pending();
            let ghost done = views(out@);
            match self.next() {
                Ok(Some(op)) => {
                    let copy = op.duplicate();
                    out.push(copy);
                    proof {
                        assert(views(out@) =~= done.push(left.ops[0]));
                        assert(done.push(left.ops[0]) + left.ops.skip(1) =~= done + left.ops);
                    }
                },
                Ok(None) => {
                    proof {
                        assert(done + left.ops =~= done);
                    }
                    return Ok(out);
                },
                Err(e) => {
                    return Err(e);
                },
            }
        }
    }
}

/// Reads a whole circuit text on `n_qubits` qubits.
pub fn parse_circuit<B: Basis>(source: &[u8], n_qubits: usize) -> (r: Result<
    Vec<Operation<B>>,
    ParseError,
>)
    requires
        B::fits(n_qubits),
    ensures
        match parse(source@, n_qubits as int, B::capacity_of(n_qubits)) {
            Ok(ops) => r is Ok && views(r->Ok_0@) == ops && all_wf(r->Ok_0@, B::class_of(n_qubits)),
            Err(e) => r == Err::<Vec<Operation<B>>, ParseError>(e),
        },
{
    let lexer = TokenIterator::new(source);
    let mut parser = InstructionIterator::<B>::new(n_qubits, lexer, 4096, false);
    proof {
        let rest = stream_at(lexer.ahead(), 0, n_qubits as int, B::capacity_of(n_qubits));
        assert(lexer.buffered() + lex_ahead(source@, 0, 0).tokens =~= lex_ahead(
            source@,
            0,
            0,
        ).tokens);
        lemma_repeated(views(parser.block()), 0);
        assert(views(parser.block()).skip(0) =~= Seq::<OperationView>::empty());
        assert(parser.pending().ops =~= rest.ops);
    }
    parser.collect()
}

/// An operation that lies on `n` qubits and is no tombstone.
pub open spec fn op_read(n: int, width: nat) -> spec_fn(OperationView) -> bool {
    |op: OperationView| op_on(n, width)(op) && op_live()(op)
}

/// Every operation that is read lies on the qubits of the circuit and is
/// no tombstone.
pub proof fn lemma_op_at(ahead: Ahead, at: int, n: int, width: nat)
    requires
        0 <= at,
        0 <= n <= width,
    ensures
        op_at(ahead, at, n, width) matches Ok((op, next)) ==> op_read(n, width)(op) && next == at
            + 1 + n,
{
}

/// Every operation of the body of a repeat block lies on the qubits of the
/// circuit and is no tombstone.
pub proof fn lemma_body_read(ahead: Ahead, at: int, n: int, width: nat)
    requires
        0 <= at,
        0 <= n <= width,
    ensures
        body_at(ahead, at, n, width) matches Ok((body, next)) ==> every(body, op_read(n, width)),
    decreases ahead.tokens.len() - at,
{
    if at < ahead.tokens.len() {
        match op_at(ahead, at, n, width) {
            Ok((op, next)) => {
                lemma_op_at(ahead, at, n, width);
                if at < next <= ahead.tokens.len() {
                    lemma_body_read(ahead, next, n, width);
                    match body_at(ahead, next, n, width) {
                        Ok((rest, end)) => {
                            lemma_every_concat(seq![op], rest, op_read(n, width));
                        },
                        Err(_) => {},
                    }
                }
            },
            Err(_) => {},
        }
    }
}

/// Copies of a block of `good` operations are `good`.
pub proof fn lemma_every_repeated(
    body: Seq<OperationView>,
    k: nat,
    good: spec_fn(OperationView) -> bool,
)
    requires
        every(body, good),
    ensures
        every(repeated(body, k), good),
    decreases k,
{
    if k > 0 {
        lemma_every_repeated(body, (k - 1) as nat, good);
        lemma_every_concat(body, repeated(body, (k - 1) as nat), good);
    }
}

/// Every operation of a stream lies on the qubits of the circuit and is no
/// tombstone.
pub proof fn lemma_stream_read(ahead: Ahead, at: int, n: int, width: nat)
    requires
        0 <= at,
        0 <= n <= width,
    ensures
        every(stream_at(ahead, at, n, width).ops, op_read(n, width)),
    decreases ahead.tokens.len() - at,
{
    let tokens = ahead.tokens;
    if at < tokens.len() {
        match tokens[at] {
            Token::Repeat(count) => {
                lemma_body_read(ahead, at + 1, n, width);
                match body_at(ahead, at + 1, n, width) {
                    Ok((body, next)) => {
                        if body.len() > 0 && at < next <= tokens.len() {
                            lemma_stream_read(ahead, next, n, width);
                            lemma_every_repeated(body, count as nat, op_read(n, width));
                            lemma_every_concat(
                                repeated(body, count as nat),
                                stream_at(ahead, next, n, width).ops,
                                op_read(n, width),
                            );
                        }
                    },
                    Err(_) => {},
                }
            },
            Token::End => {},
            Token::Pauli(_) => {},
            _ => {
                lemma_op_at(ahead, at, n, width);
                match op_at(ahead, at, n, width) {
                    Ok((op, next)) => {
                        if at < next <= tokens.len() {
                            lemma_stream_read(ahead, next, n, width);
                            lemma_every_concat(
                                seq![op],
                                stream_at(ahead, next, n, width).ops,
                                op_read(n, width),
                            );
                        }
                    },
                    Err(_) => {},
                }
            },
        }
    }
}

} // verus!
