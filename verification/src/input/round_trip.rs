//! Reading back what was written: the line of an operation spells the
//! operation.
use crate::bitseq::within;
use crate::error::ParseError;
use crate::input::lexer::{
    after_line, all_ascii, ends_line, fill, has_word, is_blank, is_blank_byte, lex_ahead, lex_line,
    line_end, paulis_tail, pauli_tokens, skip_class, word_measure, word_repeat, word_rotate, Ahead,
    ByteClass, Fill, LineKind, Pauli, Token,
};
use crate::input::lexer::digits_value;
use crate::input::parser::{op_at, parse, pauli_bits, pauli_run, stream_at};
use crate::operation::angle::Angle;
use crate::operation::phase::Phase;
use crate::operation::{OperationKind, OperationView};
use crate::output::{angle_text, format_line, format_operation, head_text, pauli_letter, pauli_text};
use vstd::prelude::*;

verus! {

/// The bytes of a text of ASCII characters.
pub open spec fn ascii_bytes(text: Seq<char>) -> Seq<u8> {
    Seq::new(text.len(), |i: int| text[i] as u8)
}

/// The Pauli operator with the given components.
pub open spec fn pauli_of(x: bool, z: bool) -> Pauli {
    if x && z {
        Pauli::Y
    } else if x {
        Pauli::X
    } else if z {
        Pauli::Z
    } else {
        Pauli::I
    }
}

/// The tokens that the line of an operation on `n` qubits spells.
pub open spec fn line_tokens(op: OperationView, n: int) -> Seq<Token> {
    seq![
        match op.kind {
            OperationKind::Measurement { phase } => Token::Measure(phase),
            OperationKind::Rotation { angle } => Token::Rotate(angle.spec_code() as i8),
            OperationKind::Nop => Token::End,
        },
    ] + Seq::new(n as nat, |q: int| Token::Pauli(pauli_of(op.x[q], op.z[q])))
}

/// Skipping the bytes of a class stops at the first byte that is not of
/// the class.
proof fn lemma_skip_to(s: Seq<u8>, i: int, k: int, class: ByteClass)
    requires
        0 <= i <= k <= s.len(),
        forall|j: int| i <= j < k ==> class.holds(#[trigger] s[j]),
        k < s.len() ==> !class.holds(s[k]),
    ensures
        skip_class(s, i, class) == k,
    decreases k - i,
{
    if i < k {
        assert(class.holds(s[i]));
        lemma_skip_to(s, i + 1, k, class);
    }
}

/// A line ends at the first byte that ends a line.
proof fn lemma_line_end_to(s: Seq<u8>, pos: int, k: int)
    requires
        0 <= pos <= k <= s.len(),
        forall|j: int| pos <= j < k ==> !ends_line(#[trigger] s[j]),
        k < s.len() ==> ends_line(s[k]),
    ensures
        line_end(s, pos) == k,
    decreases k - pos,
{
    if pos < k {
        assert(!ends_line(s[pos]));
        lemma_line_end_to(s, pos + 1, k);
    }
}

/// A row of `n` Pauli tokens is a run of `n`.
proof fn lemma_full_run(tokens: Seq<Token>, at: int, n: int)
    requires
        0 <= at,
        0 <= n,
        at + n <= tokens.len(),
        forall|j: int| at <= j < at + n ==> #[trigger] tokens[j] is Pauli,
    ensures
        pauli_run(tokens, at, n) == n,
    decreases n,
{
    if n > 0 {
        assert(tokens[at] is Pauli);
        lemma_full_run(tokens, at + 1, n - 1);
    }
}

/// The bytes of the line of an operation: where its parts stand.
proof fn lemma_line_bytes(op: OperationView, n: int)
    requires
        1 <= n,
        !(op.kind is Nop),
    ensures
        ({
            let line = ascii_bytes(format_line(op, n));
            let h = head_text(op.kind).len() as int;
            &&& line.len() == h + 2 + n
            &&& forall|i: int| 0 <= i < h ==> line[i] == head_text(op.kind)[i] as u8
            &&& line[h] == 0x3a
            &&& line[h + 1] == 0x20
            &&& forall|q: int|
                0 <= q < n ==> #[trigger] line[h + 2 + q] == pauli_letter(op.x[q], op.z[q]) as u8
            &&& forall|q: int| 0 <= q < n ==> ByteClass::Pauli.holds(#[trigger] line[h + 2 + q])
            &&& forall|q: int|
                0 <= q < n ==> Pauli::of_byte(#[trigger] line[h + 2 + q]) == Some(
                    pauli_of(op.x[q], op.z[q]),
                )
        }),
{
    let text = format_line(op, n);
    let line = ascii_bytes(text);
    let head = head_text(op.kind);
    let h = head.len() as int;
    assert(text.len() == h + 2 + n);
    assert forall|i: int| 0 <= i < h implies line[i] == head[i] as u8 by {
        assert(text[i] == head[i]);
    }
    assert(text[h] == ':');
    assert(text[h + 1] == ' ');
    assert forall|q: int| 0 <= q < n implies #[trigger] line[h + 2 + q] == pauli_letter(
        op.x[q],
        op.z[q],
    ) as u8 by {
        assert(text[h + 2 + q] == pauli_text(op, n)[q]);
    }
    assert forall|q: int| 0 <= q < n implies ByteClass::Pauli.holds(#[trigger] line[h + 2 + q]) by {
        assert(line[h + 2 + q] == pauli_letter(op.x[q], op.z[q]) as u8);
    }
    assert forall|q: int| 0 <= q < n implies Pauli::of_byte(#[trigger] line[h + 2 + q]) == Some(
        pauli_of(op.x[q], op.z[q]),
    ) by {
        assert(line[h + 2 + q] == pauli_letter(op.x[q], op.z[q]) as u8);
    }
}

/// The tail of the line of an operation, from the colon on, holds its
/// Pauli letters.
proof fn lemma_tail(op: OperationView, n: int)
    requires
        1 <= n,
        !(op.kind is Nop),
    ensures
        ({
            let line = ascii_bytes(format_line(op, n));
            let h = head_text(op.kind).len() as int;
            paulis_tail(line, h) == Some(line.subrange(h + 2, h + 2 + n))
        }),
        ({
            let line = ascii_bytes(format_line(op, n));
            let h = head_text(op.kind).len() as int;
            pauli_tokens(line.subrange(h + 2, h + 2 + n)) == Seq::new(
                n as nat,
                |q: int| Token::Pauli(pauli_of(op.x[q], op.z[q])),
            )
        }),
{
    let line = ascii_bytes(format_line(op, n));
    let h = head_text(op.kind).len() as int;
    lemma_line_bytes(op, n);
    lemma_skip_to(line, h, h, ByteClass::Space);
    lemma_skip_to(line, h + 1, h + 2, ByteClass::Space);
    assert(line[h + 2 + 0] == pauli_letter(op.x[0], op.z[0]) as u8);
    assert forall|j: int| h + 2 <= j < h + 2 + n implies ByteClass::Pauli.holds(
        #[trigger] line[j],
    ) by {
        assert(ByteClass::Pauli.holds(line[h + 2 + (j - h - 2)]));
    }
    lemma_skip_to(line, h + 2, h + 2 + n, ByteClass::Pauli);
    lemma_skip_to(line, h + 2 + n, h + 2 + n, ByteClass::Space);
    let letters = line.subrange(h + 2, h + 2 + n);
    assert(pauli_tokens(letters) =~= Seq::new(
        n as nat,
        |q: int| Token::Pauli(pauli_of(op.x[q], op.z[q])),
    )) by {
        assert forall|q: int| 0 <= q < n implies pauli_tokens(letters)[q] == Token::Pauli(
            pauli_of(op.x[q], op.z[q]),
        ) by {
            assert(letters[q] == line[h + 2 + q]);
        }
    }
}

/// The line of an operation on at least one qubit is a line of the
/// circuit format, and spells the tokens of the operation.
pub proof fn lemma_line_lexed(op: OperationView, n: int)
    requires
        1 <= n,
        !(op.kind is Nop),
    ensures
        lex_line(ascii_bytes(format_line(op, n))) == LineKind::Tokens(line_tokens(op, n)),
        all_ascii(ascii_bytes(format_line(op, n))),
        !is_blank(ascii_bytes(format_line(op, n))),
        forall|i: int|
            0 <= i < ascii_bytes(format_line(op, n)).len() ==> !ends_line(
                #[trigger] ascii_bytes(format_line(op, n))[i],
            ),
{
    let line = ascii_bytes(format_line(op, n));
    let head = head_text(op.kind);
    let h = head.len() as int;
    lemma_line_bytes(op, n);
    lemma_tail(op, n);
    lemma_skip_to(line, 0, 0, ByteClass::Space);
    assert(!is_blank_byte(line[0]));
    assert forall|i: int| 0 <= i < line.len() implies !ends_line(#[trigger] line[i]) && line[i]
        < 0x80 by {
        if i >= h + 2 {
            assert(ByteClass::Pauli.holds(line[h + 2 + (i - h - 2)]));
        } else if i < h {
            assert(line[i] == head[i] as u8);
        }
    }
    match op.kind {
        OperationKind::Measurement { phase } => {
            assert(h == 9);
            assert(line.subrange(0, 7) =~= word_measure());
            assert(!has_word(line, 0, word_repeat())) by {
                assert(line.subrange(0, 6)[0] == line[0]);
                assert(word_repeat()[0] == 0x52);
            }
            assert(!has_word(line, 0, word_rotate())) by {
                assert(line.subrange(0, 6)[0] == line[0]);
                assert(word_rotate()[0] == 0x52);
            }
            lemma_skip_to(line, 7, 8, ByteClass::Space);
            assert(line[8] == if phase == Phase::Negative { 0x2du8 } else { 0x2bu8 });
            assert(lex_line(line) == LineKind::Tokens(
                seq![Token::Measure(phase)] + pauli_tokens(line.subrange(h + 2, h + 2 + n)),
            ));
        },
        OperationKind::Rotation { angle } => {
            let t = angle_text(angle);
            assert(h == 7 + t.len());
            assert(line.subrange(0, 6) =~= word_rotate());
            assert(!has_word(line, 0, word_repeat())) by {
                assert(line.subrange(0, 6)[1] == line[1]);
                assert(word_repeat()[1] == 0x65);
            }
            lemma_skip_to(line, 6, 7, ByteClass::Space);
            let negative = line[7] == 0x2d;
            let d = if negative {
                8int
            } else {
                7int
            };
            assert(line[7] == t[0] as u8);
            assert(negative == (t.len() == 2));
            assert(d + 1 == h);
            assert(line[d] == t[d - 7] as u8);
            lemma_skip_to(line, d, d + 1, ByteClass::Digit);
            let digits = line.subrange(d, d + 1);
            assert(digits.drop_last() =~= Seq::<u8>::empty());
            assert(digits.last() == line[d]);
            assert(digits_value(digits.drop_last()) == 0);
            let size = digits_value(digits);
            assert(size == (line[d] - 0x30) as nat);
            assert((if negative { -(size as int) } else { size as int }) == angle.spec_code());
            assert(lex_line(line) == LineKind::Tokens(
                seq![Token::Rotate(angle.spec_code() as i8)] + pauli_tokens(
                    line.subrange(h + 2, h + 2 + n),
                ),
            ));
        },
        OperationKind::Nop => {},
    }
}

/// The line of an operation, with its line feed, spells the tokens of the
/// operation and nothing else.
pub proof fn lemma_written_lexed(op: OperationView, n: int)
    requires
        1 <= n,
        !(op.kind is Nop),
    ensures
        lex_ahead(ascii_bytes(format_operation(op, n)), 0, 0) == (Ahead {
            tokens: line_tokens(op, n),
            error: None,
        }),
{
    let line = ascii_bytes(format_line(op, n));
    let source = ascii_bytes(format_operation(op, n));
    let len = line.len() as int;
    lemma_line_lexed(op, n);
    assert(source =~= line.push(10u8));
    assert forall|j: int| 0 <= j < len implies !ends_line(#[trigger] source[j]) by {
        assert(source[j] == line[j]);
    }
    lemma_line_end_to(source, 0, len);
    assert(source.subrange(0, len) =~= line);
    assert(after_line(source, 0) == len + 1);
    let first = fill(source, 0, 0);
    assert(first == Fill { tokens: Ok(line_tokens(op, n)), pos: len + 1, line: 1 });
    let rest = lex_ahead(source, len + 1, 1);
    assert(rest == Ahead { tokens: Seq::empty(), error: None });
    assert(line_tokens(op, n) + rest.tokens =~= line_tokens(op, n));
}

/// Reading the line of an operation gives the operation back: for every
/// operation other than a tombstone on `n` qubits, `n` at least one, the
/// text that is written for it reads as the circuit of that one operation.
pub proof fn lemma_read_written(op: OperationView, n: int, width: nat)
    requires
        1 <= n <= width,
        !(op.kind is Nop),
        op.x.len() == width,
        op.z.len() == width,
        within(op.x, n),
        within(op.z, n),
    ensures
        parse(ascii_bytes(format_operation(op, n)), n, width) == Ok::<
            Seq<OperationView>,
            ParseError,
        >(seq![op]),
{
    let source = ascii_bytes(format_operation(op, n));
    lemma_written_lexed(op, n);
    let ahead = lex_ahead(source, 0, 0);
    let tokens = ahead.tokens;
    assert(tokens.len() == n + 1);
    assert forall|j: int| 1 <= j < 1 + n implies #[trigger] tokens[j] is Pauli by {}
    lemma_full_run(tokens, 1, n);
    let x = pauli_bits(tokens, 1, n, width, true);
    let z = pauli_bits(tokens, 1, n, width, false);
    assert(x =~= op.x) by {
        assert forall|q: int| 0 <= q < width implies x[q] == op.x[q] by {
            if q < n {
                assert(tokens[1 + q] == Token::Pauli(pauli_of(op.x[q], op.z[q])));
            }
        }
    }
    assert(z =~= op.z) by {
        assert forall|q: int| 0 <= q < width implies z[q] == op.z[q] by {
            if q < n {
                assert(tokens[1 + q] == Token::Pauli(pauli_of(op.x[q], op.z[q])));
            }
        }
    }
    match op.kind {
        OperationKind::Rotation { angle } => {
            assert(Angle::of_code(angle.spec_code()) == angle);
            assert(-2 <= angle.spec_code() <= 2);
        },
        _ => {},
    }
    assert(op_at(ahead, 0, n, width) == Ok::<(OperationView, int), ParseError>((op, 1 + n)));
    let rest = stream_at(ahead, 1 + n, n, width);
    assert(rest.ops =~= Seq::<OperationView>::empty());
    assert(rest.error is None);
    let stream = stream_at(ahead, 0, n, width);
    assert(stream.ops =~= seq![op]);
}

} // verus!
