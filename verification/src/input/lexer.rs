//! The lexer of the textual circuit format: one line, one operation or
//! one block delimiter.
use crate::error::ParseError;
use crate::operation::phase::Phase;
use std::collections::VecDeque;
use vstd::prelude::*;

verus! {

/// A single-qubit Pauli operator as it is written in a circuit text.
#[derive(Debug, Clone, Copy, PartialEq, Eq, Structural)]
pub enum Pauli {
    I,
    X,
    Y,
    Z,
}

impl Pauli {
    /// The operator written as the byte `value`, in either case.
    pub open spec fn of_byte(value: u8) -> Option<Pauli> {
        if value == 0x58 || value == 0x78 {
            Some(Pauli::X)
        } else if value == 0x59 || value == 0x79 {
            Some(Pauli::Y)
        } else if value == 0x5a || value == 0x7a {
            Some(Pauli::Z)
        } else if value == 0x49 || value == 0x69 {
            Some(Pauli::I)
        } else {
            None
        }
    }

    /// The operator written as the byte `value`, in either case.
    pub fn try_from_byte(value: u8) -> (r: Option<Self>)
        ensures
            r == Self::of_byte(value),
    {
        if value == 0x58 || value == 0x78 {
            Some(Pauli::X)
        } else if value == 0x59 || value == 0x79 {
            Some(Pauli::Y)
        } else if value == 0x5a || value == 0x7a {
            Some(Pauli::Z)
        } else if value == 0x49 || value == 0x69 {
            Some(Pauli::I)
        } else {
            None
        }
    }

    /// The operator written as the character `value`, in either case.
    pub fn try_from_char(value: char) -> (r: Result<Self, char>)
        ensures
            r == match value {
                'X' | 'x' => Ok::<Pauli, char>(Pauli::X),
                'Y' | 'y' => Ok(Pauli::Y),
                'Z' | 'z' => Ok(Pauli::Z),
                'I' | 'i' => Ok(Pauli::I),
                _ => Err(value),
            },
    {
        match value {
            'X' | 'x' => Ok(Pauli::X),
            'Y' | 'y' => Ok(Pauli::Y),
            'Z' | 'z' => Ok(Pauli::Z),
            'I' | 'i' => Ok(Pauli::I),
            _ => Err(value),
        }
    }

    /// The upper-case letter of the operator.
    pub open spec fn letter(self) -> u8 {
        match self {
            Pauli::I => 0x49,
            Pauli::X => 0x58,
            Pauli::Y => 0x59,
            Pauli::Z => 0x5a,
        }
    }
}

/// A token of the circuit format.
#[derive(Debug, Clone, Copy, PartialEq, Eq, Structural)]
pub enum Token {
    Rotate(i8),
    Measure(Phase),
    Pauli(Pauli),
    Repeat(u32),
    End,
}

/// The classes of bytes that the lines are made of.
#[derive(Clone, Copy, PartialEq, Eq, Structural)]
pub enum ByteClass {
    /// Tab, line feed, vertical tab, form feed, carriage return, space.
    Space,
    /// `0` to `9`.
    Digit,
    /// `I`, `X`, `Y`, `Z`.
    Pauli,
    /// A letter, a digit or the underscore.
    Word,
}

impl ByteClass {
    /// Whether the byte is of the class.
    pub open spec fn holds(self, b: u8) -> bool {
        match self {
            ByteClass::Space => b == 9 || b == 10 || b == 11 || b == 12 || b == 13 || b == 32,
            ByteClass::Digit => 0x30 <= b <= 0x39,
            ByteClass::Pauli => b == 0x49 || b == 0x58 || b == 0x59 || b == 0x5a,
            ByteClass::Word => (0x30 <= b <= 0x39) || (0x41 <= b <= 0x5a) || (0x61 <= b <= 0x7a)
                || b == 0x5f,
        }
    }

    /// Whether the byte is of the class.
    #[verifier::when_used_as_spec(holds)]
    pub fn contains(self, b: u8) -> (r: bool)
        ensures
            r == self.holds(b),
    {
        match self {
            ByteClass::Space => b == 9 || b == 10 || b == 11 || b == 12 || b == 13 || b == 32,
            ByteClass::Digit => 0x30 <= b && b <= 0x39,
            ByteClass::Pauli => b == 0x49 || b == 0x58 || b == 0x59 || b == 0x5a,
            ByteClass::Word => (0x30 <= b && b <= 0x39) || (0x41 <= b && b <= 0x5a) || (0x61 <= b
                && b <= 0x7a) || b == 0x5f,
        }
    }
}

/// The first index from `i` on whose byte is not of the class; the length
/// if there is none.
pub open spec fn skip_class(s: Seq<u8>, i: int, class: ByteClass) -> int
    decreases s.len() - i,
{
    if 0 <= i < s.len() && class.holds(s[i]) {
        skip_class(s, i + 1, class)
    } else {
        i
    }
}

/// Skipping stops within the text, after bytes of the class, at a byte that is not of it.
pub proof fn lemma_skip_class(s: Seq<u8>, i: int, class: ByteClass)
    requires
        0 <= i <= s.len(),
    ensures
        i <= skip_class(s, i, class) <= s.len(),
        forall|k: int| i <= k < skip_class(s, i, class) ==> class.holds(s[k]),
        skip_class(s, i, class) < s.len() ==> !class.holds(s[skip_class(s, i, class)]),
    decreases s.len() - i,
{
    if i < s.len() && class.holds(s[i]) {
        lemma_skip_class(s, i + 1, class);
    }
}

/// The first index from `i` on whose byte is not of the class.
pub fn skip(s: &[u8], i: usize, class: ByteClass) -> (r: usize)
    requires
        i <= s@.len(),
    ensures
        r == skip_class(s@, i as int, class),
        i <= r <= s@.len(),
{
    let n = s.len();
    let mut at = i;
    proof {
        lemma_skip_class(s@, i as int, class);
    }
    while at < n && class.contains(s[at])
        invariant
            n == s@.len(),
            i <= at <= n,
            skip_class(s@, at as int, class) == skip_class(s@, i as int, class),
        decreases n - at,
    {
        at += 1;
    }
    at
}

/// Whether `word` stands in `s` at index `at`.
pub open spec fn has_word(s: Seq<u8>, at: int, word: Seq<u8>) -> bool {
    0 <= at && at + word.len() <= s.len() && s.subrange(at, at + word.len()) == word
}

/// Whether `word` stands in `s` at index `at`.
pub fn starts_with_at(s: &[u8], at: usize, word: &[u8]) -> (r: bool)
    requires
        at <= s@.len(),
    ensures
        r == has_word(s@, at as int, word@),
{
    let n = word.len();
    let total = s.len();
    if n > total - at {
        return false;
    }
    let mut k: usize = 0;
    while k < n
        invariant
            n == word@.len(),
            total == s@.len(),
            k <= n,
            at + n <= total,
            s@.subrange(at as int, at + k) == word@.take(k as int),
        decreases n - k,
    {
        if s[at + k] != word[k] {
            proof {
                if s@.subrange(at as int, at + n) == word@ {
                    assert(s@.subrange(at as int, at + n)[k as int] == word@[k as int]);
                }
            }
            return false;
        }
        assert(s@.subrange(at as int, at + k + 1) =~= word@.take(k + 1));
        k += 1;
    }
    assert(word@.take(n as int) =~= word@);
    true
}

/// The number that the decimal digits `s` spell.
pub open spec fn digits_value(s: Seq<u8>) -> nat
    decreases s.len(),
{
    if s.len() == 0 {
        0
    } else {
        digits_value(s.drop_last()) * 10 + (s.last() - 0x30) as nat
    }
}

/// Reads the decimal number in `s[from..to]`, all digits, if it is at most
/// `limit`.
pub fn read_number(s: &[u8], from: usize, to: usize, limit: u64) -> (r: Option<u64>)
    requires
        from <= to <= s@.len(),
        forall|k: int| from <= k < to ==> ByteClass::Digit.holds(s@[k]),
        limit <= 1_000_000_000_000_000_000u64,
    ensures
        r is Some <==> digits_value(s@.subrange(from as int, to as int)) <= limit,
        r matches Some(v) ==> v == digits_value(s@.subrange(from as int, to as int)),
{
    let mut value: u64 = 0;
    let mut k = from;
    assert(s@.subrange(from as int, from as int) =~= Seq::<u8>::empty());
    while k < to
        invariant
            from <= k <= to <= s@.len(),
            forall|j: int| from <= j < to ==> ByteClass::Digit.holds(s@[j]),
            limit <= 1_000_000_000_000_000_000u64,
            value == digits_value(s@.subrange(from as int, k as int)),
            value <= limit,
        decreases to - k,
    {
        let digit = (s[k] - 0x30) as u64;
        proof {
            assert(s@.subrange(from as int, k + 1).drop_last() =~= s@.subrange(
                from as int,
                k as int,
            ));
            assert(ByteClass::Digit.holds(s@[k as int]));
        }
        let next = value * 10 + digit;
        if next > limit {
            proof {
                lemma_digits_grow(s@, from as int, k + 1, to as int);
            }
            return None;
        }
        value = next;
        k += 1;
    }
    Some(value)
}

/// More digits spell no smaller a number.
pub proof fn lemma_digits_grow(s: Seq<u8>, from: int, mid: int, to: int)
    requires
        0 <= from <= mid <= to <= s.len(),
        forall|k: int| from <= k < to ==> ByteClass::Digit.holds(s[k]),
    ensures
        digits_value(s.subrange(from, mid)) <= digits_value(s.subrange(from, to)),
    decreases to - mid,
{
    if mid < to {
        lemma_digits_grow(s, from, mid, to - 1);
        assert(s.subrange(from, to).drop_last() =~= s.subrange(from, to - 1));
        assert(ByteClass::Digit.holds(s[to - 1]));
    }
}

/// The Pauli tokens of a run of Pauli letters.
pub open spec fn pauli_tokens(letters: Seq<u8>) -> Seq<Token> {
    Seq::new(
        letters.len(),
        |i: int|
            Token::Pauli(
                match Pauli::of_byte(letters[i]) {
                    Some(p) => p,
                    None => Pauli::I,
                },
            ),
    )
}

/// What a line that is not blank says.
pub enum LineKind {
    Tokens(Seq<Token>),
    Unrecognized,
    BadRepeatCount,
    BadAngle,
    AngleTooLarge,
}

/// The tail of a line from index `i` on, after optional space, a colon,
/// optional space, Pauli letters and optional space up to the end: the
/// letters, if the tail is of that form.
pub open spec fn paulis_tail(line: Seq<u8>, i: int) -> Option<Seq<u8>> {
    let colon = skip_class(line, i, ByteClass::Space);
    if colon < line.len() && line[colon] == 0x3a {
        let first = skip_class(line, colon + 1, ByteClass::Space);
        let last = skip_class(line, first, ByteClass::Pauli);
        if last > first && skip_class(line, last, ByteClass::Space) == line.len() {
            Some(line.subrange(first, last))
        } else {
            None
        }
    } else {
        None
    }
}

/// The meaning of a line. After optional space it starts with one of the
/// words `Repeat`, `Rotate`, `Measure` and `End`:
/// `Repeat <count>`, `Rotate <angle>: <paulis>`, `Measure <sign>: <paulis>`
/// or `End`, with optional space around the parts.
pub open spec fn lex_line(line: Seq<u8>) -> LineKind {
    let a = skip_class(line, 0, ByteClass::Space);
    if has_word(line, a, word_repeat()) {
        let b = skip_class(line, a + 6, ByteClass::Space);
        let c = skip_class(line, b, ByteClass::Digit);
        if b > a + 6 && c > b && skip_class(line, c, ByteClass::Space) == line.len() {
            if digits_value(line.subrange(b, c)) <= 0xffff_ffff {
                LineKind::Tokens(seq![Token::Repeat(digits_value(line.subrange(b, c)) as u32)])
            } else {
                LineKind::BadRepeatCount
            }
        } else {
            LineKind::Unrecognized
        }
    } else if has_word(line, a, word_rotate()) {
        let b = skip_class(line, a + 6, ByteClass::Space);
        let negative = b < line.len() && line[b] == 0x2d;
        let d = if negative {
            b + 1
        } else {
            b
        };
        let c = skip_class(line, d, ByteClass::Digit);
        if b > a + 6 && c > d {
            match paulis_tail(line, c) {
                Some(letters) => {
                    let size = digits_value(line.subrange(d, c));
                    if size > 128 || (size == 128 && !negative) {
                        LineKind::BadAngle
                    } else if size > 2 {
                        LineKind::AngleTooLarge
                    } else {
                        LineKind::Tokens(
                            seq![Token::Rotate(if negative { -(size as int) } else { size as int } as i8)]
                                + pauli_tokens(letters),
                        )
                    }
                },
                None => LineKind::Unrecognized,
            }
        } else {
            LineKind::Unrecognized
        }
    } else if has_word(line, a, word_measure()) {
        let b = skip_class(line, a + 7, ByteClass::Space);
        if b > a + 7 && b < line.len() && (line[b] == 0x2b || line[b] == 0x2d) {
            match paulis_tail(line, b + 1) {
                Some(letters) => LineKind::Tokens(
                    seq![Token::Measure(if line[b] == 0x2d { Phase::Negative } else { Phase::Positive })]
                        + pauli_tokens(letters),
                ),
                None => LineKind::Unrecognized,
            }
        } else {
            LineKind::Unrecognized
        }
    } else if has_word(line, a, word_end()) {
        if skip_class(line, a + 3, ByteClass::Space) == line.len() {
            LineKind::Tokens(seq![Token::End])
        } else {
            LineKind::Unrecognized
        }
    } else {
        LineKind::Unrecognized
    }
}

/// Whether the byte ends a line: a line feed, or an end-of-text or
/// end-of-transmission mark.
pub open spec fn ends_line(b: u8) -> bool {
    b == 10 || b == 3 || b == 4
}

/// Where the line that starts at `pos` ends: at the first byte that ends
/// a line, or at the end of the source.
pub open spec fn line_end(source: Seq<u8>, pos: int) -> int
    decreases source.len() - pos,
{
    if 0 <= pos < source.len() && !ends_line(source[pos]) {
        line_end(source, pos + 1)
    } else {
        pos
    }
}

/// A line ends within the source, at a byte that ends a line or at the end.
pub proof fn lemma_line_end(source: Seq<u8>, pos: int)
    requires
        0 <= pos <= source.len(),
    ensures
        pos <= line_end(source, pos) <= source.len(),
        line_end(source, pos) < source.len() ==> ends_line(source[line_end(source, pos)]),
    decreases source.len() - pos,
{
    if pos < source.len() && !ends_line(source[pos]) {
        lemma_line_end(source, pos + 1);
    }
}

/// Where the line after the one that starts at `pos` starts.
pub open spec fn after_line(source: Seq<u8>, pos: int) -> int {
    let end = line_end(source, pos);
    if end < source.len() {
        end + 1
    } else {
        end
    }
}

/// Whether every byte is an ASCII character.
pub open spec fn all_ascii(s: Seq<u8>) -> bool {
    forall|i: int| 0 <= i < s.len() ==> s[i] < 0x80
}

/// Whether the line holds nothing but spaces, tabs, line feeds, form feeds
/// and carriage returns.
pub open spec fn is_blank(s: Seq<u8>) -> bool {
    forall|i: int| 0 <= i < s.len() ==> is_blank_byte(#[trigger] s[i])
}

/// A space, tab, line feed, form feed or carriage return.
pub open spec fn is_blank_byte(b: u8) -> bool {
    b == 32 || b == 9 || b == 10 || b == 12 || b == 13
}

/// The next line number, as far as it fits a machine word.
pub open spec fn bump(line: usize) -> usize {
    if line < usize::MAX {
        (line + 1) as usize
    } else {
        line
    }
}

/// What filling the token buffer yields: the tokens of the next line that
/// is not blank, none at the end of the source, or an error; where the
/// source is read on from; and the number of lines read.
pub struct Fill {
    pub tokens: Result<Seq<Token>, ParseError>,
    pub pos: int,
    pub line: usize,
}

/// Filling the token buffer from position `pos`, `line` lines read so far.
pub open spec fn fill(source: Seq<u8>, pos: int, line: usize) -> Fill
    decreases source.len() - pos,
{
    let number = bump(line);
    if pos < 0 || pos >= source.len() {
        Fill { tokens: Ok(Seq::empty()), pos, line: number }
    } else {
        let end = line_end(source, pos);
        let next = after_line(source, pos);
        let text = source.subrange(pos, end);
        if !all_ascii(text) {
            Fill { tokens: Err(ParseError::NonAscii { line: number }), pos: next, line: number }
        } else if is_blank(text) {
            if pos < next <= source.len() {
                fill(source, next, number)
            } else {
                Fill { tokens: Ok(Seq::empty()), pos, line: number }
            }
        } else {
            Fill {
                tokens: match lex_line(text) {
                    LineKind::Tokens(tokens) => Ok(tokens),
                    LineKind::Unrecognized => Err(ParseError::UnrecognizedLine { line: number }),
                    LineKind::BadRepeatCount => Err(ParseError::BadRepeatCount { line: number }),
                    LineKind::BadAngle => Err(ParseError::BadAngle { line: number }),
                    LineKind::AngleTooLarge => Err(ParseError::AngleTooLarge { line: number }),
                },
                pos: next,
                line: number,
            }
        }
    }
}

/// The tokens that a lexer will hand out, and the error that it will
/// report after them, if any.
pub struct Ahead {
    pub tokens: Seq<Token>,
    pub error: Option<ParseError>,
}

/// The tokens from position `pos` on up to the first line in error, and
/// the error of that line.
pub open spec fn lex_ahead(source: Seq<u8>, pos: int, line: usize) -> Ahead
    decreases source.len() - pos,
{
    if pos < 0 || pos >= source.len() {
        Ahead { tokens: Seq::empty(), error: None }
    } else {
        let first = fill(source, pos, line);
        match first.tokens {
            Err(e) => Ahead { tokens: Seq::empty(), error: Some(e) },
            Ok(tokens) => {
                if pos < first.pos <= source.len() {
                    let rest = lex_ahead(source, first.pos, first.line);
                    Ahead { tokens: tokens + rest.tokens, error: rest.error }
                } else {
                    Ahead { tokens, error: None }
                }
            },
        }
    }
}

/// All tokens of a circuit text, or the first error.
pub open spec fn lex(source: Seq<u8>) -> Result<Seq<Token>, ParseError> {
    let all = lex_ahead(source, 0, 0);
    match all.error {
        Some(e) => Err(e),
        None => Ok(all.tokens),
    }
}

/// Every line that is not blank holds a token.
pub proof fn lemma_lex_line(line: Seq<u8>)
    ensures
        lex_line(line) matches LineKind::Tokens(tokens) ==> tokens.len() > 0,
{
}

/// Filling the buffer moves on in the text; it yields no token only at the
/// end of the text.
pub proof fn lemma_fill(source: Seq<u8>, pos: int, line: usize)
    requires
        0 <= pos <= source.len(),
    ensures
        pos <= fill(source, pos, line).pos <= source.len(),
        fill(source, pos, line).tokens matches Ok(tokens) ==> (tokens.len() > 0 ==> pos < fill(
            source,
            pos,
            line,
        ).pos) && (tokens.len() == 0 ==> fill(source, pos, line).pos == source.len()),
    decreases source.len() - pos,
{
    if pos < source.len() {
        lemma_line_end(source, pos);
        let end = line_end(source, pos);
        let next = after_line(source, pos);
        let text = source.subrange(pos, end);
        if all_ascii(text) && is_blank(text) {
            lemma_fill(source, next, bump(line));
        } else if all_ascii(text) {
            lemma_lex_line(text);
        }
    }
}

/// The word `Repeat`.
pub open spec fn word_repeat() -> Seq<u8> {
    seq![0x52u8, 0x65, 0x70, 0x65, 0x61, 0x74]
}

/// The word `Rotate`.
pub open spec fn word_rotate() -> Seq<u8> {
    seq![0x52u8, 0x6f, 0x74, 0x61, 0x74, 0x65]
}

/// The word `Measure`.
pub open spec fn word_measure() -> Seq<u8> {
    seq![0x4du8, 0x65, 0x61, 0x73, 0x75, 0x72, 0x65]
}

/// The word `End`.
pub open spec fn word_end() -> Seq<u8> {
    seq![0x45u8, 0x6e, 0x64]
}

/// Reads the tail of a line from index `i` on: a colon and Pauli letters,
/// with optional space around them. Gives where the letters start and end.
fn read_paulis_tail(line: &[u8], i: usize) -> (r: Option<(usize, usize)>)
    requires
        i <= line@.len(),
    ensures
        match r {
            Some((first, last)) => first <= last <= line@.len() && paulis_tail(line@, i as int)
                == Some(line@.subrange(first as int, last as int)) && forall|k: int|
                first <= k < last ==> ByteClass::Pauli.holds(line@[k]),
            None => paulis_tail(line@, i as int) is None,
        },
{
    let n = line.len();
    let colon = skip(line, i, ByteClass::Space);
    if colon < n && line[colon] == 0x3a {
        let first = skip(line, colon + 1, ByteClass::Space);
        let last = skip(line, first, ByteClass::Pauli);
        proof {
            lemma_skip_class(line@, first as int, ByteClass::Pauli);
        }
        if last > first && skip(line, last, ByteClass::Space) == n {
            Some((first, last))
        } else {
            None
        }
    } else {
        None
    }
}

/// Appends the Pauli tokens of the letters `line[first..last]`.
fn push_paulis(line: &[u8], first: usize, last: usize, out: &mut VecDeque<Token>)
    requires
        first <= last <= line@.len(),
    ensures
        final(out)@ == old(out)@ + pauli_tokens(line@.subrange(first as int, last as int)),
{
    let ghost before = out@;
    let ghost letters = line@.subrange(first as int, last as int);
    let mut k = first;
    while k < last
        invariant
            first <= k <= last <= line@.len(),
            letters == line@.subrange(first as int, last as int),
            out@ == before + pauli_tokens(letters).take(k - first),
        decreases last - k,
    {
        let p = match Pauli::try_from_byte(line[k]) {
            Some(p) => p,
            None => Pauli::I,
        };
        out.push_back(Token::Pauli(p));
        assert(out@ =~= before + pauli_tokens(letters).take(k + 1 - first));
        k += 1;
    }
    assert(pauli_tokens(letters).take(last - first) =~= pauli_tokens(letters));
}

/// Reads a line that is not blank and appends its tokens to `out`.
pub fn lex_line_into(line: &[u8], number: usize, out: &mut VecDeque<Token>) -> (r: Result<
    (),
    ParseError,
>)
    ensures
        match lex_line(line@) {
            LineKind::Tokens(tokens) => r is Ok && final(out)@ == old(out)@ + tokens,
            LineKind::Unrecognized => r == Err::<(), ParseError>(
                ParseError::UnrecognizedLine { line: number },
            ) && final(out)@ == old(out)@,
            LineKind::BadRepeatCount => r == Err::<(), ParseError>(
                ParseError::BadRepeatCount { line: number },
            ) && final(out)@ == old(out)@,
            LineKind::BadAngle => r == Err::<(), ParseError>(ParseError::BadAngle { line: number })
                && final(out)@ == old(out)@,
            LineKind::AngleTooLarge => r == Err::<(), ParseError>(
                ParseError::AngleTooLarge { line: number },
            ) && final(out)@ == old(out)@,
        },
{
    let n = line.len();
    let a = skip(line, 0, ByteClass::Space);
    let repeat: [u8; 6] = [0x52, 0x65, 0x70, 0x65, 0x61, 0x74];
    let rotate: [u8; 6] = [0x52, 0x6f, 0x74, 0x61, 0x74, 0x65];
    let measure: [u8; 7] = [0x4d, 0x65, 0x61, 0x73, 0x75, 0x72, 0x65];
    let end: [u8; 3] = [0x45, 0x6e, 0x64];
    proof {
        assert(repeat@ =~= seq![0x52u8, 0x65, 0x70, 0x65, 0x61, 0x74]);
        assert(rotate@ =~= seq![0x52u8, 0x6f, 0x74, 0x61, 0x74, 0x65]);
        assert(measure@ =~= seq![0x4du8, 0x65, 0x61, 0x73, 0x75, 0x72, 0x65]);
        assert(end@ =~= seq![0x45u8, 0x6e, 0x64]);
    }
    if starts_with_at(line, a, repeat.as_slice()) {
        let b = skip(line, a + 6, ByteClass::Space);
        let c = skip(line, b, ByteClass::Digit);
        proof {
            lemma_skip_class(line@, b as int, ByteClass::Digit);
        }
        if b > a + 6 && c > b && skip(line, c, ByteClass::Space) == n {
            match read_number(line, b, c, 0xffff_ffff) {
                Some(value) => {
                    out.push_back(Token::Repeat(value as u32));
                    assert(out@ =~= old(out)@ + seq![Token::Repeat(value as u32)]);
                    Ok(())
                },
                None => Err(ParseError::BadRepeatCount { line: number }),
            }
        } else {
            Err(ParseError::UnrecognizedLine { line: number })
        }
    } else if starts_with_at(line, a, rotate.as_slice()) {
        let b = skip(line, a + 6, ByteClass::Space);
        let negative = b < n && line[b] == 0x2d;
        let d = if negative {
            b + 1
        } else {
            b
        };
        let c = skip(line, d, ByteClass::Digit);
        proof {
            lemma_skip_class(line@, d as int, ByteClass::Digit);
        }
        if b > a + 6 && c > d {
            match read_paulis_tail(line, c) {
                Some((first, last)) => {
                    let limit: u64 = if negative {
                        128
                    } else {
                        127
                    };
                    match read_number(line, d, c, limit) {
                        None => Err(ParseError::BadAngle { line: number }),
                        Some(size) => {
                            if size > 2 {
                                Err(ParseError::AngleTooLarge { line: number })
                            } else {
                                let angle: i8 = if negative {
                                    -(size as i8)
                                } else {
                                    size as i8
                                };
                                out.push_back(Token::Rotate(angle));
                                let ghost mid = out@;
                                push_paulis(line, first, last, out);
                                assert(out@ =~= old(out)@ + (seq![Token::Rotate(angle)]
                                    + pauli_tokens(line@.subrange(first as int, last as int))));
                                Ok(())
                            }
                        },
                    }
                },
                None => Err(ParseError::UnrecognizedLine { line: number }),
            }
        } else {
            Err(ParseError::UnrecognizedLine { line: number })
        }
    } else if starts_with_at(line, a, measure.as_slice()) {
        let b = skip(line, a + 7, ByteClass::Space);
        if b > a + 7 && b < n && (line[b] == 0x2b || line[b] == 0x2d) {
            match read_paulis_tail(line, b + 1) {
                Some((first, last)) => {
                    let phase = if line[b] == 0x2d {
                        Phase::Negative
                    } else {
                        Phase::Positive
                    };
                    out.push_back(Token::Measure(phase));
                    push_paulis(line, first, last, out);
                    assert(out@ =~= old(out)@ + (seq![Token::Measure(phase)] + pauli_tokens(
                        line@.subrange(first as int, last as int),
                    )));
                    Ok(())
                },
                None => Err(ParseError::UnrecognizedLine { line: number }),
            }
        } else {
            Err(ParseError::UnrecognizedLine { line: number })
        }
    } else if starts_with_at(line, a, end.as_slice()) {
        if skip(line, a + 3, ByteClass::Space) == n {
            out.push_back(Token::End);
            assert(out@ =~= old(out)@ + seq![Token::End]);
            Ok(())
        } else {
            Err(ParseError::UnrecognizedLine { line: number })
        }
    } else {
        Err(ParseError::UnrecognizedLine { line: number })
    }
}

/// The lexer: hands out the tokens of a circuit text, line by line.
#[derive(Debug)]
pub struct TokenIterator<'a> {
    source: &'a [u8],
    pos: usize,
    token_buf: VecDeque<Token>,
    line_buf: Vec<u8>,
    line_count: usize,
}

impl<'a> TokenIterator<'a> {
    /// The circuit text.
    pub closed spec fn source(&self) -> Seq<u8> {
        self.source@
    }

    /// How far the text was read.
    pub closed spec fn position(&self) -> int {
        self.pos as int
    }

    /// The tokens that were read and not yet handed out.
    pub closed spec fn buffered(&self) -> Seq<Token> {
        self.token_buf@
    }

    /// The number of lines read.
    pub closed spec fn lines(&self) -> usize {
        self.line_count
    }

    /// The position lies within the text.
    pub closed spec fn wf(&self) -> bool {
        self.pos <= self.source@.len()
    }

    /// The tokens that are still to come, and the error after them.
    pub open spec fn ahead(&self) -> Ahead {
        let rest = lex_ahead(self.source(), self.position(), self.lines());
        Ahead { tokens: self.buffered() + rest.tokens, error: rest.error }
    }

    /// How the tokens ahead unfold when the buffer is empty.
    pub proof fn lemma_ahead(&self)
        requires
            self.wf(),
            self.buffered().len() == 0,
        ensures
            ({
                let filled = fill(self.source(), self.position(), self.lines());
                let rest = lex_ahead(self.source(), filled.pos, filled.line);
                match filled.tokens {
                    Err(e) => self.ahead() == (Ahead { tokens: Seq::empty(), error: Some(e) }),
                    Ok(tokens) => if tokens.len() > 0 {
                        self.ahead() == (Ahead { tokens: tokens + rest.tokens, error: rest.error })
                    } else {
                        self.ahead() == (Ahead { tokens: Seq::empty(), error: None })
                    },
                }
            }),
    {
        let source = self.source();
        let pos = self.position();
        lemma_fill(source, pos, self.lines());
        let filled = fill(source, pos, self.lines());
        let rest = lex_ahead(source, pos, self.lines());
        assert(self.buffered() + rest.tokens =~= rest.tokens);
        if pos < source.len() {
            if filled.tokens is Ok {
                let tokens = filled.tokens->Ok_0;
                if tokens.len() == 0 {
                    assert(tokens + lex_ahead(source, filled.pos, filled.line).tokens =~= Seq::<
                        Token,
                    >::empty());
                }
            }
        }
    }

    /// A lexer at the start of `source`.
    pub fn new(source: &'a [u8]) -> (r: Self)
        ensures
            r.wf(),
            r.source() == source@,
            r.position() == 0,
            r.buffered().len() == 0,
            r.lines() == 0,
    {
        Self {
            source,
            pos: 0,
            token_buf: VecDeque::with_capacity(128),
            line_buf: Vec::with_capacity(128),
            line_count: 0,
        }
    }

    /// Reads the next line into the line buffer, up to and without the
    /// byte that ends it. Returns the number of bytes consumed.
    fn read_line(&mut self) -> (r: Result<usize, ParseError>)
        requires
            old(self).wf(),
        ensures
            final(self).wf(),
            final(self).source() == old(self).source(),
            final(self).buffered() == old(self).buffered(),
            final(self).lines() == old(self).lines(),
            final(self).position() == after_line(old(self).source(), old(self).position()),
            final(self).line_buf@ == old(self).line_buf@ + old(self).source().subrange(
                old(self).position(),
                line_end(old(self).source(), old(self).position()),
            ),
            match r {
                Ok(read) => read == final(self).position() - old(self).position() && all_ascii(
                    old(self).source().subrange(
                        old(self).position(),
                        line_end(old(self).source(), old(self).position()),
                    ),
                ),
                Err(e) => e == (ParseError::NonAscii { line: old(self).lines() }) && !all_ascii(
                    old(self).source().subrange(
                        old(self).position(),
                        line_end(old(self).source(), old(self).position()),
                    ),
                ),
            },
    {
        let n = self.source.len();
        let start = self.pos;
        let ghost before = self.line_buf@;
        let mut ascii = true;
        let mut at = start;
        proof {
            lemma_line_end(self.source@, start as int);
            assert(self.source@.subrange(start as int, start as int) =~= Seq::<u8>::empty());
        }
        while at < n && !(self.source[at] == 10 || self.source[at] == 3 || self.source[at] == 4)
            invariant
                n == self.source@.len(),
                start <= at <= n,
                self.pos == start,
                self.source == old(self).source,
                self.token_buf == old(self).token_buf,
                self.line_count == old(self).line_count,
                line_end(self.source@, at as int) == line_end(self.source@, start as int),
                self.line_buf@ == before + self.source@.subrange(start as int, at as int),
                ascii == all_ascii(self.source@.subrange(start as int, at as int)),
            decreases n - at,
        {
            let byte = self.source[at];
            if byte >= 0x80 {
                ascii = false;
            }
            self.line_buf.push(byte);
            proof {
                let old_text = self.source@.subrange(start as int, at as int);
                let text = self.source@.subrange(start as int, at + 1);
                assert(text =~= old_text.push(byte));
                assert(self.line_buf@ =~= before + text);
                if all_ascii(old_text) && byte < 0x80 {
                    assert forall|i: int| 0 <= i < text.len() implies text[i] < 0x80 by {
                        if i < old_text.len() {
                            assert(text[i] == old_text[i]);
                        }
                    }
                }
                if all_ascii(text) {
                    assert(text[at - start] < 0x80);
                    assert forall|i: int| 0 <= i < old_text.len() implies old_text[i] < 0x80 by {
                        assert(text[i] == old_text[i]);
                    }
                }
            }
            at += 1;
        }
        let end = at;
        if at < n {
            at += 1;
        }
        self.pos = at;
        if ascii {
            Ok(at - start)
        } else {
            Err(ParseError::NonAscii { line: self.line_count })
        }
    }

    /// Whether the line buffer holds nothing but blanks.
    fn line_is_blank(&self) -> (r: bool)
        ensures
            r == is_blank(self.line_buf@),
    {
        let n = self.line_buf.len();
        let mut k: usize = 0;
        while k < n
            invariant
                n == self.line_buf@.len(),
                k <= n,
                is_blank(self.line_buf@.take(k as int)),
            decreases n - k,
        {
            let b = self.line_buf[k];
            if !(b == 32 || b == 9 || b == 10 || b == 12 || b == 13) {
                assert(!is_blank_byte(self.line_buf@[k as int]));
                return false;
            }
            assert(is_blank(self.line_buf@.take(k + 1))) by {
                assert forall|i: int| 0 <= i < k + 1 implies is_blank_byte(
                    #[trigger] self.line_buf@.take(k + 1)[i],
                ) by {
                    if i < k {
                        assert(self.line_buf@.take(k as int)[i] == self.line_buf@[i]);
                    }
                }
            }
            k += 1;
        }
        assert(self.line_buf@.take(n as int) =~= self.line_buf@);
        true
    }

    /// Reads lines until one is not blank, and puts its tokens into the
    /// token buffer. At the end of the text the buffer stays as it is.
    fn fill_token_buf(&mut self) -> (r: Result<(), ParseError>)
        requires
            old(self).wf(),
        ensures
            final(self).wf(),
            final(self).source() == old(self).source(),
            ({
                let filled = fill(old(self).source(), old(self).position(), old(self).lines());
                &&& final(self).lines() == filled.line
                &&& match r {
                    Ok(()) => filled.tokens is Ok && final(self).buffered() == old(self).buffered() + filled.tokens->Ok_0 && final(self).position() == filled.pos,
                    Err(e) => filled.tokens == Err::<Seq<Token>, ParseError>(e) && final(self).buffered() == old(self).buffered(),
                }
            }),
    {
        let n = self.source.len();
        loop
            invariant
                self.wf(),
                n == self.source@.len(),
                self.source == old(self).source,
                self.token_buf@ == old(self).token_buf@,
                fill(self.source@, self.pos as int, self.line_count) == fill(
                    old(self).source(),
                    old(self).position(),
                    old(self).lines(),
                ),
            decreases n - self.pos,
        {
            if self.line_count < usize::MAX {
                self.line_count += 1;
            }
            self.line_buf.clear();
            if self.pos >= n {
                assert(self.token_buf@ + Seq::<Token>::empty() =~= self.token_buf@);
                return Ok(());
            }
            let ghost start = self.pos as int;
            proof {
                lemma_line_end(self.source@, start);
            }
            let len = match self.read_line() {
                Ok(len) => len,
                Err(e) => {
                    return Err(e);
                },
            };
            assert(self.line_buf@ =~= self.source@.subrange(
                start,
                line_end(self.source@, start),
            ));
            if !self.line_is_blank() {
                return lex_line_into(
                    self.line_buf.as_slice(),
                    self.line_count,
                    &mut self.token_buf,
                );
            }
            if len == 0 {
                assert(self.token_buf@ + Seq::<Token>::empty() =~= self.token_buf@);
                return Ok(());
            }
        }
    }

    /// The next token, if one is left.
    pub fn pop(&mut self) -> (r: Result<Option<Token>, ParseError>)
        requires
            old(self).wf(),
        ensures
            final(self).wf(),
            final(self).source() == old(self).source(),
            old(self).buffered().len() > 0 ==> r == Ok::<Option<Token>, ParseError>(
                Some(old(self).buffered()[0]),
            ) && final(self).buffered() == old(self).buffered().skip(1) && final(self).position()
                == old(self).position() && final(self).lines() == old(self).lines(),
            old(self).buffered().len() == 0 ==> ({
                let filled = fill(old(self).source(), old(self).position(), old(self).lines());
                &&& final(self).lines() == filled.line
                &&& match r {
                    Ok(Some(token)) => filled.tokens matches Ok(tokens) && tokens.len() > 0
                        && token == tokens[0] && final(self).buffered() == tokens.skip(1) && final(self).position() == filled.pos,
                    Ok(None) => filled.tokens matches Ok(tokens) && tokens.len() == 0 && final(self).buffered().len() == 0 && final(self).position() == filled.pos,
                    Err(e) => filled.tokens == Err::<Seq<Token>, ParseError>(e),
                }
            }),
            match r {
                Ok(Some(token)) => old(self).ahead().tokens.len() > 0 && token == old(
                    self,
                ).ahead().tokens[0] && final(self).ahead() == (Ahead {
                    tokens: old(self).ahead().tokens.skip(1),
                    error: old(self).ahead().error,
                }),
                Ok(None) => old(self).ahead() == (Ahead { tokens: Seq::empty(), error: None })
                    && final(self).ahead() == old(self).ahead(),
                Err(e) => old(self).ahead() == (Ahead { tokens: Seq::empty(), error: Some(e) }),
            },
    {
        let ghost rest = lex_ahead(self.source@, self.pos as int, self.line_count);
        if let Some(token) = self.token_buf.pop_front() {
            assert(self.token_buf@ =~= old(self).token_buf@.skip(1));
            assert((old(self).token_buf@ + rest.tokens).skip(1) =~= self.token_buf@
                + rest.tokens);
            return Ok(Some(token));
        }
        proof {
            self.lemma_ahead();
            lemma_fill(self.source@, self.pos as int, self.line_count);
        }
        match self.fill_token_buf() {
            Ok(()) => {},
            Err(e) => {
                return Err(e);
            },
        }
        let ghost filled = self.token_buf@;
        let token = self.token_buf.pop_front();
        proof {
            assert(old(self).token_buf@ + filled =~= filled);
            let after = lex_ahead(self.source@, self.pos as int, self.line_count);
            if token is Some {
                assert(self.token_buf@ =~= filled.skip(1));
                assert((filled + after.tokens).skip(1) =~= filled.skip(1) + after.tokens);
            } else {
                assert(self.token_buf@ + after.tokens =~= after.tokens);
            }
        }
        Ok(token)
    }

    /// The next token, if one is left.
    pub fn next(&mut self) -> (r: Result<Option<Token>, ParseError>)
        requires
            old(self).wf(),
        ensures
            final(self).wf(),
            final(self).source() == old(self).source(),
            old(self).buffered().len() > 0 ==> r == Ok::<Option<Token>, ParseError>(
                Some(old(self).buffered()[0]),
            ) && final(self).buffered() == old(self).buffered().skip(1) && final(self).position()
                == old(self).position() && final(self).lines() == old(self).lines(),
            old(self).buffered().len() == 0 ==> ({
                let filled = fill(old(self).source(), old(self).position(), old(self).lines());
                &&& final(self).lines() == filled.line
                &&& match r {
                    Ok(Some(token)) => filled.tokens matches Ok(tokens) && tokens.len() > 0
                        && token == tokens[0] && final(self).buffered() == tokens.skip(1) && final(self).position() == filled.pos,
                    Ok(None) => filled.tokens matches Ok(tokens) && tokens.len() == 0 && final(self).buffered().len() == 0 && final(self).position() == filled.pos,
                    Err(e) => filled.tokens == Err::<Seq<Token>, ParseError>(e),
                }
            }),
            match r {
                Ok(Some(token)) => old(self).ahead().tokens.len() > 0 && token == old(
                    self,
                ).ahead().tokens[0] && final(self).ahead() == (Ahead {
                    tokens: old(self).ahead().tokens.skip(1),
                    error: old(self).ahead().error,
                }),
                Ok(None) => old(self).ahead() == (Ahead { tokens: Seq::empty(), error: None })
                    && final(self).ahead() == old(self).ahead(),
                Err(e) => old(self).ahead() == (Ahead { tokens: Seq::empty(), error: Some(e) }),
            },
    {
        self.pop()
    }

    /// Appends to `buf` the tokens of the next line that is not blank, and
    /// those read before it and not yet handed out.
    pub fn pop_line(&mut self, buf: &mut Vec<Token>) -> (r: Result<(), ParseError>)
        requires
            old(self).wf(),
        ensures
            final(self).wf(),
            final(self).source() == old(self).source(),
            old(self).buffered().len() > 0 ==> r is Ok && final(buf)@ == old(buf)@ + old(self).buffered() && final(self).buffered().len() == 0 && final(self).position() == old(self).position() && final(self).lines() == old(self).lines(),
            old(self).buffered().len() == 0 ==> ({
                let filled = fill(old(self).source(), old(self).position(), old(self).lines());
                &&& final(self).lines() == filled.line
                &&& match r {
                    Ok(()) => filled.tokens matches Ok(tokens) && final(buf)@ == old(buf)@ + tokens
                        && final(self).buffered().len() == 0 && final(self).position()
                        == filled.pos,
                    Err(e) => filled.tokens == Err::<Seq<Token>, ParseError>(e) && final(buf)@
                        == old(buf)@,
                }
            }),
    {
        if self.token_buf.len() == 0 {
            match self.fill_token_buf() {
                Ok(()) => {},
                Err(e) => {
                    return Err(e);
                },
            }
            assert(old(self).token_buf@ + self.token_buf@ =~= self.token_buf@);
        }
        let ghost all = self.token_buf@;
        let ghost before = buf@;
        let ghost pos = self.pos;
        let ghost lines = self.line_count;
        let count = self.token_buf.len();
        let mut k: usize = 0;
        assert(all.skip(0) =~= all);
        assert(before + all.take(0) =~= before);
        while k < count
            invariant
                k <= count,
                count == all.len(),
                self.wf(),
                self.source == old(self).source,
                self.pos == pos,
                self.line_count == lines,
                self.token_buf@ == all.skip(k as int),
                buf@ == before + all.take(k as int),
            decreases count - k,
        {
            let front = self.token_buf.pop_front().unwrap();
            buf.push(front);
            assert(self.token_buf@ =~= all.skip(k + 1));
            assert(buf@ =~= before + all.take(k + 1));
            k += 1;
        }
        assert(all.take(count as int) =~= all);
        Ok(())
    }

    /// The next token, if one is left, without taking it.
    pub fn peek(&mut self) -> (r: Result<Option<&Token>, ParseError>)
        requires
            old(self).wf(),
        ensures
            final(self).wf(),
            final(self).source() == old(self).source(),
            old(self).buffered().len() > 0 ==> r is Ok && r->Ok_0 is Some && *r->Ok_0->Some_0
                == old(self).buffered()[0] && final(self).buffered() == old(self).buffered()
                && final(self).position() == old(self).position() && final(self).lines() == old(self).lines(),
            old(self).buffered().len() == 0 ==> ({
                let filled = fill(old(self).source(), old(self).position(), old(self).lines());
                &&& final(self).lines() == filled.line
                &&& match r {
                    Ok(Some(token)) => filled.tokens matches Ok(tokens) && tokens.len() > 0
                        && *token == tokens[0] && final(self).buffered() == tokens && final(self).position() == filled.pos,
                    Ok(None) => filled.tokens matches Ok(tokens) && tokens.len() == 0 && final(self).buffered().len() == 0 && final(self).position() == filled.pos,
                    Err(e) => filled.tokens == Err::<Seq<Token>, ParseError>(e),
                }
            }),
            match r {
                Ok(Some(token)) => old(self).ahead().tokens.len() > 0 && *token == old(
                    self,
                ).ahead().tokens[0] && final(self).ahead() == old(self).ahead(),
                Ok(None) => old(self).ahead() == (Ahead { tokens: Seq::empty(), error: None })
                    && final(self).ahead() == old(self).ahead(),
                Err(e) => old(self).ahead() == (Ahead { tokens: Seq::empty(), error: Some(e) }),
            },
    {
        if self.token_buf.len() == 0 {
            proof {
                self.lemma_ahead();
                lemma_fill(self.source@, self.pos as int, self.line_count);
            }
            match self.fill_token_buf() {
                Ok(()) => {},
                Err(e) => {
                    return Err(e);
                },
            }
            assert(old(self).token_buf@ + self.token_buf@ =~= self.token_buf@);
            proof {
                let after = lex_ahead(self.source@, self.pos as int, self.line_count);
                if self.token_buf@.len() == 0 {
                    assert(self.token_buf@ + after.tokens =~= after.tokens);
                }
            }
        }
        if self.token_buf.len() > 0 {
            Ok(Some(&self.token_buf[0]))
        } else {
            Ok(None)
        }
    }
}

} // verus!
