//! The lexer of the OpenQASM 2.0 front-end: one line, one statement.
use crate::error::ParseError;
use crate::input::lexer::{
    all_ascii, bump, digits_value, has_word, is_blank, is_blank_byte, lemma_skip_class,
    read_number, skip, skip_class, starts_with_at, ByteClass,
};
use std::collections::VecDeque;
use vstd::prelude::*;

verus! {

/// The gates that the front-end knows.
#[derive(Debug, Clone, Copy, PartialEq, Eq, Structural)]
pub enum FixedGate {
    H,
    T,
    Tdg,
    S,
    Sdg,
    X,
    Y,
    Z,
    Cx,
}

impl FixedGate {
    /// Which gate a name stands for.
    pub open spec fn of_name(name: Seq<u8>) -> Option<FixedGate> {
        if name == seq![0x68u8] {
            Some(FixedGate::H)
        } else if name == seq![0x74u8] {
            Some(FixedGate::T)
        } else if name == seq![0x74u8, 0x64, 0x67] {
            Some(FixedGate::Tdg)
        } else if name == seq![0x73u8] {
            Some(FixedGate::S)
        } else if name == seq![0x73u8, 0x64, 0x67] {
            Some(FixedGate::Sdg)
        } else if name == seq![0x78u8] {
            Some(FixedGate::X)
        } else if name == seq![0x79u8] {
            Some(FixedGate::Y)
        } else if name == seq![0x7au8] {
            Some(FixedGate::Z)
        } else if name == seq![0x63u8, 0x78] {
            Some(FixedGate::Cx)
        } else {
            None
        }
    }

    /// Which gate a name stands for.
    pub fn try_from_name(name: &[u8]) -> (r: Option<Self>)
        ensures
            r == Self::of_name(name@),
    {
        let n = name.len();
        if n == 1 {
            let c = name[0];
            let r = if c == 0x68 {
                Some(FixedGate::H)
            } else if c == 0x74 {
                Some(FixedGate::T)
            } else if c == 0x73 {
                Some(FixedGate::S)
            } else if c == 0x78 {
                Some(FixedGate::X)
            } else if c == 0x79 {
                Some(FixedGate::Y)
            } else if c == 0x7a {
                Some(FixedGate::Z)
            } else {
                None
            };
            assert(name@ =~= seq![c]);
            proof {
                if r is None {
                    assert(name@ != seq![0x68u8]) by {
                        assert(seq![0x68u8][0] == 0x68);
                    }
                    assert(seq![0x74u8][0] == 0x74);
                    assert(seq![0x73u8][0] == 0x73);
                    assert(seq![0x78u8][0] == 0x78);
                    assert(seq![0x79u8][0] == 0x79);
                    assert(seq![0x7au8][0] == 0x7a);
                }
            }
            r
        } else if n == 2 {
            if name[0] == 0x63 && name[1] == 0x78 {
                assert(name@ =~= seq![0x63u8, 0x78]);
                Some(FixedGate::Cx)
            } else {
                proof {
                    let cx = seq![0x63u8, 0x78];
                    assert(cx[0] == 0x63 && cx[1] == 0x78);
                }
                None
            }
        } else if n == 3 {
            if name[0] == 0x74 && name[1] == 0x64 && name[2] == 0x67 {
                assert(name@ =~= seq![0x74u8, 0x64, 0x67]);
                Some(FixedGate::Tdg)
            } else if name[0] == 0x73 && name[1] == 0x64 && name[2] == 0x67 {
                assert(name@ =~= seq![0x73u8, 0x64, 0x67]);
                Some(FixedGate::Sdg)
            } else {
                proof {
                    let tdg = seq![0x74u8, 0x64, 0x67];
                    let sdg = seq![0x73u8, 0x64, 0x67];
                    assert(tdg[0] == 0x74 && tdg[1] == 0x64 && tdg[2] == 0x67);
                    assert(sdg[0] == 0x73 && sdg[1] == 0x64 && sdg[2] == 0x67);
                }
                None
            }
        } else {
            None
        }
    }
}

/// A statement of a program.
#[derive(Debug, Clone, PartialEq, Eq)]
pub enum Token {
    /// The version statement, with the major version.
    Version(i8),
    /// An include statement, with the name of the file.
    Include(Vec<u8>),
    /// The declaration of a quantum register, with its name and size.
    QregDecl(Vec<u8>, usize),
    /// A gate and the indices of the qubits that it acts on.
    FixedGate(FixedGate, Vec<usize>),
}

/// The mathematical content of a statement.
pub enum TokenView {
    Version(i8),
    Include(Seq<u8>),
    QregDecl(Seq<u8>, usize),
    FixedGate(FixedGate, Seq<usize>),
}

impl View for Token {
    type V = TokenView;

    open spec fn view(&self) -> TokenView {
        match *self {
            Token::Version(v) => TokenView::Version(v),
            Token::Include(name) => TokenView::Include(name@),
            Token::QregDecl(name, size) => TokenView::QregDecl(name@, size),
            Token::FixedGate(gate, qubits) => TokenView::FixedGate(gate, qubits@),
        }
    }
}

/// What a line that is not blank says.
pub enum Statement {
    Token(TokenView),
    /// A statement that is passed over: the declaration of a classical
    /// register.
    Skip,
    Unrecognized,
    BadNumber,
    UnknownGate,
    BadQubit,
}

/// Whether the line ends, from index `i` on, with a semicolon, with
/// optional space around it.
pub open spec fn tail_ok(line: Seq<u8>, i: int) -> bool {
    let semi = skip_class(line, i, ByteClass::Space);
    semi < line.len() && line[semi] == 0x3b && skip_class(line, semi + 1, ByteClass::Space)
        == line.len()
}

/// The word `OPENQASM`.
pub open spec fn word_openqasm() -> Seq<u8> {
    seq![0x4fu8, 0x50, 0x45, 0x4e, 0x51, 0x41, 0x53, 0x4d]
}

/// The word `include`.
pub open spec fn word_include() -> Seq<u8> {
    seq![0x69u8, 0x6e, 0x63, 0x6c, 0x75, 0x64, 0x65]
}

/// The word `qreg`.
pub open spec fn word_qreg() -> Seq<u8> {
    seq![0x71u8, 0x72, 0x65, 0x67]
}

/// The word `creg`.
pub open spec fn word_creg() -> Seq<u8> {
    seq![0x63u8, 0x72, 0x65, 0x67]
}

/// A version statement: `OPENQASM`, the major version, any one character,
/// the minor version. Gives where the digits of the major version stand.
/// Of a run of digits without a separator the last but one stands for the
/// separator.
pub open spec fn match_version(line: Seq<u8>) -> Option<(int, int)> {
    let a = skip_class(line, 0, ByteClass::Space);
    let b = skip_class(line, a + 8, ByteClass::Space);
    let q = skip_class(line, b, ByteClass::Digit);
    if has_word(line, a, word_openqasm()) && b > a + 8 && q > b {
        let d2 = skip_class(line, q + 1, ByteClass::Digit);
        if q < line.len() && line[q] != 10 && d2 > q + 1 && tail_ok(line, d2) {
            Some((b, q))
        } else if q - b >= 3 && tail_ok(line, q) {
            Some((b, q - 2))
        } else {
            None
        }
    } else {
        None
    }
}

/// An include statement: `include` and, in double quotes, a file name of
/// two words with any one character between them. Gives where the name
/// stands. Of one word without a separator the last letter but one stands
/// for the separator.
pub open spec fn match_include(line: Seq<u8>) -> Option<(int, int)> {
    let a = skip_class(line, 0, ByteClass::Space);
    let b = skip_class(line, a + 7, ByteClass::Space);
    let p = b + 1;
    let q = skip_class(line, p, ByteClass::Word);
    if has_word(line, a, word_include()) && b > a + 7 && b < line.len() && line[b] == 0x22 && q
        > p {
        let w2 = skip_class(line, q + 1, ByteClass::Word);
        if q < line.len() && line[q] != 10 && w2 > q + 1 && w2 < line.len() && line[w2] == 0x22
            && tail_ok(line, w2 + 1) {
            Some((p, w2))
        } else if q - p >= 3 && q < line.len() && line[q] == 0x22 && tail_ok(line, q + 1) {
            Some((p, q))
        } else {
            None
        }
    } else {
        None
    }
}

/// The declaration of a register: the keyword, a name and, in square
/// brackets, a size. Gives where the name ends and where the size ends;
/// the name starts after the keyword and the space that follows it.
pub open spec fn match_register(line: Seq<u8>, keyword: Seq<u8>) -> Option<(int, int, int)> {
    let a = skip_class(line, 0, ByteClass::Space);
    let b = skip_class(line, a + 4, ByteClass::Space);
    let q = skip_class(line, b, ByteClass::Word);
    let d = skip_class(line, q + 1, ByteClass::Digit);
    if has_word(line, a, keyword) && keyword.len() == 4 && b > a + 4 && q > b && q < line.len()
        && line[q] == 0x5b && d > q + 1 && d < line.len() && line[d] == 0x5d && tail_ok(
        line,
        d + 1,
    ) {
        Some((b, q, d))
    } else {
        None
    }
}

/// One operand of a gate, from index `i` on: a name and, maybe, an index
/// in square brackets. Gives where the operand ends and where the digits
/// of its index stand, if it has one.
pub open spec fn match_operand(line: Seq<u8>, i: int) -> Option<(int, Option<(int, int)>)> {
    let w = skip_class(line, i, ByteClass::Word);
    if w > i {
        if w < line.len() && line[w] == 0x5b {
            let d = skip_class(line, w + 1, ByteClass::Digit);
            if d > w + 1 && d < line.len() && line[d] == 0x5d {
                Some((d + 1, Some((w + 1, d))))
            } else {
                None
            }
        } else {
            Some((w, None))
        }
    } else {
        None
    }
}

/// The operands of a gate from index `i` on, with commas between them.
/// Gives where the digits of their indices stand, and where the operands
/// end.
pub open spec fn match_operands(line: Seq<u8>, i: int) -> Option<(Seq<Option<(int, int)>>, int)>
    decreases line.len() - i,
{
    match match_operand(line, i) {
        None => None,
        Some((end, index)) => {
            if i < end && end < line.len() && line[end] == 0x2c {
                let next = skip_class(line, end + 1, ByteClass::Space);
                if end < next <= line.len() {
                    match match_operands(line, next) {
                        None => None,
                        Some((rest, last)) => Some((seq![index] + rest, last)),
                    }
                } else {
                    None
                }
            } else {
                Some((seq![index], end))
            }
        },
    }
}

/// A gate statement: a gate name and operands. Gives where the name ends
/// and where the digits of the indices stand.
pub open spec fn match_gate(line: Seq<u8>) -> Option<(int, Seq<Option<(int, int)>>)> {
    let a = skip_class(line, 0, ByteClass::Space);
    let g = skip_class(line, a, ByteClass::Word);
    let b = skip_class(line, g, ByteClass::Space);
    if g > a && b > g {
        match match_operands(line, b) {
            Some((operands, end)) => if tail_ok(line, end) {
                Some((g, operands))
            } else {
                None
            },
            None => None,
        }
    } else {
        None
    }
}

/// The indices that the operands spell, if every operand has one and it
/// fits a machine word.
pub open spec fn operand_indices(line: Seq<u8>, operands: Seq<Option<(int, int)>>) -> Result<
    Seq<usize>,
    Statement,
>
    decreases operands.len(),
{
    if operands.len() == 0 {
        Ok(Seq::empty())
    } else {
        match operand_indices(line, operands.drop_last()) {
            Err(e) => Err(e),
            Ok(rest) => match operands.last() {
                None => Err(Statement::BadQubit),
                Some((from, to)) => {
                    let value = digits_value(line.subrange(from, to));
                    if value <= 0xffff_ffff {
                        Ok(rest.push(value as usize))
                    } else {
                        Err(Statement::BadNumber)
                    }
                },
            },
        }
    }
}

/// The meaning of a line: the first of the forms version, include,
/// quantum register, classical register and gate that the line has.
pub open spec fn lex_statement(line: Seq<u8>) -> Statement {
    let a = skip_class(line, 0, ByteClass::Space);
    match match_version(line) {
        Some((from, to)) => {
            let major = digits_value(line.subrange(from, to));
            if major <= 127 {
                Statement::Token(TokenView::Version(major as i8))
            } else {
                Statement::BadNumber
            }
        },
        None => match match_include(line) {
            Some((from, to)) => Statement::Token(TokenView::Include(line.subrange(from, to))),
            None => match match_register(line, word_qreg()) {
                Some((from, to, end)) => {
                    let size = digits_value(line.subrange(to + 1, end));
                    if size <= 0xffff_ffff {
                        Statement::Token(
                            TokenView::QregDecl(line.subrange(from, to), size as usize),
                        )
                    } else {
                        Statement::BadNumber
                    }
                },
                None => match match_register(line, word_creg()) {
                    Some(_) => Statement::Skip,
                    None => match match_gate(line) {
                        Some((g, operands)) => match FixedGate::of_name(line.subrange(a, g)) {
                            None => Statement::UnknownGate,
                            Some(gate) => match operand_indices(line, operands) {
                                Ok(indices) => Statement::Token(
                                    TokenView::FixedGate(gate, indices),
                                ),
                                Err(e) => e,
                            },
                        },
                        None => Statement::Unrecognized,
                    },
                },
            },
        },
    }
}

/// Whether the line ends, from index `i` on, with a semicolon.
fn check_tail(line: &[u8], i: usize) -> (r: bool)
    requires
        i <= line@.len(),
    ensures
        r == tail_ok(line@, i as int),
{
    let n = line.len();
    let semi = skip(line, i, ByteClass::Space);
    semi < n && line[semi] == 0x3b && skip(line, semi + 1, ByteClass::Space) == n
}

/// Reads a version statement.
fn read_version(line: &[u8]) -> (r: Option<(usize, usize)>)
    ensures
        match r {
            Some((from, to)) => match_version(line@) == Some((from as int, to as int)) && from
                <= to <= line@.len() && forall|k: int|
                from <= k < to ==> ByteClass::Digit.holds(line@[k]),
            None => match_version(line@) is None,
        },
{
    let n = line.len();
    let a = skip(line, 0, ByteClass::Space);
    let word: [u8; 8] = [0x4f, 0x50, 0x45, 0x4e, 0x51, 0x41, 0x53, 0x4d];
    proof {
        assert(word@ =~= word_openqasm());
    }
    if !starts_with_at(line, a, word.as_slice()) {
        return None;
    }
    let b = skip(line, a + 8, ByteClass::Space);
    let q = skip(line, b, ByteClass::Digit);
    proof {
        lemma_skip_class(line@, b as int, ByteClass::Digit);
    }
    if !(b > a + 8 && q > b) {
        return None;
    }
    if q < n && line[q] != 10 {
        let d2 = skip(line, q + 1, ByteClass::Digit);
        if d2 > q + 1 && check_tail(line, d2) {
            return Some((b, q));
        }
    }
    if q - b >= 3 && check_tail(line, q) {
        Some((b, q - 2))
    } else {
        None
    }
}

/// Reads an include statement.
fn read_include(line: &[u8]) -> (r: Option<(usize, usize)>)
    ensures
        match r {
            Some((from, to)) => match_include(line@) == Some((from as int, to as int)) && from
                <= to <= line@.len(),
            None => match_include(line@) is None,
        },
{
    let n = line.len();
    let a = skip(line, 0, ByteClass::Space);
    let word: [u8; 7] = [0x69, 0x6e, 0x63, 0x6c, 0x75, 0x64, 0x65];
    proof {
        assert(word@ =~= word_include());
    }
    if !starts_with_at(line, a, word.as_slice()) {
        return None;
    }
    let b = skip(line, a + 7, ByteClass::Space);
    if !(b > a + 7 && b < n && line[b] == 0x22) {
        return None;
    }
    let p = b + 1;
    let q = skip(line, p, ByteClass::Word);
    if !(q > p) {
        return None;
    }
    if q < n && line[q] != 10 {
        let w2 = skip(line, q + 1, ByteClass::Word);
        if w2 > q + 1 && w2 < n && line[w2] == 0x22 && check_tail(line, w2 + 1) {
            return Some((p, w2));
        }
    }
    if q - p >= 3 && q < n && line[q] == 0x22 && check_tail(line, q + 1) {
        Some((p, q))
    } else {
        None
    }
}

/// Reads the declaration of a register.
fn read_register(line: &[u8], keyword: &[u8]) -> (r: Option<(usize, usize, usize)>)
    requires
        keyword@.len() == 4,
    ensures
        match r {
            Some((from, to, end)) => match_register(line@, keyword@) == Some(
                (from as int, to as int, end as int),
            ) && from <= to < end <= line@.len() && forall|k: int|
                to + 1 <= k < end ==> ByteClass::Digit.holds(line@[k]),
            None => match_register(line@, keyword@) is None,
        },
{
    let n = line.len();
    let a = skip(line, 0, ByteClass::Space);
    if !starts_with_at(line, a, keyword) {
        return None;
    }
    let b = skip(line, a + 4, ByteClass::Space);
    let q = skip(line, b, ByteClass::Word);
    if !(b > a + 4 && q > b && q < n && line[q] == 0x5b) {
        return None;
    }
    let d = skip(line, q + 1, ByteClass::Digit);
    proof {
        lemma_skip_class(line@, q + 1, ByteClass::Digit);
    }
    if d > q + 1 && d < n && line[d] == 0x5d && check_tail(line, d + 1) {
        Some((b, q, d))
    } else {
        None
    }
}

/// Reads the operands of a gate from index `i` on and appends their
/// indices to `out`. Gives where the operands end, or whether the first
/// operand in error holds a number that is too large.
fn read_operands(line: &[u8], i: usize, out: &mut Vec<usize>) -> (r: Option<(usize, Option<bool>)>)
    requires
        i <= line@.len(),
    ensures
        match match_operands(line@, i as int) {
            None => r is None,
            Some((operands, end)) => {
                &&& i < end <= line@.len()
                &&& r matches Some((stop, failure)) && stop == end && match operand_indices(
                    line@,
                    operands,
                ) {
                    Ok(indices) => failure is None && final(out)@ == old(out)@ + indices,
                    Err(e) => (failure == Some(true) && e is BadNumber) || (failure == Some(false)
                        && e is BadQubit),
                }
            },
        },
{
    let n = line.len();
    let ghost before = out@;
    let mut at = i;
    let mut failure: Option<bool> = None;
    let ghost mut read = Seq::<Option<(int, int)>>::empty();
    proof {
        assert(out@.skip(before.len() as int) =~= Seq::<usize>::empty());
        assert(out@.take(before.len() as int) =~= before);
        match match_operands(line@, at as int) {
            Some((rest, last)) => {
                assert(read + rest =~= rest);
            },
            None => {},
        }
    }
    loop
        invariant
            n == line@.len(),
            i <= at <= n,
            read.len() > 0 ==> i < at,
            match_operands(line@, i as int) == match match_operands(line@, at as int) {
                None => None::<(Seq<Option<(int, int)>>, int)>,
                Some((rest, last)) => Some((read + rest, last)),
            },
            out@.len() >= before.len(),
            before == old(out)@,
            out@.take(before.len() as int) == before,
            match failure {
                None => operand_indices(line@, read) matches Ok(indices) && indices == out@.skip(
                    before.len() as int,
                ),
                Some(true) => operand_indices(line@, read) matches Err(Statement::BadNumber),
                Some(false) => operand_indices(line@, read) matches Err(Statement::BadQubit),
            },
        decreases n - at,
    {
        let w = skip(line, at, ByteClass::Word);
        if !(w > at) {
            return None;
        }
        let mut end = w;
        let ghost mut index: Option<(int, int)> = None;
        proof {
            assert(read.push(index).drop_last() =~= read);
        }
        if w < n && line[w] == 0x5b {
            let d = skip(line, w + 1, ByteClass::Digit);
            proof {
                lemma_skip_class(line@, w + 1, ByteClass::Digit);
            }
            if !(d > w + 1 && d < n && line[d] == 0x5d) {
                return None;
            }
            end = d + 1;
            proof {
                index = Some((w + 1, d as int));
                assert(read.push(index).drop_last() =~= read);
            }
            if failure.is_none() {
                match read_number(line, w + 1, d, 0xffff_ffff) {
                    Some(value) => {
                        let ghost so_far = out@.skip(before.len() as int);
                        out.push(value as usize);
                        proof {
                            assert(out@.skip(before.len() as int) =~= so_far.push(value as usize));
                            assert(out@.take(before.len() as int) =~= before);
                        }
                    },
                    None => {
                        failure = Some(true);
                    },
                }
            }
        } else {
            if failure.is_none() {
                failure = Some(false);
            }
        }
        let ghost prev = read;
        let ghost here = at as int;
        proof {
            assert(match_operand(line@, here) == Some((end as int, index)));
            let grown = read.push(index);
            match match_operands(line@, at as int) {
                Some((rest, last)) => {
                    if end < n && line@[end as int] == 0x2c {
                        let next = skip_class(line@, end + 1, ByteClass::Space);
                        lemma_skip_class(line@, end + 1, ByteClass::Space);
                        match match_operands(line@, next) {
                            Some((more, last2)) => {
                                assert(read + (seq![index] + more) =~= grown + more);
                            },
                            None => {},
                        }
                    } else {
                        assert(read + seq![index] =~= grown);
                    }
                },
                None => {},
            }
            read = grown;
        }
        if end < n && line[end] == 0x2c {
            at = skip(line, end + 1, ByteClass::Space);
        } else {
            proof {
                assert(match_operands(line@, here) == Some((seq![index], end as int)));
                assert(prev + seq![index] =~= read);
                assert(match_operands(line@, i as int) == Some((read, end as int)));
                assert(before + out@.skip(before.len() as int) =~= out@);
            }
            return Some((end, failure));
        }
    }
}

/// The contents of a run of tokens.
pub open spec fn token_views(tokens: Seq<Token>) -> Seq<TokenView> {
    Seq::new(tokens.len(), |i: int| tokens[i]@)
}

/// A copy of the bytes `line[from..to]`.
fn copy_range(line: &[u8], from: usize, to: usize) -> (r: Vec<u8>)
    requires
        from <= to <= line@.len(),
    ensures
        r@ == line@.subrange(from as int, to as int),
{
    let mut out: Vec<u8> = Vec::new();
    let mut k = from;
    while k < to
        invariant
            from <= k <= to <= line@.len(),
            out@ == line@.subrange(from as int, k as int),
        decreases to - k,
    {
        out.push(line[k]);
        assert(out@ =~= line@.subrange(from as int, k + 1));
        k += 1;
    }
    out
}

/// Reads a line that is not blank. Gives its token, or nothing for a
/// statement that is passed over.
pub fn lex_statement_line(line: &[u8], number: usize) -> (r: Result<Option<Token>, ParseError>)
    ensures
        match lex_statement(line@) {
            Statement::Token(token) => r is Ok && r->Ok_0 is Some && r->Ok_0->Some_0@ == token,
            Statement::Skip => r is Ok && r->Ok_0 is None,
            Statement::Unrecognized => r == Err::<Option<Token>, ParseError>(
                ParseError::UnrecognizedLine { line: number },
            ),
            Statement::BadNumber => r == Err::<Option<Token>, ParseError>(
                ParseError::BadNumber { line: number },
            ),
            Statement::UnknownGate => r == Err::<Option<Token>, ParseError>(
                ParseError::UnknownGate { line: number },
            ),
            Statement::BadQubit => r == Err::<Option<Token>, ParseError>(ParseError::BadQubit),
        },
{
    if let Some((from, to)) = read_version(line) {
        return match read_number(line, from, to, 127) {
            Some(major) => Ok(Some(Token::Version(major as i8))),
            None => Err(ParseError::BadNumber { line: number }),
        };
    }
    if let Some((from, to)) = read_include(line) {
        return Ok(Some(Token::Include(copy_range(line, from, to))));
    }
    let qreg: [u8; 4] = [0x71, 0x72, 0x65, 0x67];
    let creg: [u8; 4] = [0x63, 0x72, 0x65, 0x67];
    proof {
        assert(qreg@ =~= word_qreg());
        assert(creg@ =~= word_creg());
    }
    if let Some((from, to, end)) = read_register(line, qreg.as_slice()) {
        return match read_number(line, to + 1, end, 0xffff_ffff) {
            Some(size) => Ok(Some(Token::QregDecl(copy_range(line, from, to), size as usize))),
            None => Err(ParseError::BadNumber { line: number }),
        };
    }
    if let Some(_) = read_register(line, creg.as_slice()) {
        return Ok(None);
    }
    let a = skip(line, 0, ByteClass::Space);
    let g = skip(line, a, ByteClass::Word);
    let b = skip(line, g, ByteClass::Space);
    if !(g > a && b > g) {
        return Err(ParseError::UnrecognizedLine { line: number });
    }
    let mut indices: Vec<usize> = Vec::new();
    let (end, failure) = match read_operands(line, b, &mut indices) {
        None => {
            return Err(ParseError::UnrecognizedLine { line: number });
        },
        Some(outcome) => outcome,
    };
    proof {
        assert(Seq::<usize>::empty() + indices@ =~= indices@);
    }
    if !check_tail(line, end) {
        return Err(ParseError::UnrecognizedLine { line: number });
    }
    let name = copy_range(line, a, g);
    let gate = match FixedGate::try_from_name(name.as_slice()) {
        Some(gate) => gate,
        None => {
            return Err(ParseError::UnknownGate { line: number });
        },
    };
    proof {
        let operands = match_operands(line@, b as int)->Some_0.0;
        assert(match_gate(line@) == Some((g as int, operands)));
        if failure is None {
            assert(indices@ =~= operand_indices(line@, operands)->Ok_0);
        }
    }
    match failure {
        None => Ok(Some(Token::FixedGate(gate, indices))),
        Some(true) => Err(ParseError::BadNumber { line: number }),
        Some(false) => Err(ParseError::BadQubit),
    }
}

/// Where the line that starts at `pos` ends: at the first line feed, or at
/// the end of the source.
pub open spec fn statement_end(source: Seq<u8>, pos: int) -> int
    decreases source.len() - pos,
{
    if 0 <= pos < source.len() && source[pos] != 10 {
        statement_end(source, pos + 1)
    } else {
        pos
    }
}

/// A statement ends within the source, after where it starts.
pub proof fn lemma_statement_end(source: Seq<u8>, pos: int)
    requires
        0 <= pos <= source.len(),
    ensures
        pos <= statement_end(source, pos) <= source.len(),
    decreases source.len() - pos,
{
    if pos < source.len() && source[pos] != 10 {
        lemma_statement_end(source, pos + 1);
    }
}

/// Where the line after the one that starts at `pos` starts.
pub open spec fn after_statement(source: Seq<u8>, pos: int) -> int {
    let end = statement_end(source, pos);
    if end < source.len() {
        end + 1
    } else {
        end
    }
}

/// What filling the token buffer yields: the token of the next line that
/// holds one, none at the end of the source, or an error; where the source
/// is read on from; and the number of lines read.
pub struct Fill {
    pub token: Result<Option<TokenView>, ParseError>,
    pub pos: int,
    pub line: usize,
}

/// Filling the token buffer from position `pos`, `line` lines read so far.
/// Blank lines and the declarations of classical registers are passed
/// over.
pub open spec fn fill(source: Seq<u8>, pos: int, line: usize) -> Fill
    decreases source.len() - pos,
{
    let number = bump(line);
    if pos < 0 || pos >= source.len() {
        Fill { token: Ok(None), pos, line: number }
    } else {
        let end = statement_end(source, pos);
        let next = after_statement(source, pos);
        let text = source.subrange(pos, end);
        if !all_ascii(text) {
            Fill { token: Err(ParseError::NonAscii { line: number }), pos: next, line: number }
        } else if is_blank(text) || lex_statement(text) is Skip {
            if pos < next <= source.len() {
                fill(source, next, number)
            } else {
                Fill { token: Ok(None), pos, line: number }
            }
        } else {
            Fill {
                token: match lex_statement(text) {
                    Statement::Token(token) => Ok(Some(token)),
                    Statement::Skip => Ok(None),
                    Statement::Unrecognized => Err(ParseError::UnrecognizedLine { line: number }),
                    Statement::BadNumber => Err(ParseError::BadNumber { line: number }),
                    Statement::UnknownGate => Err(ParseError::UnknownGate { line: number }),
                    Statement::BadQubit => Err(ParseError::BadQubit),
                },
                pos: next,
                line: number,
            }
        }
    }
}

/// All tokens from position `pos` on, or the first error.
pub open spec fn lex_from(source: Seq<u8>, pos: int, line: usize) -> Result<
    Seq<TokenView>,
    ParseError,
>
    decreases source.len() - pos,
{
    if pos < 0 || pos >= source.len() {
        Ok(Seq::empty())
    } else {
        let first = fill(source, pos, line);
        match first.token {
            Err(e) => Err(e),
            Ok(None) => Ok(Seq::empty()),
            Ok(Some(token)) => {
                if pos < first.pos <= source.len() {
                    match lex_from(source, first.pos, first.line) {
                        Ok(rest) => Ok(seq![token] + rest),
                        Err(e) => Err(e),
                    }
                } else {
                    Ok(seq![token])
                }
            },
        }
    }
}

/// All tokens of a program, or the first error.
pub open spec fn lex(source: Seq<u8>) -> Result<Seq<TokenView>, ParseError> {
    lex_from(source, 0, 0)
}

/// Filling the buffer moves on in the text.
pub proof fn lemma_fill(source: Seq<u8>, pos: int, line: usize)
    requires
        0 <= pos <= source.len(),
    ensures
        pos <= fill(source, pos, line).pos <= source.len(),
        fill(source, pos, line).token matches Ok(Some(_)) ==> pos < fill(source, pos, line).pos,
        fill(source, pos, line).token matches Ok(None) ==> fill(source, pos, line).pos
            == source.len(),
    decreases source.len() - pos,
{
    if pos < source.len() {
        lemma_statement_end(source, pos);
        let next = after_statement(source, pos);
        let text = source.subrange(pos, statement_end(source, pos));
        if all_ascii(text) && (is_blank(text) || lex_statement(text) is Skip) {
            lemma_fill(source, next, bump(line));
        }
    }
}

/// The lexer: hands out the tokens of a program, line by line.
#[derive(Debug)]
pub struct TokenIterator<'a> {
    source: &'a [u8],
    pos: usize,
    token_buf: VecDeque<Token>,
    line_buf: Vec<u8>,
    line_count: usize,
}

impl<'a> TokenIterator<'a> {
    /// The program text.
    pub closed spec fn source(&self) -> Seq<u8> {
        self.source@
    }

    /// How far the text was read.
    pub closed spec fn position(&self) -> int {
        self.pos as int
    }

    /// The tokens that were read and not yet handed out.
    pub closed spec fn buffered(&self) -> Seq<TokenView> {
        token_views(self.token_buf@)
    }

    /// The number of lines read.
    pub closed spec fn lines(&self) -> usize {
        self.line_count
    }

    /// The position lies within the text.
    pub closed spec fn wf(&self) -> bool {
        self.pos <= self.source@.len()
    }

    /// The tokens that are still to come, or the first error among them.
    pub open spec fn remaining(&self) -> Result<Seq<TokenView>, ParseError> {
        match lex_from(self.source(), self.position(), self.lines()) {
            Ok(rest) => Ok(self.buffered() + rest),
            Err(e) => Err(e),
        }
    }

    /// A lexer at the start of `source`.
    pub fn new(source: &'a [u8]) -> (r: Self)
        ensures
            r.wf(),
            r.source() == source@,
            r.position() == 0,
            r.buffered().len() == 0,
            r.lines() == 0,
    {
        Self {
            source,
            pos: 0,
            token_buf: VecDeque::with_capacity(128),
            line_buf: Vec::with_capacity(128),
            line_count: 0,
        }
    }

    /// Reads lines until one holds a token, and puts the token into the
    /// token buffer. At the end of the text the buffer stays as it is.
    fn fill_token_buf(&mut self) -> (r: Result<(), ParseError>)
        requires
            old(self).wf(),
        ensures
            final(self).wf(),
            final(self).source() == old(self).source(),
            ({
                let filled = fill(old(self).source(), old(self).position(), old(self).lines());
                &&& final(self).lines() == filled.line
                &&& match r {
                    Ok(()) => filled.token is Ok && final(self).buffered() == old(self).buffered() + (
                    match filled.token->Ok_0 {
                        Some(token) => seq![token],
                        None => Seq::empty(),
                    }) && final(self).position() == filled.pos,
                    Err(e) => filled.token == Err::<Option<TokenView>, ParseError>(e) && final(self).buffered() == old(self).buffered(),
                }
            }),
    {
        let n = self.source.len();
        loop
            invariant
                self.wf(),
                n == self.source@.len(),
                self.source == old(self).source,
                self.token_buf@ == old(self).token_buf@,
                fill(self.source@, self.pos as int, self.line_count) == fill(
                    old(self).source(),
                    old(self).position(),
                    old(self).lines(),
                ),
            decreases n - self.pos,
        {
            let ghost line0 = self.line_count;
            let ghost head = fill(self.source@, self.pos as int, line0);
            if self.line_count < usize::MAX {
                self.line_count += 1;
            }
            self.line_buf.clear();
            if self.pos >= n {
                assert(self.buffered() + Seq::<TokenView>::empty() =~= self.buffered());
                return Ok(());
            }
            let start = self.pos;
            proof {
                lemma_statement_end(self.source@, start as int);
                assert(self.source@.subrange(start as int, start as int) =~= Seq::<u8>::empty());
            }
            let mut ascii = true;
            let mut blank = true;
            let mut at = start;
            let ghost number = self.line_count;
            while at < n && self.source[at] != 10
                invariant
                    n == self.source@.len(),
                    self.line_count == number,
                    start <= at <= n,
                    self.pos == start,
                    self.source == old(self).source,
                    self.token_buf@ == old(self).token_buf@,
                    statement_end(self.source@, at as int) == statement_end(
                        self.source@,
                        start as int,
                    ),
                    self.line_buf@ == self.source@.subrange(start as int, at as int),
                    ascii == all_ascii(self.source@.subrange(start as int, at as int)),
                    blank == is_blank(self.source@.subrange(start as int, at as int)),
                decreases n - at,
            {
                let byte = self.source[at];
                if byte >= 0x80 {
                    ascii = false;
                }
                if !(byte == 32 || byte == 9 || byte == 10 || byte == 12 || byte == 13) {
                    blank = false;
                }
                self.line_buf.push(byte);
                proof {
                    let old_text = self.source@.subrange(start as int, at as int);
                    let text = self.source@.subrange(start as int, at + 1);
                    assert(text =~= old_text.push(byte));
                    assert(self.line_buf@ =~= text);
                    assert(text[at - start] == byte);
                    if all_ascii(old_text) && byte < 0x80 {
                        assert forall|i: int| 0 <= i < text.len() implies text[i] < 0x80 by {
                            if i < old_text.len() {
                                assert(text[i] == old_text[i]);
                            }
                        }
                    }
                    if all_ascii(text) {
                        assert forall|i: int| 0 <= i < old_text.len() implies old_text[i]
                            < 0x80 by {
                            assert(text[i] == old_text[i]);
                        }
                    }
                    if is_blank(old_text) && is_blank_byte(byte) {
                        assert forall|i: int| 0 <= i < text.len() implies is_blank_byte(
                            #[trigger] text[i],
                        ) by {
                            if i < old_text.len() {
                                assert(text[i] == old_text[i]);
                            }
                        }
                    }
                    if is_blank(text) {
                        assert(is_blank_byte(text[at - start]));
                        assert forall|i: int| 0 <= i < old_text.len() implies is_blank_byte(
                            #[trigger] old_text[i],
                        ) by {
                            assert(text[i] == old_text[i]);
                        }
                    }
                }
                at += 1;
            }
            proof {
                assert(statement_end(self.source@, at as int) == at);
                assert(statement_end(self.source@, start as int) == at);
            }
            if at < n {
                at += 1;
            }
            self.pos = at;
            proof {
                assert(at as int == after_statement(self.source@, start as int));
                assert(start < at <= n);
            }
            let ghost text = self.source@.subrange(start as int, statement_end(self.source@, start as int));
            proof {
                assert(self.line_buf@ == text);
                assert(self.line_count == bump(line0));
            }
            if !ascii {
                assert(head.token == Err::<Option<TokenView>, ParseError>(
                    ParseError::NonAscii { line: self.line_count },
                ));
                return Err(ParseError::NonAscii { line: self.line_count });
            }
            if !blank {
                match lex_statement_line(self.line_buf.as_slice(), self.line_count) {
                    Ok(Some(token)) => {
                        let ghost before = token_views(self.token_buf@);
                        self.token_buf.push_back(token);
                        assert(token_views(self.token_buf@) =~= before + seq![token@]);
                        assert(head.token == Ok::<Option<TokenView>, ParseError>(Some(token@)));
                        return Ok(());
                    },
                    Ok(None) => {
                        assert(lex_statement(text) is Skip);
                    },
                    Err(e) => {
                        assert(head.token == Err::<Option<TokenView>, ParseError>(e));
                        return Err(e);
                    },
                }
            }
            assert(head == fill(self.source@, self.pos as int, self.line_count));
        }
    }

    /// The next token, if one is left.
    pub fn pop(&mut self) -> (r: Result<Option<Token>, ParseError>)
        requires
            old(self).wf(),
        ensures
            final(self).wf(),
            final(self).source() == old(self).source(),
            old(self).buffered().len() > 0 ==> r is Ok && r->Ok_0 is Some && r->Ok_0->Some_0@
                == old(self).buffered()[0] && final(self).buffered() == old(self).buffered().skip(
                1,
            ) && final(self).position() == old(self).position() && final(self).lines() == old(self).lines(),
            old(self).buffered().len() == 0 ==> ({
                let filled = fill(old(self).source(), old(self).position(), old(self).lines());
                &&& final(self).lines() == filled.line
                &&& final(self).buffered().len() == 0
                &&& match r {
                    Ok(Some(token)) => filled.token == Ok::<Option<TokenView>, ParseError>(
                        Some(token@),
                    ) && final(self).position() == filled.pos,
                    Ok(None) => filled.token == Ok::<Option<TokenView>, ParseError>(None) && final(self).position() == filled.pos,
                    Err(e) => filled.token == Err::<Option<TokenView>, ParseError>(e),
                }
            }),
    {
        let ghost before = token_views(self.token_buf@);
        if let Some(token) = self.token_buf.pop_front() {
            assert(token_views(self.token_buf@) =~= before.skip(1));
            assert(before[0] == token@);
            return Ok(Some(token));
        }
        match self.fill_token_buf() {
            Ok(()) => {},
            Err(e) => {
                assert(token_views(self.token_buf@).len() == 0);
                return Err(e);
            },
        }
        let ghost filled = token_views(self.token_buf@);
        let token = self.token_buf.pop_front();
        proof {
            assert(before =~= Seq::<TokenView>::empty());
            if token is Some {
                assert(token_views(self.token_buf@) =~= filled.skip(1));
                assert(filled[0] == token->Some_0@);
            }
        }
        Ok(token)
    }

    /// The next token, if one is left.
    pub fn next(&mut self) -> (r: Result<Option<Token>, ParseError>)
        requires
            old(self).wf(),
        ensures
            final(self).wf(),
            final(self).source() == old(self).source(),
            old(self).buffered().len() > 0 ==> r is Ok && r->Ok_0 is Some && r->Ok_0->Some_0@
                == old(self).buffered()[0] && final(self).buffered() == old(self).buffered().skip(
                1,
            ) && final(self).position() == old(self).position() && final(self).lines() == old(self).lines(),
            old(self).buffered().len() == 0 ==> ({
                let filled = fill(old(self).source(), old(self).position(), old(self).lines());
                &&& final(self).lines() == filled.line
                &&& final(self).buffered().len() == 0
                &&& match r {
                    Ok(Some(token)) => filled.token == Ok::<Option<TokenView>, ParseError>(
                        Some(token@),
                    ) && final(self).position() == filled.pos,
                    Ok(None) => filled.token == Ok::<Option<TokenView>, ParseError>(None) && final(self).position() == filled.pos,
                    Err(e) => filled.token == Err::<Option<TokenView>, ParseError>(e),
                }
            }),
    {
        self.pop()
    }

    /// Appends to `buf` the token of the next line that holds one, and
    /// those read before it and not yet handed out.
    pub fn pop_line(&mut self, buf: &mut Vec<Token>) -> (r: Result<(), ParseError>)
        requires
            old(self).wf(),
        ensures
            final(self).wf(),
            final(self).source() == old(self).source(),
            old(self).buffered().len() > 0 ==> r is Ok && token_views(final(buf)@) == token_views(
                old(buf)@,
            ) + old(self).buffered() && final(self).buffered().len() == 0 && final(self).position() == old(self).position() && final(self).lines() == old(self).lines(),
            old(self).buffered().len() == 0 ==> ({
                let filled = fill(old(self).source(), old(self).position(), old(self).lines());
                &&& final(self).lines() == filled.line
                &&& match r {
                    Ok(()) => filled.token matches Ok(token) && token_views(final(buf)@)
                        == token_views(old(buf)@) + (match token {
                        Some(token) => seq![token],
                        None => Seq::empty(),
                    }) && final(self).buffered().len() == 0 && final(self).position()
                        == filled.pos,
                    Err(e) => filled.token == Err::<Option<TokenView>, ParseError>(e) && final(buf)@
                        == old(buf)@,
                }
            }),
    {
        let ghost first = token_views(self.token_buf@);
        if self.token_buf.len() == 0 {
            match self.fill_token_buf() {
                Ok(()) => {},
                Err(e) => {
                    return Err(e);
                },
            }
            assert(first + token_views(self.token_buf@) =~= token_views(self.token_buf@));
        }
        let ghost all = token_views(self.token_buf@);
        let ghost before = token_views(buf@);
        let ghost pos = self.pos;
        let ghost lines = self.line_count;
        let count = self.token_buf.len();
        let mut k: usize = 0;
        assert(all.skip(0) =~= all);
        assert(before + all.take(0) =~= before);
        while k < count
            invariant
                k <= count,
                count == all.len(),
                self.wf(),
                self.source == old(self).source,
                self.pos == pos,
                self.line_count == lines,
                token_views(self.token_buf@) == all.skip(k as int),
                token_views(buf@) == before + all.take(k as int),
            decreases count - k,
        {
            let ghost left = token_views(self.token_buf@);
            let ghost done = token_views(buf@);
            assert(self.token_buf@.len() == token_views(self.token_buf@).len());
            let front = self.token_buf.pop_front().unwrap();
            assert(token_views(self.token_buf@) =~= left.skip(1));
            assert(left[0] == front@);
            buf.push(front);
            assert(token_views(buf@) =~= done.push(left[0]));
            assert(token_views(self.token_buf@) =~= all.skip(k + 1));
            assert(token_views(buf@) =~= before + all.take(k + 1));
            k += 1;
        }
        assert(all.take(count as int) =~= all);
        Ok(())
    }

    /// The next token, if one is left, without taking it.
    pub fn peek(&mut self) -> (r: Result<Option<&Token>, ParseError>)
        requires
            old(self).wf(),
        ensures
            final(self).wf(),
            final(self).source() == old(self).source(),
            old(self).buffered().len() > 0 ==> r is Ok && r->Ok_0 is Some && r->Ok_0->Some_0@
                == old(self).buffered()[0] && final(self).buffered() == old(self).buffered()
                && final(self).position() == old(self).position() && final(self).lines() == old(self).lines(),
            old(self).buffered().len() == 0 ==> ({
                let filled = fill(old(self).source(), old(self).position(), old(self).lines());
                &&& final(self).lines() == filled.line
                &&& match r {
                    Ok(Some(token)) => filled.token == Ok::<Option<TokenView>, ParseError>(
                        Some(token@),
                    ) && final(self).buffered() == seq![token@] && final(self).position()
                        == filled.pos,
                    Ok(None) => filled.token == Ok::<Option<TokenView>, ParseError>(None) && final(self).buffered().len() == 0 && final(self).position() == filled.pos,
                    Err(e) => filled.token == Err::<Option<TokenView>, ParseError>(e),
                }
            }),
    {
        let ghost first = token_views(self.token_buf@);
        if self.token_buf.len() == 0 {
            match self.fill_token_buf() {
                Ok(()) => {},
                Err(e) => {
                    return Err(e);
                },
            }
            assert(first + token_views(self.token_buf@) =~= token_views(self.token_buf@));
        }
        if self.token_buf.len() > 0 {
            assert(token_views(self.token_buf@)[0] == self.token_buf@[0]@);
            Ok(Some(&self.token_buf[0]))
        } else {
            Ok(None)
        }
    }

    /// All tokens that are left, or the first error among them.
    pub fn collect(&mut self) -> (r: Result<Vec<Token>, ParseError>)
        requires
            old(self).wf(),
        ensures
            match old(self).remaining() {
                Ok(tokens) => r is Ok && token_views(r->Ok_0@) == tokens,
                Err(e) => r == Err::<Vec<Token>, ParseError>(e),
            },
    {
        let mut out: Vec<Token> = Vec::new();
        let ghost buffered = token_views(self.token_buf@);
        let count = self.token_buf.len();
        let mut k: usize = 0;
        assert(buffered.skip(0) =~= buffered);
        assert(token_views(out@) =~= buffered.take(0));
        let ghost pos = self.pos;
        let ghost lines = self.line_count;
        while k < count
            invariant
                k <= count,
                count == buffered.len(),
                self.wf(),
                self.source == old(self).source,
                self.pos == pos,
                self.line_count == lines,
                token_views(self.token_buf@) == buffered.skip(k as int),
                token_views(out@) == buffered.take(k as int),
            decreases count - k,
        {
            let ghost left = token_views(self.token_buf@);
            let ghost done = token_views(out@);
            assert(self.token_buf@.len() == token_views(self.token_buf@).len());
            let front = self.token_buf.pop_front().unwrap();
            assert(token_views(self.token_buf@) =~= left.skip(1));
            assert(left[0] == front@);
            out.push(front);
            assert(token_views(out@) =~= done.push(left[0]));
            assert(token_views(self.token_buf@) =~= buffered.skip(k + 1));
            assert(token_views(out@) =~= buffered.take(k + 1));
            k += 1;
        }
        assert(buffered.take(count as int) =~= buffered);
        let ghost mut read = Seq::<TokenView>::empty();
        assert(buffered + read =~= buffered);
        loop
            invariant
                self.wf(),
                self.source == old(self).source,
                token_views(self.token_buf@).len() == 0,
                token_views(out@) == buffered + read,
                buffered == old(self).buffered(),
                lex_from(old(self).source(), old(self).position(), old(self).lines()) == match lex_from(
                    self.source@,
                    self.pos as int,
                    self.line_count,
                ) {
                    Ok(rest) => Ok::<Seq<TokenView>, ParseError>(read + rest),
                    Err(e) => Err(e),
                },
            decreases self.source@.len() - self.pos,
        {
            let ghost here = self.pos as int;
            let ghost line = self.line_count;
            proof {
                lemma_fill(self.source@, here, line);
            }
            match self.pop() {
                Ok(Some(token)) => {
                    let ghost done = token_views(out@);
                    proof {
                        let filled = fill(self.source@, here, line);
                        match lex_from(self.source@, filled.pos, filled.line) {
                            Ok(rest) => {
                                assert(read + (seq![token@] + rest) =~= read.push(token@) + rest);
                            },
                            Err(_) => {},
                        }
                        read = read.push(token@);
                    }
                    out.push(token);
                    assert(token_views(out@) =~= done.push(token@));
                    assert(done.push(token@) =~= buffered + read);
                },
                Ok(None) => {
                    proof {
                        assert(read + Seq::<TokenView>::empty() =~= read);
                    }
                    return Ok(out);
                },
                Err(e) => {
                    return Err(e);
                },
            }
        }
    }
}

} // verus!
