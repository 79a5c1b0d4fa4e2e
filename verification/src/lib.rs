//! An optimizer for Clifford+T circuits in the Pauli-rotation formalism.
use basis::{Basis, Basis128, Basis16, Basis256, Basis32, Basis64, Basis8, BasisSize, DBasis};
use bits::bit_traits::BitSeq;
use bits::{Bits, Bits256};
use clifford::{can_conjugate, counters_fit};
use error::ParseError;
use input::lexer::{fill, Token, TokenIterator};
use input::parser::{lemma_stream_read, op_read, parse, parse_circuit};
use operation::{
    all_wf, every, lemma_every, lemma_every_concat, no_nops, op_on, views, Operation,
    OperationView,
};
use optimization::rotation_combination::{lemma_fold_read, op_live};
use optimization::{
    initial_circuit, is_last_round, lemma_last_round, lemma_no_nops, optimized, z_measurements,
    InMemoryOptimizer,
};
use output::{format_circuit, Output, OutputError};
use qasm::lexer::{token_views, TokenView};
use qasm::parser::program_ops;
use vstd::prelude::*;

pub mod basis;
pub mod bits;
pub mod bitseq;
pub mod chunk_iter;
pub mod clifford;
pub mod error;
pub mod input;
pub mod operation;
pub mod optimization;
pub mod output;
pub mod qasm;
pub mod random;
pub mod symplectic;
pub mod tester;

verus! {

/// The supported compression algorithms.
#[derive(Clone, Copy, PartialEq, Eq, Hash, Debug, Structural)]
pub enum CompressionAlgorithm {
    GZip,
}

/// The format of the input.
#[derive(Clone, Copy, PartialEq, Eq, Hash, Debug, Structural)]
pub enum InputType {
    Other,
    Txt,
    Qasm,
}

impl Default for InputType {
    fn default() -> (r: Self)
        ensures
            r == InputType::Other,
    {
        InputType::Other
    }
}

/// The lower-case form of an ASCII letter; any other byte as it is.
pub open spec fn lower_byte(b: u8) -> u8 {
    if 0x41 <= b <= 0x5a {
        (b + 0x20) as u8
    } else {
        b
    }
}

/// Whether `name` is `word` but for the case of its ASCII letters; `word`
/// is in lower case.
pub open spec fn is_word(name: Seq<u8>, word: Seq<u8>) -> bool {
    name.len() == word.len() && forall|i: int|
        0 <= i < name.len() ==> lower_byte(#[trigger] name[i]) == word[i]
}

/// The lower-case form of a byte.
fn to_lower(b: u8) -> (r: u8)
    ensures
        r == lower_byte(b),
{
    if 0x41 <= b && b <= 0x5a {
        b + 0x20
    } else {
        b
    }
}

impl CompressionAlgorithm {
    /// The algorithm that a file extension stands for: gzip for `gz` and
    /// `gzip`, in lower case.
    pub open spec fn of_extension(extension: Seq<u8>) -> Option<CompressionAlgorithm> {
        if extension == seq![0x67u8, 0x7a] || extension == seq![0x67u8, 0x7a, 0x69, 0x70] {
            Some(CompressionAlgorithm::GZip)
        } else {
            None
        }
    }

    /// The algorithm that a file extension, or a name given for it, stands
    /// for.
    pub fn from_extension(extension: &[u8]) -> (r: Option<Self>)
        ensures
            r == Self::of_extension(extension@),
    {
        let n = extension.len();
        proof {
            let gz = seq![0x67u8, 0x7a];
            let gzip = seq![0x67u8, 0x7a, 0x69, 0x70];
            assert(gz.len() == 2 && gz[0] == 0x67 && gz[1] == 0x7a);
            assert(gzip.len() == 4 && gzip[0] == 0x67 && gzip[1] == 0x7a && gzip[2] == 0x69
                && gzip[3] == 0x70);
        }
        if n == 2 && extension[0] == 0x67 && extension[1] == 0x7a {
            assert(extension@ =~= seq![0x67u8, 0x7a]);
            Some(CompressionAlgorithm::GZip)
        } else if n == 4 && extension[0] == 0x67 && extension[1] == 0x7a && extension[2] == 0x69
            && extension[3] == 0x70 {
            assert(extension@ =~= seq![0x67u8, 0x7a, 0x69, 0x70]);
            Some(CompressionAlgorithm::GZip)
        } else {
            None
        }
    }
}

impl InputType {
    /// The format that a name stands for, whatever the case of its
    /// letters: `qasm`, `txt`, or neither.
    pub open spec fn of_name(name: Seq<u8>) -> InputType {
        if is_word(name, seq![0x71u8, 0x61, 0x73, 0x6d]) {
            InputType::Qasm
        } else if is_word(name, seq![0x74u8, 0x78, 0x74]) {
            InputType::Txt
        } else {
            InputType::Other
        }
    }

    /// The format that a file extension, or a name given for it, stands
    /// for.
    pub fn from_name(name: &[u8]) -> (r: Self)
        ensures
            r == Self::of_name(name@),
    {
        let n = name.len();
        let ghost qasm = seq![0x71u8, 0x61, 0x73, 0x6d];
        let ghost txt = seq![0x74u8, 0x78, 0x74];
        proof {
            assert(qasm.len() == 4 && qasm[0] == 0x71 && qasm[1] == 0x61 && qasm[2] == 0x73
                && qasm[3] == 0x6d);
            assert(txt.len() == 3 && txt[0] == 0x74 && txt[1] == 0x78 && txt[2] == 0x74);
        }
        if n == 4 {
            if to_lower(name[0]) == 0x71 && to_lower(name[1]) == 0x61 && to_lower(name[2]) == 0x73
                && to_lower(name[3]) == 0x6d {
                InputType::Qasm
            } else {
                assert(!is_word(name@, qasm)) by {
                    if is_word(name@, qasm) {
                        assert(lower_byte(name@[0]) == qasm[0]);
                        assert(lower_byte(name@[1]) == qasm[1]);
                        assert(lower_byte(name@[2]) == qasm[2]);
                        assert(lower_byte(name@[3]) == qasm[3]);
                    }
                }
                InputType::Other
            }
        } else if n == 3 {
            if to_lower(name[0]) == 0x74 && to_lower(name[1]) == 0x78 && to_lower(name[2]) == 0x74 {
                InputType::Txt
            } else {
                assert(!is_word(name@, txt)) by {
                    if is_word(name@, txt) {
                        assert(lower_byte(name@[0]) == txt[0]);
                        assert(lower_byte(name@[1]) == txt[1]);
                        assert(lower_byte(name@[2]) == txt[2]);
                    }
                }
                InputType::Other
            }
        } else {
            InputType::Other
        }
    }
}

/// The length of the buffers that a run works with: the length asked for,
/// but no more than the most that room is made for ahead of reading.
pub fn capped_buffer_length(target_buffer_length: usize) -> (r: usize)
    ensures
        r == if target_buffer_length > optimization::MAX_PREALLOC_OPERATIONS {
            optimization::MAX_PREALLOC_OPERATIONS
        } else {
            target_buffer_length
        },
{
    if target_buffer_length > optimization::MAX_PREALLOC_OPERATIONS {
        optimization::MAX_PREALLOC_OPERATIONS
    } else {
        target_buffer_length
    }
}

/// The parameters of a run that do not come from the circuit.
#[derive(Clone, Copy, PartialEq, Eq, Debug)]
pub struct RunConfig {
    pub target_buffer_length: usize,
    pub bypass: bool,
    pub shrink_buffer_after_repeat: bool,
    pub full_partitioning: bool,
    pub big_file: bool,
    pub num_operations: Option<usize>,
    pub file_type: InputType,
}

impl Default for RunConfig {
    fn default() -> (r: Self)
        ensures
            r.target_buffer_length == 4096,
            !r.bypass,
            !r.shrink_buffer_after_repeat,
            !r.full_partitioning,
            !r.big_file,
            r.num_operations is None,
            r.file_type == InputType::Other,
    {
        Self {
            target_buffer_length: 4096,
            bypass: false,
            shrink_buffer_after_repeat: false,
            full_partitioning: false,
            big_file: false,
            num_operations: None,
            file_type: InputType::Other,
        }
    }
}

/// Why a run failed.
#[derive(Clone, Copy, Debug, PartialEq, Eq, Structural)]
pub enum RunError {
    /// The circuit text is in error.
    Parse(ParseError),
    /// The output could not be written.
    Output(OutputError),
    /// The circuit is too large for this machine.
    TooLarge,
}

/// The final readout lies on the qubits and holds no tombstone.
pub proof fn lemma_readout(n: nat, width: nat)
    requires
        n <= width,
    ensures
        every(z_measurements(n, width), op_on(n as int, width)),
        every(z_measurements(n, width), op_live()),
{
}

/// The text that a run writes for a circuit: the lines of the circuit as
/// it is, in bypass mode; else the lines of the optimized circuit.
pub open spec fn run_text(
    ops: Seq<OperationView>,
    n: nat,
    width: nat,
    run_config: RunConfig,
) -> Seq<char> {
    if run_config.bypass {
        format_circuit(ops, n as int)
    } else {
        format_circuit(
            optimized(initial_circuit(ops, n, width), n, width, run_config.full_partitioning),
            n as int,
        )
    }
}

/// What a run on a circuit returns and writes: the circuit and its
/// readout must not hold more operations than a machine word counts.
pub open spec fn run_outcome(
    ops: Seq<OperationView>,
    n: nat,
    width: nat,
    run_config: RunConfig,
) -> Result<Seq<char>, RunError> {
    if ops.len() + n > usize::MAX {
        Err(RunError::TooLarge)
    } else {
        Ok(run_text(ops, n, width, run_config))
    }
}

/// Whether what a run returned and wrote is what it was to return and
/// write. Where the run was to fail, it failed in that way and wrote
/// nothing that the contract speaks of. Where it was to succeed, it
/// returned the number of qubits and the output holds the text, if it
/// keeps any; or the output failed, which a reliable output does not.
pub open spec fn agrees(
    r: Result<usize, RunError>,
    n_qubits: usize,
    outcome: Result<Seq<char>, RunError>,
    before: Seq<char>,
    after: Seq<char>,
    keeps: bool,
    reliable: bool,
) -> bool {
    match outcome {
        Err(e) => r == Err::<usize, RunError>(e),
        Ok(text) => match r {
            Ok(k) => k == n_qubits && (keeps ==> after == before + text),
            Err(RunError::Output(_)) => !reliable,
            Err(_) => false,
        },
    }
}

/// Optimizes a circuit on `n_qubits` qubits and writes it to the output.
/// In bypass mode the circuit is written as it is. Returns the number of
/// qubits.
pub fn run<B: Basis, O: Output>(
    output: &mut O,
    instructions: Vec<Operation<B>>,
    n_qubits: usize,
    run_config: RunConfig,
) -> (r: Result<usize, RunError>)
    requires
        B::fits(n_qubits),
        counters_fit::<B>(n_qubits),
        all_wf(instructions@, B::class_of(n_qubits)),
        every(views(instructions@), op_on(n_qubits as int, B::capacity_of(n_qubits))),
        every(views(instructions@), op_live()),
    ensures
        final(output).keeps() == old(output).keeps(),
        final(output).reliable() == old(output).reliable(),
        agrees(
            r,
            n_qubits,
            run_outcome(
                views(instructions@),
                n_qubits as nat,
                B::capacity_of(n_qubits),
                run_config,
            ),
            old(output).text(),
            final(output).text(),
            old(output).keeps(),
            old(output).reliable(),
        ),
{
    let ghost ops = views(instructions@);
    let ghost n = n_qubits as nat;
    let ghost width = B::capacity_of(n_qubits);
    if instructions.len() > usize::MAX - n_qubits {
        return Err(RunError::TooLarge);
    }
    proof {
        B::lemma_fits(n_qubits);
        lemma_no_nops(ops);
    }
    if run_config.bypass {
        let count = instructions.len();
        let ghost start = output.text();
        proof {
            assert(ops.take(0) =~= Seq::<OperationView>::empty());
            assert(start + format_circuit(ops.take(0), n as int) =~= start);
        }
        let mut k: usize = 0;
        while k < count
            invariant
                k <= count,
                count == instructions@.len(),
                count + n_qubits <= usize::MAX,
                ops == views(instructions@),
                n == n_qubits,
                n <= width,
                width == B::capacity_of(n_qubits),
                B::fits(n_qubits),
                all_wf(instructions@, B::class_of(n_qubits)),
                no_nops(ops),
                output.keeps() == old(output).keeps(),
                output.reliable() == old(output).reliable(),
                start == old(output).text(),
                output.keeps() ==> output.text() == start + format_circuit(
                    ops.take(k as int),
                    n as int,
                ),
            decreases count - k,
        {
            let op = &instructions[k];
            proof {
                assert(op.wf() && op.class() == B::class_of(n_qubits));
                op.x.lemma_capacity(n_qubits);
                assert(!(ops[k as int].kind is Nop));
                assert(ops.take(k + 1).drop_last() =~= ops.take(k as int));
            }
            match output.write_operation(n_qubits, op) {
                Ok(()) => {},
                Err(e) => {
                    return Err(RunError::Output(e));
                },
            }
            proof {
                let line = output::format_operation(op@, n as int);
                let lines = format_circuit(ops.take(k as int), n as int);
                assert((start + lines) + line =~= start + (lines + line));
            }
            k += 1;
        }
        assert(ops.take(count as int) =~= ops);
        return match output.flush() {
            Ok(()) => Ok(n_qubits),
            Err(e) => Err(RunError::Output(e)),
        };
    }
    let mut optimizer = InMemoryOptimizer::<B>::new(n_qubits, instructions, &run_config);
    let ghost first = optimizer.ops();
    proof {
        lemma_fold_read(ops, n as int, width);
        lemma_readout(n, width);
        lemma_every_concat(
            optimization::rotation_combination::fold_adjacent(ops),
            z_measurements(n, width),
            op_on(n as int, width),
        );
        lemma_every_concat(
            optimization::rotation_combination::fold_adjacent(ops),
            z_measurements(n, width),
            op_live(),
        );
        lemma_every(first, n as int, width);
        lemma_no_nops(first);
    }
    let count = optimizer.optimize();
    proof {
        assert(is_last_round(first, n, width, run_config.full_partitioning, count as nat));
        lemma_last_round(first, n, width, run_config.full_partitioning, count as nat);
    }
    match optimizer.write_to_output(output) {
        Ok(()) => Ok(n_qubits),
        Err(e) => Err(RunError::Output(e)),
    }
}

/// The number of qubits of a circuit text: the number of Paulis of its
/// first operation, which may stand after a `Repeat` line.
pub open spec fn infer_qubits(source: Seq<u8>) -> Result<nat, ParseError> {
    let first = fill(source, 0, 0);
    match first.tokens {
        Err(e) => Err(e),
        Ok(tokens) => {
            if tokens.len() == 0 {
                Err(ParseError::Empty)
            } else if tokens[0] is Repeat {
                match fill(source, first.pos, first.line).tokens {
                    Err(e) => Err(e),
                    Ok(second) => {
                        if second.len() == 0 {
                            Err(ParseError::EofInRepeat)
                        } else if second[0] is Repeat {
                            Err(ParseError::NestedRepeat)
                        } else if second[0] is End {
                            Err(ParseError::EmptyRepeat)
                        } else {
                            Ok((second.len() - 1) as nat)
                        }
                    },
                }
            } else {
                Ok((tokens.len() - 1) as nat)
            }
        },
    }
}

/// The count of the repeat block that a circuit text starts with, if it
/// starts with one.
pub open spec fn leading_repeat(source: Seq<u8>) -> Option<u32> {
    match fill(source, 0, 0).tokens {
        Ok(tokens) => if tokens.len() > 0 {
            match tokens[0] {
                Token::Repeat(count) => Some(count),
                _ => None,
            }
        } else {
            None
        },
        Err(_) => None,
    }
}

/// Finds the number of qubits of a circuit text.
pub fn infer_n_qubits(source: &[u8]) -> (r: Result<usize, ParseError>)
    ensures
        match infer_qubits(source@) {
            Ok(n) => r == Ok::<usize, ParseError>(n as usize) && n <= usize::MAX,
            Err(e) => r == Err::<usize, ParseError>(e),
        },
{
    match infer_layout(source) {
        Ok((n, _)) => Ok(n),
        Err(e) => Err(e),
    }
}

/// Finds the number of qubits of a circuit text, and the count of the
/// repeat block that it starts with, if it starts with one.
pub fn infer_layout(source: &[u8]) -> (r: Result<(usize, Option<u32>), ParseError>)
    ensures
        match infer_qubits(source@) {
            Ok(n) => r == Ok::<(usize, Option<u32>), ParseError>(
                (n as usize, leading_repeat(source@)),
            ) && n <= usize::MAX,
            Err(e) => r == Err::<(usize, Option<u32>), ParseError>(e),
        },
{
    let mut tokenizer = TokenIterator::new(source);
    let mut preread_tokens: Vec<Token> = Vec::with_capacity(128);
    match tokenizer.pop_line(&mut preread_tokens) {
        Ok(()) => {},
        Err(e) => {
            return Err(e);
        },
    }
    if preread_tokens.len() == 0 {
        return Err(ParseError::Empty);
    }
    let repeat = match preread_tokens[0] {
        Token::Repeat(count) => Some(count),
        _ => None,
    };
    if repeat.is_some() {
        preread_tokens.clear();
        match tokenizer.pop_line(&mut preread_tokens) {
            Ok(()) => {},
            Err(e) => {
                return Err(e);
            },
        }
        if preread_tokens.len() == 0 {
            return Err(ParseError::EofInRepeat);
        }
        match preread_tokens[0] {
            Token::Repeat(_) => {
                return Err(ParseError::NestedRepeat);
            },
            Token::End => {
                return Err(ParseError::EmptyRepeat);
            },
            _ => {},
        }
    }
    Ok((preread_tokens.len() - 1, repeat))
}

/// What a run on a circuit text of `n` qubits, read with bases of the
/// given width, returns and writes; `able` says whether the bases hold the
/// circuit.
pub open spec fn run_txt_outcome(
    source: Seq<u8>,
    n: nat,
    width: nat,
    able: bool,
    run_config: RunConfig,
) -> Result<Seq<char>, RunError> {
    if !able {
        Err(RunError::TooLarge)
    } else {
        match parse(source, n as int, width) {
            Err(e) => Err(RunError::Parse(e)),
            Ok(ops) => run_outcome(ops, n, width, run_config),
        }
    }
}

/// Whether the bases that are chosen for a circuit of `n` qubits hold it,
/// and the counters of a conjugation fit a machine word. The bases of
/// fixed width always do.
pub open spec fn chosen_able(n: nat) -> bool {
    n <= 256 || (n <= usize::MAX && DBasis::fits(n as usize) && counters_fit::<DBasis>(
        n as usize,
    ))
}

/// Reads a circuit text of `n_qubits` qubits with bases of type `B`,
/// optimizes the circuit and writes it to the output.
pub fn run_txt_with<B: Basis, O: Output>(
    source: &[u8],
    n_qubits: usize,
    output: &mut O,
    run_config: RunConfig,
) -> (r: Result<usize, RunError>)
    ensures
        final(output).keeps() == old(output).keeps(),
        final(output).reliable() == old(output).reliable(),
        agrees(
            r,
            n_qubits,
            run_txt_outcome(
                source@,
                n_qubits as nat,
                B::capacity_of(n_qubits),
                B::fits(n_qubits) && counters_fit::<B>(n_qubits),
                run_config,
            ),
            old(output).text(),
            final(output).text(),
            old(output).keeps(),
            old(output).reliable(),
        ),
{
    if !can_conjugate::<B>(n_qubits) {
        return Err(RunError::TooLarge);
    }
    let instructions = match parse_circuit::<B>(source, n_qubits) {
        Ok(instructions) => instructions,
        Err(e) => {
            return Err(RunError::Parse(e));
        },
    };
    proof {
        let n = n_qubits as int;
        let width = B::capacity_of(n_qubits);
        B::lemma_fits(n_qubits);
        lemma_stream_read(input::lexer::lex_ahead(source@, 0, 0), 0, n, width);
        let ops = views(instructions@);
        assert forall|i: int| 0 <= i < ops.len() implies op_on(n, width)(#[trigger] ops[i])
            && op_live()(ops[i]) by {
            assert(op_read(n, width)(ops[i]));
        }
    }
    run::<B, O>(output, instructions, n_qubits, run_config)
}

/// The width of the bases that are chosen for a circuit of `n` qubits.
pub open spec fn chosen_width(n: nat) -> nat {
    match BasisSize::spec_from_size(n).width() {
        Some(width) => width,
        None => (128 * basis::dbasis::words_for(n as int)) as nat,
    }
}

/// Finds the number of qubits of a circuit text, reads the circuit with
/// the narrowest bases that hold it, optimizes it and writes it to the
/// output. Returns the number of qubits.
pub fn infer_run_txt<O: Output>(source: &[u8], output: &mut O, run_config: RunConfig) -> (r:
    Result<usize, RunError>)
    ensures
        final(output).keeps() == old(output).keeps(),
        final(output).reliable() == old(output).reliable(),
        match infer_qubits(source@) {
            Err(e) => r == Err::<usize, RunError>(RunError::Parse(e)),
            Ok(n) => n <= usize::MAX && agrees(
                r,
                n as usize,
                run_txt_outcome(source@, n, chosen_width(n), chosen_able(n), run_config),
                old(output).text(),
                final(output).text(),
                old(output).keeps(),
                old(output).reliable(),
            ),
        },
{
    let n_qubits = match infer_n_qubits(source) {
        Ok(n) => n,
        Err(e) => {
            return Err(RunError::Parse(e));
        },
    };
    proof {
        <u8 as Bits>::lemma_word(0);
        <u16 as Bits>::lemma_word(0);
        <u32 as Bits>::lemma_word(0);
        <u64 as Bits>::lemma_word(0);
        <u128 as Bits>::lemma_word(0);
        Bits256::lemma_width();
        if n_qubits <= 256 {
            let width = chosen_width(n_qubits as nat);
            assert(6 * n_qubits * width <= 393216) by (nonlinear_arith)
                requires
                    n_qubits <= 256,
                    width <= 256,
            ;
        }
    }
    match BasisSize::from_size(n_qubits) {
        BasisSize::Basis8 => run_txt_with::<Basis8, O>(source, n_qubits, output, run_config),
        BasisSize::Basis16 => run_txt_with::<Basis16, O>(source, n_qubits, output, run_config),
        BasisSize::Basis32 => run_txt_with::<Basis32, O>(source, n_qubits, output, run_config),
        BasisSize::Basis64 => run_txt_with::<Basis64, O>(source, n_qubits, output, run_config),
        BasisSize::Basis128 => run_txt_with::<Basis128, O>(source, n_qubits, output, run_config),
        BasisSize::Basis256 => run_txt_with::<Basis256, O>(source, n_qubits, output, run_config),
        BasisSize::BasisDyn => run_txt_with::<DBasis, O>(source, n_qubits, output, run_config),
    }
}

/// The number of qubits that a program declares, and the index of the
/// statement after the declaration. Before the declaration of the register
/// stand the version statement and include statements.
pub open spec fn qasm_header(tokens: Seq<TokenView>, at: int, seen: bool) -> Result<
    (usize, int),
    ParseError,
>
    decreases tokens.len() - at,
{
    if at < 0 || at >= tokens.len() {
        Err(
            if seen {
                ParseError::MissingRegister
            } else {
                ParseError::MissingVersion
            },
        )
    } else {
        match tokens[at] {
            TokenView::Version(_) => qasm_header(tokens, at + 1, true),
            TokenView::Include(_) => qasm_header(tokens, at + 1, seen),
            TokenView::QregDecl(_, size) => if seen {
                Ok((size, at + 1))
            } else {
                Err(ParseError::MissingVersion)
            },
            TokenView::FixedGate(_, _) => Err(ParseError::GateBeforeRegister),
        }
    }
}

/// What a run on the statements of a program, from index `at` on, returns
/// and writes, for `n` qubits and bases of the given width; `able` says
/// whether the bases hold the circuit.
pub open spec fn run_qasm_outcome(
    tokens: Seq<TokenView>,
    at: int,
    n: nat,
    width: nat,
    able: bool,
    run_config: RunConfig,
) -> Result<Seq<char>, RunError> {
    let stream = program_ops(tokens, at, width);
    if !able {
        Err(RunError::TooLarge)
    } else {
        match stream.error {
            Some(e) => Err(RunError::Parse(e)),
            None => if every(stream.ops, op_on(n as int, width)) {
                run_outcome(stream.ops, n, width, run_config)
            } else {
                Err(RunError::Parse(ParseError::BadQubit))
            },
        }
    }
}

/// The rotations of a gate are no tombstones.
pub proof fn lemma_program_ops_live(tokens: Seq<TokenView>, at: int, width: nat)
    ensures
        every(program_ops(tokens, at, width).ops, op_live()),
    decreases tokens.len() - at,
{
    if 0 <= at < tokens.len() {
        lemma_program_ops_live(tokens, at + 1, width);
        match tokens[at] {
            TokenView::FixedGate(gate, qubits) => {
                match qasm::parser::gate_ops(gate, qubits, width) {
                    Some(ops) => {
                        assert(every(ops, op_live()));
                        lemma_every_concat(ops, program_ops(tokens, at + 1, width).ops, op_live());
                    },
                    None => {},
                }
            },
            _ => {},
        }
    }
}

/// Turns the statements of a program, from index `at` on, into operations
/// on `n_qubits` qubits with bases of type `B`, optimizes the circuit and
/// writes it to the output.
pub fn run_qasm_with<B: Basis, O: Output>(
    tokens: Vec<qasm::lexer::Token>,
    at: usize,
    n_qubits: usize,
    output: &mut O,
    run_config: RunConfig,
) -> (r: Result<usize, RunError>)
    requires
        at <= tokens@.len(),
    ensures
        final(output).keeps() == old(output).keeps(),
        final(output).reliable() == old(output).reliable(),
        agrees(
            r,
            n_qubits,
            run_qasm_outcome(
                token_views(tokens@),
                at as int,
                n_qubits as nat,
                B::capacity_of(n_qubits),
                B::fits(n_qubits) && counters_fit::<B>(n_qubits),
                run_config,
            ),
            old(output).text(),
            final(output).text(),
            old(output).keeps(),
            old(output).reliable(),
        ),
{
    if !can_conjugate::<B>(n_qubits) {
        return Err(RunError::TooLarge);
    }
    let ghost width = B::capacity_of(n_qubits);
    let ghost stream = program_ops(token_views(tokens@), at as int, width);
    let mut parser = qasm::parser::InstructionIterator::<B>::from_tokens(
        n_qubits,
        tokens,
        at,
        run_config.target_buffer_length,
    );
    let instructions = match parser.collect() {
        Ok(instructions) => instructions,
        Err(e) => {
            return Err(RunError::Parse(e));
        },
    };
    let ghost ops = views(instructions@);
    let count = instructions.len();
    let mut k: usize = 0;
    while k < count
        invariant
            k <= count,
            count == instructions@.len(),
            ops == views(instructions@),
            all_wf(instructions@, B::class_of(n_qubits)),
            B::fits(n_qubits),
            counters_fit::<B>(n_qubits),
            width == B::capacity_of(n_qubits),
            stream == program_ops(token_views(tokens@), at as int, width),
            stream.error is None,
            stream.ops == ops,
            forall|i: int| 0 <= i < k ==> op_on(n_qubits as int, width)(#[trigger] ops[i]),
        decreases count - k,
    {
        proof {
            assert(instructions@[k as int].wf());
            instructions@[k as int].lemma_widths();
            instructions@[k as int].x.lemma_capacity(n_qubits);
        }
        if !instructions[k].lies_on(n_qubits) {
            assert(!op_on(n_qubits as int, width)(ops[k as int]));
            assert(!every(stream.ops, op_on(n_qubits as int, width)));
            return Err(RunError::Parse(ParseError::BadQubit));
        }
        k += 1;
    }
    proof {
        lemma_program_ops_live(token_views(tokens@), at as int, width);
    }
    run::<B, O>(output, instructions, n_qubits, run_config)
}

/// What a run on a program returns and writes.
pub open spec fn qasm_outcome(source: Seq<u8>, run_config: RunConfig) -> Result<
    (usize, Seq<char>),
    RunError,
> {
    match qasm::lexer::lex(source) {
        Err(e) => Err(RunError::Parse(e)),
        Ok(tokens) => match qasm_header(tokens, 0, false) {
            Err(e) => Err(RunError::Parse(e)),
            Ok((n, at)) => match run_qasm_outcome(
                tokens,
                at,
                n as nat,
                chosen_width(n as nat),
                chosen_able(n as nat),
                run_config,
            ) {
                Err(e) => Err(e),
                Ok(text) => Ok((n, text)),
            },
        },
    }
}

/// Reads a program, finds the size of its register, turns its gates into
/// rotations with the narrowest bases that hold the register, optimizes
/// the circuit and writes it to the output. Returns the number of qubits.
pub fn infer_run_qasm<O: Output>(source: &[u8], output: &mut O, run_config: RunConfig) -> (r:
    Result<usize, RunError>)
    ensures
        final(output).keeps() == old(output).keeps(),
        final(output).reliable() == old(output).reliable(),
        match qasm_outcome(source@, run_config) {
            Err(e) => r == Err::<usize, RunError>(e),
            Ok((n, text)) => agrees(
                r,
                n,
                Ok(text),
                old(output).text(),
                final(output).text(),
                old(output).keeps(),
                old(output).reliable(),
            ),
        },
{
    let mut lexer = qasm::lexer::TokenIterator::new(source);
    proof {
        assert(lexer.buffered() + qasm::lexer::lex(source@)->Ok_0 =~= qasm::lexer::lex(
            source@,
        )->Ok_0);
    }
    let tokens = match lexer.collect() {
        Ok(tokens) => tokens,
        Err(e) => {
            return Err(RunError::Parse(e));
        },
    };
    let ghost all = token_views(tokens@);
    let count = tokens.len();
    let mut seen_openqasm = false;
    let mut at: usize = 0;
    let mut n_qubits: Option<usize> = None;
    while at < count && n_qubits.is_none()
        invariant
            at <= count,
            count == tokens@.len(),
            all == token_views(tokens@),
            qasm::lexer::lex(source@) == Ok::<Seq<TokenView>, ParseError>(all),
            match n_qubits {
                None => qasm_header(all, 0, false) == qasm_header(all, at as int, seen_openqasm),
                Some(n) => seen_openqasm && qasm_header(all, 0, false) == Ok::<
                    (usize, int),
                    ParseError,
                >((n, at as int)),
            },
        decreases count - at, n_qubits.is_none() as int,
    {
        proof {
            assert(all[at as int] == tokens@[at as int]@);
        }
        match &tokens[at] {
            qasm::lexer::Token::Version(_) => {
                seen_openqasm = true;
                at += 1;
            },
            qasm::lexer::Token::Include(_) => {
                at += 1;
            },
            qasm::lexer::Token::QregDecl(_, qubits) => {
                if !seen_openqasm {
                    return Err(RunError::Parse(ParseError::MissingVersion));
                }
                n_qubits = Some(*qubits);
                at += 1;
            },
            qasm::lexer::Token::FixedGate(_, _) => {
                return Err(RunError::Parse(ParseError::GateBeforeRegister));
            },
        }
    }
    let n_qubits = match n_qubits {
        Some(n) => n,
        None => {
            return Err(
                RunError::Parse(
                    if seen_openqasm {
                        ParseError::MissingRegister
                    } else {
                        ParseError::MissingVersion
                    },
                ),
            );
        },
    };
    proof {
        <u8 as Bits>::lemma_word(0);
        <u16 as Bits>::lemma_word(0);
        <u32 as Bits>::lemma_word(0);
        <u64 as Bits>::lemma_word(0);
        <u128 as Bits>::lemma_word(0);
        Bits256::lemma_width();
    }
    match BasisSize::from_size(n_qubits) {
        BasisSize::Basis8 => run_qasm_with::<Basis8, O>(tokens, at, n_qubits, output, run_config),
        BasisSize::Basis16 => run_qasm_with::<Basis16, O>(tokens, at, n_qubits, output, run_config),
        BasisSize::Basis32 => run_qasm_with::<Basis32, O>(tokens, at, n_qubits, output, run_config),
        BasisSize::Basis64 => run_qasm_with::<Basis64, O>(tokens, at, n_qubits, output, run_config),
        BasisSize::Basis128 => run_qasm_with::<Basis128, O>(
            tokens,
            at,
            n_qubits,
            output,
            run_config,
        ),
        BasisSize::Basis256 => run_qasm_with::<Basis256, O>(
            tokens,
            at,
            n_qubits,
            output,
            run_config,
        ),
        BasisSize::BasisDyn => run_qasm_with::<DBasis, O>(tokens, at, n_qubits, output, run_config),
    }
}

} // verus!
