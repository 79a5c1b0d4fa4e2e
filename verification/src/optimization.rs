//! The phases of the optimizer, and the loop that alternates them.
use crate::basis::Basis;
use crate::bits::bit_traits::BitSeq;
use crate::bitseq::{unit, zeros};
use crate::clifford::{counters_fit, identity_view, lemma_identity_on};
use crate::operation::phase::Phase;
use crate::operation::{
    all_wf, every, lemma_every, no_cliffords, no_nops, on_qubits, op_on, op_settled, t_count,
    views, without_nops, Operation, OperationKind, OperationView,
};
use crate::output::{format_circuit, Output, OutputError};
use crate::RunConfig;
use partition::{
    approximate_partition, approximate_partition_t_gates, exact_partition, partition_t_gates,
};
use partitions::Partitions;
use push_t_forward::{
    lemma_push_run, lemma_push_run_on, lemma_push_run_settled, push_run, push_t_forward_inplace,
};
use rotation_combination::{fold_adjacent, fold_adjacent_rotations, lemma_fold_state};
use vstd::prelude::*;

pub mod partition;
pub mod partitions;
pub mod push_t_forward;
pub mod rotation_combination;
pub mod streaming;

verus! {

/// The most operations for which room is made ahead of reading: 16 GiB of
/// operations on 256-bit bases.
pub const MAX_PREALLOC_OPERATIONS: usize = 178_956_970;

/// The size of a circuit.
#[derive(Clone, Copy, Debug)]
pub struct Stats {
    pub total_operations: usize,
    pub t_gates: usize,
}

impl Stats {
    /// The size of the empty circuit.
    pub fn zero() -> (r: Self)
        ensures
            r.total_operations == 0,
            r.t_gates == 0,
    {
        Stats { total_operations: 0, t_gates: 0 }
    }
}

/// The identity measurement of qubit `i` in the Z basis.
pub open spec fn z_measurement(width: nat, i: int) -> OperationView {
    OperationView {
        x: zeros(width),
        z: unit(width, i),
        kind: OperationKind::Measurement { phase: Phase::Positive },
    }
}

/// The final readout: one Z measurement for each of the `n` qubits.
pub open spec fn z_measurements(n: nat, width: nat) -> Seq<OperationView> {
    Seq::new(n, |i: int| z_measurement(width, i))
}

/// What the optimizer starts from: the circuit with adjacent rotations
/// folded, followed by the final readout.
pub open spec fn initial_circuit(ops: Seq<OperationView>, n: nat, width: nat) -> Seq<
    OperationView,
> {
    fold_adjacent(ops) + z_measurements(n, width)
}

/// A round of the optimizer: the circuit after it, and whether it reported
/// a change.
pub struct Round {
    pub circuit: Seq<OperationView>,
    pub changed: bool,
}

/// One round: push the pi/8 rotations forward, then partition and fold,
/// with the exact partitioner if `full`, else with the approximate one.
pub open spec fn round(ops: Seq<OperationView>, n: nat, width: nat, full: bool) -> Round {
    let pushed = push_run(identity_view(n, width), ops);
    let folded = if full {
        exact_partition(pushed.emitted, pushed.t_gates as int)
    } else {
        approximate_partition(pushed.emitted)
    };
    Round { circuit: folded.0, changed: pushed.changed || folded.1 }
}

/// The circuit after `k` rounds, and whether the last of them reported a
/// change.
pub open spec fn rounds(ops: Seq<OperationView>, n: nat, width: nat, full: bool, k: nat) -> Round
    decreases k,
{
    if k == 0 {
        Round { circuit: ops, changed: true }
    } else {
        round(rounds(ops, n, width, full, (k - 1) as nat).circuit, n, width, full)
    }
}

/// A circuit on `n` qubits that holds neither tombstones nor Clifford
/// rotations.
pub open spec fn settled(ops: Seq<OperationView>, n: nat, width: nat) -> bool {
    no_nops(ops) && no_cliffords(ops) && on_qubits(ops, n as int, width)
}

/// A settled circuit on which the approximate partitioner finds nothing to
/// fold: a round leaves it as it is.
pub open spec fn stable(ops: Seq<OperationView>, n: nat, width: nat) -> bool {
    settled(ops, n, width) && !approximate_partition(ops).1
}

/// A round with the approximate partitioner leaves a stable circuit as it
/// is and reports no change.
pub proof fn lemma_stable_round(ops: Seq<OperationView>, n: nat, width: nat)
    requires
        n <= width,
        stable(ops, n, width),
    ensures
        round(ops, n, width, false) == (Round { circuit: ops, changed: false }),
{
    lemma_push_run_settled(n, width, ops);
    partition::lemma_approximate_partition(ops);
    lemma_without_nops_id(ops);
}

/// A circuit without tombstones is one of operations that are none.
pub proof fn lemma_no_nops(ops: Seq<OperationView>)
    ensures
        no_nops(ops) <==> every(ops, rotation_combination::op_live()),
{
    if no_nops(ops) {
        assert forall|i: int| 0 <= i < ops.len() implies rotation_combination::op_live()(
            #[trigger] ops[i],
        ) by {}
    }
    if every(ops, rotation_combination::op_live()) {
        assert forall|i: int| 0 <= i < ops.len() implies !((#[trigger] ops[i]).kind is Nop) by {
            assert(rotation_combination::op_live()(ops[i]));
        }
    }
}

/// A circuit without tombstones loses nothing when they are removed.
pub proof fn lemma_without_nops_id(ops: Seq<OperationView>)
    requires
        no_nops(ops),
    ensures
        without_nops(ops) == ops,
{
    assert(crate::operation::live_of(ops) =~= crate::bitseq::ones(ops.len()));
    rotation_combination::lemma_compacted_all(ops, ops.len() as int);
    assert(ops.take(ops.len() as int) =~= ops);
}

/// The optimizer that holds the whole circuit in memory.
#[derive(Debug)]
pub struct InMemoryOptimizer<B: Basis> {
    n_qubits: usize,
    circuit: Vec<Operation<B>>,
    initial_circuit_length: usize,
    post_reduction_length: usize,
    partitions: Partitions,
    full_partitioning: bool,
    latest_stats: Option<Stats>,
}

impl<B: Basis> InMemoryOptimizer<B> {
    /// The number of qubits of the circuit.
    pub closed spec fn qubits(&self) -> usize {
        self.n_qubits
    }

    /// The circuit as it stands.
    pub closed spec fn ops(&self) -> Seq<OperationView> {
        views(self.circuit@)
    }

    /// Whether the exact partitioner is used.
    pub closed spec fn full(&self) -> bool {
        self.full_partitioning
    }

    /// The counts of the last phase that ran.
    pub closed spec fn stats(&self) -> Option<Stats> {
        self.latest_stats
    }

    /// The width of the Pauli strings of the circuit.
    pub open spec fn width(&self) -> nat {
        B::capacity_of(self.qubits())
    }

    /// The circuit is one of well-formed operations for the qubits.
    pub closed spec fn wf(&self) -> bool {
        &&& B::fits(self.n_qubits)
        &&& counters_fit::<B>(self.n_qubits)
        &&& all_wf(self.circuit@, B::class_of(self.n_qubits))
    }

    /// How much room to make ahead of reading, for a hint of the number of
    /// operations.
    pub fn preallocation(num_operations: Option<usize>) -> (r: usize)
        ensures
            r == match num_operations {
                Some(n) => if n > MAX_PREALLOC_OPERATIONS {
                    MAX_PREALLOC_OPERATIONS
                } else {
                    n
                },
                None => 1024,
            },
    {
        if let Some(num_operations) = num_operations {
            if num_operations > MAX_PREALLOC_OPERATIONS {
                MAX_PREALLOC_OPERATIONS
            } else {
                num_operations
            }
        } else {
            1024
        }
    }

    /// Takes a circuit: folds its adjacent rotations and appends the final
    /// readout, one Z measurement for each qubit.
    pub fn new(n_qubits: usize, instructions: Vec<Operation<B>>, run_config: &RunConfig) -> (r:
        Self)
        requires
            B::fits(n_qubits),
            counters_fit::<B>(n_qubits),
            all_wf(instructions@, B::class_of(n_qubits)),
            instructions@.len() + n_qubits <= usize::MAX,
        ensures
            r.wf(),
            r.qubits() == n_qubits,
            r.full() == run_config.full_partitioning,
            r.stats() is None,
            r.ops() == initial_circuit(views(instructions@), n_qubits as nat, r.width()),
            r.spec_initial_circuit_length() == instructions@.len(),
            r.spec_post_reduction_length() == r.ops().len(),
    {
        let prealloc = Self::preallocation(run_config.num_operations);
        let mut circuit: Vec<Operation<B>> = Vec::with_capacity(prealloc);
        proof {
            if instructions@.len() > 0 {
                assert(instructions@[0].class() == B::class_of(n_qubits));
            }
            lemma_fold_state(views(instructions@));
        }
        let (mut folded, initial_circuit_length) = fold_adjacent_rotations(instructions);
        circuit.append(&mut folded);
        let ghost start = views(circuit@);
        let ghost width = B::capacity_of(n_qubits);
        let mut i: usize = 0;
        while i < n_qubits
            invariant
                i <= n_qubits,
                B::fits(n_qubits),
                width == B::capacity_of(n_qubits),
                all_wf(circuit@, B::class_of(n_qubits)),
                start.len() + n_qubits <= usize::MAX,
                views(circuit@) == start + z_measurements(i as nat, width),
            decreases n_qubits - i,
        {
            let z = B::one_bit(n_qubits, i);
            let op = Operation::measurement(B::zero(n_qubits), z, Phase::from(false));
            let ghost before = views(circuit@);
            circuit.push(op);
            assert(views(circuit@) =~= before.push(op@));
            assert(z_measurements((i + 1) as nat, width) =~= z_measurements(i as nat, width).push(
                z_measurement(width, i as int),
            ));
            assert(views(circuit@) =~= start + z_measurements((i + 1) as nat, width));
            i += 1;
        }
        let post_reduction_length = circuit.len();
        Self {
            post_reduction_length,
            latest_stats: None,
            n_qubits,
            circuit,
            initial_circuit_length,
            partitions: Partitions::new(),
            full_partitioning: run_config.full_partitioning,
        }
    }

    /// The number of operations that the optimizer was given.
    pub closed spec fn spec_initial_circuit_length(&self) -> usize {
        self.initial_circuit_length
    }

    /// The number of operations after the first folding, the readout included.
    pub closed spec fn spec_post_reduction_length(&self) -> usize {
        self.post_reduction_length
    }

    /// The number of operations that were read.
    pub fn initial_circuit_length(&self) -> (r: Option<usize>)
        ensures
            r == Some(self.spec_initial_circuit_length()),
    {
        Some(self.initial_circuit_length)
    }

    /// The number of operations after adjacent rotations were folded and
    /// the readout appended.
    pub fn post_reduction_length(&self) -> (r: Option<usize>)
        ensures
            r == Some(self.spec_post_reduction_length()),
    {
        Some(self.post_reduction_length)
    }

    /// The counts of the last phase that ran.
    pub fn latest_stats(&self) -> (r: Option<Stats>)
        ensures
            r == self.stats(),
    {
        self.latest_stats
    }

    /// The circuit as it stands.
    pub fn circuit(&self) -> (r: &Vec<Operation<B>>)
        ensures
            views(r@) == self.ops(),
            self.wf() ==> all_wf(r@, B::class_of(self.qubits())),
    {
        &self.circuit
    }

    /// Pushes the pi/8 rotations forward through the whole circuit.
    /// Returns whether any emitted operation differs from its input, and
    /// the counts of the circuit.
    pub fn push_t_forward(&mut self) -> (r: (bool, Stats))
        requires
            old(self).wf(),
            no_nops(old(self).ops()),
        ensures
            final(self).wf(),
            final(self).qubits() == old(self).qubits(),
            final(self).full() == old(self).full(),
            final(self).stats() == Some(r.1),
            ({
                let run = push_run(
                    identity_view(old(self).qubits() as nat, old(self).width()),
                    old(self).ops(),
                );
                &&& final(self).ops() == run.emitted
                &&& r.0 == run.changed
                &&& r.1.t_gates == run.t_gates
            }),
            r.1.total_operations == final(self).ops().len(),
            r.1.t_gates == t_count(final(self).ops()),
            r.1.t_gates <= final(self).ops().len(),
    {
        let (changed, t_gates) = push_t_forward_inplace(&mut self.circuit, self.n_qubits);
        let stats = Stats { total_operations: self.circuit.len(), t_gates };
        self.latest_stats = Some(stats);
        proof {
            crate::optimization::rotation_combination::lemma_t_count_bound(views(self.circuit@));
        }
        (changed, stats)
    }

    /// Partitions the pi/8 rotations into layers and folds each layer.
    /// Runs after `push_t_forward`. Returns whether anything folded, and
    /// the counts of the circuit.
    pub fn partition(&mut self) -> (r: (bool, Stats))
        requires
            old(self).wf(),
            old(self).stats() matches Some(stats) && stats.t_gates <= old(self).ops().len(),
        ensures
            final(self).wf(),
            final(self).qubits() == old(self).qubits(),
            final(self).full() == old(self).full(),
            final(self).stats() == Some(r.1),
            (final(self).ops(), r.0) == if old(self).full() {
                exact_partition(old(self).ops(), old(self).stats().unwrap().t_gates as int)
            } else {
                approximate_partition(old(self).ops())
            },
            final(self).ops().len() <= old(self).ops().len(),
            t_count(final(self).ops()) <= t_count(old(self).ops()),
            r.0 ==> final(self).ops().len() < old(self).ops().len(),
            no_nops(old(self).ops()) ==> no_nops(final(self).ops()),
            !r.0 && every(old(self).ops(), op_settled()) ==> every(final(self).ops(), op_settled()),
            forall|n: int, width: nat| #[trigger]
                every(old(self).ops(), op_on(n, width)) ==> every(
                    final(self).ops(),
                    op_on(n, width),
                ),
    {
        let t_gate_count = self.latest_stats.unwrap().t_gates;
        let ghost before = views(self.circuit@);
        proof {
            if self.circuit@.len() > 0 {
                assert(self.circuit@[0].class() == B::class_of(self.n_qubits));
            }
        }
        proof {
            lemma_no_nops(before);
        }
        let changed = if self.full_partitioning {
            let changed = partition_t_gates(&mut self.partitions, &mut self.circuit, t_gate_count);
            proof {
                lemma_no_nops(views(self.circuit@));
            }
            changed
        } else {
            let (changed, stats) = approximate_partition_t_gates(&mut self.circuit);
            self.latest_stats = Some(stats);
            proof {
                lemma_no_nops(views(self.circuit@));
                if !changed && every(before, op_settled()) {
                    lemma_every(before, 0, 0);
                    lemma_without_nops_id(before);
                }
            }
            changed
        };
        (changed, self.latest_stats.unwrap())
    }

    /// Runs rounds of pushing and partitioning until a round reports no
    /// change. Returns the number of rounds.
    pub fn optimize(&mut self) -> (count: u128)
        requires
            old(self).wf(),
            no_nops(old(self).ops()),
            on_qubits(old(self).ops(), old(self).qubits() as int, old(self).width()),
        ensures
            final(self).wf(),
            final(self).qubits() == old(self).qubits(),
            final(self).full() == old(self).full(),
            final(self).stats() is Some,
            count >= 1,
            count <= 2 * old(self).ops().len() + 2,
            !old(self).full() ==> count <= t_count(old(self).ops()) + 2,
            final(self).ops() == rounds(
                old(self).ops(),
                old(self).qubits() as nat,
                old(self).width(),
                old(self).full(),
                count as nat,
            ).circuit,
            !rounds(
                old(self).ops(),
                old(self).qubits() as nat,
                old(self).width(),
                old(self).full(),
                count as nat,
            ).changed,
            forall|k: nat|
                k < count ==> (#[trigger] rounds(
                    old(self).ops(),
                    old(self).qubits() as nat,
                    old(self).width(),
                    old(self).full(),
                    k,
                )).changed,
            final(self).ops().len() <= old(self).ops().len(),
            t_count(final(self).ops()) <= t_count(old(self).ops()),
            settled(final(self).ops(), old(self).qubits() as nat, old(self).width()),
            !old(self).full() ==> stable(
                final(self).ops(),
                old(self).qubits() as nat,
                old(self).width(),
            ),
            !old(self).full() && stable(
                old(self).ops(),
                old(self).qubits() as nat,
                old(self).width(),
            ) ==> count == 1 && final(self).ops() == old(self).ops(),
    {
        let ghost start = self.ops();
        let ghost n = self.n_qubits as nat;
        let ghost width = B::capacity_of(self.n_qubits);
        let ghost full = self.full_partitioning;
        let mut needs_more_rounds = true;
        let mut count: u128 = 0;
        let length = self.circuit.len();
        proof {
            B::lemma_fits(self.n_qubits);
            lemma_identity_on(n, width);
        }
        while needs_more_rounds
            invariant
                self.wf(),
                self.n_qubits == n,
                self.full_partitioning == full,
                width == B::capacity_of(self.n_qubits),
                n <= width,
                start.len() == length,
                no_nops(self.ops()),
                on_qubits(self.ops(), n as int, width),
                needs_more_rounds || count >= 1,
                count >= 1 ==> self.stats() is Some,
                count + 2 * self.ops().len() + (if settled(self.ops(), n, width) {
                    0int
                } else {
                    1int
                }) + (if needs_more_rounds {
                    1int
                } else {
                    0int
                }) <= 2 * start.len() + 2,
                self.ops() == rounds(start, n, width, full, count as nat).circuit,
                needs_more_rounds == rounds(start, n, width, full, count as nat).changed,
                forall|k: nat| k < count ==> (#[trigger] rounds(start, n, width, full, k)).changed,
                self.ops().len() <= start.len(),
                t_count(self.ops()) <= t_count(start),
                !needs_more_rounds ==> settled(self.ops(), n, width),
                !needs_more_rounds && !full ==> stable(self.ops(), n, width),
                !full && stable(start, n, width) ==> count <= 1 && self.ops() == start,
            decreases
                    2 * self.ops().len() + (if settled(self.ops(), n, width) {
                        0int
                    } else {
                        1int
                    }),
                    needs_more_rounds as int,
        {
            let ghost before = self.ops();
            let ghost was_settled = settled(before, n, width);
            proof {
                lemma_push_run(identity_view(n, width), before);
                lemma_push_run_on(identity_view(n, width), before, n, width);
                if was_settled {
                    lemma_push_run_settled(n, width, before);
                }
                if !full && stable(start, n, width) {
                    lemma_stable_round(start, n, width);
                    assert(rounds(start, n, width, full, 0).circuit == start);
                    assert(rounds(start, n, width, full, 1) == round(start, n, width, full));
                    assert(count == 0);
                }
            }
            let (changed_t, _stats) = self.push_t_forward();
            let ghost pushed = self.ops();
            proof {
                lemma_every(pushed, n as int, width);
            }
            let (changed_p, _stats) = self.partition();
            proof {
                lemma_every(self.ops(), n as int, width);
                if !changed_p {
                    assert(settled(self.ops(), n, width));
                }
                if !changed_p && !full {
                    lemma_without_nops_id(pushed);
                    partition::lemma_approximate_partition(pushed);
                    assert(self.ops() == pushed);
                }
            }
            needs_more_rounds = changed_t || changed_p;
            count += 1;
        }
        proof {
            if !full {
                let k = lemma_rounds_bound(start, n, width);
                if k < count {
                    assert(rounds(start, n, width, full, k).changed);
                }
                if count < k {
                    assert(rounds(start, n, width, full, count as nat).changed);
                }
            }
        }
        count
    }
}

/// Round `k` is the first round that reports no change.
pub open spec fn is_last_round(
    ops: Seq<OperationView>,
    n: nat,
    width: nat,
    full: bool,
    k: nat,
) -> bool {
    &&& k >= 1
    &&& !rounds(ops, n, width, full, k).changed
    &&& forall|j: nat| j < k ==> (#[trigger] rounds(ops, n, width, full, j)).changed
}

/// The circuit after the first round that reports no change.
pub open spec fn optimized(ops: Seq<OperationView>, n: nat, width: nat, full: bool) -> Seq<
    OperationView,
> {
    rounds(ops, n, width, full, choose|k: nat| is_last_round(ops, n, width, full, k)).circuit
}

/// There is one first round that reports no change.
pub proof fn lemma_last_round(ops: Seq<OperationView>, n: nat, width: nat, full: bool, k: nat)
    requires
        is_last_round(ops, n, width, full, k),
    ensures
        optimized(ops, n, width, full) == rounds(ops, n, width, full, k).circuit,
{
    let other = choose|k: nat| is_last_round(ops, n, width, full, k);
    if other < k {
        assert(rounds(ops, n, width, full, other).changed);
    }
    if k < other {
        assert(rounds(ops, n, width, full, k).changed);
    }
}

/// A round with the approximate partitioner, on a circuit on `n` qubits
/// without tombstones, gives such a circuit again. The circuit grows
/// neither in operations nor in pi/8 rotations. A round that reports no
/// change gives a stable circuit.
pub proof fn lemma_round(ops: Seq<OperationView>, n: nat, width: nat)
    requires
        n <= width,
        no_nops(ops),
        on_qubits(ops, n as int, width),
    ensures
        no_nops(round(ops, n, width, false).circuit),
        on_qubits(round(ops, n, width, false).circuit, n as int, width),
        round(ops, n, width, false).circuit.len() <= ops.len(),
        t_count(round(ops, n, width, false).circuit) <= t_count(ops),
        !round(ops, n, width, false).changed ==> stable(
            round(ops, n, width, false).circuit,
            n,
            width,
        ),
{
    let pushed = push_run(identity_view(n, width), ops);
    let folded = approximate_partition(pushed.emitted);
    lemma_identity_on(n, width);
    lemma_push_run(identity_view(n, width), ops);
    lemma_push_run_on(identity_view(n, width), ops, n, width);
    partition::lemma_approximate_partition(pushed.emitted);
    lemma_every(pushed.emitted, n as int, width);
    lemma_every(folded.0, n as int, width);
    let scanned = partition::scan_run(
        (partition::ScanState {
            ops: pushed.emitted,
            at: 0,
            start: None,
            last_rotation: 0,
            changed: false,
        }),
        pushed.emitted.len() as int,
    );
    partition::lemma_without_nops(partition::close_layer(scanned, scanned.last_rotation).ops);
    lemma_no_nops(folded.0);
    partition::lemma_without_nops(pushed.emitted);
    if !folded.1 {
        lemma_without_nops_id(pushed.emitted);
        assert(folded.0 == pushed.emitted);
    }
}

/// From phase to phase and from round to round, with the approximate
/// partitioner, the circuit grows neither in operations nor in pi/8
/// rotations, and stays a circuit on `n` qubits without tombstones.
pub proof fn lemma_rounds(ops: Seq<OperationView>, n: nat, width: nat, k: nat)
    requires
        n <= width,
        no_nops(ops),
        on_qubits(ops, n as int, width),
    ensures
        no_nops(rounds(ops, n, width, false, k).circuit),
        on_qubits(rounds(ops, n, width, false, k).circuit, n as int, width),
        rounds(ops, n, width, false, k).circuit.len() <= ops.len(),
        t_count(rounds(ops, n, width, false, k).circuit) <= t_count(ops),
        push_run(identity_view(n, width), ops).emitted.len() <= ops.len(),
        t_count(push_run(identity_view(n, width), ops).emitted) == t_count(ops),
        approximate_partition(push_run(identity_view(n, width), ops).emitted).0.len() <= push_run(
            identity_view(n, width),
            ops,
        ).emitted.len(),
        t_count(approximate_partition(push_run(identity_view(n, width), ops).emitted).0)
            <= t_count(push_run(identity_view(n, width), ops).emitted),
    decreases k,
{
    lemma_push_run(identity_view(n, width), ops);
    partition::lemma_approximate_partition(push_run(identity_view(n, width), ops).emitted);
    if k > 0 {
        lemma_rounds(ops, n, width, (k - 1) as nat);
        lemma_round(rounds(ops, n, width, false, (k - 1) as nat).circuit, n, width);
    }
}

/// After a round that reports a change, the rounds go on as if they had
/// started from its circuit.
pub proof fn lemma_rounds_shift(ops: Seq<OperationView>, n: nat, width: nat, full: bool, k: nat)
    requires
        round(ops, n, width, full).changed,
    ensures
        rounds(ops, n, width, full, k + 1) == rounds(
            round(ops, n, width, full).circuit,
            n,
            width,
            full,
            k,
        ),
    decreases k,
{
    if k == 0 {
        assert(rounds(ops, n, width, full, 0).circuit == ops);
        assert(rounds(ops, n, width, full, 1) == round(ops, n, width, full));
    } else {
        lemma_rounds_shift(ops, n, width, full, (k - 1) as nat);
    }
}

/// The optimizer ends after no more rounds than the circuit has pi/8
/// rotations, and two: with the approximate partitioner, every round but
/// the last two takes a pi/8 rotation out of the circuit.
pub proof fn lemma_rounds_bound(ops: Seq<OperationView>, n: nat, width: nat) -> (k: nat)
    requires
        n <= width,
        no_nops(ops),
        on_qubits(ops, n as int, width),
    ensures
        is_last_round(ops, n, width, false, k),
        k <= t_count(ops) + 2,
        optimized(ops, n, width, false) == rounds(ops, n, width, false, k).circuit,
    decreases t_count(ops),
{
    let pushed = push_run(identity_view(n, width), ops);
    let folded = approximate_partition(pushed.emitted);
    let first = round(ops, n, width, false);
    lemma_round(ops, n, width);
    lemma_identity_on(n, width);
    lemma_push_run(identity_view(n, width), ops);
    lemma_push_run_on(identity_view(n, width), ops, n, width);
    partition::lemma_approximate_partition(pushed.emitted);
    partition::lemma_approximate_partition_strict(pushed.emitted);
    assert(rounds(ops, n, width, false, 0).circuit == ops);
    assert(rounds(ops, n, width, false, 1) == first);
    let k = if !first.changed {
        1nat
    } else if folded.1 {
        let rest = lemma_rounds_bound(first.circuit, n, width);
        assert forall|j: nat| j < rest + 1 implies (#[trigger] rounds(
            ops,
            n,
            width,
            false,
            j,
        )).changed by {
            if j > 0 {
                lemma_rounds_shift(ops, n, width, false, (j - 1) as nat);
                assert(rounds(first.circuit, n, width, false, (j - 1) as nat).changed);
            }
        }
        lemma_rounds_shift(ops, n, width, false, rest);
        rest + 1
    } else {
        lemma_without_nops_id(pushed.emitted);
        assert(first.circuit == pushed.emitted);
        assert(stable(first.circuit, n, width));
        lemma_stable_round(first.circuit, n, width);
        lemma_rounds_shift(ops, n, width, false, 1);
        assert(rounds(first.circuit, n, width, false, 0).circuit == first.circuit);
        assert(rounds(first.circuit, n, width, false, 1) == round(first.circuit, n, width, false));
        assert forall|j: nat| j < 2 implies (#[trigger] rounds(ops, n, width, false, j)).changed by {
            assert(j == 0 || j == 1);
        }
        2nat
    };
    lemma_last_round(ops, n, width, false, k);
    k
}

/// Optimizing is idempotent: with the approximate partitioner, the circuit
/// that the optimizer ends with is stable, and the optimizer started on it
/// ends after one round with the same circuit.
pub proof fn lemma_optimized_again(ops: Seq<OperationView>, n: nat, width: nat)
    requires
        n <= width,
        no_nops(ops),
        on_qubits(ops, n as int, width),
    ensures
        stable(optimized(ops, n, width, false), n, width),
        is_last_round(optimized(ops, n, width, false), n, width, false, 1),
        optimized(optimized(ops, n, width, false), n, width, false) == optimized(
            ops,
            n,
            width,
            false,
        ),
        optimized(ops, n, width, false).len() <= ops.len(),
        t_count(optimized(ops, n, width, false)) <= t_count(ops),
{
    let k = lemma_rounds_bound(ops, n, width);
    let last = optimized(ops, n, width, false);
    lemma_rounds(ops, n, width, k);
    lemma_rounds(ops, n, width, (k - 1) as nat);
    lemma_round(rounds(ops, n, width, false, (k - 1) as nat).circuit, n, width);
    assert(stable(last, n, width));
    lemma_stable_round(last, n, width);
    assert(rounds(last, n, width, false, 0).changed);
    assert(rounds(last, n, width, false, 1) == round(last, n, width, false));
    assert(is_last_round(last, n, width, false, 1)) by {
        assert forall|j: nat| j < 1 implies (#[trigger] rounds(last, n, width, false, j)).changed by {
            assert(j == 0);
        }
    }
    lemma_last_round(last, n, width, false, 1);
}

impl<B: Basis> InMemoryOptimizer<B> {
    /// Writes the circuit, which holds no tombstone, to the output, line
    /// by line.
    pub fn write_to_output<O: Output>(&self, output: &mut O) -> (r: Result<(), OutputError>)
        requires
            self.wf(),
            no_nops(self.ops()),
        ensures
            final(output).keeps() == old(output).keeps(),
            final(output).reliable() == old(output).reliable(),
            old(output).reliable() ==> r is Ok,
            r is Ok && old(output).keeps() ==> final(output).text() == old(output).text()
                + format_circuit(self.ops(), self.qubits() as int),
    {
        let n = self.circuit.len();
        let ghost ops = views(self.circuit@);
        let ghost start = output.text();
        proof {
            B::lemma_fits(self.n_qubits);
            assert(ops.take(0) =~= Seq::<OperationView>::empty());
            assert(start + format_circuit(ops.take(0), self.n_qubits as int) =~= start);
        }
        let mut k: usize = 0;
        while k < n
            invariant
                k <= n,
                n == self.circuit@.len(),
                ops == views(self.circuit@),
                self.wf(),
                no_nops(ops),
                self.n_qubits <= B::capacity_of(self.n_qubits),
                output.keeps() == old(output).keeps(),
                output.reliable() == old(output).reliable(),
                start == old(output).text(),
                output.keeps() ==> output.text() == start + format_circuit(
                    ops.take(k as int),
                    self.n_qubits as int,
                ),
            decreases n - k,
        {
            let op = &self.circuit[k];
            proof {
                assert(op.wf() && op.class() == B::class_of(self.n_qubits));
                op.x.lemma_capacity(self.n_qubits);
                assert(!(ops[k as int].kind is Nop));
                assert(ops.take(k + 1).drop_last() =~= ops.take(k as int));
            }
            let ghost before = output.text();
            match output.write_operation(self.n_qubits, op) {
                Ok(()) => {},
                Err(e) => {
                    return Err(e);
                },
            }
            proof {
                let line = crate::output::format_operation(op@, self.n_qubits as int);
                let lines = format_circuit(ops.take(k as int), self.n_qubits as int);
                assert((start + lines) + line =~= start + (lines + line));
            }
            k += 1;
        }
        assert(ops.take(n as int) =~= ops);
        let ghost written = output.text();
        match output.flush() {
            Ok(()) => Ok(()),
            Err(e) => Err(e),
        }
    }
}

} // verus!
