//! The pieces of the optimizer that works through scratch files: what it
//! computes on each buffer of operations, and which of its two files it
//! reads.
use crate::basis::Basis;
use crate::bits::bit_traits::BitSeq;
use crate::clifford::{counters_fit, identity_view, Clifford, CliffordView};
use crate::operation::{
    all_wf, no_nops, t_count, views, without_nops, Operation, OperationKind, OperationView,
};
use crate::optimization::partition::{commutes_with_all, lemma_t_count_concat};
use crate::optimization::push_t_forward::{push_buffer, push_run};
use crate::optimization::rotation_combination::{
    reduce_rotations_no_ordering_slice, reduce_slice, slice_pass,
};
use crate::optimization::Stats;
use vstd::prelude::*;

verus! {

/// Which of the two scratch files is read. The other one is written.
#[derive(Clone, Copy, Debug, PartialEq, Eq, Structural)]
pub struct ReadWriteSwap {
    pub a_is_read: bool,
}

/// What is to be done with the scratch files when the roles swap: the
/// former reader is emptied, and both are rewound.
#[derive(Clone, Copy, Debug, PartialEq, Eq, Structural)]
pub struct SwapAction {
    /// Whether file A is the one to empty; else file B.
    pub truncate_a: bool,
}

impl ReadWriteSwap {
    /// File A is read first.
    pub fn new() -> (r: Self)
        ensures
            r.a_is_read,
    {
        Self { a_is_read: true }
    }

    /// Swaps the roles of the two files.
    pub fn swap(&mut self) -> (r: SwapAction)
        ensures
            final(self).a_is_read == !old(self).a_is_read,
            r.truncate_a == old(self).a_is_read,
    {
        let action = SwapAction { truncate_a: self.a_is_read };
        self.a_is_read = !self.a_is_read;
        action
    }

    /// Whether file A is the one to read.
    pub fn read(&self) -> (r: bool)
        ensures
            r == self.a_is_read,
    {
        self.a_is_read
    }

    /// Whether file A is the one to write.
    pub fn write(&self) -> (r: bool)
        ensures
            r == !self.a_is_read,
    {
        !self.a_is_read
    }
}

/// The driver that pushes the pi/8 rotations forward, buffer by buffer:
/// the accumulator goes on from one buffer to the next.
#[derive(Debug)]
pub struct StreamingPush<B: Basis> {
    accumulator: Clifford<B>,
    clifford_buf: Clifford<B>,
    changed: bool,
    stats: Stats,
}

impl<B: Basis> StreamingPush<B> {
    /// The accumulator as it stands.
    pub closed spec fn accumulator(&self) -> CliffordView {
        self.accumulator@
    }

    /// The number of qubits.
    pub closed spec fn qubits(&self) -> usize {
        self.accumulator.qubits()
    }

    /// Whether any emitted operation differed from its input so far.
    pub closed spec fn changed(&self) -> bool {
        self.changed
    }

    /// The number of operations read and of pi/8 rotations seen so far.
    pub closed spec fn stats(&self) -> Stats {
        self.stats
    }

    /// The state is sound.
    pub closed spec fn wf(&self) -> bool {
        self.accumulator.wf() && self.clifford_buf.wf() && self.accumulator.qubits()
            == self.clifford_buf.qubits()
    }

    /// Starts a phase from the identity.
    pub fn new(n_qubits: usize) -> (r: Self)
        requires
            B::fits(n_qubits),
            counters_fit::<B>(n_qubits),
        ensures
            r.wf(),
            r.qubits() == n_qubits,
            r.accumulator() == identity_view(n_qubits as nat, B::capacity_of(n_qubits)),
            !r.changed(),
            r.stats().total_operations == 0,
            r.stats().t_gates == 0,
    {
        Self {
            accumulator: Clifford::identity(n_qubits),
            clifford_buf: Clifford::identity(n_qubits),
            changed: false,
            stats: Stats::zero(),
        }
    }

    /// Pushes through one buffer in place, going on from the buffers
    /// before it.
    pub fn process(&mut self, buffer: &mut Vec<Operation<B>>)
        requires
            old(self).wf(),
            all_wf(old(buffer)@, B::class_of(old(self).qubits())),
            no_nops(views(old(buffer)@)),
            old(self).stats().total_operations + old(buffer)@.len() <= usize::MAX,
            old(self).stats().t_gates <= old(self).stats().total_operations,
        ensures
            final(self).wf(),
            final(self).qubits() == old(self).qubits(),
            all_wf(final(buffer)@, B::class_of(old(self).qubits())),
            ({
                let run = push_run(old(self).accumulator(), views(old(buffer)@));
                &&& final(self).accumulator() == run.accumulator
                &&& views(final(buffer)@) == run.emitted
                &&& final(self).changed() == (old(self).changed() || run.changed)
                &&& final(self).stats().t_gates == old(self).stats().t_gates + run.t_gates
            }),
            final(self).stats().total_operations == old(self).stats().total_operations + old(
                buffer,
            )@.len(),
            final(self).stats().t_gates <= final(self).stats().total_operations,
            no_nops(views(final(buffer)@)),
    {
        let read = buffer.len();
        proof {
            crate::optimization::rotation_combination::lemma_t_count_bound(views(buffer@));
        }
        let (changed, t_gates) = push_buffer(&mut self.accumulator, &mut self.clifford_buf, buffer);
        self.changed = self.changed || changed;
        self.stats.total_operations += read;
        self.stats.t_gates += t_gates;
    }

    /// Whether any emitted operation differed from its input, and the
    /// counts of the phase.
    pub fn finish(&self) -> (r: (bool, Stats))
        ensures
            r.0 == self.changed(),
            r.1 == self.stats(),
    {
        (self.changed, self.stats)
    }
}

/// What the streaming partitioner holds and has written after a run of
/// operations: the open layer, the operations written, and whether
/// anything folded.
pub struct LayerRun {
    pub layer: Seq<OperationView>,
    pub written: Seq<OperationView>,
    pub changed: bool,
}

/// Folds the open layer and writes what is left of it.
pub open spec fn flush_layer(s: LayerRun) -> LayerRun {
    LayerRun {
        layer: Seq::empty(),
        written: s.written + without_nops(reduce_slice(s.layer)),
        changed: s.changed || slice_pass(s.layer).1,
    }
}

/// One operation meets the open layer: an operation that is no rotation
/// joins the layer and closes it; a rotation that commutes with the whole
/// layer joins it; any other rotation closes the layer and opens the next.
pub open spec fn layer_step(s: LayerRun, op: OperationView) -> LayerRun {
    if !(op.kind is Rotation) {
        flush_layer(LayerRun { layer: s.layer.push(op), ..s })
    } else if commutes_with_all(s.layer, 0, s.layer.len() as int, op) {
        LayerRun { layer: s.layer.push(op), ..s }
    } else {
        let t = flush_layer(s);
        LayerRun { layer: t.layer.push(op), ..t }
    }
}

/// The streaming partitioner run over `ops`.
pub open spec fn layer_run(s: LayerRun, ops: Seq<OperationView>) -> LayerRun
    decreases ops.len(),
{
    if ops.len() == 0 {
        s
    } else {
        layer_step(layer_run(s, ops.drop_last()), ops.last())
    }
}

/// The approximate partitioner, buffer by buffer: the open layer goes on
/// from one buffer to the next.
#[derive(Debug)]
pub struct StreamingPartition<B: Basis> {
    last_partition: Vec<Operation<B>>,
    changed: bool,
    stats: Stats,
}

impl<B: Basis> StreamingPartition<B> {
    /// The open layer.
    pub closed spec fn layer(&self) -> Seq<Operation<B>> {
        self.last_partition@
    }

    /// Whether anything folded so far.
    pub closed spec fn changed(&self) -> bool {
        self.changed
    }

    /// The number of operations written and of pi/8 rotations among them.
    pub closed spec fn stats(&self) -> Stats {
        self.stats
    }

    /// Starts a phase with no open layer.
    pub fn new() -> (r: Self)
        ensures
            r.layer().len() == 0,
            !r.changed(),
            r.stats().total_operations == 0,
            r.stats().t_gates == 0,
    {
        Self { last_partition: Vec::new(), changed: false, stats: Stats::zero() }
    }

    /// Folds the open layer and appends what is left of it to `out`.
    fn update(&mut self, out: &mut Vec<Operation<B>>)
        requires
            old(self).layer().len() > 0 ==> all_wf(old(self).layer(), old(self).layer()[0].class()),
            old(out)@.len() > 0 ==> all_wf(old(out)@, old(out)@[0].class()),
            old(out)@.len() > 0 && old(self).layer().len() > 0 ==> old(out)@[0].class() == old(
                self,
            ).layer()[0].class(),
            old(self).stats().t_gates <= old(self).stats().total_operations,
            old(self).stats().total_operations + old(self).layer().len() <= usize::MAX,
        ensures
            final(self).layer().len() == 0,
            views(final(out)@) == views(old(out)@) + without_nops(
                reduce_slice(views(old(self).layer())),
            ),
            final(self).changed() == (old(self).changed() || slice_pass(
                views(old(self).layer()),
            ).1),
            final(self).stats().total_operations == old(self).stats().total_operations + (final(out)@.len()
                - old(out)@.len()),
            final(self).stats().t_gates == old(self).stats().t_gates + t_count(
                without_nops(reduce_slice(views(old(self).layer()))),
            ),
            final(self).stats().t_gates <= final(self).stats().total_operations,
            old(out)@.len() <= final(out)@.len() <= old(out)@.len() + old(self).layer().len(),
            forall|c: nat|
                all_wf(old(out)@, c) && all_wf(old(self).layer(), c) ==> all_wf(final(out)@, c),
    {
        let ghost before = views(out@);
        let ghost start = out@;
        let ghost layer = self.last_partition@;
        let ghost counted = self.stats;
        let folded = reduce_rotations_no_ordering_slice(self.last_partition.as_mut_slice());
        self.changed = self.changed || folded;
        let ghost flag = self.changed;
        let n = self.last_partition.len();
        let ghost reduced = views(self.last_partition@);
        let ghost reduced_ops = self.last_partition@;
        let ghost live = crate::operation::live_of(reduced);
        let mut k: usize = 0;
        while k < n
            invariant
                k <= n,
                n == self.last_partition@.len(),
                self.changed == flag,
                reduced == views(self.last_partition@),
                reduced_ops == self.last_partition@,
                live == crate::operation::live_of(reduced),
                n == layer.len(),
                counted.total_operations + n <= usize::MAX,
                counted.t_gates <= counted.total_operations,
                start.len() <= out@.len() <= start.len() + k,
                self.stats.total_operations == counted.total_operations + (out@.len()
                    - start.len()),
                self.stats.t_gates == counted.t_gates + t_count(
                    crate::operation::compacted_prefix(reduced, live, k as int),
                ),
                self.stats.t_gates <= self.stats.total_operations,
                n > 0 ==> all_wf(self.last_partition@, self.last_partition@[0].class()),
                views(out@) == before + crate::operation::compacted_prefix(reduced, live, k as int),
                forall|c: nat| all_wf(start, c) && all_wf(reduced_ops, c) ==> all_wf(out@, c),
            decreases n - k,
        {
            let ghost so_far = views(out@);
            let ghost old_out = out@;
            if !self.last_partition[k].is_nop() {
                let op = self.last_partition[k].duplicate();
                let is_t = match op.kind {
                    OperationKind::Rotation { angle } => angle.is_pi8(),
                    _ => false,
                };
                out.push(op);
                self.stats.total_operations += 1;
                if is_t {
                    self.stats.t_gates += 1;
                }
                proof {
                    assert(views(out@) =~= so_far.push(op@));
                    let prefix = crate::operation::compacted_prefix(reduced, live, k as int);
                    assert(prefix.push(op@).drop_last() =~= prefix);
                    assert(op@ == reduced[k as int]);
                    assert forall|c: nat| all_wf(start, c) && all_wf(reduced_ops, c) implies all_wf(
                        out@,
                        c,
                    ) by {
                        assert forall|i: int| 0 <= i < out@.len() implies (#[trigger] out@[i]).wf()
                            && out@[i].class() == c by {
                            if i < old_out.len() {
                                assert(out@[i] == old_out[i]);
                            } else {
                                assert(reduced_ops[k as int].wf());
                            }
                        }
                    }
                }
            }
            k += 1;
        }
        self.last_partition.clear();
    }

    /// Feeds a buffer of operations to the partitioner. What is ready to
    /// be written is appended to `write_buf`.
    pub fn feed(&mut self, buffer: &Vec<Operation<B>>, write_buf: &mut Vec<Operation<B>>)
        requires
            buffer@.len() > 0 ==> all_wf(buffer@, buffer@[0].class()),
            old(self).layer().len() > 0 ==> all_wf(old(self).layer(), old(self).layer()[0].class()),
            old(write_buf)@.len() > 0 ==> all_wf(old(write_buf)@, old(write_buf)@[0].class()),
            forall|a: Operation<B>, b: Operation<B>|
                (buffer@.contains(a) || old(self).layer().contains(a) || old(
                    write_buf,
                )@.contains(a)) && (buffer@.contains(b) || old(self).layer().contains(b) || old(
                    write_buf,
                )@.contains(b)) ==> a.class() == b.class(),
            old(self).stats().t_gates <= old(self).stats().total_operations,
            old(self).stats().total_operations + old(self).layer().len() + buffer@.len()
                <= usize::MAX,
        ensures
            ({
                let run = layer_run(
                    LayerRun {
                        layer: views(old(self).layer()),
                        written: views(old(write_buf)@),
                        changed: old(self).changed(),
                    },
                    views(buffer@),
                );
                &&& views(final(self).layer()) == run.layer
                &&& views(final(write_buf)@) == run.written
                &&& final(self).changed() == run.changed
            }),
            final(self).stats().total_operations == old(self).stats().total_operations + (final(write_buf)@.len()
                - old(write_buf)@.len()),
            final(self).stats().t_gates + t_count(views(old(write_buf)@)) == old(self).stats().t_gates
                + t_count(views(final(write_buf)@)),
            final(self).stats().t_gates <= final(self).stats().total_operations,
            old(write_buf)@.len() <= final(write_buf)@.len(),
            final(write_buf)@.len() + final(self).layer().len() <= old(write_buf)@.len() + old(
                self,
            ).layer().len() + buffer@.len(),
            final(self).layer().len() > 0 ==> all_wf(
                final(self).layer(),
                final(self).layer()[0].class(),
            ),
            final(write_buf)@.len() > 0 ==> all_wf(final(write_buf)@, final(write_buf)@[0].class()),
            forall|c: nat|
                all_wf(buffer@, c) && all_wf(old(self).layer(), c) && all_wf(old(write_buf)@, c)
                    ==> all_wf(final(self).layer(), c) && all_wf(final(write_buf)@, c),
    {
        let n = buffer.len();
        let ghost ops = views(buffer@);
        let ghost first = LayerRun {
            layer: views(self.last_partition@),
            written: views(write_buf@),
            changed: self.changed,
        };
        let ghost class = if n > 0 {
            buffer@[0].class()
        } else if self.last_partition@.len() > 0 {
            self.last_partition@[0].class()
        } else if write_buf@.len() > 0 {
            write_buf@[0].class()
        } else {
            0
        };
        proof {
            assert(ops.take(0) =~= Seq::<OperationView>::empty());
            lemma_one_class(buffer@, self.last_partition@, write_buf@, class);
        }
        let ghost start_layer = self.last_partition@;
        let ghost start_out = write_buf@;
        let ghost counted = self.stats;
        let mut op_idx: usize = 0;
        while op_idx < n
            invariant
                op_idx <= n,
                n == buffer@.len(),
                ops == views(buffer@),
                all_wf(buffer@, class),
                all_wf(self.last_partition@, class),
                all_wf(write_buf@, class),
                self.stats.total_operations == counted.total_operations + (write_buf@.len()
                    - start_out.len()),
                self.stats.t_gates + t_count(views(start_out)) == counted.t_gates + t_count(
                    views(write_buf@),
                ),
                self.stats.t_gates <= self.stats.total_operations,
                start_out.len() <= write_buf@.len(),
                write_buf@.len() + self.last_partition@.len() <= start_out.len()
                    + start_layer.len() + op_idx,
                counted.total_operations + start_layer.len() + n <= usize::MAX,
                ({
                    let run = layer_run(first, ops.take(op_idx as int));
                    &&& views(self.last_partition@) == run.layer
                    &&& views(write_buf@) == run.written
                    &&& self.changed == run.changed
                }),
            decreases n - op_idx,
        {
            let ghost before = layer_run(first, ops.take(op_idx as int));
            proof {
                assert(ops.take(op_idx + 1).drop_last() =~= ops.take(op_idx as int));
                assert(buffer@[op_idx as int].wf());
                if self.last_partition@.len() > 0 {
                    assert(self.last_partition@[0].class() == class);
                }
                if write_buf@.len() > 0 {
                    assert(write_buf@[0].class() == class);
                }
            }
            if !buffer[op_idx].is_rotation() {
                let op = buffer[op_idx].duplicate();
                let ghost layer_before = views(self.last_partition@);
                self.last_partition.push(op);
                assert(views(self.last_partition@) =~= layer_before.push(op@));
                proof {
                    assert(self.last_partition@[0].class() == class);
                }
                let ghost out_before = views(write_buf@);
                let ghost folded = without_nops(reduce_slice(views(self.last_partition@)));
                self.update(write_buf);
                proof {
                    assert(views(self.last_partition@) =~= Seq::<OperationView>::empty());
                    lemma_t_count_concat(out_before, folded);
                }
            } else {
                let mut commutes = true;
                let count = self.last_partition.len();
                let mut k: usize = 0;
                while k < count
                    invariant
                        k <= count,
                        count == self.last_partition@.len(),
                        op_idx < n,
                        n == buffer@.len(),
                        all_wf(buffer@, class),
                        all_wf(self.last_partition@, class),
                        commutes == commutes_with_all(
                            views(self.last_partition@),
                            0,
                            k as int,
                            buffer@[op_idx as int]@,
                        ),
                    decreases count - k,
                {
                    proof {
                        assert(buffer@[op_idx as int].wf());
                        assert(self.last_partition@[k as int].wf());
                        assert(views(self.last_partition@)[k as int]
                            == self.last_partition@[k as int]@);
                    }
                    if !self.last_partition[k].commutes_with_likely(&buffer[op_idx]) {
                        commutes = false;
                        proof {
                            let op = buffer@[op_idx as int]@;
                            let other = self.last_partition@[k as int]@;
                            assert(op.commutes(other) == other.commutes(op)) by {
                                buffer@[op_idx as int].lemma_widths();
                                self.last_partition@[k as int].lemma_widths();
                                self.last_partition@[k as int].x.lemma_class_len(
                                    &buffer@[op_idx as int].x,
                                );
                                crate::bitseq::lemma_and_comm(op.z, other.x);
                                crate::bitseq::lemma_and_comm(op.x, other.z);
                            }
                            assert(!commutes_with_all(
                                views(self.last_partition@),
                                0,
                                count as int,
                                op,
                            ));
                        }
                        k = count;
                    } else {
                        proof {
                            let op = buffer@[op_idx as int]@;
                            let other = self.last_partition@[k as int]@;
                            assert(op.commutes(other) == other.commutes(op)) by {
                                buffer@[op_idx as int].lemma_widths();
                                self.last_partition@[k as int].lemma_widths();
                                self.last_partition@[k as int].x.lemma_class_len(
                                    &buffer@[op_idx as int].x,
                                );
                                crate::bitseq::lemma_and_comm(op.z, other.x);
                                crate::bitseq::lemma_and_comm(op.x, other.z);
                            }
                        }
                        k += 1;
                    }
                }
                if !commutes {
                    let ghost out_before = views(write_buf@);
                    let ghost folded = without_nops(reduce_slice(views(self.last_partition@)));
                    self.update(write_buf);
                    proof {
                        assert(views(self.last_partition@) =~= Seq::<OperationView>::empty());
                        lemma_t_count_concat(out_before, folded);
                    }
                }
                let op = buffer[op_idx].duplicate();
                let ghost layer_before = views(self.last_partition@);
                self.last_partition.push(op);
                assert(views(self.last_partition@) =~= layer_before.push(op@));
            }
            op_idx += 1;
        }
        assert(ops.take(n as int) =~= ops);
    }

    /// Ends the phase: folds and writes the open layer, if there is one.
    /// Returns whether anything folded, and the counts of what was
    /// written.
    pub fn finish(&mut self, write_buf: &mut Vec<Operation<B>>) -> (r: (bool, Stats))
        requires
            old(self).layer().len() > 0 ==> all_wf(old(self).layer(), old(self).layer()[0].class()),
            old(write_buf)@.len() > 0 ==> all_wf(old(write_buf)@, old(write_buf)@[0].class()),
            old(write_buf)@.len() > 0 && old(self).layer().len() > 0 ==> old(write_buf)@[0].class()
                == old(self).layer()[0].class(),
            old(self).stats().t_gates <= old(self).stats().total_operations,
            old(self).stats().total_operations + old(self).layer().len() <= usize::MAX,
        ensures
            final(self).layer().len() == 0,
            old(self).layer().len() == 0 ==> final(write_buf)@ == old(write_buf)@ && r.0 == old(
                self,
            ).changed(),
            old(self).layer().len() > 0 ==> ({
                let end = flush_layer(
                    LayerRun {
                        layer: views(old(self).layer()),
                        written: views(old(write_buf)@),
                        changed: old(self).changed(),
                    },
                );
                views(final(write_buf)@) == end.written && r.0 == end.changed
            }),
            r.1 == final(self).stats(),
            r.1.total_operations == old(self).stats().total_operations + (final(write_buf)@.len()
                - old(write_buf)@.len()),
            r.1.t_gates + t_count(views(old(write_buf)@)) == old(self).stats().t_gates + t_count(
                views(final(write_buf)@),
            ),
            r.1.t_gates <= r.1.total_operations,
    {
        if self.last_partition.len() > 0 {
            let ghost out_before = views(write_buf@);
            let ghost folded = without_nops(reduce_slice(views(self.last_partition@)));
            self.update(write_buf);
            proof {
                lemma_t_count_concat(out_before, folded);
            }
        }
        (self.changed, self.stats)
    }

    /// The number of operations written so far and of pi/8 rotations
    /// among them.
    pub fn stats_so_far(&self) -> (r: Stats)
        ensures
            r == self.stats(),
    {
        self.stats
    }

    /// The number of operations in the open layer.
    pub fn open_layer_len(&self) -> (r: usize)
        ensures
            r == self.layer().len(),
    {
        self.last_partition.len()
    }
}

/// Operations of which any two are of one class are all of one class.
proof fn lemma_one_class<B: Basis>(
    a: Seq<Operation<B>>,
    b: Seq<Operation<B>>,
    c: Seq<Operation<B>>,
    class: nat,
)
    requires
        a.len() > 0 ==> all_wf(a, a[0].class()),
        b.len() > 0 ==> all_wf(b, b[0].class()),
        c.len() > 0 ==> all_wf(c, c[0].class()),
        forall|x: Operation<B>, y: Operation<B>|
            (a.contains(x) || b.contains(x) || c.contains(x)) && (a.contains(y) || b.contains(y)
                || c.contains(y)) ==> x.class() == y.class(),
        class == if a.len() > 0 {
            a[0].class()
        } else if b.len() > 0 {
            b[0].class()
        } else if c.len() > 0 {
            c[0].class()
        } else {
            0
        },
    ensures
        all_wf(a, class),
        all_wf(b, class),
        all_wf(c, class),
{
    if a.len() > 0 {
        assert(a.contains(a[0]));
    }
    if b.len() > 0 {
        assert(b.contains(b[0]));
    }
    if c.len() > 0 {
        assert(c.contains(c[0]));
    }
    assert forall|i: int| 0 <= i < a.len() implies (#[trigger] a[i]).wf() && a[i].class()
        == class by {
        assert(a.contains(a[i]));
    }
    assert forall|i: int| 0 <= i < b.len() implies (#[trigger] b[i]).wf() && b[i].class()
        == class by {
        assert(b.contains(b[i]));
    }
    assert forall|i: int| 0 <= i < c.len() implies (#[trigger] c[i]).wf() && c[i].class()
        == class by {
        assert(c.contains(c[i]));
    }
}

} // verus!
