//! Partitioning of the pi/8 rotations into layers of mutually commuting
//! rotations, and folding within each layer.
use crate::basis::Basis;
use crate::bits::bit_traits::BitSeq;
use crate::bitseq::lemma_count_concat;
use crate::operation::{
    all_wf, compacted_prefix, every, lemma_every_compacted, lemma_every_concat,
    lemma_every_subrange, live_of, no_cliffords, op_on, t_count, views, without_nops, Operation,
    OperationView,
};
use crate::optimization::partitions::{decides, iota, sift_down, Layers, Partitions};
use crate::optimization::rotation_combination::{
    all_t, lemma_compacted, lemma_live_t_all, lemma_reduce_slice, lemma_reduce_slice_strict,
    lemma_reduce_vec, lemma_reduce_vec_live, lemma_reduce_vec_on, op_live,
    reduce_rotations_no_ordering, reduce_rotations_no_ordering_slice, reduce_slice, reduce_vec,
    slice_pass, vec_pass, without_nops_len,
};
use crate::optimization::Stats;
use vstd::prelude::*;
use vstd::seq_lib::to_multiset_remove;

verus! {

/// The circuit with the slab `[start, end)` folded, and whether anything
/// folded.
pub open spec fn splice_reduce(ops: Seq<OperationView>, start: int, end: int) -> (
    Seq<OperationView>,
    bool,
) {
    (
        ops.take(start) + reduce_slice(ops.subrange(start, end)) + ops.skip(end),
        slice_pass(ops.subrange(start, end)).1,
    )
}

/// Whether `op` commutes with every operation of `ops` in `[from, to)`.
pub open spec fn commutes_with_all(ops: Seq<OperationView>, from: int, to: int, op: OperationView) -> bool {
    forall|k: int| from <= k < to ==> op.commutes(#[trigger] ops[k])
}

/// The state of the single pass of the approximate partitioner: the
/// circuit, the index that is looked at next, where the current layer
/// starts, the last rotation seen, and whether anything folded yet.
pub struct ScanState {
    pub ops: Seq<OperationView>,
    pub at: int,
    pub start: Option<int>,
    pub last_rotation: int,
    pub changed: bool,
}

/// Folds the current layer, taken to end before `end`.
pub open spec fn close_layer(s: ScanState, end: int) -> ScanState {
    match s.start {
        Some(begin) => {
            let (ops, folded) = splice_reduce(s.ops, begin, end);
            ScanState { ops, changed: s.changed || folded, ..s }
        },
        None => s,
    }
}

/// One step of the pass: a rotation that commutes with the whole current
/// layer extends it; any other rotation closes it and starts the next; an
/// operation that is no rotation closes it.
pub open spec fn scan_step(s: ScanState) -> ScanState {
    let i = s.at;
    let op = s.ops[i];
    if !(op.kind is Rotation) {
        let t = close_layer(s, i);
        ScanState { at: i + 1, start: None, ..t }
    } else if s.start is None {
        ScanState { at: i + 1, start: Some(i), last_rotation: i, ..s }
    } else if commutes_with_all(s.ops, s.start.unwrap(), i, op) {
        ScanState { at: i + 1, last_rotation: i, ..s }
    } else {
        let t = close_layer(s, i);
        ScanState { at: i + 1, start: Some(i), last_rotation: i, ..t }
    }
}

/// The state in which the pass over `n` operations ends.
pub open spec fn scan_run(s: ScanState, n: int) -> ScanState
    decreases n - s.at,
{
    if s.at >= n {
        s
    } else {
        scan_run(scan_step(s), n)
    }
}

/// The circuit after the approximate partitioner, and whether anything
/// folded. A layer that is still open at the end is folded up to, but not
/// with, the last rotation.
pub open spec fn approximate_partition(ops: Seq<OperationView>) -> (Seq<OperationView>, bool) {
    let s = scan_run(
        ScanState { ops, at: 0, start: None, last_rotation: 0, changed: false },
        ops.len() as int,
    );
    let t = close_layer(s, s.last_rotation);
    (without_nops(t.ops), t.changed)
}

/// The state of a pass is sound: the layer lies before the index, and the
/// circuit has its length.
pub open spec fn scan_ok(s: ScanState, n: int) -> bool {
    &&& s.ops.len() == n
    &&& 0 <= s.at <= n
    &&& 0 <= s.last_rotation <= s.at
    &&& (s.start matches Some(b) ==> 0 <= b <= s.last_rotation < s.at)
}

/// The pi/8 rotations of a concatenation.
pub proof fn lemma_t_count_concat(a: Seq<OperationView>, b: Seq<OperationView>)
    ensures
        t_count(a + b) == t_count(a) + t_count(b),
    decreases b.len(),
{
    if b.len() == 0 {
        assert(a + b =~= a);
    } else {
        lemma_t_count_concat(a, b.drop_last());
        assert((a + b).drop_last() =~= a + b.drop_last());
    }
}

/// The live operations of a circuit in three parts.
proof fn lemma_three_parts(ops: Seq<OperationView>, start: int, end: int)
    requires
        0 <= start <= end <= ops.len(),
    ensures
        ops == ops.take(start) + ops.subrange(start, end) + ops.skip(end),
        t_count(ops) == t_count(ops.take(start)) + t_count(ops.subrange(start, end)) + t_count(
            ops.skip(end),
        ),
        without_nops_len(ops) == without_nops_len(ops.take(start)) + without_nops_len(
            ops.subrange(start, end),
        ) + without_nops_len(ops.skip(end)),
{
    let a = ops.take(start);
    let b = ops.subrange(start, end);
    let c = ops.skip(end);
    assert(ops =~= a + b + c);
    lemma_t_count_concat(a + b, c);
    lemma_t_count_concat(a, b);
    assert(live_of(a + b + c) =~= live_of(a) + live_of(b) + live_of(c));
    lemma_count_concat(live_of(a) + live_of(b), live_of(c));
    lemma_count_concat(live_of(a), live_of(b));
}

/// Folding a slab keeps the length of the circuit and everything outside
/// the slab, and adds neither live operations nor pi/8 rotations. If it
/// reports a change a live operation is gone; if not, nothing changed.
pub proof fn lemma_splice_reduce(ops: Seq<OperationView>, start: int, end: int)
    requires
        0 <= start <= end <= ops.len(),
    ensures
        splice_reduce(ops, start, end).0.len() == ops.len(),
        forall|k: int|
            0 <= k < start || end <= k < ops.len() ==> #[trigger] splice_reduce(ops, start, end).0[k]
                == ops[k],
        t_count(splice_reduce(ops, start, end).0) <= t_count(ops),
        without_nops_len(splice_reduce(ops, start, end).0) <= without_nops_len(ops),
        splice_reduce(ops, start, end).1 ==> without_nops_len(splice_reduce(ops, start, end).0)
            < without_nops_len(ops),
        !splice_reduce(ops, start, end).1 ==> splice_reduce(ops, start, end).0 == ops,
        forall|k: int|
            0 <= k < ops.len() ==> (#[trigger] splice_reduce(ops, start, end).0[k]).x == ops[k].x
                && splice_reduce(ops, start, end).0[k].z == ops[k].z,
{
    let a = ops.take(start);
    let b = ops.subrange(start, end);
    let c = ops.skip(end);
    let r = reduce_slice(b);
    lemma_reduce_slice(b);
    lemma_three_parts(ops, start, end);
    let out = a + r + c;
    lemma_three_parts(out, start, end);
    assert(out.take(start) =~= a);
    assert(out.subrange(start, end) =~= r);
    assert(out.skip(end) =~= c);
    assert forall|k: int| 0 <= k < ops.len() implies (#[trigger] out[k]).x == ops[k].x && out[k].z
        == ops[k].z by {
        if start <= k < end {
            assert(out[k] == r[k - start]);
            assert(b[k - start] == ops[k]);
        }
    }
}

/// What the pass keeps, step by step.
pub proof fn lemma_scan_step(s: ScanState, n: int)
    requires
        scan_ok(s, n),
        s.at < n,
    ensures
        scan_ok(scan_step(s), n),
        scan_step(s).at == s.at + 1,
        forall|k: int| s.at <= k < n ==> #[trigger] scan_step(s).ops[k] == s.ops[k],
        t_count(scan_step(s).ops) <= t_count(s.ops),
        without_nops_len(scan_step(s).ops) <= without_nops_len(s.ops),
        scan_step(s).changed || !s.changed,
        scan_step(s).changed && !s.changed ==> without_nops_len(scan_step(s).ops)
            < without_nops_len(s.ops),
        !scan_step(s).changed ==> scan_step(s).ops == s.ops,
        forall|k: int|
            0 <= k < n ==> (#[trigger] scan_step(s).ops[k]).x == s.ops[k].x && scan_step(s).ops[k].z
                == s.ops[k].z,
{
    if s.start is Some {
        lemma_splice_reduce(s.ops, s.start.unwrap(), s.at);
    }
}

/// What the whole pass keeps.
pub proof fn lemma_scan_run(s: ScanState, n: int)
    requires
        scan_ok(s, n),
    ensures
        scan_ok(scan_run(s, n), n),
        scan_run(s, n).at == n,
        t_count(scan_run(s, n).ops) <= t_count(s.ops),
        without_nops_len(scan_run(s, n).ops) <= without_nops_len(s.ops),
        scan_run(s, n).changed || !s.changed,
        scan_run(s, n).changed && !s.changed ==> without_nops_len(scan_run(s, n).ops)
            < without_nops_len(s.ops),
        !scan_run(s, n).changed ==> scan_run(s, n).ops == s.ops,
        forall|k: int|
            0 <= k < n ==> (#[trigger] scan_run(s, n).ops[k]).x == s.ops[k].x && scan_run(
                s,
                n,
            ).ops[k].z == s.ops[k].z,
    decreases n - s.at,
{
    if s.at < n {
        lemma_scan_step(s, n);
        let t = scan_step(s);
        lemma_scan_run(t, n);
        assert forall|k: int| 0 <= k < n implies (#[trigger] scan_run(s, n).ops[k]).x
            == s.ops[k].x && scan_run(s, n).ops[k].z == s.ops[k].z by {
            assert(t.ops[k].x == s.ops[k].x);
            assert(scan_run(t, n).ops[k].x == t.ops[k].x);
        }
    }
}

/// The open layer holds rotations only.
pub open spec fn layer_of_rotations(s: ScanState) -> bool {
    s.start matches Some(b) ==> forall|k: int| b <= k < s.at ==> (#[trigger] s.ops[k]).kind is Rotation
}

/// Where the pass stands on a circuit without Clifford rotations: either
/// nothing folded yet and the circuit is as it was, or the circuit has
/// lost a pi/8 rotation.
pub open spec fn scan_strict(s: ScanState, start: Seq<OperationView>) -> bool {
    &&& layer_of_rotations(s)
    &&& s.changed || s.ops == start
    &&& s.changed ==> t_count(s.ops) < t_count(start)
}

/// Closing the open layer, on a circuit without Clifford rotations.
proof fn lemma_close_layer_strict(s: ScanState, n: int, end: int, start: Seq<OperationView>)
    requires
        scan_ok(s, n),
        no_cliffords(start),
        scan_strict(s, start),
        s.start matches Some(b) ==> b <= end <= s.at,
    ensures
        close_layer(s, end).changed || close_layer(s, end).ops == start,
        close_layer(s, end).changed ==> t_count(close_layer(s, end).ops) < t_count(start),
{
    match s.start {
        Some(b) => {
            lemma_splice_reduce(s.ops, b, end);
            if !s.changed {
                let slab = s.ops.subrange(b, end);
                assert(all_t(slab)) by {
                    assert forall|k: int| 0 <= k < slab.len() implies (#[trigger] slab[k]).is_t() by {
                        assert(slab[k] == s.ops[b + k]);
                        assert(s.ops[b + k].kind is Rotation);
                    }
                }
                lemma_reduce_slice_strict(slab);
                lemma_three_parts(s.ops, b, end);
                let out = splice_reduce(s.ops, b, end).0;
                lemma_three_parts(out, b, end);
                assert(out.take(b) =~= s.ops.take(b));
                assert(out.subrange(b, end) =~= reduce_slice(slab));
                assert(out.skip(end) =~= s.ops.skip(end));
            }
        },
        None => {},
    }
}

/// The pass over a circuit without Clifford rotations, step by step.
proof fn lemma_scan_run_strict(s: ScanState, n: int, start: Seq<OperationView>)
    requires
        scan_ok(s, n),
        no_cliffords(start),
        scan_strict(s, start),
    ensures
        scan_strict(scan_run(s, n), start),
    decreases n - s.at,
{
    if s.at < n {
        let i = s.at;
        lemma_scan_step(s, n);
        lemma_close_layer_strict(s, n, i, start);
        let t = scan_step(s);
        assert(layer_of_rotations(t)) by {
            if t.start is Some {
                let b = t.start.unwrap();
                assert forall|k: int| b <= k < t.at implies (#[trigger] t.ops[k]).kind is Rotation by {
                    assert(t.ops[i] == s.ops[i]);
                    if k < i {
                        assert(t.ops == s.ops);
                        assert(s.ops[k].kind is Rotation);
                    }
                }
            }
        }
        lemma_scan_run_strict(t, n, start);
    }
}

/// On a circuit without Clifford rotations, the approximate partitioner
/// reports a change only where the circuit loses a pi/8 rotation.
pub proof fn lemma_approximate_partition_strict(ops: Seq<OperationView>)
    requires
        no_cliffords(ops),
    ensures
        approximate_partition(ops).1 ==> t_count(approximate_partition(ops).0) < t_count(ops),
{
    let n = ops.len() as int;
    let s0 = ScanState { ops, at: 0, start: None, last_rotation: 0, changed: false };
    lemma_scan_run(s0, n);
    lemma_scan_run_strict(s0, n, ops);
    let s = scan_run(s0, n);
    lemma_close_layer_strict(s, n, s.last_rotation, ops);
    lemma_without_nops(close_layer(s, s.last_rotation).ops);
}

/// What is left after the tombstones are removed is no tombstone.
proof fn lemma_live_compacted(ops: Seq<OperationView>, k: int)
    requires
        0 <= k <= ops.len(),
    ensures
        every(compacted_prefix(ops, live_of(ops), k), op_live()),
    decreases k,
{
    if k > 0 {
        lemma_live_compacted(ops, k - 1);
        let rest = compacted_prefix(ops, live_of(ops), k - 1);
        if live_of(ops)[k - 1] {
            assert forall|i: int| 0 <= i < rest.push(ops[k - 1]).len() implies op_live()(
                #[trigger] rest.push(ops[k - 1])[i],
            ) by {
                if i < rest.len() {
                    assert(rest.push(ops[k - 1])[i] == rest[i]);
                }
            }
        }
    }
}

/// Removing the tombstones leaves the live operations and the pi/8
/// rotations.
pub proof fn lemma_without_nops(ops: Seq<OperationView>)
    ensures
        without_nops(ops).len() == without_nops_len(ops),
        t_count(without_nops(ops)) == t_count(ops),
        without_nops(ops).len() <= ops.len(),
        every(without_nops(ops), op_live()),
{
    lemma_live_compacted(ops, ops.len() as int);
    lemma_compacted(ops, live_of(ops), ops.len() as int);
    assert(ops.take(ops.len() as int) =~= ops);
    assert(live_of(ops).take(ops.len() as int) =~= live_of(ops));
    lemma_live_t_all(ops);
    crate::bitseq::lemma_count_bound(live_of(ops));
}

/// The approximate partitioner never lengthens the circuit and never adds
/// pi/8 rotations. If it reports a change, the circuit has lost an
/// operation; if not, only tombstones are gone.
pub proof fn lemma_approximate_partition(ops: Seq<OperationView>)
    ensures
        approximate_partition(ops).0.len() <= ops.len(),
        t_count(approximate_partition(ops).0) <= t_count(ops),
        approximate_partition(ops).1 ==> approximate_partition(ops).0.len() < without_nops(
            ops,
        ).len(),
        !approximate_partition(ops).1 ==> approximate_partition(ops).0 == without_nops(ops),
        forall|n: int, width: nat| #[trigger]
            every(ops, op_on(n, width)) ==> every(approximate_partition(ops).0, op_on(n, width)),
{
    let n = ops.len() as int;
    let s0 = ScanState { ops, at: 0, start: None, last_rotation: 0, changed: false };
    lemma_scan_run(s0, n);
    let s = scan_run(s0, n);
    if s.start is Some {
        lemma_splice_reduce(s.ops, s.start.unwrap(), s.last_rotation);
    }
    let t = close_layer(s, s.last_rotation);
    lemma_without_nops(t.ops);
    lemma_without_nops(ops);
    assert forall|q: int, width: nat| #[trigger] every(ops, op_on(q, width)) implies every(
        approximate_partition(ops).0,
        op_on(q, width),
    ) by {
        assert(every(t.ops, op_on(q, width))) by {
            assert forall|i: int| 0 <= i < t.ops.len() implies op_on(q, width)(#[trigger] t.ops[i]) by {
                assert(op_on(q, width)(ops[i]));
                assert(s.ops[i].x == ops[i].x);
                assert(t.ops[i].x == s.ops[i].x);
            }
        }
        lemma_every_compacted(t.ops, live_of(t.ops), t.ops.len() as int, op_on(q, width));
    }
}

/// Folds the slab `[start, end)` of the circuit in place.
fn reduce_range<B: Basis>(circuit: &mut Vec<Operation<B>>, start: usize, end: usize) -> (changed:
    bool)
    requires
        start <= end <= old(circuit)@.len(),
        old(circuit)@.len() > 0 ==> all_wf(old(circuit)@, old(circuit)@[0].class()),
    ensures
        final(circuit)@.len() == old(circuit)@.len(),
        views(final(circuit)@) == splice_reduce(
            views(old(circuit)@),
            start as int,
            end as int,
        ).0,
        changed == splice_reduce(views(old(circuit)@), start as int, end as int).1,
        forall|c: nat| all_wf(old(circuit)@, c) ==> all_wf(final(circuit)@, c),
{
    let ghost before = circuit@;
    let whole = circuit.as_mut_slice();
    let (head, rest) = whole.split_at_mut(start);
    let (slab, tail) = rest.split_at_mut(end - start);
    let ghost slab_before = slab@;
    proof {
        assert(slab@ =~= before.subrange(start as int, end as int));
        if slab@.len() > 0 {
            assert(all_wf(slab@, slab@[0].class())) by {
                assert(before[0].wf());
                assert forall|i: int| 0 <= i < slab@.len() implies (#[trigger] slab@[i]).wf()
                    && slab@[i].class() == slab@[0].class() by {
                    assert(slab@[i] == before[start + i]);
                    assert(slab@[0] == before[start as int]);
                }
            }
        }
    }
    let changed = reduce_rotations_no_ordering_slice(slab);
    proof {
        assert(views(before.subrange(start as int, end as int)) =~= views(before).subrange(
            start as int,
            end as int,
        ));
        assert(circuit@ =~= before.take(start as int) + slab@ + before.skip(end as int));
        assert(views(circuit@) =~= views(before).take(start as int) + views(slab@) + views(
            before,
        ).skip(end as int));
        assert forall|c: nat| all_wf(before, c) implies all_wf(circuit@, c) by {
            assert(all_wf(slab_before, c)) by {
                assert forall|i: int| 0 <= i < slab_before.len() implies (
                #[trigger] slab_before[i]).wf() && slab_before[i].class() == c by {
                    assert(slab_before[i] == before[start + i]);
                }
            }
            assert forall|i: int| 0 <= i < circuit@.len() implies (#[trigger] circuit@[i]).wf()
                && circuit@[i].class() == c by {
                if i < start {
                    assert(circuit@[i] == before[i]);
                } else if i < end {
                    assert(circuit@[i] == slab@[i - start]);
                } else {
                    assert(circuit@[i] == before[i]);
                }
            }
        }
    }
    changed
}

/// Removes the tombstones from the circuit.
pub fn remove_nops<B: Basis>(circuit: &mut Vec<Operation<B>>)
    requires
        old(circuit)@.len() > 0 ==> all_wf(old(circuit)@, old(circuit)@[0].class()),
    ensures
        views(final(circuit)@) == without_nops(views(old(circuit)@)),
        forall|c: nat| all_wf(old(circuit)@, c) ==> all_wf(final(circuit)@, c),
{
    let n = circuit.len();
    let ghost before = circuit@;
    let ghost live = live_of(views(before));
    let mut write: usize = 0;
    let mut read: usize = 0;
    while read < n
        invariant
            n == circuit@.len(),
            n == before.len(),
            live == live_of(views(before)),
            write <= read <= n,
            n > 0 ==> all_wf(before, before[0].class()),
            views(circuit@.take(write as int)) == compacted_prefix(views(before), live, read as int),
            forall|k: int| read <= k < n ==> circuit@[k] == before[k],
            forall|c: nat| all_wf(before, c) ==> all_wf(circuit@, c),
        decreases n - read,
    {
        if !circuit[read].is_nop() {
            if write != read {
                let op = circuit[read].duplicate();
                circuit[write] = op;
            }
            assert(views(circuit@.take(write + 1)) =~= views(circuit@.take(write as int)).push(
                before[read as int]@,
            ));
            write += 1;
        }
        read += 1;
    }
    let ghost filled = circuit@;
    circuit.truncate(write);
    assert(circuit@ =~= filled.take(write as int));
    assert forall|c: nat| all_wf(before, c) implies all_wf(circuit@, c) by {
        assert forall|i: int| 0 <= i < circuit@.len() implies (#[trigger] circuit@[i]).wf()
            && circuit@[i].class() == c by {
            assert(circuit@[i] == filled[i]);
        }
    }
}

/// Counts the operations and the pi/8 rotations of a circuit.
pub fn circuit_stats<B: Basis>(circuit: &Vec<Operation<B>>) -> (stats: Stats)
    ensures
        stats.total_operations == circuit@.len(),
        stats.t_gates == t_count(views(circuit@)),
{
    let mut stats = Stats { total_operations: circuit.len(), t_gates: 0 };
    let n = circuit.len();
    let ghost ops = views(circuit@);
    let mut k: usize = 0;
    assert(ops.take(0) =~= Seq::<OperationView>::empty());
    while k < n
        invariant
            n == circuit@.len(),
            ops == views(circuit@),
            k <= n,
            stats.total_operations == n,
            stats.t_gates == t_count(ops.take(k as int)),
            stats.t_gates <= k,
        decreases n - k,
    {
        assert(ops.take(k + 1).drop_last() =~= ops.take(k as int));
        if let Some(r) = circuit[k].as_rotation() {
            if r.angle.is_pi8() {
                stats.t_gates += 1;
            }
        }
        k += 1;
    }
    assert(ops.take(n as int) =~= ops);
    stats
}

/// The approximate partitioner: one pass that collects runs of mutually
/// commuting rotations into layers and folds each layer as it closes, then
/// removes the tombstones. Returns whether anything folded, and the counts
/// of the circuit that is left.
pub fn approximate_partition_t_gates<B: Basis>(circuit: &mut Vec<Operation<B>>) -> (r: (
    bool,
    Stats,
))
    requires
        old(circuit)@.len() > 0 ==> all_wf(old(circuit)@, old(circuit)@[0].class()),
    ensures
        views(final(circuit)@) == approximate_partition(views(old(circuit)@)).0,
        r.0 == approximate_partition(views(old(circuit)@)).1,
        r.1.total_operations == final(circuit)@.len(),
        r.1.t_gates == t_count(views(final(circuit)@)),
        final(circuit)@.len() <= old(circuit)@.len(),
        t_count(views(final(circuit)@)) <= t_count(views(old(circuit)@)),
        r.0 ==> final(circuit)@.len() < old(circuit)@.len(),
        !r.0 ==> views(final(circuit)@) == without_nops(views(old(circuit)@)),
        every(views(final(circuit)@), op_live()),
        forall|n: int, width: nat| #[trigger]
            every(views(old(circuit)@), op_on(n, width)) ==> every(
                views(final(circuit)@),
                op_on(n, width),
            ),
        forall|c: nat| all_wf(old(circuit)@, c) ==> all_wf(final(circuit)@, c),
{
    let ghost before = circuit@;
    let ghost first = ScanState {
        ops: views(before),
        at: 0,
        start: None,
        last_rotation: 0,
        changed: false,
    };
    let n = circuit.len();
    let mut partition_start: Option<usize> = None;
    let mut last_rotation_index: usize = 0;
    let mut changed = false;
    let mut new_index: usize = 0;
    while new_index < n
        invariant
            n == circuit@.len(),
            n == before.len(),
            n > 0 ==> all_wf(circuit@, circuit@[0].class()),
            forall|c: nat| all_wf(before, c) ==> all_wf(circuit@, c),
            scan_ok(
                ScanState {
                    ops: views(circuit@),
                    at: new_index as int,
                    start: match partition_start {
                        Some(b) => Some(b as int),
                        None => None,
                    },
                    last_rotation: last_rotation_index as int,
                    changed,
                },
                n as int,
            ),
            scan_run(
                ScanState {
                    ops: views(circuit@),
                    at: new_index as int,
                    start: match partition_start {
                        Some(b) => Some(b as int),
                        None => None,
                    },
                    last_rotation: last_rotation_index as int,
                    changed,
                },
                n as int,
            ) == scan_run(first, n as int),
        decreases n - new_index,
    {
        let ghost s = ScanState {
            ops: views(circuit@),
            at: new_index as int,
            start: match partition_start {
                Some(b) => Some(b as int),
                None => None,
            },
            last_rotation: last_rotation_index as int,
            changed,
        };
        proof {
            lemma_scan_step(s, n as int);
        }
        if !circuit[new_index].is_rotation() {
            if let Some(begin) = partition_start {
                let folded = reduce_range(circuit, begin, new_index);
                changed = changed || folded;
            }
            partition_start = None;
            new_index += 1;
            continue ;
        }
        last_rotation_index = new_index;
        if partition_start.is_none() {
            partition_start = Some(new_index);
            new_index += 1;
            continue ;
        }
        let begin = partition_start.unwrap();
        let mut commutes_with_all_so_far = true;
        let mut prev_index = begin;
        while prev_index < new_index
            invariant
                begin <= prev_index <= new_index < n,
                n == circuit@.len(),
                n > 0 ==> all_wf(circuit@, circuit@[0].class()),
                commutes_with_all_so_far == commutes_with_all(
                    views(circuit@),
                    begin as int,
                    prev_index as int,
                    circuit@[new_index as int]@,
                ),
            decreases new_index - prev_index,
        {
            proof {
                assert(circuit@[0].wf());
                assert(circuit@[new_index as int].wf());
                assert(circuit@[prev_index as int].wf());
                assert(views(circuit@)[prev_index as int] == circuit@[prev_index as int]@);
            }
            if !circuit[new_index].commutes_with_likely(&circuit[prev_index]) {
                commutes_with_all_so_far = false;
                proof {
                    assert(!commutes_with_all(
                        views(circuit@),
                        begin as int,
                        new_index as int,
                        circuit@[new_index as int]@,
                    ));
                }
                prev_index = new_index;
            } else {
                prev_index += 1;
            }
        }
        if !commutes_with_all_so_far {
            let folded = reduce_range(circuit, begin, new_index);
            changed = changed || folded;
            partition_start = Some(new_index);
        }
        new_index += 1;
    }
    if let Some(begin) = partition_start {
        let folded = reduce_range(circuit, begin, last_rotation_index);
        changed = changed || folded;
    }
    let ghost scanned = views(circuit@);
    remove_nops(circuit);
    proof {
        lemma_approximate_partition(views(before));
        lemma_without_nops(views(before));
        lemma_without_nops(scanned);
    }
    let stats = circuit_stats(circuit);
    (changed, stats)
}

/// Whether operation `i` commutes with every operation of the layer.
pub open spec fn layer_commutes(ops: Seq<OperationView>, layer: Seq<usize>, i: usize) -> bool {
    forall|j: int| 0 <= j < layer.len() ==> ops[i as int].commutes(#[trigger] ops[layer[j] as int])
}

/// The predicate of the exact partitioner: an index moves down a layer if
/// its operation commutes with every operation of that layer.
pub open spec fn sift_pred(ops: Seq<OperationView>) -> spec_fn(Seq<usize>, usize) -> bool {
    |layer: Seq<usize>, i: usize| layer_commutes(ops, layer, i)
}

/// Sift-down passes, repeated until one moves nothing.
pub open spec fn sift_fix(layers: Layers, pred: spec_fn(Seq<usize>, usize) -> bool) -> Layers
    decreases layers.depth(),
{
    let (next, changed) = sift_down(layers, pred);
    if changed && 0 <= next.depth() < layers.depth() {
        sift_fix(next, pred)
    } else {
        next
    }
}

/// The layers of the exact partitioner for the first `t` operations: one
/// layer for each to begin with, then sifted down until nothing moves.
pub open spec fn exact_layers(ops: Seq<OperationView>, t: int) -> Layers {
    sift_fix(Layers { indexes: iota(t), boundaries: iota(t) }, sift_pred(ops))
}

/// The operations at the given indices.
pub open spec fn gather(ops: Seq<OperationView>, indexes: Seq<usize>) -> Seq<OperationView> {
    Seq::new(indexes.len(), |j: int| ops[indexes[j] as int])
}

/// The first `k` layers, each folded, one after the other; and whether any
/// of them folded.
pub open spec fn merge_layers(ops: Seq<OperationView>, layers: Layers, k: int) -> (
    Seq<OperationView>,
    bool,
)
    decreases k,
{
    if k <= 0 {
        (Seq::empty(), false)
    } else {
        let (out, changed) = merge_layers(ops, layers, k - 1);
        let slab = gather(ops, layers.layer(k - 1));
        (out + reduce_vec(slab), changed || vec_pass(slab).1)
    }
}

/// The circuit after the exact partitioner has worked on its first `t`
/// operations, and whether anything folded.
pub open spec fn exact_partition(ops: Seq<OperationView>, t: int) -> (Seq<OperationView>, bool) {
    if t <= 0 {
        (ops, false)
    } else {
        let layers = exact_layers(ops, t);
        let (merged, changed) = merge_layers(ops, layers, layers.boundaries.len() as int);
        (merged + ops.skip(t), changed)
    }
}

/// Whether the operation at `this_rotation` commutes with every operation
/// of the layer `prev_partition`.
pub fn commutes_with_layer<B: Basis>(
    circuit: &[Operation<B>],
    prev_partition: &[usize],
    this_rotation: usize,
) -> (r: bool)
    requires
        this_rotation < circuit@.len(),
        forall|j: int| 0 <= j < prev_partition@.len() ==> prev_partition@[j] < circuit@.len(),
        all_wf(circuit@, circuit@[0].class()),
    ensures
        r == layer_commutes(views(circuit@), prev_partition@, this_rotation),
{
    let n = prev_partition.len();
    let mut k: usize = 0;
    while k < n
        invariant
            n == prev_partition@.len(),
            k <= n,
            this_rotation < circuit@.len(),
            forall|j: int| 0 <= j < prev_partition@.len() ==> prev_partition@[j] < circuit@.len(),
            all_wf(circuit@, circuit@[0].class()),
            layer_commutes(views(circuit@), prev_partition@.take(k as int), this_rotation),
        decreases n - k,
    {
        let prev_index = prev_partition[k];
        proof {
            assert(circuit@[0].wf());
            assert(circuit@[this_rotation as int].wf());
            assert(circuit@[prev_index as int].wf());
        }
        if !circuit[this_rotation].commutes_with_likely(&circuit[prev_index]) {
            assert(!layer_commutes(views(circuit@), prev_partition@, this_rotation)) by {
                assert(views(circuit@)[prev_partition@[k as int] as int] == circuit@[prev_index as int]@);
            }
            return false;
        }
        assert(layer_commutes(views(circuit@), prev_partition@.take(k + 1), this_rotation)) by {
            assert forall|j: int| 0 <= j < k + 1 implies views(circuit@)[this_rotation as int].commutes(
                #[trigger] views(circuit@)[prev_partition@.take(k + 1)[j] as int],
            ) by {
                if j < k {
                    assert(prev_partition@.take(k as int)[j] == prev_partition@[j]);
                }
            }
        }
        k += 1;
    }
    assert(prev_partition@.take(n as int) =~= prev_partition@);
    true
}

/// Sifts the layers down until a pass moves nothing. Returns whether the
/// last pass moved anything, which it never did.
pub fn update_t_gate_partitions<B: Basis>(circuit: &[Operation<B>], partitions: &mut Partitions) -> (r:
    bool)
    requires
        old(partitions)@.wf(),
        circuit@.len() > 0 ==> all_wf(circuit@, circuit@[0].class()),
        forall|x: usize| old(partitions)@.indexes.contains(x) ==> x < circuit@.len(),
    ensures
        !r,
        final(partitions)@ == sift_fix(old(partitions)@, sift_pred(views(circuit@))),
        final(partitions)@.wf(),
        final(partitions)@.indexes.to_multiset() == old(partitions)@.indexes.to_multiset(),
        final(partitions)@.indexes.len() == old(partitions)@.indexes.len(),
{
    let ghost before = partitions@;
    let ghost pred = sift_pred(views(circuit@));
    let mut partitions_changed = true;
    proof {
        crate::optimization::partitions::lemma_depth_bound(partitions@);
    }
    while partitions_changed
        invariant
            partitions@.wf(),
            circuit@.len() > 0 ==> all_wf(circuit@, circuit@[0].class()),
            pred == sift_pred(views(circuit@)),
            partitions@.indexes.to_multiset() == before.indexes.to_multiset(),
            partitions@.indexes.len() == before.indexes.len(),
            forall|x: usize| before.indexes.contains(x) ==> x < circuit@.len(),
            partitions_changed ==> sift_fix(partitions@, pred) == sift_fix(before, pred),
            !partitions_changed ==> partitions@ == sift_fix(before, pred),
            partitions@.depth() >= 0,
        decreases partitions@.depth(), partitions_changed as int,
    {
        let ghost cur = partitions@;
        proof {
            cur.indexes.to_multiset_ensures();
            before.indexes.to_multiset_ensures();
            assert forall|x: usize| cur.indexes.contains(x) implies x < circuit@.len() by {
                assert(cur.indexes.to_multiset().count(x) > 0);
                assert(before.indexes.to_multiset().count(x) > 0);
            }
        }
        let when = |prev_partition: &[usize], this_rotation: usize| -> (r: bool)
            requires
                this_rotation < circuit@.len(),
                forall|j: int|
                    0 <= j < prev_partition@.len() ==> prev_partition@[j] < circuit@.len(),
                all_wf(circuit@, circuit@[0].class()),
            ensures
                r == layer_commutes(views(circuit@), prev_partition@, this_rotation),
            { commutes_with_layer(circuit, prev_partition, this_rotation) };
        assert(decides(when, pred));
        partitions_changed = partitions.swap_down(when);
        proof {
            crate::optimization::partitions::lemma_depth_bound(partitions@);
        }
    }
    partitions_changed
}

/// The pi/8 rotations at a list of indices, less one entry.
proof fn lemma_gather_remove(ops: Seq<OperationView>, indexes: Seq<usize>, i: int)
    requires
        0 <= i < indexes.len(),
    ensures
        t_count(gather(ops, indexes)) == t_count(gather(ops, indexes.remove(i))) + if ops[indexes[i] as int].is_t() {
            1nat
        } else {
            0nat
        },
    decreases indexes.len(),
{
    let g = gather(ops, indexes);
    if i == indexes.len() - 1 {
        assert(g.drop_last() =~= gather(ops, indexes.remove(i)));
    } else {
        lemma_gather_remove(ops, indexes.drop_last(), i);
        assert(g.drop_last() =~= gather(ops, indexes.drop_last()));
        let r = gather(ops, indexes.remove(i));
        assert(r.drop_last() =~= gather(ops, indexes.drop_last().remove(i)));
        assert(r.last() == g.last());
    }
}

/// Two lists of the same indices, in whatever order, pick as many pi/8
/// rotations.
pub proof fn lemma_gather_permutation(ops: Seq<OperationView>, a: Seq<usize>, b: Seq<usize>)
    requires
        a.to_multiset() == b.to_multiset(),
    ensures
        t_count(gather(ops, a)) == t_count(gather(ops, b)),
        a.len() == b.len(),
    decreases a.len(),
{
    a.to_multiset_ensures();
    b.to_multiset_ensures();
    if a.len() == 0 {
        assert(gather(ops, a) =~= gather(ops, b));
    } else {
        let x = a.last();
        assert(a.contains(x));
        assert(a.to_multiset().count(x) > 0);
        assert(b.contains(x));
        let i = choose|i: int| 0 <= i < b.len() && b[i] == x;
        to_multiset_remove(a, a.len() - 1);
        to_multiset_remove(b, i);
        assert(a.remove(a.len() - 1) =~= a.drop_last());
        lemma_gather_permutation(ops, a.drop_last(), b.remove(i));
        lemma_gather_remove(ops, a, a.len() - 1);
        lemma_gather_remove(ops, b, i);
    }
}

/// The indices in order pick the first operations.
proof fn lemma_gather_iota(ops: Seq<OperationView>, t: int)
    requires
        0 <= t <= ops.len(),
        t <= usize::MAX,
    ensures
        gather(ops, iota(t)) == ops.take(t),
{
    assert(gather(ops, iota(t)) =~= ops.take(t));
}

/// Merging the first `k` layers yields no more operations than the layers
/// hold indices, and no more pi/8 rotations than they point at.
pub proof fn lemma_merge_layers(ops: Seq<OperationView>, layers: Layers, k: int)
    requires
        layers.wf(),
        0 <= k <= layers.boundaries.len(),
    ensures
        merge_layers(ops, layers, k).0.len() <= (if k < layers.boundaries.len() {
            layers.start_of(k)
        } else {
            layers.indexes.len() as int
        }),
        t_count(merge_layers(ops, layers, k).0) <= t_count(
            gather(
                ops,
                layers.indexes.take(
                    if k < layers.boundaries.len() {
                        layers.start_of(k)
                    } else {
                        layers.indexes.len() as int
                    },
                ),
            ),
        ),
        !merge_layers(ops, layers, k).1 ==> merge_layers(ops, layers, k).0 == gather(
            ops,
            layers.indexes.take(
                if k < layers.boundaries.len() {
                    layers.start_of(k)
                } else {
                    layers.indexes.len() as int
                },
            ),
        ),
        merge_layers(ops, layers, k).1 ==> merge_layers(ops, layers, k).0.len() < (if k
            < layers.boundaries.len() {
            layers.start_of(k)
        } else {
            layers.indexes.len() as int
        }),
    decreases k,
{
    if k > 0 {
        lemma_merge_layers(ops, layers, k - 1);
        let (out, changed) = merge_layers(ops, layers, k - 1);
        let slab = gather(ops, layers.layer(k - 1));
        lemma_reduce_vec(slab);
        lemma_t_count_concat(out, reduce_vec(slab));
        let start = layers.start_of(k - 1);
        let end = layers.end_of(k - 1);
        let upto = gather(ops, layers.indexes.take(end));
        assert(upto =~= gather(ops, layers.indexes.take(start)) + slab);
        lemma_t_count_concat(gather(ops, layers.indexes.take(start)), slab);
    } else {
        assert(layers.boundaries.len() > 0 ==> layers.start_of(0) == 0);
        assert(gather(ops, layers.indexes.take(0)) =~= Seq::<OperationView>::empty());
    }
}

/// Folds each layer and puts the folded layers, in order, in the place of
/// the first `t_gate_count` operations. Returns whether anything folded.
fn merge_partitions<B: Basis>(
    circuit: &mut Vec<Operation<B>>,
    partitions: &Partitions,
    t_gate_count: usize,
) -> (changed: bool)
    requires
        partitions@.wf(),
        t_gate_count <= old(circuit)@.len(),
        old(circuit)@.len() > 0 ==> all_wf(old(circuit)@, old(circuit)@[0].class()),
        forall|j: int|
            0 <= j < partitions@.indexes.len() ==> partitions@.indexes[j] < old(circuit)@.len(),
    ensures
        views(final(circuit)@) == merge_layers(
            views(old(circuit)@),
            partitions@,
            partitions@.boundaries.len() as int,
        ).0 + views(old(circuit)@).skip(t_gate_count as int),
        changed == merge_layers(
            views(old(circuit)@),
            partitions@,
            partitions@.boundaries.len() as int,
        ).1,
        forall|c: nat| all_wf(old(circuit)@, c) ==> all_wf(final(circuit)@, c),
{
    let ghost before = circuit@;
    let ghost ops = views(before);
    let ghost class = if before.len() > 0 {
        before[0].class()
    } else {
        0
    };
    let mut layer_buf: Vec<Operation<B>> = Vec::new();
    let mut combined_t_gates: Vec<Operation<B>> = Vec::new();
    let mut index_buf: Vec<bool> = Vec::new();
    let mut changed = false;
    let count = partitions.len();
    let mut layers = partitions.iter();
    let mut p: usize = 0;
    while p < count
        invariant
            p <= count,
            count == partitions@.boundaries.len(),
            layers.partitions() == partitions,
            layers.position() == p,
            partitions@.wf(),
            circuit@ == before,
            ops == views(before),
            before.len() > 0 ==> all_wf(before, class),
            all_wf(combined_t_gates@, class),
            forall|j: int|
                0 <= j < partitions@.indexes.len() ==> partitions@.indexes[j] < before.len(),
            (views(combined_t_gates@), changed) == merge_layers(ops, partitions@, p as int),
        decreases count - p,
    {
        let partition = layers.next().unwrap();
        layer_buf.clear();
        let n = partition.len();
        let mut e: usize = 0;
        while e < n
            invariant
                e <= n,
                n == partition@.len(),
                p < count,
                count == partitions@.boundaries.len(),
                partition@ == partitions@.layer(p as int),
                partitions@.wf(),
                circuit@ == before,
                ops == views(before),
                before.len() > 0 ==> all_wf(before, class),
                forall|j: int|
                    0 <= j < partitions@.indexes.len() ==> partitions@.indexes[j] < before.len(),
                all_wf(layer_buf@, class),
                views(layer_buf@) == gather(ops, partition@.take(e as int)),
            decreases n - e,
        {
            let element = partition[e];
            proof {
                let start = partitions@.start_of(p as int);
                let end = partitions@.end_of(p as int);
                assert(0 <= start <= end <= partitions@.indexes.len());
                assert(partition@.len() == end - start);
                assert(partitions@.indexes.subrange(start, end)[e as int]
                    == partitions@.indexes[start + e]);
                assert(partitions@.indexes[start + e] == element);
            }
            let op = circuit[element].duplicate();
            let ghost so_far = views(layer_buf@);
            layer_buf.push(op);
            assert(ops[element as int] == before[element as int]@);
            assert(views(layer_buf@) =~= so_far.push(op@));
            assert(gather(ops, partition@.take(e + 1)) =~= gather(
                ops,
                partition@.take(e as int),
            ).push(ops[element as int]));
            assert(views(layer_buf@) =~= gather(ops, partition@.take(e + 1)));
            e += 1;
        }
        assert(partition@.take(n as int) =~= partition@);
        proof {
            if layer_buf@.len() > 0 {
                assert(layer_buf@[0].class() == class);
            }
        }
        let folded = reduce_rotations_no_ordering(&mut layer_buf, &mut index_buf);
        changed = changed || folded;
        let ghost so_far = views(combined_t_gates@);
        let ghost slab = views(layer_buf@);
        combined_t_gates.append(&mut layer_buf);
        assert(views(combined_t_gates@) =~= so_far + slab);
        p += 1;
    }
    layer_buf.clear();
    let total = circuit.len();
    let mut i: usize = t_gate_count;
    while i < total
        invariant
            t_gate_count <= i <= total,
            total == before.len(),
            circuit@ == before,
            ops == views(before),
            before.len() > 0 ==> all_wf(before, class),
            all_wf(layer_buf@, class),
            views(layer_buf@) == ops.subrange(t_gate_count as int, i as int),
        decreases total - i,
    {
        let op = circuit[i].duplicate();
        let ghost so_far = views(layer_buf@);
        layer_buf.push(op);
        assert(ops[i as int] == before[i as int]@);
        assert(views(layer_buf@) =~= so_far.push(op@));
        assert(views(layer_buf@) =~= ops.subrange(t_gate_count as int, i + 1));
        i += 1;
    }
    assert(ops.subrange(t_gate_count as int, total as int) =~= ops.skip(t_gate_count as int));
    let ghost merged = views(combined_t_gates@);
    let ghost tail = views(layer_buf@);
    circuit.clear();
    circuit.append(&mut combined_t_gates);
    circuit.append(&mut layer_buf);
    assert(views(circuit@) =~= merged + tail);
    assert forall|c: nat| all_wf(before, c) implies all_wf(circuit@, c) by {
        if before.len() > 0 {
            assert(before[0].class() == c);
        } else {
            assert(partitions@.indexes.len() == 0);
            assert(partitions@.boundaries.len() == 0);
        }
    }
    changed
}

/// The exact partitioner: starts with one layer for each of the first
/// `t_gate_count` operations, sifts the layers down until nothing moves,
/// folds each layer and puts the folded layers in the place of those
/// operations. Returns whether anything folded.
pub fn partition_t_gates<B: Basis>(
    partitions: &mut Partitions,
    circuit: &mut Vec<Operation<B>>,
    t_gate_count: usize,
) -> (changed: bool)
    requires
        t_gate_count <= old(circuit)@.len(),
        old(circuit)@.len() > 0 ==> all_wf(old(circuit)@, old(circuit)@[0].class()),
    ensures
        views(final(circuit)@) == exact_partition(views(old(circuit)@), t_gate_count as int).0,
        changed == exact_partition(views(old(circuit)@), t_gate_count as int).1,
        final(circuit)@.len() <= old(circuit)@.len(),
        t_count(views(final(circuit)@)) <= t_count(views(old(circuit)@)),
        changed ==> final(circuit)@.len() < old(circuit)@.len(),
        every(views(old(circuit)@), op_live()) ==> every(views(final(circuit)@), op_live()),
        !changed ==> forall|good: spec_fn(OperationView) -> bool| #[trigger]
            every(views(old(circuit)@), good) ==> every(views(final(circuit)@), good),
        forall|n: int, width: nat| #[trigger]
            every(views(old(circuit)@), op_on(n, width)) ==> every(
                views(final(circuit)@),
                op_on(n, width),
            ),
        forall|c: nat| all_wf(old(circuit)@, c) ==> all_wf(final(circuit)@, c),
{
    if t_gate_count == 0 {
        return false;
    }
    let ghost ops = views(circuit@);
    partitions.clear();
    partitions.init_one_per_t_gate(t_gate_count);
    let ghost first = partitions@;
    proof {
        assert forall|x: usize| first.indexes.contains(x) implies x < circuit@.len() by {
            let i = choose|i: int| 0 <= i < first.indexes.len() && first.indexes[i] == x;
            assert(first.indexes[i] == i);
        }
    }
    let mut partitions_changed = true;
    let mut rounds: usize = 0;
    while partitions_changed
        invariant
            rounds <= 1,
            partitions_changed ==> rounds == 0 && partitions@ == first,
            !partitions_changed ==> partitions@ == sift_fix(first, sift_pred(ops)),
            ops == views(circuit@),
            partitions@.wf(),
            partitions@.indexes.to_multiset() == first.indexes.to_multiset(),
            partitions@.indexes.len() == first.indexes.len(),
            circuit@.len() > 0 ==> all_wf(circuit@, circuit@[0].class()),
            forall|x: usize| first.indexes.contains(x) ==> x < circuit@.len(),
        decreases 1 - rounds, partitions_changed as int,
    {
        partitions_changed = update_t_gate_partitions(circuit.as_slice(), partitions);
        rounds += 1;
    }
    proof {
        let layers = partitions@;
        layers.indexes.to_multiset_ensures();
        first.indexes.to_multiset_ensures();
        assert forall|j: int| 0 <= j < layers.indexes.len() implies layers.indexes[j]
            < circuit@.len() by {
            assert(layers.indexes.contains(layers.indexes[j]));
            assert(layers.indexes.to_multiset().count(layers.indexes[j]) > 0);
            assert(first.indexes.to_multiset().count(layers.indexes[j]) > 0);
        }
        lemma_merge_layers(ops, layers, layers.boundaries.len() as int);
        lemma_gather_permutation(ops, layers.indexes, first.indexes);
        lemma_gather_iota(ops, t_gate_count as int);
        assert(layers.indexes.take(layers.indexes.len() as int) =~= layers.indexes);
        let merged = merge_layers(ops, layers, layers.boundaries.len() as int).0;
        lemma_t_count_concat(merged, ops.skip(t_gate_count as int));
        lemma_t_count_concat(ops.take(t_gate_count as int), ops.skip(t_gate_count as int));
        assert(ops.take(t_gate_count as int) + ops.skip(t_gate_count as int) =~= ops);
        let out = merged + ops.skip(t_gate_count as int);
        assert forall|n: int, width: nat| #[trigger] every(ops, op_on(n, width)) implies every(
            out,
            op_on(n, width),
        ) by {
            lemma_merge_layers_on(ops, layers, layers.boundaries.len() as int, n, width);
            lemma_every_subrange(ops, t_gate_count as int, ops.len() as int, op_on(n, width));
            lemma_every_concat(merged, ops.skip(t_gate_count as int), op_on(n, width));
        }
        if every(ops, op_live()) {
            lemma_merge_layers_live(ops, layers, layers.boundaries.len() as int);
            lemma_every_subrange(ops, t_gate_count as int, ops.len() as int, op_live());
            lemma_every_concat(merged, ops.skip(t_gate_count as int), op_live());
        }
        if !merge_layers(ops, layers, layers.boundaries.len() as int).1 {
            assert forall|good: spec_fn(OperationView) -> bool| #[trigger]
                every(ops, good) implies every(out, good) by {
                lemma_every_gather(ops, layers.indexes, good);
                lemma_every_subrange(ops, t_gate_count as int, ops.len() as int, good);
                lemma_every_concat(merged, ops.skip(t_gate_count as int), good);
            }
        }
    }
    merge_partitions(circuit, partitions, t_gate_count)
}

/// The operations picked from a circuit of `good` operations are `good`.
pub proof fn lemma_every_gather(
    ops: Seq<OperationView>,
    indexes: Seq<usize>,
    good: spec_fn(OperationView) -> bool,
)
    requires
        every(ops, good),
        forall|j: int| 0 <= j < indexes.len() ==> indexes[j] < ops.len(),
    ensures
        every(gather(ops, indexes), good),
{
    assert forall|i: int| 0 <= i < indexes.len() implies good(#[trigger] gather(ops, indexes)[i]) by {
        assert(good(ops[indexes[i] as int]));
    }
}

/// Merging layers of a circuit on `n` qubits yields a circuit on them.
pub proof fn lemma_merge_layers_on(
    ops: Seq<OperationView>,
    layers: Layers,
    k: int,
    n: int,
    width: nat,
)
    requires
        layers.wf(),
        0 <= k <= layers.boundaries.len(),
        every(ops, op_on(n, width)),
        forall|j: int| 0 <= j < layers.indexes.len() ==> layers.indexes[j] < ops.len(),
    ensures
        every(merge_layers(ops, layers, k).0, op_on(n, width)),
    decreases k,
{
    if k > 0 {
        lemma_merge_layers_on(ops, layers, k - 1, n, width);
        let layer = layers.layer(k - 1);
        assert forall|j: int| 0 <= j < layer.len() implies layer[j] < ops.len() by {
            assert(layer[j] == layers.indexes[layers.start_of(k - 1) + j]);
        }
        lemma_every_gather(ops, layer, op_on(n, width));
        lemma_reduce_vec_on(gather(ops, layer), n, width);
        lemma_every_concat(
            merge_layers(ops, layers, k - 1).0,
            reduce_vec(gather(ops, layer)),
            op_on(n, width),
        );
    }
}

/// Merging layers of a circuit without tombstones yields none.
pub proof fn lemma_merge_layers_live(ops: Seq<OperationView>, layers: Layers, k: int)
    requires
        layers.wf(),
        0 <= k <= layers.boundaries.len(),
        every(ops, op_live()),
        forall|j: int| 0 <= j < layers.indexes.len() ==> layers.indexes[j] < ops.len(),
    ensures
        every(merge_layers(ops, layers, k).0, op_live()),
    decreases k,
{
    if k > 0 {
        lemma_merge_layers_live(ops, layers, k - 1);
        let layer = layers.layer(k - 1);
        assert forall|j: int| 0 <= j < layer.len() implies layer[j] < ops.len() by {
            assert(layer[j] == layers.indexes[layers.start_of(k - 1) + j]);
        }
        lemma_every_gather(ops, layer, op_live());
        lemma_reduce_vec_live(gather(ops, layer));
        lemma_every_concat(
            merge_layers(ops, layers, k - 1).0,
            reduce_vec(gather(ops, layer)),
            op_live(),
        );
    }
}

} // verus!
