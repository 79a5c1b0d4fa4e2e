//! A layering of indices: a flat list of indices and the boundary at which
//! each layer starts.
use vstd::prelude::*;
use vstd::seq_lib::to_multiset_update;

verus! {

/// The mathematical content of a layering: layer `k` holds the indices
/// from `boundaries[k]` up to `boundaries[k + 1]`, the last layer those up
/// to the end.
pub struct Layers {
    pub indexes: Seq<usize>,
    pub boundaries: Seq<usize>,
}

impl Layers {
    /// Where layer `p` starts.
    pub open spec fn start_of(self, p: int) -> int {
        self.boundaries[p] as int
    }

    /// Where layer `p` ends.
    pub open spec fn end_of(self, p: int) -> int {
        if p + 1 < self.boundaries.len() {
            self.boundaries[p + 1] as int
        } else {
            self.indexes.len() as int
        }
    }

    /// The indices of layer `p`.
    pub open spec fn layer(self, p: int) -> Seq<usize> {
        self.indexes.subrange(self.start_of(p), self.end_of(p))
    }

    /// The layers, in order.
    pub open spec fn layers(self) -> Seq<Seq<usize>> {
        Seq::new(self.boundaries.len(), |p: int| self.layer(p))
    }

    /// The boundaries are in order and within the indices; the first layer,
    /// if there is one, starts at 0.
    pub open spec fn loosely_ordered(self) -> bool {
        &&& forall|p: int, q: int|
            0 <= p <= q < self.boundaries.len() ==> self.boundaries[p] <= self.boundaries[q]
        &&& forall|p: int|
            0 <= p < self.boundaries.len() ==> #[trigger] self.boundaries[p] <= self.indexes.len()
        &&& (self.boundaries.len() > 0 ==> self.boundaries[0] == 0)
        &&& (self.boundaries.len() == 0 ==> self.indexes.len() == 0)
    }

    /// The invariant of a layering at rest: the boundaries are strictly
    /// increasing and lie within the indices, so that no layer is empty.
    pub open spec fn wf(self) -> bool {
        &&& self.loosely_ordered()
        &&& forall|p: int, q: int|
            0 <= p < q < self.boundaries.len() ==> self.boundaries[p] < self.boundaries[q]
        &&& forall|p: int|
            0 <= p < self.boundaries.len() ==> #[trigger] self.boundaries[p] < self.indexes.len()
    }

    /// The sum, over the indices, of the number of the layer that each is
    /// in: what a sift-down pass lowers.
    pub open spec fn depth(self) -> int {
        depth_from(self.boundaries, self.indexes.len() as int, 1)
    }
}

/// The part of the depth that the boundaries from number `from` on add.
pub open spec fn depth_from(boundaries: Seq<usize>, len: int, from: int) -> int
    decreases boundaries.len() - from,
{
    if from >= boundaries.len() || from < 0 {
        0
    } else {
        (len - boundaries[from]) + depth_from(boundaries, len, from + 1)
    }
}

/// The state of a sift-down pass within layer `p`: the layering, the offset
/// of the index that is looked at next, and whether an index has moved.
pub struct SiftState {
    pub layers: Layers,
    pub changed: bool,
}

/// The indices with those at `a` and `b` exchanged.
pub open spec fn swapped(s: Seq<usize>, a: int, b: int) -> Seq<usize> {
    s.update(a, s[b]).update(b, s[a])
}

/// Sifts layer `p` from offset `k` on: each index that `pred` accepts
/// against the layer below is moved to the start of layer `p`, and the
/// boundary moves past it.
pub open spec fn sift_layer(
    s: SiftState,
    p: int,
    k: int,
    pred: spec_fn(Seq<usize>, usize) -> bool,
) -> SiftState
    decreases s.layers.end_of(p) - s.layers.start_of(p) - k,
{
    let start = s.layers.start_of(p);
    let end = s.layers.end_of(p);
    if p < 1 || p >= s.layers.boundaries.len() || k < 0 || k >= end - start || start < 0 || end
        > s.layers.indexes.len() || s.layers.indexes.len() > usize::MAX {
        s
    } else if pred(s.layers.layer(p - 1), s.layers.indexes[start + k]) {
        sift_layer(
            SiftState {
                layers: Layers {
                    indexes: swapped(s.layers.indexes, start + k, start),
                    boundaries: s.layers.boundaries.update(p, (start + 1) as usize),
                },
                changed: true,
            },
            p,
            k,
            pred,
        )
    } else {
        sift_layer(s, p, k + 1, pred)
    }
}

/// Sifts the layers from number `p` on, one after the other.
pub open spec fn sift_layers(
    s: SiftState,
    p: int,
    pred: spec_fn(Seq<usize>, usize) -> bool,
) -> SiftState
    decreases s.layers.boundaries.len() - p,
{
    if p < 1 || p >= s.layers.boundaries.len() {
        s
    } else {
        let t = sift_layer(s, p, 0, pred);
        if t.layers.boundaries.len() == s.layers.boundaries.len() {
            sift_layers(t, p + 1, pred)
        } else {
            t
        }
    }
}

/// Removes, from number `i` on, the boundaries of the layers that are
/// empty.
pub open spec fn drop_empty(boundaries: Seq<usize>, len: int, i: int) -> Seq<usize>
    decreases boundaries.len() - i,
{
    if i < 1 || i >= boundaries.len() {
        boundaries
    } else if boundaries[i - 1] == boundaries[i] || boundaries[i] >= len {
        drop_empty(boundaries.remove(i), len, i)
    } else {
        drop_empty(boundaries, len, i + 1)
    }
}

/// One sift-down pass over all layers, followed by the removal of the
/// layers that it emptied. Also says whether an index has moved.
pub open spec fn sift_down(layers: Layers, pred: spec_fn(Seq<usize>, usize) -> bool) -> (
    Layers,
    bool,
) {
    let t = sift_layers(SiftState { layers, changed: false }, 1, pred);
    (
        Layers {
            indexes: t.layers.indexes,
            boundaries: drop_empty(t.layers.boundaries, t.layers.indexes.len() as int, 1),
        },
        t.changed,
    )
}

/// Whether what an executable predicate returns is what `pred` says.
pub open spec fn decides<F: Fn(&[usize], usize) -> bool>(
    when: F,
    pred: spec_fn(Seq<usize>, usize) -> bool,
) -> bool {
    forall|s: &[usize], i: usize, r: bool| #[trigger]
        call_ensures(when, (s, i), r) ==> r == pred(s@, i)
}

/// The layering that starts a new layer at each index from 1 on for which
/// `pred`, given the current layer, says so.
pub open spec fn init_boundaries(
    t_gates: int,
    k: int,
    pred: spec_fn(Seq<usize>, usize) -> bool,
) -> Seq<usize>
    decreases k,
{
    if k <= 0 || t_gates <= 0 {
        Seq::empty()
    } else if k == 1 {
        seq![0usize]
    } else {
        let before = init_boundaries(t_gates, k - 1, pred);
        let current = Seq::new(
            ((k - 1) - before.last()) as nat,
            |j: int| (before.last() + j) as usize,
        );
        if pred(current, (k - 1) as usize) {
            before.push((k - 1) as usize)
        } else {
            before
        }
    }
}

/// The indices 0, 1, ..., n - 1.
pub open spec fn iota(n: int) -> Seq<usize> {
    Seq::new(n as nat, |i: int| i as usize)
}

/// A layering of indices into the circuit.
#[derive(Clone, PartialEq, Eq, Debug)]
pub struct Partitions {
    indexes: Vec<usize>,
    boundaries: Vec<usize>,
}

impl View for Partitions {
    type V = Layers;

    closed spec fn view(&self) -> Layers {
        Layers { indexes: self.indexes@, boundaries: self.boundaries@ }
    }
}

impl Partitions {
    /// The empty layering.
    pub fn new() -> (r: Self)
        ensures
            r@.indexes.len() == 0,
            r@.boundaries.len() == 0,
            r@.wf(),
    {
        Self { indexes: Vec::new(), boundaries: Vec::new() }
    }

    /// The empty layering, with room for `capacity` indices.
    pub fn with_capacity(capacity: usize) -> (r: Self)
        ensures
            r@.indexes.len() == 0,
            r@.boundaries.len() == 0,
            r@.wf(),
    {
        Self { indexes: Vec::with_capacity(capacity), boundaries: Vec::with_capacity(capacity) }
    }

    /// The number of layers.
    pub fn len(&self) -> (r: usize)
        ensures
            r == self@.boundaries.len(),
    {
        self.boundaries.len()
    }

    /// The flat list of indices.
    pub fn indexes(&self) -> (r: &[usize])
        ensures
            r@ == self@.indexes,
    {
        self.indexes.as_slice()
    }

    /// The boundaries at which the layers start.
    pub fn boundaries(&self) -> (r: &[usize])
        ensures
            r@ == self@.boundaries,
    {
        self.boundaries.as_slice()
    }

    /// Removes every layer.
    pub fn clear(&mut self)
        ensures
            final(self)@.indexes.len() == 0,
            final(self)@.boundaries.len() == 0,
            final(self)@.wf(),
    {
        self.indexes.clear();
        self.boundaries.clear();
    }

    /// One layer for each of the indices 0 to `t_gates - 1`.
    pub fn init_one_per_t_gate(&mut self, t_gates: usize)
        ensures
            final(self)@.indexes == iota(t_gates as int),
            final(self)@.boundaries == iota(t_gates as int),
            final(self)@.wf(),
    {
        self.clear();
        let mut k: usize = 0;
        while k < t_gates
            invariant
                k <= t_gates,
                self.indexes@ == iota(k as int),
                self.boundaries@ == iota(k as int),
            decreases t_gates - k,
        {
            self.indexes.push(k);
            self.boundaries.push(k);
            assert(self.indexes@ =~= iota(k + 1));
            assert(self.boundaries@ =~= iota(k + 1));
            k += 1;
        }
    }

    /// Where layer `partition` starts and ends.
    pub fn partition_range(&self, partition: usize) -> (r: (usize, usize))
        requires
            partition < self@.boundaries.len(),
        ensures
            r.0 == self@.start_of(partition as int),
            r.1 == self@.end_of(partition as int),
    {
        let n = self.boundaries.len();
        let start = self.boundaries[partition];
        let end = if partition + 1 < n {
            self.boundaries[partition + 1]
        } else {
            self.indexes.len()
        };
        (start, end)
    }

    /// Where layer `partition` starts.
    pub fn start_of_partition(&self, partition: usize) -> (r: usize)
        requires
            partition < self@.boundaries.len(),
        ensures
            r == self@.start_of(partition as int),
    {
        self.boundaries[partition]
    }

    /// The number of indices in layer `partition`.
    pub fn length_of_partition(&self, partition: usize) -> (r: usize)
        requires
            partition < self@.boundaries.len(),
            self@.loosely_ordered(),
        ensures
            r == self@.end_of(partition as int) - self@.start_of(partition as int),
            r == self@.layer(partition as int).len(),
    {
        let (start, end) = self.partition_range(partition);
        end - start
    }

    /// The indices of layer `index`.
    pub fn partition(&self, index: usize) -> (r: &[usize])
        requires
            index < self@.boundaries.len(),
            self@.loosely_ordered(),
        ensures
            r@ == self@.layer(index as int),
    {
        let (start, end) = self.partition_range(index);
        let whole = self.indexes.as_slice();
        let (head, rest) = whole.split_at(start);
        let (part, tail) = rest.split_at(end - start);
        assert(part@ =~= self@.layer(index as int));
        part
    }

    /// Lays out the indices 0 to `t_gates - 1` in order. The first layer
    /// starts at 0; `for_t_gate` gets the current layer and the next index
    /// and says whether that index starts a new layer.
    pub fn init<F>(&mut self, t_gates: usize, for_t_gate: F) where F: Fn(&[usize], usize) -> bool
        requires
            forall|s: &[usize], i: usize| call_requires(for_t_gate, (s, i)),
        ensures
            final(self)@.indexes == iota(t_gates as int),
            final(self)@.wf(),
            forall|pred: spec_fn(Seq<usize>, usize) -> bool| #[trigger]
                decides(for_t_gate, pred) ==> final(self)@.boundaries == init_boundaries(
                    t_gates as int,
                    t_gates as int,
                    pred,
                ),
    {
        self.clear();
        if t_gates == 0 {
            assert(self.indexes@ =~= iota(0));
            return ;
        }
        let mut k: usize = 0;
        while k < t_gates
            invariant
                k <= t_gates,
                self.indexes@ == iota(k as int),
                self.boundaries@.len() == 0,
            decreases t_gates - k,
        {
            self.indexes.push(k);
            assert(self.indexes@ =~= iota(k + 1));
            k += 1;
        }
        self.boundaries.push(0);
        let mut index: usize = 1;
        while index < t_gates
            invariant
                1 <= index <= t_gates,
                self.indexes@ == iota(t_gates as int),
                self.boundaries@.len() > 0,
                self.boundaries@[0] == 0,
                self.boundaries@.last() < index,
                forall|p: int, q: int|
                    0 <= p < q < self.boundaries@.len() ==> self.boundaries@[p]
                        < self.boundaries@[q],
                forall|s: &[usize], i: usize| call_requires(for_t_gate, (s, i)),
                forall|pred: spec_fn(Seq<usize>, usize) -> bool| #[trigger]
                    decides(for_t_gate, pred) ==> self.boundaries@ == init_boundaries(
                        t_gates as int,
                        index as int,
                        pred,
                    ),
            decreases t_gates - index,
        {
            let last = self.boundaries[self.boundaries.len() - 1];
            let whole = self.indexes.as_slice();
            let (head, rest) = whole.split_at(last);
            let (last_partition, tail) = rest.split_at(index - last);
            let ghost before = self.boundaries@;
            assert(last_partition@ =~= Seq::new(
                (index - last) as nat,
                |j: int| (last + j) as usize,
            ));
            let new_partition = for_t_gate(last_partition, index);
            if new_partition {
                self.boundaries.push(index);
            }
            assert forall|pred: spec_fn(Seq<usize>, usize) -> bool| #[trigger]
                decides(for_t_gate, pred) implies self.boundaries@ == init_boundaries(
                t_gates as int,
                index + 1,
                pred,
            ) by {
                assert(before == init_boundaries(t_gates as int, index as int, pred));
                assert(new_partition == pred(last_partition@, index));
            }
            index += 1;
        }
    }
}

/// Moving one boundary changes the depth by as much.
pub proof fn lemma_depth_update(boundaries: Seq<usize>, len: int, from: int, p: int, v: usize)
    requires
        0 <= from <= p < boundaries.len(),
    ensures
        depth_from(boundaries.update(p, v), len, from) == depth_from(boundaries, len, from) - (v
            - boundaries[p]),
    decreases boundaries.len() - from,
{
    if from < p {
        lemma_depth_update(boundaries, len, from + 1, p, v);
    } else {
        lemma_depth_same(boundaries, boundaries.update(p, v), len, from + 1);
    }
}

/// The depth depends on the boundaries from `from` on only.
pub proof fn lemma_depth_same(a: Seq<usize>, b: Seq<usize>, len: int, from: int)
    requires
        a.len() == b.len(),
        0 <= from,
        forall|q: int| from <= q < a.len() ==> a[q] == b[q],
    ensures
        depth_from(a, len, from) == depth_from(b, len, from),
    decreases a.len() - from,
{
    if from < a.len() {
        lemma_depth_same(a, b, len, from + 1);
    }
}

/// Removing a boundary that lies within the indices does not raise the
/// depth.
pub proof fn lemma_depth_remove(boundaries: Seq<usize>, len: int, from: int, i: int)
    requires
        1 <= from <= i < boundaries.len(),
        forall|q: int| 0 <= q < boundaries.len() ==> boundaries[q] <= len,
    ensures
        depth_from(boundaries.remove(i), len, from) <= depth_from(boundaries, len, from),
        depth_from(boundaries, len, from) >= 0,
    decreases boundaries.len() - from,
{
    lemma_depth_nonneg(boundaries, len, from);
    if from < i {
        lemma_depth_remove(boundaries, len, from + 1, i);
    } else {
        lemma_depth_shift(boundaries, len, i);
        lemma_depth_nonneg(boundaries, len, i + 1);
    }
}

/// The depth of a loosely ordered layering is not negative.
pub proof fn lemma_depth_bound(layers: Layers)
    requires
        layers.loosely_ordered(),
    ensures
        layers.depth() >= 0,
{
    lemma_depth_nonneg(layers.boundaries, layers.indexes.len() as int, 1);
}

proof fn lemma_depth_nonneg(boundaries: Seq<usize>, len: int, from: int)
    requires
        0 <= from,
        forall|q: int| 0 <= q < boundaries.len() ==> boundaries[q] <= len,
    ensures
        depth_from(boundaries, len, from) >= 0,
    decreases boundaries.len() - from,
{
    if from < boundaries.len() {
        lemma_depth_nonneg(boundaries, len, from + 1);
    }
}

proof fn lemma_depth_shift(boundaries: Seq<usize>, len: int, i: int)
    requires
        0 <= i < boundaries.len(),
    ensures
        forall|from: int|
            i <= from <= boundaries.len() - 1 ==> #[trigger] depth_from(
                boundaries.remove(i),
                len,
                from,
            ) == depth_from(boundaries, len, from + 1),
{
    assert forall|from: int| i <= from <= boundaries.len() - 1 implies #[trigger] depth_from(
        boundaries.remove(i),
        len,
        from,
    ) == depth_from(boundaries, len, from + 1) by {
        lemma_depth_shift_at(boundaries, len, i, from);
    }
}

proof fn lemma_depth_shift_at(boundaries: Seq<usize>, len: int, i: int, from: int)
    requires
        0 <= i < boundaries.len(),
        i <= from <= boundaries.len() - 1,
    ensures
        depth_from(boundaries.remove(i), len, from) == depth_from(boundaries, len, from + 1),
    decreases boundaries.len() - from,
{
    if from < boundaries.len() - 1 {
        lemma_depth_shift_at(boundaries, len, i, from + 1);
        assert(boundaries.remove(i)[from] == boundaries[from + 1]);
    }
}

/// Exchanging two entries leaves the entries, counted with multiplicity.
pub proof fn lemma_swapped(s: Seq<usize>, a: int, b: int)
    requires
        0 <= a < s.len(),
        0 <= b < s.len(),
    ensures
        swapped(s, a, b).to_multiset() == s.to_multiset(),
        swapped(s, a, b).len() == s.len(),
{
    broadcast use vstd::multiset::group_multiset_axioms;

    to_multiset_update(s, a, s[b]);
    to_multiset_update(s.update(a, s[b]), b, s[a]);
    s.to_multiset_ensures();
    assert(s.contains(s[a]) && s.contains(s[b]));
    assert(swapped(s, a, b).to_multiset() =~= s.to_multiset());
}

impl Partitions {
    /// One sift-down pass: for each layer but the first, each index that
    /// `when` accepts against the layer below moves down into it. `when`
    /// gets the layer below and the index. The layers that are left empty
    /// are removed. Returns whether an index has moved.
    pub fn swap_down<F>(&mut self, when: F) -> (changed: bool) where F: Fn(&[usize], usize) -> bool
        requires
            old(self)@.wf(),
            forall|s: &[usize], i: usize|
                (forall|j: int| 0 <= j < s@.len() ==> old(self)@.indexes.contains(s@[j])) && old(
                    self,
                )@.indexes.contains(i) ==> call_requires(when, (s, i)),
        ensures
            final(self)@.wf(),
            final(self)@.indexes.to_multiset() == old(self)@.indexes.to_multiset(),
            final(self)@.indexes.len() == old(self)@.indexes.len(),
            final(self)@.boundaries.len() <= old(self)@.boundaries.len(),
            final(self)@.depth() <= old(self)@.depth(),
            changed ==> final(self)@.depth() < old(self)@.depth(),
            !changed ==> final(self)@ == old(self)@,
            forall|pred: spec_fn(Seq<usize>, usize) -> bool| #[trigger]
                decides(when, pred) ==> (final(self)@, changed) == sift_down(old(self)@, pred),
    {
        let ghost before = self@;
        let mut changed = false;
        let count = self.len();
        let total = self.indexes.len();
        let mut partition_index: usize = 1;
        while partition_index < count
            invariant
                1 <= partition_index,
                count == self.boundaries@.len(),
                count == before.boundaries.len(),
                total == self.indexes@.len(),
                total == before.indexes.len(),
                before.wf(),
                self@.loosely_ordered(),
                self@.indexes.to_multiset() == before.indexes.to_multiset(),
                forall|q: int| partition_index <= q < count ==> self@.boundaries[q] == before.boundaries[q],
                self@.depth() + (if changed { 1int } else { 0int }) <= before.depth(),
                !changed ==> self@ == before,
                forall|s: &[usize], i: usize|
                    (forall|j: int| 0 <= j < s@.len() ==> before.indexes.contains(s@[j]))
                        && before.indexes.contains(i) ==> call_requires(when, (s, i)),
                forall|pred: spec_fn(Seq<usize>, usize) -> bool| #[trigger]
                    decides(when, pred) ==> sift_layers(
                        SiftState { layers: self@, changed },
                        partition_index as int,
                        pred,
                    ) == sift_layers(SiftState { layers: before, changed: false }, 1, pred),
            decreases count - partition_index,
        {
            let ghost at_layer = SiftState { layers: self@, changed };
            let mut index_index: usize = 0;
            let mut remaining = self.length_of_partition(partition_index);
            while index_index < remaining
                invariant
                    1 <= partition_index < count,
                    count == self.boundaries@.len(),
                    count == before.boundaries.len(),
                    total == self.indexes@.len(),
                    total == before.indexes.len(),
                    before.wf(),
                    self@.loosely_ordered(),
                    index_index <= remaining,
                    remaining == self@.end_of(partition_index as int) - self@.start_of(
                        partition_index as int,
                    ),
                    self@.indexes.to_multiset() == before.indexes.to_multiset(),
                    forall|q: int|
                        partition_index < q < count ==> self@.boundaries[q]
                            == before.boundaries[q],
                    self@.depth() + (if changed { 1int } else { 0int }) <= before.depth(),
                    !changed ==> self@ == before,
                    forall|s: &[usize], i: usize|
                        (forall|j: int| 0 <= j < s@.len() ==> before.indexes.contains(s@[j]))
                            && before.indexes.contains(i) ==> call_requires(when, (s, i)),
                    forall|pred: spec_fn(Seq<usize>, usize) -> bool| #[trigger]
                        decides(when, pred) ==> sift_layer(
                            SiftState { layers: self@, changed },
                            partition_index as int,
                            index_index as int,
                            pred,
                        ) == sift_layer(at_layer, partition_index as int, 0, pred),
                decreases remaining - index_index,
            {
                let ghost cur = self@;
                let ghost was_changed = changed;
                let swap_with = self.start_of_partition(partition_index);
                let candidate = self.indexes[swap_with + index_index];
                let prev_partition = self.partition(partition_index - 1);
                proof {
                    cur.indexes.to_multiset_ensures();
                    before.indexes.to_multiset_ensures();
                    assert(cur.indexes[swap_with + index_index] == candidate);
                    assert(cur.indexes.contains(candidate));
                    assert(cur.indexes.to_multiset().count(candidate) > 0);
                    assert(before.indexes.to_multiset().count(candidate) > 0);
                    assert forall|j: int| 0 <= j < prev_partition@.len() implies before.indexes.contains(
                        prev_partition@[j],
                    ) by {
                        let at = cur.start_of(partition_index - 1) + j;
                        assert(cur.indexes[at] == prev_partition@[j]);
                        assert(cur.indexes.contains(prev_partition@[j]));
                        assert(cur.indexes.to_multiset().count(prev_partition@[j]) > 0);
                        assert(before.indexes.to_multiset().count(prev_partition@[j]) > 0);
                    }
                }
                let merge = when(prev_partition, candidate);
                if merge {
                    changed = true;
                    let first = self.indexes[swap_with];
                    self.indexes[swap_with + index_index] = first;
                    self.indexes[swap_with] = candidate;
                    self.boundaries[partition_index] = swap_with + 1;
                    remaining -= 1;
                    proof {
                        lemma_swapped(cur.indexes, swap_with + index_index, swap_with as int);
                        assert(self@.indexes =~= swapped(
                            cur.indexes,
                            swap_with + index_index,
                            swap_with as int,
                        ));
                        lemma_depth_update(
                            cur.boundaries,
                            total as int,
                            1,
                            partition_index as int,
                            (swap_with + 1) as usize,
                        );
                    }
                } else {
                    index_index += 1;
                }
                assert forall|pred: spec_fn(Seq<usize>, usize) -> bool| #[trigger]
                    decides(when, pred) implies sift_layer(
                    SiftState { layers: self@, changed },
                    partition_index as int,
                    index_index as int,
                    pred,
                ) == sift_layer(at_layer, partition_index as int, 0, pred) by {
                    assert(merge == pred(prev_partition@, candidate));
                    assert(sift_layer(
                        SiftState { layers: cur, changed: was_changed },
                        partition_index as int,
                        index_index as int - if merge { 0int } else { 1int },
                        pred,
                    ) == sift_layer(at_layer, partition_index as int, 0, pred));
                }
            }
            partition_index += 1;
        }
        let ghost sifted = self@;
        let mut i: usize = 1;
        while i < self.boundaries.len()
            invariant
                1 <= i,
                total == self.indexes@.len(),
                total == before.indexes.len(),
                self@.indexes == sifted.indexes,
                before.wf(),
                self@.loosely_ordered(),
                self@.boundaries.len() <= before.boundaries.len(),
                self@.depth() + (if changed { 1int } else { 0int }) <= before.depth(),
                !changed ==> self@ == before,
                forall|p: int, q: int| 0 <= p < q < i && q < self@.boundaries.len() ==> self@.boundaries[p] < self@.boundaries[q],
                forall|p: int| 1 <= p < i && p < self@.boundaries.len() ==> self@.boundaries[p] < total,
                drop_empty(self@.boundaries, total as int, i as int) == drop_empty(
                    sifted.boundaries,
                    total as int,
                    1,
                ),
            decreases self.boundaries@.len() - i,
        {
            if self.boundaries[i - 1] == self.boundaries[i] || self.boundaries[i] >= total {
                let ghost cur = self@;
                proof {
                    lemma_depth_remove(cur.boundaries, total as int, 1, i as int);
                    if !changed {
                        assert(false);
                    }
                }
                self.boundaries.remove(i);
            } else {
                i += 1;
            }
        }
        proof {
            assert forall|pred: spec_fn(Seq<usize>, usize) -> bool| #[trigger]
                decides(when, pred) implies (self@, changed) == sift_down(before, pred) by {
                assert(sift_layers(SiftState { layers: sifted, changed }, count as int, pred)
                    == SiftState { layers: sifted, changed });
            }
        }
        changed
    }

    /// Goes through the layers, in order.
    pub fn iter<'a>(&'a self) -> (r: PartitionIter<'a>)
        ensures
            r.partitions() == self,
            r.position() == 0,
    {
        PartitionIter { partition: self, index: 0 }
    }
}

/// The layers of a layering, one after the other.
#[derive(Clone, Debug)]
pub struct PartitionIter<'a> {
    partition: &'a Partitions,
    index: usize,
}

impl<'a> PartitionIter<'a> {
    /// The layering that is gone through.
    pub closed spec fn partitions(&self) -> &'a Partitions {
        self.partition
    }

    /// The number of the layer that comes next.
    pub closed spec fn position(&self) -> usize {
        self.index
    }

    /// The next layer, if one is left.
    pub fn next(&mut self) -> (r: Option<&'a [usize]>)
        requires
            old(self).partitions()@.loosely_ordered(),
        ensures
            final(self).partitions() == old(self).partitions(),
            match r {
                Some(layer) => old(self).position() < old(self).partitions()@.boundaries.len()
                    && layer@ == old(self).partitions()@.layer(old(self).position() as int)
                    && final(self).position() == old(self).position() + 1,
                None => old(self).position() >= old(self).partitions()@.boundaries.len()
                    && final(self).position() == old(self).position(),
            },
    {
        if self.index >= self.partition.len() {
            None
        } else {
            let ret = Some(self.partition.partition(self.index));
            self.index += 1;
            ret
        }
    }

    /// The number of layers that are left.
    pub fn remaining(&self) -> (r: usize)
        ensures
            r == if self.position() <= self.partitions()@.boundaries.len() {
                self.partitions()@.boundaries.len() - self.position()
            } else {
                0
            },
    {
        let n = self.partition.len();
        if self.index <= n {
            n - self.index
        } else {
            0
        }
    }
}

} // verus!
