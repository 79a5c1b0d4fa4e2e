//! Folding of rotations about one axis: pairwise, along a stream, and over
//! a slab of mutually commuting rotations.
use crate::basis::Basis;
use crate::bits::bit_traits::{BitOps, BitSeq};
use crate::bitseq::{count_true, lemma_count_ones, lemma_count_update, ones};
use crate::operation::angle::Angle;
use crate::operation::{
    all_wf, compacted, compacted_prefix, every, lemma_every_compacted, live_of, nopped, op_on,
    t_count, views, Operation, OperationKind, OperationView,
};
use vstd::prelude::*;

verus! {

/// What two angles about one axis add up to.
pub enum AngleSum {
    /// The two rotations cancel.
    Cancel,
    /// The two rotations do not fold into one.
    Keep,
    /// The two rotations fold into one rotation by this angle.
    To(Angle),
}

/// The sum of two angles about one axis.
pub open spec fn combine_angles(a: Angle, b: Angle) -> AngleSum {
    let s = a.spec_code() + b.spec_code();
    if s == 0 {
        AngleSum::Cancel
    } else if (a == Angle::Pi2 && b == Angle::MinusPi4) || (b == Angle::Pi2 && a
        == Angle::MinusPi4) {
        AngleSum::To(Angle::PlusPi4)
    } else if (a == Angle::Pi2 && b.spec_is_pi8()) || (b == Angle::Pi2 && a.spec_is_pi8()) {
        AngleSum::Keep
    } else if s == 3 || s == -3 {
        AngleSum::Keep
    } else if s == 4 || s == -4 {
        AngleSum::To(Angle::Pi2)
    } else {
        AngleSum::To(Angle::of_code(s))
    }
}

/// What becomes of two operations that meet.
pub enum CombineView {
    KeepNeither,
    KeepFirst,
    KeepLast,
    KeepBoth,
    CombineTo(OperationView),
}

/// The decision on a pair of operations, the first one earlier in the circuit.
pub open spec fn combine(a: OperationView, b: OperationView) -> CombineView {
    if !(a.kind is Rotation) || !(b.kind is Rotation) {
        CombineView::KeepBoth
    } else if a.has_zero_axis() && b.has_zero_axis() {
        CombineView::KeepNeither
    } else if a.has_zero_axis() {
        CombineView::KeepLast
    } else if b.has_zero_axis() {
        CombineView::KeepFirst
    } else if a.x != b.x || a.z != b.z {
        CombineView::KeepBoth
    } else {
        match combine_angles(a.kind->angle, b.kind->angle) {
            AngleSum::Cancel => CombineView::KeepNeither,
            AngleSum::Keep => CombineView::KeepBoth,
            AngleSum::To(angle) => CombineView::CombineTo(
                OperationView { x: a.x, z: a.z, kind: OperationKind::Rotation { angle } },
            ),
        }
    }
}

/// The outcome of `try_combine_rotations`.
#[derive(Clone, Copy, Debug)]
pub enum RotationCombineResult<B: Basis> {
    KeepNeither,
    KeepFirst,
    KeepLast,
    KeepBoth,
    CombineTo(Operation<B>),
}

impl<B: Basis> View for RotationCombineResult<B> {
    type V = CombineView;

    open spec fn view(&self) -> CombineView {
        match *self {
            RotationCombineResult::KeepNeither => CombineView::KeepNeither,
            RotationCombineResult::KeepFirst => CombineView::KeepFirst,
            RotationCombineResult::KeepLast => CombineView::KeepLast,
            RotationCombineResult::KeepBoth => CombineView::KeepBoth,
            RotationCombineResult::CombineTo(op) => CombineView::CombineTo(op@),
        }
    }
}

/// Adds two angles about one axis.
pub fn add_angles(a: Angle, b: Angle) -> (r: Option<Option<Angle>>)
    ensures
        match combine_angles(a, b) {
            AngleSum::Cancel => r == Some(None::<Angle>),
            AngleSum::Keep => r is None,
            AngleSum::To(angle) => r == Some(Some(angle)),
        },
{
    let mut new_angle: i8 = a.code() + b.code();
    if new_angle == 0 {
        return Some(None);
    }
    if (a == Angle::Pi2 && b == Angle::MinusPi4) || (b == Angle::Pi2 && a == Angle::MinusPi4) {
        return Some(Some(Angle::PlusPi4));
    }
    if (a == Angle::Pi2 && b.is_pi8()) || (b == Angle::Pi2 && a.is_pi8()) {
        return None;
    }
    if new_angle == 3 || new_angle == -3 {
        return None;
    }
    if new_angle == 4 || new_angle == -4 {
        new_angle = 0;
    }
    Some(Some(Angle::from_code(new_angle)))
}

/// Decides what becomes of two operations that meet, `op_1` the earlier one.
pub fn try_combine_rotations<B: Basis>(op_1: &Operation<B>, op_2: &Operation<B>) -> (r:
    RotationCombineResult<B>)
    requires
        op_1.wf(),
        op_2.wf(),
        op_1.class() == op_2.class(),
    ensures
        r@ == combine(op_1@, op_2@),
        r matches RotationCombineResult::CombineTo(op) ==> op.wf() && op.class() == op_1.class(),
{
    let Some(rotation_1) = op_1.as_rotation() else {
        return RotationCombineResult::KeepBoth;
    };
    let Some(rotation_2) = op_2.as_rotation() else {
        return RotationCombineResult::KeepBoth;
    };
    let is_identity_1 = rotation_1.is_identity();
    let is_identity_2 = rotation_2.is_identity();

    if is_identity_1 && is_identity_2 {
        return RotationCombineResult::KeepNeither;
    } else if is_identity_1 {
        return RotationCombineResult::KeepLast;
    } else if is_identity_2 {
        return RotationCombineResult::KeepFirst;
    }
    if !op_1.x.same(&op_2.x) || !op_1.z.same(&op_2.z) {
        return RotationCombineResult::KeepBoth;
    }
    match add_angles(*rotation_1.angle, *rotation_2.angle) {
        Some(None) => RotationCombineResult::KeepNeither,
        None => RotationCombineResult::KeepBoth,
        Some(Some(angle)) => {
            let new_op = Operation::rotation(op_1.x.duplicate(), op_1.z.duplicate(), angle);
            RotationCombineResult::CombineTo(new_op)
        },
    }
}

/// The first index after `index` whose slot is set; the length if there is none.
pub open spec fn next_live(live: Seq<bool>, index: int) -> int
    decreases live.len() - index,
{
    if index + 1 >= live.len() {
        live.len() as int
    } else if live[index + 1] {
        index + 1
    } else {
        next_live(live, index + 1)
    }
}

/// The next live slot lies after the index, is live, and no live slot lies between.
pub proof fn lemma_next_live(live: Seq<bool>, index: int)
    requires
        -1 <= index,
    ensures
        index < live.len() ==> index < next_live(live, index) <= live.len(),
        index >= live.len() ==> next_live(live, index) == live.len(),
        next_live(live, index) < live.len() ==> live[next_live(live, index)],
        forall|k: int| index < k < next_live(live, index) ==> !live[k],
    decreases live.len() - index,
{
    if index + 1 < live.len() && !live[index + 1] {
        lemma_next_live(live, index + 1);
    }
}

/// The first index after `index` whose slot is set; the length if there is none.
pub fn compute_next_index(slots: &[bool], index: usize) -> (r: usize)
    ensures
        r == next_live(slots@, index as int),
{
    let n = slots.len();
    if index >= n {
        return n;
    }
    let mut at = index;
    loop
        invariant
            n == slots@.len(),
            index <= at < n,
            next_live(slots@, at as int) == next_live(slots@, index as int),
        decreases n - at,
    {
        at += 1;
        if at >= n {
            return n;
        } else {
            if slots[at] {
                return at;
            }
        }
    }
}

/// The state of one pass over a slab: the operations, which slots are
/// still live, the two indices that are compared next, and whether anything
/// was folded yet.
pub struct PassState {
    pub ops: Seq<OperationView>,
    pub live: Seq<bool>,
    pub i: int,
    pub j: int,
    pub changed: bool,
}

impl PassState {
    /// The pass has nothing left to compare.
    pub open spec fn done(self) -> bool {
        self.i >= self.ops.len()
    }

    /// Between two steps both indices point at live slots, the first before
    /// the second.
    pub open spec fn ready(self) -> bool {
        &&& self.ops.len() == self.live.len()
        &&& (self.done() || (0 <= self.i < self.j < self.ops.len() && self.live[self.i]
            && self.live[self.j]))
    }

    /// The number of live pi/8 rotations.
    pub open spec fn live_t_count(self) -> nat {
        live_t_count(self.ops, self.live)
    }
}

/// The number of live pi/8 rotations among `ops`.
pub open spec fn live_t_count(ops: Seq<OperationView>, live: Seq<bool>) -> nat
    decreases ops.len(),
{
    if ops.len() == 0 {
        0
    } else {
        live_t_count(ops.drop_last(), live.drop_last()) + if live.last() && ops.last().is_t() {
            1nat
        } else {
            0nat
        }
    }
}

/// Moves on to the next pair once the second index has run off the slab.
pub open spec fn settle(s: PassState) -> PassState {
    let n = s.ops.len() as int;
    if s.j < n {
        s
    } else {
        let i1 = next_live(s.live, s.i);
        let j1 = next_live(s.live, i1);
        if i1 >= n || j1 >= n {
            PassState { i: n, j: n, ..s }
        } else {
            PassState { i: i1, j: j1, ..s }
        }
    }
}

/// One comparison of the pass, applied to a state that is not done.
pub open spec fn pass_step(s: PassState) -> PassState {
    let i = s.i;
    let j = s.j;
    match combine(s.ops[i], s.ops[j]) {
        CombineView::KeepNeither => {
            let live = s.live.update(i, false).update(j, false);
            let i1 = next_live(live, i);
            let j0 = next_live(live, j);
            let j1 = if j0 <= i1 {
                next_live(live, i1)
            } else {
                j0
            };
            settle(PassState { ops: s.ops, live, i: i1, j: j1, changed: true })
        },
        CombineView::KeepFirst => {
            let live = s.live.update(j, false);
            settle(PassState { ops: s.ops, live, i, j: next_live(live, j), changed: true })
        },
        CombineView::KeepLast => {
            let live = s.live.update(i, false);
            let i1 = next_live(live, i);
            let j1 = if j <= i1 {
                next_live(live, i1)
            } else {
                j
            };
            settle(PassState { ops: s.ops, live, i: i1, j: j1, changed: true })
        },
        CombineView::KeepBoth => settle(PassState { j: next_live(s.live, j), ..s }),
        CombineView::CombineTo(op) => {
            let live = s.live.update(j, false);
            settle(
                PassState {
                    ops: s.ops.update(i, op),
                    live,
                    i,
                    j: next_live(live, j),
                    changed: true,
                },
            )
        },
    }
}

/// What a step keeps and what it advances.
pub proof fn lemma_pass_step(s: PassState)
    requires
        s.ready(),
        !s.done(),
    ensures
        pass_step(s).ready(),
        pass_step(s).ops.len() == s.ops.len(),
        pass_step(s).i > s.i || (pass_step(s).i == s.i && pass_step(s).j > s.j),
        pass_step(s).i <= s.ops.len(),
        pass_step(s).j <= s.ops.len(),
        pass_step(s).changed || !s.changed,
        forall|k: int| 0 <= k < s.ops.len() && pass_step(s).live[k] ==> s.live[k],
        forall|k: int|
            0 <= k < s.ops.len() ==> (#[trigger] pass_step(s).ops[k]).kind is Rotation
                == s.ops[k].kind is Rotation,
        forall|k: int|
            0 <= k < s.ops.len() && !(s.ops[k].kind is Rotation) ==> #[trigger] pass_step(s).ops[k]
                == s.ops[k],
        forall|k: int|
            0 <= k < s.ops.len() && !(s.ops[k].kind is Rotation) ==> #[trigger] pass_step(s).live[k]
                == s.live[k],
        forall|k: int|
            0 <= k < s.ops.len() ==> (#[trigger] pass_step(s).ops[k]).x == s.ops[k].x
                && pass_step(s).ops[k].z == s.ops[k].z,
        !pass_step(s).changed ==> pass_step(s).ops == s.ops && pass_step(s).live == s.live,
        pass_step(s).changed && !s.changed ==> count_true(pass_step(s).live) < count_true(s.live),
        count_true(pass_step(s).live) <= count_true(s.live),
        pass_step(s).live_t_count() <= s.live_t_count(),
{
    let i = s.i;
    let j = s.j;
    let n = s.ops.len() as int;
    lemma_count_update(s.live, i, false);
    lemma_count_update(s.live, j, false);
    lemma_count_update(s.live.update(i, false), j, false);
    lemma_live_t_update(s.ops, s.live, i, s.ops[i], false);
    lemma_live_t_update(s.ops, s.live, j, s.ops[j], false);
    lemma_live_t_update(s.ops, s.live.update(i, false), j, s.ops[j], false);
    match combine(s.ops[i], s.ops[j]) {
        CombineView::KeepNeither => {
            let live = s.live.update(i, false).update(j, false);
            let i1 = next_live(live, i);
            lemma_next_live(live, i);
            lemma_next_live(live, j);
            lemma_next_live(live, i1);
            let j0 = next_live(live, j);
            let j1 = if j0 <= i1 {
                next_live(live, i1)
            } else {
                j0
            };
            let t = PassState { ops: s.ops, live, i: i1, j: j1, changed: true };
            lemma_settle(t);
            assert(s.ops.update(i, s.ops[i]) =~= s.ops);
            assert(s.ops.update(j, s.ops[j]) =~= s.ops);
        },
        CombineView::KeepFirst => {
            let live = s.live.update(j, false);
            lemma_next_live(live, j);
            let t = PassState { ops: s.ops, live, i, j: next_live(live, j), changed: true };
            lemma_settle(t);
            assert(s.ops.update(j, s.ops[j]) =~= s.ops);
        },
        CombineView::KeepLast => {
            let live = s.live.update(i, false);
            let i1 = next_live(live, i);
            lemma_next_live(live, i);
            lemma_next_live(live, i1);
            let j1 = if j <= i1 {
                next_live(live, i1)
            } else {
                j
            };
            let t = PassState { ops: s.ops, live, i: i1, j: j1, changed: true };
            lemma_settle(t);
            assert(s.ops.update(i, s.ops[i]) =~= s.ops);
        },
        CombineView::KeepBoth => {
            lemma_next_live(s.live, j);
            let t = PassState { j: next_live(s.live, j), ..s };
            lemma_settle(t);
        },
        CombineView::CombineTo(op) => {
            let live = s.live.update(j, false);
            lemma_next_live(live, j);
            let ops = s.ops.update(i, op);
            let t = PassState { ops, live, i, j: next_live(live, j), changed: true };
            lemma_settle(t);
            lemma_combine_t(s.ops[i], s.ops[j]);
            lemma_live_t_update(s.ops, s.live, j, s.ops[j], false);
            assert(s.ops.update(j, s.ops[j]) =~= s.ops);
            lemma_live_t_update(s.ops, live, i, op, true);
            assert(live.update(i, true) =~= live);
        },
    }
}

/// Folding two rotations into one never yields more pi/8 rotations than
/// went in.
pub proof fn lemma_combine_t(a: OperationView, b: OperationView)
    ensures
        combine(a, b) matches CombineView::CombineTo(op) ==> op.kind is Rotation && a.kind is Rotation
            && b.kind is Rotation && (op.is_t() ==> a.is_t() || b.is_t()),
{
}

/// How the count of live pi/8 rotations follows a change of one slot.
pub proof fn lemma_live_t_update(
    ops: Seq<OperationView>,
    live: Seq<bool>,
    k: int,
    op: OperationView,
    alive: bool,
)
    requires
        ops.len() == live.len(),
        0 <= k < ops.len(),
    ensures
        live_t_count(ops.update(k, op), live.update(k, alive)) + (if live[k] && ops[k].is_t() {
            1nat
        } else {
            0nat
        }) == live_t_count(ops, live) + (if alive && op.is_t() {
            1nat
        } else {
            0nat
        }),
    decreases ops.len(),
{
    if k == ops.len() - 1 {
        assert(ops.update(k, op).drop_last() =~= ops.drop_last());
        assert(live.update(k, alive).drop_last() =~= live.drop_last());
    } else {
        lemma_live_t_update(ops.drop_last(), live.drop_last(), k, op, alive);
        assert(ops.update(k, op).drop_last() =~= ops.drop_last().update(k, op));
        assert(live.update(k, alive).drop_last() =~= live.drop_last().update(k, alive));
    }
}

/// Settling keeps the slab and leaves the state ready.
pub proof fn lemma_settle(t: PassState)
    requires
        t.ops.len() == t.live.len(),
        0 <= t.i <= t.ops.len(),
        t.j <= t.ops.len(),
        t.i < t.ops.len() ==> t.i < t.j && t.live[t.i],
        t.j < t.ops.len() ==> t.live[t.j],
    ensures
        settle(t).ready(),
        settle(t).ops == t.ops,
        settle(t).live == t.live,
        settle(t).changed == t.changed,
        settle(t).i <= t.ops.len(),
        settle(t).j <= t.ops.len(),
        t.j < t.ops.len() ==> settle(t) == t,
        t.j >= t.ops.len() && t.i < t.ops.len() ==> settle(t).i > t.i,
        t.i >= t.ops.len() ==> settle(t).done(),
{
    lemma_next_live(t.live, t.i);
    lemma_next_live(t.live, next_live(t.live, t.i));
}

/// The state in which the pass ends when it goes on from `s`.
pub open spec fn pass_run(s: PassState) -> PassState
    decreases s.ops.len() - s.i, s.ops.len() - s.j,
{
    if s.done() || !s.ready() {
        s
    } else {
        proof {
            lemma_pass_step(s);
        }
        pass_run(pass_step(s))
    }
}

/// What a whole pass keeps.
pub proof fn lemma_pass_run(s: PassState)
    requires
        s.ready(),
    ensures
        pass_run(s).done(),
        pass_run(s).ready(),
        pass_run(s).ops.len() == s.ops.len(),
        pass_run(s).changed || !s.changed,
        forall|k: int| 0 <= k < s.ops.len() && pass_run(s).live[k] ==> s.live[k],
        forall|k: int|
            0 <= k < s.ops.len() ==> (#[trigger] pass_run(s).ops[k]).kind is Rotation
                == s.ops[k].kind is Rotation,
        forall|k: int|
            0 <= k < s.ops.len() && !(s.ops[k].kind is Rotation) ==> #[trigger] pass_run(s).ops[k]
                == s.ops[k],
        forall|k: int|
            0 <= k < s.ops.len() && !(s.ops[k].kind is Rotation) ==> #[trigger] pass_run(s).live[k]
                == s.live[k],
        forall|k: int|
            0 <= k < s.ops.len() ==> (#[trigger] pass_run(s).ops[k]).x == s.ops[k].x
                && pass_run(s).ops[k].z == s.ops[k].z,
        !pass_run(s).changed ==> pass_run(s).ops == s.ops && pass_run(s).live == s.live,
        pass_run(s).changed && !s.changed ==> count_true(pass_run(s).live) < count_true(s.live),
        count_true(pass_run(s).live) <= count_true(s.live),
        pass_run(s).live_t_count() <= s.live_t_count(),
    decreases s.ops.len() - s.i, s.ops.len() - s.j,
{
    if !s.done() {
        lemma_pass_step(s);
        lemma_pass_run(pass_step(s));
        let t = pass_step(s);
        assert forall|k: int|
            0 <= k < s.ops.len() && !(s.ops[k].kind is Rotation) implies #[trigger] pass_run(
            s,
        ).ops[k] == s.ops[k] by {
            assert(t.ops[k] == s.ops[k]);
            assert(pass_run(t).ops[k] == t.ops[k]);
        }
        assert forall|k: int| 0 <= k < s.ops.len() implies (#[trigger] pass_run(s).ops[k]).x
            == s.ops[k].x && pass_run(s).ops[k].z == s.ops[k].z by {
            assert(t.ops[k].x == s.ops[k].x);
            assert(pass_run(t).ops[k].x == t.ops[k].x);
        }
        assert forall|k: int|
            0 <= k < s.ops.len() && !(s.ops[k].kind is Rotation) implies #[trigger] pass_run(
            s,
        ).live[k] == s.live[k] by {
            assert(t.ops[k] == s.ops[k]);
            assert(t.live[k] == s.live[k]);
            assert(pass_run(t).live[k] == t.live[k]);
        }
    }
}

/// The state in which one pass over a slab ends. A slab of one operation
/// loses it if it is an identity; a longer slab is scanned pair by pair,
/// starting at its first two live slots.
pub open spec fn pass(ops: Seq<OperationView>, live: Seq<bool>) -> PassState {
    let n = ops.len() as int;
    let unchanged = PassState { ops, live, i: n, j: n, changed: false };
    if n == 0 {
        unchanged
    } else if n == 1 {
        if ops[0].is_identity() {
            PassState { ops, live: live.update(0, false), i: n, j: n, changed: true }
        } else {
            unchanged
        }
    } else {
        let i0 = next_live(live, -1);
        let j0 = next_live(live, i0);
        if i0 >= n || j0 >= n {
            unchanged
        } else {
            pass_run(PassState { ops, live, i: i0, j: j0, changed: false })
        }
    }
}

/// What a pass keeps: lengths and kinds, and it only ever clears slots. A
/// pass that reports a change has cleared a slot; one that reports none has
/// changed nothing. The live pi/8 rotations never grow in number.
pub proof fn lemma_pass(ops: Seq<OperationView>, live: Seq<bool>)
    requires
        ops.len() == live.len(),
        ops.len() == 1 && ops[0].is_identity() ==> live[0],
    ensures
        pass(ops, live).ops.len() == ops.len(),
        pass(ops, live).live.len() == ops.len(),
        forall|k: int| 0 <= k < ops.len() && pass(ops, live).live[k] ==> live[k],
        forall|k: int|
            0 <= k < ops.len() ==> (#[trigger] pass(ops, live).ops[k]).kind is Rotation
                == ops[k].kind is Rotation,
        forall|k: int|
            0 <= k < ops.len() && !(ops[k].kind is Rotation) ==> #[trigger] pass(ops, live).ops[k]
                == ops[k],
        forall|k: int|
            0 <= k < ops.len() ==> (#[trigger] pass(ops, live).ops[k]).x == ops[k].x && pass(
                ops,
                live,
            ).ops[k].z == ops[k].z,
        !pass(ops, live).changed ==> pass(ops, live).ops == ops && pass(ops, live).live == live,
        pass(ops, live).changed ==> count_true(pass(ops, live).live) < count_true(live),
        count_true(pass(ops, live).live) <= count_true(live),
        pass(ops, live).live_t_count() <= live_t_count(ops, live),
{
    let n = ops.len() as int;
    if n == 1 {
        lemma_count_update(live, 0, false);
        lemma_live_t_update(ops, live, 0, ops[0], false);
        assert(ops.update(0, ops[0]) =~= ops);
    } else if n > 1 {
        lemma_next_live(live, -1);
        let i0 = next_live(live, -1);
        lemma_next_live(live, i0);
        let j0 = next_live(live, i0);
        if i0 < n && j0 < n {
            lemma_pass_run(PassState { ops, live, i: i0, j: j0, changed: false });
        }
    }
}

/// The compaction holds as many operations as slots are set, and as many
/// pi/8 rotations as are live.
pub proof fn lemma_compacted(ops: Seq<OperationView>, live: Seq<bool>, k: int)
    requires
        ops.len() == live.len(),
        0 <= k <= ops.len(),
    ensures
        compacted_prefix(ops, live, k).len() == count_true(live.take(k)),
        t_count(compacted_prefix(ops, live, k)) == live_t_count(ops.take(k), live.take(k)),
    decreases k,
{
    if k > 0 {
        lemma_compacted(ops, live, k - 1);
        assert(live.take(k).drop_last() =~= live.take(k - 1));
        assert(ops.take(k).drop_last() =~= ops.take(k - 1));
        let rest = compacted_prefix(ops, live, k - 1);
        if live[k - 1] {
            assert(rest.push(ops[k - 1]).drop_last() =~= rest);
        }
    }
}

/// With every slot live, the live pi/8 rotations are all of them.
pub proof fn lemma_live_t_all(ops: Seq<OperationView>)
    ensures
        live_t_count(ops, ones(ops.len())) == t_count(ops),
        live_t_count(ops, live_of(ops)) == t_count(ops),
    decreases ops.len(),
{
    if ops.len() > 0 {
        lemma_live_t_all(ops.drop_last());
        assert(ones(ops.len()).drop_last() =~= ones(ops.drop_last().len()));
        assert(live_of(ops).drop_last() =~= live_of(ops.drop_last()));
    }
}

/// Turning dead slots into tombstones leaves the live pi/8 rotations.
pub proof fn lemma_nopped(ops: Seq<OperationView>, live: Seq<bool>)
    requires
        ops.len() == live.len(),
    ensures
        t_count(nopped(ops, live)) == live_t_count(ops, live),
    decreases ops.len(),
{
    if ops.len() > 0 {
        lemma_nopped(ops.drop_last(), live.drop_last());
        assert(nopped(ops, live).drop_last() =~= nopped(ops.drop_last(), live.drop_last()));
    }
}

/// Scans a slab pair by pair from the live slots `first < second` on and
/// folds what folds: the loop of one pass.
fn scan_pairs<B: Basis>(
    operations: &mut [Operation<B>],
    keep: &mut Vec<bool>,
    first: usize,
    second: usize,
) -> (changed: bool)
    requires
        old(keep)@.len() == old(operations)@.len(),
        first < second < old(operations)@.len(),
        old(keep)@[first as int],
        old(keep)@[second as int],
        all_wf(old(operations)@, old(operations)@[0].class()),
    ensures
        final(operations)@.len() == old(operations)@.len(),
        final(keep)@.len() == old(keep)@.len(),
        all_wf(final(operations)@, old(operations)@[0].class()),
        ({
            let end = pass_run(
                PassState {
                    ops: views(old(operations)@),
                    live: old(keep)@,
                    i: first as int,
                    j: second as int,
                    changed: false,
                },
            );
            &&& views(final(operations)@) == end.ops
            &&& final(keep)@ == end.live
            &&& changed == end.changed
        }),
{
    let n = operations.len();
    let ghost class = operations@[0].class();
    let ghost start = PassState {
        ops: views(operations@),
        live: keep@,
        i: first as int,
        j: second as int,
        changed: false,
    };
    let mut index1 = first;
    let mut index2 = second;
    let mut changed = false;
    while index1 < n
        invariant
            n == operations@.len(),
            n == keep@.len(),
            index1 <= n,
            index2 <= n,
            all_wf(operations@, class),
            start.ready(),
            (PassState {
                ops: views(operations@),
                live: keep@,
                i: index1 as int,
                j: index2 as int,
                changed,
            }).ready(),
            pass_run(
                PassState {
                    ops: views(operations@),
                    live: keep@,
                    i: index1 as int,
                    j: index2 as int,
                    changed,
                },
            ) == pass_run(start),
        decreases n - index1, n - index2,
    {
        let ghost s = PassState {
            ops: views(operations@),
            live: keep@,
            i: index1 as int,
            j: index2 as int,
            changed,
        };
        proof {
            lemma_pass_step(s);
        }
        let res = try_combine_rotations(&operations[index1], &operations[index2]);
        match res {
            RotationCombineResult::KeepNeither => {
                keep[index1] = false;
                keep[index2] = false;
                index1 = compute_next_index(keep.as_slice(), index1);
                index2 = compute_next_index(keep.as_slice(), index2);
                if index2 <= index1 {
                    index2 = compute_next_index(keep.as_slice(), index1);
                }
                changed = true;
            },
            RotationCombineResult::KeepFirst => {
                keep[index2] = false;
                index2 = compute_next_index(keep.as_slice(), index2);
                changed = true;
            },
            RotationCombineResult::KeepLast => {
                keep[index1] = false;
                index1 = compute_next_index(keep.as_slice(), index1);
                if index2 <= index1 {
                    index2 = compute_next_index(keep.as_slice(), index1);
                }
                changed = true;
            },
            RotationCombineResult::KeepBoth => {
                index2 = compute_next_index(keep.as_slice(), index2);
            },
            RotationCombineResult::CombineTo(new_op) => {
                operations[index1] = new_op;
                keep[index2] = false;
                index2 = compute_next_index(keep.as_slice(), index2);
                changed = true;
                assert(views(operations@) =~= s.ops.update(s.i, new_op@));
            },
        }
        assert(views(operations@) =~= pass_step(s).ops);
        if index2 >= n {
            index1 = compute_next_index(keep.as_slice(), index1);
            index2 = compute_next_index(keep.as_slice(), index1);
            if index1 >= n || index2 >= n {
                index1 = n;
                index2 = n;
            }
        }
        assert(PassState {
            ops: views(operations@),
            live: keep@,
            i: index1 as int,
            j: index2 as int,
            changed,
        } == pass_step(s));
    }
    changed
}

/// Keeps of `operations` those whose slot in `keep` is set, in order.
pub fn retain_kept<B: Basis>(operations: &mut Vec<Operation<B>>, keep: &[bool])
    requires
        keep@.len() == old(operations)@.len(),
        old(operations)@.len() > 0 ==> all_wf(old(operations)@, old(operations)@[0].class()),
    ensures
        views(final(operations)@) == compacted(views(old(operations)@), keep@),
        forall|c: nat| all_wf(old(operations)@, c) ==> all_wf(final(operations)@, c),
{
    let n = operations.len();
    let ghost before = operations@;
    let mut write: usize = 0;
    let mut read: usize = 0;
    while read < n
        invariant
            n == operations@.len(),
            n == before.len(),
            n == keep@.len(),
            write <= read <= n,
            n > 0 ==> all_wf(before, before[0].class()),
            views(operations@.take(write as int)) == compacted_prefix(
                views(before),
                keep@,
                read as int,
            ),
            forall|k: int| read <= k < n ==> operations@[k] == before[k],
            forall|c: nat| all_wf(before, c) ==> all_wf(operations@, c),
        decreases n - read,
    {
        if keep[read] {
            if write != read {
                let op = operations[read].duplicate();
                operations[write] = op;
            }
            assert(views(operations@.take(write + 1)) =~= views(
                operations@.take(write as int),
            ).push(before[read as int]@));
            write += 1;
        }
        read += 1;
    }
    let ghost filled = operations@;
    operations.truncate(write);
    assert(operations@ =~= filled.take(write as int));
    assert forall|c: nat| all_wf(before, c) implies all_wf(operations@, c) by {
        assert forall|i: int| 0 <= i < operations@.len() implies (#[trigger] operations@[i]).wf()
            && operations@[i].class() == c by {
            assert(operations@[i] == filled[i]);
        }
    }
}

/// With every slot set, compaction keeps everything.
pub proof fn lemma_compacted_all(ops: Seq<OperationView>, k: int)
    requires
        0 <= k <= ops.len(),
    ensures
        compacted_prefix(ops, ones(ops.len()), k) == ops.take(k),
    decreases k,
{
    if k > 0 {
        lemma_compacted_all(ops, k - 1);
        assert(ops.take(k - 1).push(ops[k - 1]) =~= ops.take(k));
    } else {
        assert(ops.take(0) =~= Seq::<OperationView>::empty());
    }
}

/// One pass over a slab all of whose slots are live, and what is left of
/// the slab after it.
pub open spec fn vec_pass(ops: Seq<OperationView>) -> (Seq<OperationView>, bool) {
    let end = pass(ops, ones(ops.len()));
    (compacted(end.ops, end.live), end.changed)
}

/// One pass over a slab in which tombstones mark the dead slots.
pub open spec fn slice_pass(ops: Seq<OperationView>) -> (Seq<OperationView>, bool) {
    let end = pass(ops, live_of(ops));
    (nopped(end.ops, end.live), end.changed)
}

/// A pass that reports a change shortens the slab; one that reports none
/// leaves it as it was. The pi/8 rotations never grow in number.
pub proof fn lemma_vec_pass(ops: Seq<OperationView>)
    ensures
        vec_pass(ops).0.len() <= ops.len(),
        vec_pass(ops).1 ==> vec_pass(ops).0.len() < ops.len(),
        !vec_pass(ops).1 ==> vec_pass(ops).0 == ops,
        t_count(vec_pass(ops).0) <= t_count(ops),
{
    let live = ones(ops.len());
    let end = pass(ops, live);
    lemma_pass(ops, live);
    lemma_count_ones(ops.len());
    lemma_compacted(end.ops, end.live, ops.len() as int);
    assert(end.live.take(ops.len() as int) =~= end.live);
    assert(end.ops.take(ops.len() as int) =~= end.ops);
    lemma_live_t_all(ops);
    if !end.changed {
        lemma_compacted_all(ops, ops.len() as int);
        assert(ops.take(ops.len() as int) =~= ops);
    }
}

/// A pass that reports a change leaves fewer live operations; one that
/// reports none leaves the slab as it was. The pi/8 rotations never grow in
/// number.
pub proof fn lemma_slice_pass(ops: Seq<OperationView>)
    ensures
        slice_pass(ops).0.len() == ops.len(),
        live_of(slice_pass(ops).0) == pass(ops, live_of(ops)).live,
        slice_pass(ops).1 ==> count_true(live_of(slice_pass(ops).0)) < count_true(live_of(ops)),
        !slice_pass(ops).1 ==> slice_pass(ops).0 == ops,
        t_count(slice_pass(ops).0) <= t_count(ops),
        without_nops_len(slice_pass(ops).0) <= without_nops_len(ops),
        forall|k: int|
            0 <= k < ops.len() ==> (#[trigger] slice_pass(ops).0[k]).x == ops[k].x && slice_pass(
                ops,
            ).0[k].z == ops[k].z,
{
    let live = live_of(ops);
    let end = pass(ops, live);
    lemma_pass(ops, live);
    lemma_nopped(end.ops, end.live);
    lemma_live_t_all(ops);
    assert(live_of(nopped(end.ops, end.live)) =~= end.live) by {
        assert forall|k: int| 0 <= k < ops.len() implies live_of(nopped(end.ops, end.live))[k]
            == end.live[k] by {
            if end.live[k] {
                assert(live[k]);
                assert(end.ops[k].kind is Rotation == ops[k].kind is Rotation);
                if !(ops[k].kind is Rotation) {
                    assert(end.ops[k] == ops[k]);
                }
            }
        }
    }
    if !end.changed {
        assert(nopped(ops, live) =~= ops);
    }
}

/// A step that compares two pi/8 rotations and folds them leaves fewer
/// live pi/8 rotations.
pub proof fn lemma_pass_step_strict(s: PassState)
    requires
        s.ready(),
        !s.done(),
        s.ops[s.i].is_t(),
        s.ops[s.j].is_t(),
    ensures
        pass_step(s).changed && !s.changed ==> pass_step(s).live_t_count() < s.live_t_count(),
{
    let i = s.i;
    let j = s.j;
    lemma_pass_step(s);
    lemma_live_t_update(s.ops, s.live, i, s.ops[i], false);
    lemma_live_t_update(s.ops, s.live, j, s.ops[j], false);
    lemma_live_t_update(s.ops, s.live.update(i, false), j, s.ops[j], false);
    match combine(s.ops[i], s.ops[j]) {
        CombineView::KeepNeither => {
            let live = s.live.update(i, false).update(j, false);
            let i1 = next_live(live, i);
            lemma_next_live(live, i);
            lemma_next_live(live, j);
            lemma_next_live(live, i1);
            let j0 = next_live(live, j);
            let j1 = if j0 <= i1 {
                next_live(live, i1)
            } else {
                j0
            };
            lemma_settle(PassState { ops: s.ops, live, i: i1, j: j1, changed: true });
            assert(s.ops.update(i, s.ops[i]) =~= s.ops);
            assert(s.ops.update(j, s.ops[j]) =~= s.ops);
        },
        CombineView::KeepFirst => {
            let live = s.live.update(j, false);
            lemma_next_live(live, j);
            lemma_settle(PassState { ops: s.ops, live, i, j: next_live(live, j), changed: true });
            assert(s.ops.update(j, s.ops[j]) =~= s.ops);
        },
        CombineView::KeepLast => {
            let live = s.live.update(i, false);
            let i1 = next_live(live, i);
            lemma_next_live(live, i);
            lemma_next_live(live, i1);
            let j1 = if j <= i1 {
                next_live(live, i1)
            } else {
                j
            };
            lemma_settle(PassState { ops: s.ops, live, i: i1, j: j1, changed: true });
            assert(s.ops.update(i, s.ops[i]) =~= s.ops);
        },
        CombineView::KeepBoth => {
            lemma_next_live(s.live, j);
            lemma_settle(PassState { j: next_live(s.live, j), ..s });
        },
        CombineView::CombineTo(op) => {
            let live = s.live.update(j, false);
            lemma_next_live(live, j);
            let ops = s.ops.update(i, op);
            lemma_settle(PassState { ops, live, i, j: next_live(live, j), changed: true });
            assert(!op.is_t());
            assert(s.ops.update(j, s.ops[j]) =~= s.ops);
            lemma_live_t_update(s.ops, live, i, op, true);
            assert(live.update(i, true) =~= live);
        },
    }
}

/// A pass over live pi/8 rotations that reports a change leaves fewer of
/// them.
pub proof fn lemma_pass_run_strict(s: PassState)
    requires
        s.ready(),
        !s.changed,
        forall|k: int| 0 <= k < s.ops.len() && s.live[k] ==> (#[trigger] s.ops[k]).is_t(),
    ensures
        pass_run(s).changed ==> pass_run(s).live_t_count() < s.live_t_count(),
    decreases s.ops.len() - s.i, s.ops.len() - s.j,
{
    if !s.done() {
        lemma_pass_step(s);
        lemma_pass_step_strict(s);
        let t = pass_step(s);
        lemma_pass_run(t);
        if !t.changed {
            lemma_pass_run_strict(t);
        }
    }
}

/// A circuit of pi/8 rotations.
pub open spec fn all_t(ops: Seq<OperationView>) -> bool {
    forall|k: int| 0 <= k < ops.len() ==> (#[trigger] ops[k]).is_t()
}

/// Folding a slab of pi/8 rotations, where anything folds, leaves fewer
/// pi/8 rotations.
pub proof fn lemma_reduce_slice_strict(ops: Seq<OperationView>)
    requires
        all_t(ops),
    ensures
        slice_pass(ops).1 ==> t_count(slice_pass(ops).0) < t_count(ops),
        slice_pass(ops).1 ==> t_count(reduce_slice(ops)) < t_count(ops),
{
    let live = live_of(ops);
    let end = pass(ops, live);
    let n = ops.len() as int;
    lemma_slice_pass(ops);
    lemma_pass(ops, live);
    lemma_nopped(end.ops, end.live);
    lemma_live_t_all(ops);
    if slice_pass(ops).1 {
        if n == 1 {
            assert(ops[0].is_t());
            lemma_live_t_update(ops, live, 0, ops[0], false);
            assert(ops.update(0, ops[0]) =~= ops);
        } else if n > 1 {
            lemma_next_live(live, -1);
            let i0 = next_live(live, -1);
            lemma_next_live(live, i0);
            let j0 = next_live(live, i0);
            let first = PassState { ops, live, i: i0, j: j0, changed: false };
            assert forall|k: int| 0 <= k < ops.len() && first.live[k] implies (
            #[trigger] first.ops[k]).is_t() by {}
            lemma_pass_run_strict(first);
        }
        lemma_reduce_slice(slice_pass(ops).0);
    }
}

/// The number of operations that are no tombstones.
pub open spec fn without_nops_len(ops: Seq<OperationView>) -> nat {
    count_true(live_of(ops))
}

/// The slab after passes have been made over it until one reports no change.
pub open spec fn reduce_vec(ops: Seq<OperationView>) -> Seq<OperationView>
    decreases ops.len(),
{
    let (next, changed) = vec_pass(ops);
    if changed {
        proof {
            lemma_vec_pass(ops);
        }
        reduce_vec(next)
    } else {
        ops
    }
}

/// The slab after passes have been made over it until one reports no
/// change, with tombstones in the dead slots.
pub open spec fn reduce_slice(ops: Seq<OperationView>) -> Seq<OperationView>
    decreases without_nops_len(ops),
{
    let (next, changed) = slice_pass(ops);
    if changed {
        proof {
            lemma_slice_pass(ops);
        }
        reduce_slice(next)
    } else {
        ops
    }
}

/// The reduced slab is no longer than the slab, holds no more pi/8
/// rotations, and a further pass over it finds nothing to fold.
pub proof fn lemma_reduce_vec(ops: Seq<OperationView>)
    ensures
        reduce_vec(ops).len() <= ops.len(),
        t_count(reduce_vec(ops)) <= t_count(ops),
        !vec_pass(reduce_vec(ops)).1,
        reduce_vec(reduce_vec(ops)) == reduce_vec(ops),
        !vec_pass(ops).1 <==> reduce_vec(ops) == ops,
        vec_pass(ops).1 ==> reduce_vec(ops).len() < ops.len(),
    decreases ops.len(),
{
    lemma_vec_pass(ops);
    if vec_pass(ops).1 {
        lemma_reduce_vec(vec_pass(ops).0);
    }
}

/// The reduced slab has the length of the slab, holds no more live
/// operations and no more pi/8 rotations, and a further pass over it finds
/// nothing to fold.
pub proof fn lemma_reduce_slice(ops: Seq<OperationView>)
    ensures
        reduce_slice(ops).len() == ops.len(),
        without_nops_len(reduce_slice(ops)) <= without_nops_len(ops),
        t_count(reduce_slice(ops)) <= t_count(ops),
        !slice_pass(reduce_slice(ops)).1,
        reduce_slice(reduce_slice(ops)) == reduce_slice(ops),
        !slice_pass(ops).1 <==> reduce_slice(ops) == ops,
        slice_pass(ops).1 ==> without_nops_len(reduce_slice(ops)) < without_nops_len(ops),
        forall|k: int|
            0 <= k < ops.len() ==> (#[trigger] reduce_slice(ops)[k]).x == ops[k].x && reduce_slice(
                ops,
            )[k].z == ops[k].z,
    decreases without_nops_len(ops),
{
    lemma_slice_pass(ops);
    if slice_pass(ops).1 {
        let next = slice_pass(ops).0;
        lemma_reduce_slice(next);
        assert forall|k: int| 0 <= k < ops.len() implies (#[trigger] reduce_slice(ops)[k]).x
            == ops[k].x && reduce_slice(ops)[k].z == ops[k].z by {
            assert(next[k].x == ops[k].x);
            assert(reduce_slice(next)[k].x == next[k].x);
        }
    }
}

/// Folding a slab on `n` qubits leaves a slab on them.
pub proof fn lemma_reduce_vec_on(ops: Seq<OperationView>, n: int, width: nat)
    requires
        every(ops, op_on(n, width)),
    ensures
        every(vec_pass(ops).0, op_on(n, width)),
        every(reduce_vec(ops), op_on(n, width)),
    decreases ops.len(),
{
    let live = ones(ops.len());
    let end = pass(ops, live);
    lemma_pass(ops, live);
    assert(every(end.ops, op_on(n, width))) by {
        assert forall|i: int| 0 <= i < end.ops.len() implies op_on(n, width)(#[trigger] end.ops[i]) by {
            assert(op_on(n, width)(ops[i]));
        }
    }
    lemma_every_compacted(end.ops, end.live, end.ops.len() as int, op_on(n, width));
    lemma_vec_pass(ops);
    if vec_pass(ops).1 {
        lemma_reduce_vec_on(vec_pass(ops).0, n, width);
    }
}

/// One pass over a slab: folds what folds and removes what was folded away.
/// Returns whether anything changed. `keep_indexes` is scratch space.
pub fn inner_reduce_rotations_no_ordering<B: Basis>(
    operations: &mut Vec<Operation<B>>,
    keep_indexes: &mut Vec<bool>,
) -> (changed: bool)
    requires
        old(operations)@.len() > 0 ==> all_wf(old(operations)@, old(operations)@[0].class()),
    ensures
        views(final(operations)@) == vec_pass(views(old(operations)@)).0,
        changed == vec_pass(views(old(operations)@)).1,
        forall|c: nat| all_wf(old(operations)@, c) ==> all_wf(final(operations)@, c),
{
    let ghost before = views(operations@);
    keep_indexes.clear();
    let n = operations.len();
    if n == 0 {
        assert(compacted(before, keep_indexes@) =~= before);
        assert(ones(0) =~= keep_indexes@);
        return false;
    } else if n == 1 {
        proof {
            lemma_compacted_all(before, 1);
            lemma_compacted_all(before, 0);
            assert(before.take(1) =~= before);
            assert(ones(1).update(0, false)[0] == false);
        }
        if operations[0].is_identity() {
            operations.clear();
            let ghost dead = ones(1).update(0, false);
            assert(compacted_prefix(before, dead, 1) == compacted_prefix(before, dead, 0));
            assert(views(operations@) =~= compacted(before, dead));
            return true;
        } else {
            assert(views(operations@) =~= before);
            return false;
        }
    }
    keep_indexes.resize(n, true);
    assert(keep_indexes@ =~= ones(n as nat));
    proof {
        lemma_next_live(keep_indexes@, -1);
        lemma_next_live(keep_indexes@, 0);
        assert(next_live(keep_indexes@, -1) == 0);
        assert(next_live(keep_indexes@, 0) == 1);
    }
    let changed = scan_pairs(operations.as_mut_slice(), keep_indexes, 0, 1);
    retain_kept(operations, keep_indexes.as_slice());
    changed
}

/// Folds a slab of rotations, whatever their order, until nothing folds any
/// more. Returns whether anything changed. `keep_indexes` is scratch space.
pub fn reduce_rotations_no_ordering<B: Basis>(
    operations: &mut Vec<Operation<B>>,
    keep_indexes: &mut Vec<bool>,
) -> (overall_changed: bool)
    requires
        old(operations)@.len() > 0 ==> all_wf(old(operations)@, old(operations)@[0].class()),
    ensures
        views(final(operations)@) == reduce_vec(views(old(operations)@)),
        overall_changed == vec_pass(views(old(operations)@)).1,
        overall_changed == (views(final(operations)@) != views(old(operations)@)),
        final(operations)@.len() <= old(operations)@.len(),
        t_count(views(final(operations)@)) <= t_count(views(old(operations)@)),
        forall|c: nat| all_wf(old(operations)@, c) ==> all_wf(final(operations)@, c),
{
    let ghost before = operations@;
    proof {
        lemma_vec_pass(views(before));
        lemma_reduce_vec(views(before));
    }
    let mut changed = inner_reduce_rotations_no_ordering(operations, keep_indexes);
    let overall_changed = changed;
    while changed
        invariant
            operations@.len() > 0 ==> all_wf(operations@, operations@[0].class()),
            forall|c: nat| all_wf(before, c) ==> all_wf(operations@, c),
            changed ==> reduce_vec(views(operations@)) == reduce_vec(views(before)),
            !changed ==> views(operations@) == reduce_vec(views(before)),
        decreases operations@.len(), changed as int,
    {
        proof {
            lemma_vec_pass(views(operations@));
        }
        changed = inner_reduce_rotations_no_ordering(operations, keep_indexes);
    }
    overall_changed
}

/// The first index after `index` whose operation is no tombstone; the
/// length if there is none.
pub fn compute_next_index_slice<B: Basis>(operations: &[Operation<B>], index: usize) -> (r: usize)
    ensures
        r == next_live(live_of(views(operations@)), index as int),
{
    let n = operations.len();
    if index >= n {
        return n;
    }
    let ghost live = live_of(views(operations@));
    let mut at = index;
    loop
        invariant
            n == operations@.len(),
            live == live_of(views(operations@)),
            index <= at < n,
            next_live(live, at as int) == next_live(live, index as int),
        decreases n - at,
    {
        at += 1;
        if at >= n {
            return n;
        } else {
            if !operations[at].is_nop() {
                return at;
            }
        }
    }
}

/// One pass over a slab in place: folds what folds and leaves a tombstone
/// for what was folded away. Returns whether anything changed.
pub fn inner_reduce_rotations_no_ordering_slice<B: Basis>(operations: &mut [Operation<B>]) -> (changed:
    bool)
    requires
        old(operations)@.len() > 0 ==> all_wf(old(operations)@, old(operations)@[0].class()),
    ensures
        final(operations)@.len() == old(operations)@.len(),
        views(final(operations)@) == slice_pass(views(old(operations)@)).0,
        changed == slice_pass(views(old(operations)@)).1,
        forall|c: nat| all_wf(old(operations)@, c) ==> all_wf(final(operations)@, c),
{
    let ghost before = operations@;
    let ghost live = live_of(views(before));
    let n = operations.len();
    if n == 0 {
        assert(views(operations@) =~= nopped(views(before), live));
        return false;
    } else if n == 1 {
        if operations[0].is_identity() {
            operations[0].set_nop();
            assert(views(operations@) =~= nopped(views(before), live.update(0, false)));
            return true;
        } else {
            assert(views(operations@) =~= nopped(views(before), live));
            return false;
        }
    }
    proof {
        lemma_next_live(live, -1);
        assert(views(before) =~= nopped(views(before), live));
    }
    let mut index1: usize = 0;
    while operations[index1].is_nop()
        invariant
            n == operations@.len(),
            n >= 2,
            operations@ == before,
            before == old(operations)@,
            views(before) == nopped(views(before), live),
            index1 < n,
            next_live(live, index1 as int - 1) == next_live(live, -1),
            live == live_of(views(before)),
        decreases n - index1,
    {
        assert(!live[index1 as int]);
        assert(next_live(live, index1 as int - 1) == next_live(live, index1 as int));
        index1 += 1;
        if index1 >= n {
            assert(next_live(live, n as int - 1) == n);
            return false;
        }
    }
    assert(live[index1 as int]);
    assert(next_live(live, index1 as int - 1) == index1);
    let index2 = compute_next_index_slice(operations, index1);
    if index2 >= n {
        return false;
    }
    proof {
        lemma_next_live(live, index1 as int);
    }
    let mut keep: Vec<bool> = Vec::with_capacity(n);
    let mut k: usize = 0;
    while k < n
        invariant
            n == operations@.len(),
            operations@ == before,
            k <= n,
            keep@ == live.take(k as int),
            live == live_of(views(before)),
        decreases n - k,
    {
        keep.push(!operations[k].is_nop());
        assert(keep@ =~= live.take(k + 1));
        k += 1;
    }
    assert(keep@ =~= live);
    let changed = scan_pairs(operations, &mut keep, index1, index2);
    let ghost end = pass(views(before), live);
    let ghost scanned = operations@;
    proof {
        lemma_pass(views(before), live);
    }
    let mut k: usize = 0;
    while k < n
        invariant
            n == operations@.len(),
            n == scanned.len(),
            n == keep@.len(),
            k <= n,
            forall|c: nat| all_wf(scanned, c) ==> all_wf(operations@, c),
            forall|m: int| 0 <= m < k ==> (#[trigger] operations@[m])@ == nopped(views(scanned), keep@)[m],
            forall|m: int| k <= m < n ==> operations@[m] == scanned[m],
        decreases n - k,
    {
        if !keep[k] {
            operations[k].set_nop();
        }
        k += 1;
    }
    assert(views(operations@) =~= nopped(views(scanned), keep@));
    changed
}

/// Folds a slab of rotations in place, whatever their order, until nothing
/// folds any more; what was folded away is left as a tombstone. Returns
/// whether anything changed.
pub fn reduce_rotations_no_ordering_slice<B: Basis>(operations: &mut [Operation<B>]) -> (overall_changed:
    bool)
    requires
        old(operations)@.len() > 0 ==> all_wf(old(operations)@, old(operations)@[0].class()),
    ensures
        final(operations)@.len() == old(operations)@.len(),
        views(final(operations)@) == reduce_slice(views(old(operations)@)),
        overall_changed == slice_pass(views(old(operations)@)).1,
        overall_changed == (views(final(operations)@) != views(old(operations)@)),
        t_count(views(final(operations)@)) <= t_count(views(old(operations)@)),
        forall|c: nat| all_wf(old(operations)@, c) ==> all_wf(final(operations)@, c),
{
    let ghost before = operations@;
    proof {
        lemma_slice_pass(views(before));
        lemma_reduce_slice(views(before));
    }
    let mut changed = inner_reduce_rotations_no_ordering_slice(operations);
    let overall_changed = changed;
    while changed
        invariant
            operations@.len() == before.len(),
            operations@.len() > 0 ==> all_wf(operations@, operations@[0].class()),
            forall|c: nat| all_wf(before, c) ==> all_wf(operations@, c),
            changed ==> reduce_slice(views(operations@)) == reduce_slice(views(before)),
            !changed ==> views(operations@) == reduce_slice(views(before)),
        decreases without_nops_len(views(operations@)), changed as int,
    {
        proof {
            lemma_slice_pass(views(operations@));
        }
        changed = inner_reduce_rotations_no_ordering_slice(operations);
    }
    overall_changed
}

/// One step of the streaming folder: the pending operation meets the next
/// one. Gives the new pending operation and what is emitted.
pub open spec fn fold_step(current: Option<OperationView>, next: OperationView) -> (
    Option<OperationView>,
    Option<OperationView>,
) {
    match current {
        None => (Some(next), None),
        Some(pending) => match combine(pending, next) {
            CombineView::KeepNeither => (None, None),
            CombineView::KeepFirst => (Some(pending), None),
            CombineView::KeepLast => (Some(next), None),
            CombineView::KeepBoth => (Some(next), Some(pending)),
            CombineView::CombineTo(op) => (Some(op), None),
        },
    }
}

/// What the streaming folder has emitted and what it holds pending once it
/// has consumed `ops`.
pub open spec fn fold_state(ops: Seq<OperationView>) -> (Seq<OperationView>, Option<OperationView>)
    decreases ops.len(),
{
    if ops.len() == 0 {
        (Seq::empty(), None)
    } else {
        let (out, current) = fold_state(ops.drop_last());
        let (pending, emitted) = fold_step(current, ops.last());
        (
            match emitted {
                Some(op) => out.push(op),
                None => out,
            },
            pending,
        )
    }
}

/// The stream that the folder makes of `ops`: what it emits on the way,
/// then what is pending at the end.
pub open spec fn fold_adjacent(ops: Seq<OperationView>) -> Seq<OperationView> {
    let (out, current) = fold_state(ops);
    match current {
        Some(op) => out.push(op),
        None => out,
    }
}

/// Folding never lengthens the stream, never adds pi/8 rotations, and
/// leaves every operation that is no rotation in its place among the others.
pub proof fn lemma_fold_state(ops: Seq<OperationView>)
    ensures
        fold_state(ops).0.len() + (if fold_state(ops).1 is Some {
            1nat
        } else {
            0nat
        }) <= ops.len(),
        t_count(fold_state(ops).0) + (if fold_state(ops).1 matches Some(op) && op.is_t() {
            1nat
        } else {
            0nat
        }) <= t_count(ops),
        fold_adjacent(ops).len() <= ops.len(),
        t_count(fold_adjacent(ops)) <= t_count(ops),
    decreases ops.len(),
{
    if ops.len() > 0 {
        lemma_fold_state(ops.drop_last());
        let (out, current) = fold_state(ops.drop_last());
        let (pending, emitted) = fold_step(current, ops.last());
        if current is Some {
            lemma_combine_t(current.unwrap(), ops.last());
        }
        if emitted is Some {
            assert(out.push(emitted.unwrap()).drop_last() =~= out);
        }
    }
    let (out, current) = fold_state(ops);
    if current is Some {
        assert(out.push(current.unwrap()).drop_last() =~= out);
    }
}

/// The streaming folder of adjacent rotations. It holds one pending
/// operation; each operation fed to it either folds into the pending one
/// or pushes it out.
#[derive(Clone, Debug)]
pub struct OptimizeRotationsAdjacent<B: Basis> {
    source_is_done: bool,
    current: Option<Operation<B>>,
    pre_op_count: usize,
}

impl<B: Basis> OptimizeRotationsAdjacent<B> {
    /// The pending operation, if any.
    pub closed spec fn pending(&self) -> Option<Operation<B>> {
        self.current
    }

    /// Whether the end of the source was seen.
    pub closed spec fn finished(&self) -> bool {
        self.source_is_done
    }

    /// The number of operations consumed.
    pub closed spec fn consumed(&self) -> nat {
        self.pre_op_count as nat
    }

    /// The pending operation is well formed.
    pub open spec fn wf(&self) -> bool {
        self.pending() matches Some(op) ==> op.wf()
    }

    /// The mathematical content of the pending operation.
    pub open spec fn pending_view(&self) -> Option<OperationView> {
        match self.pending() {
            Some(op) => Some(op@),
            None => None,
        }
    }

    /// A folder that has consumed nothing.
    pub fn new() -> (r: Self)
        ensures
            r.pending() is None,
            !r.finished(),
            r.consumed() == 0,
            r.wf(),
    {
        Self { source_is_done: false, current: None, pre_op_count: 0 }
    }

    /// The number of operations consumed so far.
    pub fn pre_op_count(&self) -> (r: usize)
        ensures
            r == self.consumed(),
    {
        self.pre_op_count
    }

    /// Takes what the source gave next, an operation or its end, and gives
    /// what the folder emits for it: `Some(Some(op))` an operation,
    /// `Some(None)` nothing yet, `None` the end of the stream. After the
    /// end of the source the pending operation comes out, then the end.
    pub fn next(&mut self, item: Option<Operation<B>>) -> (r: Option<Option<Operation<B>>>)
        requires
            old(self).wf(),
            item is Some && !old(self).finished() ==> old(self).consumed() < usize::MAX,
            item matches Some(op) ==> op.wf() && (old(self).pending() matches Some(c) ==> c.class()
                == op.class()),
        ensures
            final(self).wf(),
            r matches Some(Some(op)) ==> op.wf() && old(self).pending() is Some && op.class()
                == old(self).pending().unwrap().class(),
            final(self).pending() matches Some(p) ==> (old(self).pending() matches Some(q)
                && p.class() == q.class()) || (item matches Some(op) && p.class() == op.class()),
            old(self).finished() || item is None ==> {
                &&& final(self).finished()
                &&& final(self).pending() is None
                &&& final(self).consumed() == old(self).consumed()
                &&& match r {
                    Some(out) => out is Some && old(self).pending_view() == Some(out.unwrap()@),
                    None => old(self).pending() is None,
                }
            },
            !old(self).finished() && item is Some ==> {
                &&& !final(self).finished()
                &&& final(self).consumed() == old(self).consumed() + 1
                &&& r is Some
                &&& (final(self).pending_view(), match r.unwrap() {
                    Some(op) => Some(op@),
                    None => None,
                }) == fold_step(old(self).pending_view(), item.unwrap()@)
            },
    {
        if self.source_is_done {
            if let Some(current) = self.current.take() {
                return Some(Some(current));
            } else {
                return None;
            }
        }
        if let Some(next) = item {
            self.pre_op_count += 1;
            if let Some(current) = self.current.take() {
                match try_combine_rotations(&current, &next) {
                    RotationCombineResult::KeepNeither => {
                        self.current = None;
                        Some(None)
                    },
                    RotationCombineResult::KeepFirst => {
                        self.current = Some(current);
                        Some(None)
                    },
                    RotationCombineResult::KeepLast => {
                        self.current = Some(next);
                        Some(None)
                    },
                    RotationCombineResult::KeepBoth => {
                        self.current = Some(next);
                        Some(Some(current))
                    },
                    RotationCombineResult::CombineTo(new_op) => {
                        self.current = Some(new_op);
                        Some(None)
                    },
                }
            } else {
                self.current = Some(next);
                Some(None)
            }
        } else {
            self.source_is_done = true;
            if let Some(current) = self.current.take() {
                Some(Some(current))
            } else {
                None
            }
        }
    }
}

/// Streams a whole circuit through the folder of adjacent rotations and
/// collects what comes out. Also gives the number of operations consumed.
pub fn fold_adjacent_rotations<B: Basis>(instructions: Vec<Operation<B>>) -> (r: (
    Vec<Operation<B>>,
    usize,
))
    requires
        instructions@.len() > 0 ==> all_wf(instructions@, instructions@[0].class()),
    ensures
        views(r.0@) == fold_adjacent(views(instructions@)),
        r.1 == instructions@.len(),
        forall|c: nat| all_wf(instructions@, c) ==> all_wf(r.0@, c),
{
    let n = instructions.len();
    let mut circuit: Vec<Operation<B>> = Vec::new();
    let mut reducer = OptimizeRotationsAdjacent::<B>::new();
    let ghost ops = views(instructions@);
    let ghost class = if n > 0 {
        instructions@[0].class()
    } else {
        0
    };
    let mut k: usize = 0;
    assert(ops.take(0) =~= Seq::<OperationView>::empty());
    while k < n
        invariant
            n == instructions@.len(),
            k <= n,
            ops == views(instructions@),
            n > 0 ==> all_wf(instructions@, class),
            reducer.wf(),
            !reducer.finished(),
            reducer.consumed() == k,
            reducer.pending() matches Some(p) ==> p.class() == class,
            all_wf(circuit@, class),
            (views(circuit@), reducer.pending_view()) == fold_state(ops.take(k as int)),
        decreases n - k,
    {
        let ghost before = views(circuit@);
        let item = instructions[k].duplicate();
        let out = reducer.next(Some(item));
        proof {
            assert(ops.take(k + 1).drop_last() =~= ops.take(k as int));
            assert(ops.take(k + 1).last() == instructions@[k as int]@);
        }
        if let Some(Some(op)) = out {
            circuit.push(op);
            assert(views(circuit@) =~= before.push(op@));
        }
        k += 1;
    }
    assert(ops.take(n as int) =~= ops);
    let ghost before = views(circuit@);
    let out = reducer.next(None);
    if let Some(Some(op)) = out {
        circuit.push(op);
        assert(views(circuit@) =~= before.push(op@));
    }
    assert forall|c: nat| all_wf(instructions@, c) implies all_wf(circuit@, c) by {
        if n > 0 {
            assert(instructions@[0].class() == c);
        } else {
            assert(circuit@.len() == 0);
        }
    }
    (circuit, reducer.pre_op_count())
}

/// A circuit holds no more pi/8 rotations than operations.
pub proof fn lemma_t_count_bound(ops: Seq<OperationView>)
    ensures
        t_count(ops) <= ops.len(),
    decreases ops.len(),
{
    if ops.len() > 0 {
        lemma_t_count_bound(ops.drop_last());
    }
}

/// An operation that is no tombstone.
pub open spec fn op_live() -> spec_fn(OperationView) -> bool {
    |op: OperationView| !(op.kind is Nop)
}

/// Folding a slab without tombstones leaves none.
pub proof fn lemma_reduce_vec_live(ops: Seq<OperationView>)
    requires
        every(ops, op_live()),
    ensures
        every(vec_pass(ops).0, op_live()),
        every(reduce_vec(ops), op_live()),
    decreases ops.len(),
{
    let live = ones(ops.len());
    let end = pass(ops, live);
    lemma_pass(ops, live);
    assert(every(end.ops, op_live())) by {
        assert forall|i: int| 0 <= i < end.ops.len() implies op_live()(#[trigger] end.ops[i]) by {
            assert(op_live()(ops[i]));
            assert(end.ops[i].kind is Rotation == ops[i].kind is Rotation);
            if !(ops[i].kind is Rotation) {
                assert(end.ops[i] == ops[i]);
            }
        }
    }
    lemma_every_compacted(end.ops, end.live, end.ops.len() as int, op_live());
    lemma_vec_pass(ops);
    if vec_pass(ops).1 {
        lemma_reduce_vec_live(vec_pass(ops).0);
    }
}

/// Folding a stream on `n` qubits without tombstones yields one.
pub proof fn lemma_fold_read(ops: Seq<OperationView>, n: int, width: nat)
    requires
        every(ops, op_on(n, width)),
        every(ops, op_live()),
    ensures
        every(fold_state(ops).0, op_on(n, width)),
        every(fold_state(ops).0, op_live()),
        fold_state(ops).1 matches Some(op) ==> op_on(n, width)(op) && op_live()(op),
        every(fold_adjacent(ops), op_on(n, width)),
        every(fold_adjacent(ops), op_live()),
    decreases ops.len(),
{
    if ops.len() > 0 {
        let rest = ops.drop_last();
        assert(every(rest, op_on(n, width)) && every(rest, op_live())) by {
            assert forall|i: int| 0 <= i < rest.len() implies rest[i] == ops[i] by {}
        }
        lemma_fold_read(rest, n, width);
        let (out, current) = fold_state(rest);
        let (pending, emitted) = fold_step(current, ops.last());
        assert(op_on(n, width)(ops.last()) && op_live()(ops.last()));
        if emitted is Some {
            let grown = out.push(emitted.unwrap());
            assert forall|i: int| 0 <= i < grown.len() implies op_on(n, width)(#[trigger] grown[i])
                && op_live()(grown[i]) by {
                if i < out.len() {
                    assert(grown[i] == out[i]);
                }
            }
        }
    }
    let (out, current) = fold_state(ops);
    if current is Some {
        let grown = out.push(current.unwrap());
        assert forall|i: int| 0 <= i < grown.len() implies op_on(n, width)(#[trigger] grown[i])
            && op_live()(grown[i]) by {
            if i < out.len() {
                assert(grown[i] == out[i]);
            }
        }
    }
}

} // verus!
