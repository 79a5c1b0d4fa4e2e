//! The operations of a circuit: Pauli rotations and Pauli measurements.
use crate::basis::Basis;
use crate::bits::bit_traits::{BitOps, BitSeq, RefAnd};
use crate::bitseq::{all_false, count_true, lemma_count_zero_iff, seq_and, unit, within, zeros};
use vstd::prelude::*;

pub mod angle;
pub mod phase;

use angle::Angle;
use phase::Phase;

verus! {

/// What an operation does with its Pauli string.
#[derive(Clone, Copy, Debug, PartialEq, Eq, Structural)]
pub enum OperationKind {
    /// A deleted operation: a tombstone that every reader skips.
    Nop,
    Measurement { phase: Phase },
    Rotation { angle: Angle },
}

impl OperationKind {
    /// Whether the kind is that of a measurement.
    pub open spec fn spec_is_measurement(&self) -> bool {
        *self is Measurement
    }

    /// Whether the kind is that of a rotation.
    pub open spec fn spec_is_rotation(&self) -> bool {
        *self is Rotation
    }

    /// Whether the kind is that of a measurement.
    #[verifier::when_used_as_spec(spec_is_measurement)]
    pub fn is_measurement(&self) -> (r: bool)
        ensures
            r == (*self is Measurement),
    {
        match self {
            OperationKind::Measurement { phase: _ } => true,
            _ => false,
        }
    }

    /// Whether the kind is that of a rotation.
    #[verifier::when_used_as_spec(spec_is_rotation)]
    pub fn is_rotation(&self) -> (r: bool)
        ensures
            r == (*self is Rotation),
    {
        match self {
            OperationKind::Rotation { angle: _ } => true,
            _ => false,
        }
    }
}

/// A single-qubit Pauli operator other than the identity.
#[derive(Copy, Clone, PartialEq, Eq, Debug, Hash, Structural)]
pub enum Pauli {
    X,
    Z,
    Y,
}

impl Pauli {
    /// Whether the operator has an X component: X and Y have.
    pub open spec fn spec_has_x(&self) -> bool {
        *self != Pauli::Z
    }

    /// Whether the operator has a Z component: Z and Y have.
    pub open spec fn spec_has_z(&self) -> bool {
        *self != Pauli::X
    }

    /// Whether the operator has an X component.
    #[verifier::when_used_as_spec(spec_has_x)]
    pub fn has_x(&self) -> (r: bool)
        ensures
            r == (*self != Pauli::Z),
    {
        match self {
            Pauli::Z => false,
            _ => true,
        }
    }

    /// Whether the operator has a Z component.
    #[verifier::when_used_as_spec(spec_has_z)]
    pub fn has_z(&self) -> (r: bool)
        ensures
            r == (*self != Pauli::X),
    {
        match self {
            Pauli::X => false,
            _ => true,
        }
    }
}

/// The x part and z part of the operator `pauli` on qubit `qubit`.
pub fn basis<B: Basis>(n_qubits: usize, qubit: usize, pauli: Pauli) -> (r: (B, B))
    requires
        B::fits(n_qubits),
        qubit < n_qubits,
    ensures
        r.0.wf(),
        r.1.wf(),
        r.0.class() == B::class_of(n_qubits),
        r.1.class() == B::class_of(n_qubits),
        r.0.seq() == if pauli.has_x() {
            unit(B::capacity_of(n_qubits), qubit as int)
        } else {
            zeros(B::capacity_of(n_qubits))
        },
        r.1.seq() == if pauli.has_z() {
            unit(B::capacity_of(n_qubits), qubit as int)
        } else {
            zeros(B::capacity_of(n_qubits))
        },
{
    let x = if pauli.has_x() {
        B::bit_k(n_qubits, qubit)
    } else {
        B::zero(n_qubits)
    };
    let z = if pauli.has_z() {
        B::bit_k(n_qubits, qubit)
    } else {
        B::zero(n_qubits)
    };
    (x, z)
}

/// The mathematical content of an operation.
pub struct OperationView {
    pub x: Seq<bool>,
    pub z: Seq<bool>,
    pub kind: OperationKind,
}

impl OperationView {
    /// An operation other than a tombstone whose Pauli string is the identity.
    pub open spec fn is_identity(self) -> bool {
        all_false(self.x) && all_false(self.z) && !(self.kind is Nop)
    }

    /// Whether the Pauli string has no factor.
    pub open spec fn has_zero_axis(self) -> bool {
        all_false(self.x) && all_false(self.z)
    }

    /// A rotation by +-pi/8.
    pub open spec fn is_t(self) -> bool {
        self.kind matches OperationKind::Rotation { angle } && angle.spec_is_pi8()
    }

    /// Whether the Pauli strings of two operations commute.
    pub open spec fn commutes(self, rhs: OperationView) -> bool {
        (count_true(seq_and(self.z, rhs.x)) + count_true(seq_and(self.x, rhs.z))) % 2 == 0
    }

    /// The same Pauli string as a tombstone.
    pub open spec fn as_nop(self) -> OperationView {
        OperationView { x: self.x, z: self.z, kind: OperationKind::Nop }
    }
}

/// An operation of a circuit: a Pauli string and what is done with it.
#[derive(Clone, Copy, Debug, PartialEq, Eq)]
pub struct Operation<B: Basis> {
    pub x: B,
    pub z: B,
    pub kind: OperationKind,
}

/// An operation known to be a measurement.
#[derive(Clone, Copy, Debug, PartialEq, Eq)]
pub struct Measurement<'a, B: Basis> {
    pub this: &'a Operation<B>,
    pub phase: &'a Phase,
}

/// An operation known to be a rotation.
#[derive(Clone, Copy, Debug, PartialEq, Eq)]
pub struct Rotation<'a, B: Basis> {
    pub this: &'a Operation<B>,
    pub angle: &'a Angle,
}

impl<'a, B: Basis> Rotation<'a, B> {
    /// Whether the rotation's Pauli string has no factor.
    pub fn is_identity(&self) -> (r: bool)
        requires
            self.this.wf(),
        ensures
            r == self.this@.has_zero_axis(),
    {
        proof {
            lemma_count_zero_iff(self.this.x.seq());
            lemma_count_zero_iff(self.this.z.seq());
        }
        (self.this.x.popcnt() == 0) && (self.this.z.popcnt() == 0)
    }
}

impl<B: Basis> View for Operation<B> {
    type V = OperationView;

    open spec fn view(&self) -> OperationView {
        OperationView { x: self.x.seq(), z: self.z.seq(), kind: self.kind }
    }
}

impl<B: Basis> Operation<B> {
    /// Both parts are well formed and of one class.
    pub open spec fn wf(&self) -> bool {
        self.x.wf() && self.z.wf() && self.x.class() == self.z.class()
    }

    /// The class of the two parts.
    pub open spec fn class(&self) -> nat {
        self.x.class()
    }

    /// A well-formed operation made for `n_qubits` qubits.
    pub open spec fn wf_for(&self, n_qubits: usize) -> bool {
        self.wf() && B::fits(n_qubits) && self.class() == B::class_of(n_qubits)
    }

    /// The two parts of a well-formed operation are of one width.
    pub proof fn lemma_widths(&self)
        requires
            self.wf(),
        ensures
            self.x.seq().len() == self.z.seq().len(),
    {
        self.x.lemma_class_len(&self.z);
    }

    /// The measurement of the Pauli string `(x, z)` with the sign `phase`.
    pub fn measurement(x: B, z: B, phase: Phase) -> (r: Self)
        ensures
            r.x == x,
            r.z == z,
            r.kind == (OperationKind::Measurement { phase }),
    {
        Self { x, z, kind: OperationKind::Measurement { phase } }
    }

    /// The rotation about the Pauli string `(x, z)` by `angle`.
    pub fn rotation(x: B, z: B, angle: Angle) -> (r: Self)
        ensures
            r.x == x,
            r.z == z,
            r.kind == (OperationKind::Rotation { angle }),
    {
        Self { x, z, kind: OperationKind::Rotation { angle } }
    }

    /// Whether the Pauli string has no factor and the operation is no tombstone.
    pub fn is_identity(&self) -> (r: bool)
        requires
            self.wf(),
        ensures
            r == self@.is_identity(),
    {
        proof {
            lemma_count_zero_iff(self.x.seq());
            lemma_count_zero_iff(self.z.seq());
        }
        (self.x.popcnt() == 0) && (self.z.popcnt() == 0) && !self.is_nop()
    }

    /// Whether the operation is a tombstone.
    pub fn is_nop(&self) -> (r: bool)
        ensures
            r == (self.kind is Nop),
    {
        match self.kind {
            OperationKind::Nop => true,
            _ => false,
        }
    }

    /// Whether the operation is a measurement.
    pub fn is_measurement(&self) -> (r: bool)
        ensures
            r == (self.kind is Measurement),
    {
        self.kind.is_measurement()
    }

    /// Whether the operation is a rotation.
    pub fn is_rotation(&self) -> (r: bool)
        ensures
            r == (self.kind is Rotation),
    {
        self.kind.is_rotation()
    }

    /// Turns the operation into a tombstone; its Pauli string stays.
    pub fn set_nop(&mut self)
        ensures
            final(self).x == old(self).x,
            final(self).z == old(self).z,
            final(self).kind is Nop,
    {
        self.kind = OperationKind::Nop;
    }

    /// Whether the Pauli strings of two operations commute.
    pub fn commutes_with(&self, rhs: &Self) -> (r: bool)
        requires
            self.wf(),
            rhs.wf(),
            self.class() == rhs.class(),
        ensures
            r == self@.commutes(rhs@),
    {
        self.z.and(&rhs.x).parity() == self.x.and(&rhs.z).parity()
    }

    /// Whether the Pauli strings of two operations commute, with a fast
    /// path for strings that share no qubit.
    pub fn commutes_with_likely(&self, rhs: &Self) -> (r: bool)
        requires
            self.wf(),
            rhs.wf(),
            self.class() == rhs.class(),
        ensures
            r == self@.commutes(rhs@),
    {
        let zx = self.z.and(&rhs.x);
        let xz = self.x.and(&rhs.z);
        proof {
            lemma_count_zero_iff(zx.seq());
            lemma_count_zero_iff(xz.seq());
        }
        if xz.is_zero() && zx.is_zero() {
            return true;
        }
        zx.parity() == xz.parity()
    }

    /// The operation as a measurement, if it is one.
    pub fn as_measurement(&self) -> (r: Option<Measurement<'_, B>>)
        ensures
            r is Some <==> self.kind is Measurement,
            r matches Some(m) ==> m.this == self && self.kind == (OperationKind::Measurement {
                phase: *m.phase,
            }),
    {
        match &self.kind {
            OperationKind::Measurement { phase } => Some(Measurement { this: self, phase }),
            _ => None,
        }
    }

    /// The operation as a rotation, if it is one.
    pub fn as_rotation(&self) -> (r: Option<Rotation<'_, B>>)
        ensures
            r is Some <==> self.kind is Rotation,
            r matches Some(m) ==> m.this == self && self.kind == (OperationKind::Rotation {
                angle: *m.angle,
            }),
    {
        match &self.kind {
            OperationKind::Rotation { angle } => Some(Rotation { this: self, angle }),
            _ => None,
        }
    }

    /// The rotation by `angle` about the operator `pauli` on qubit `qubit`.
    pub fn pauli_angle(pauli: Pauli, angle: Angle, n_qubits: usize, qubit: usize) -> (r: Self)
        requires
            B::fits(n_qubits),
            qubit < n_qubits,
        ensures
            r.wf_for(n_qubits),
            r@.kind == (OperationKind::Rotation { angle }),
            r@.x == if pauli.has_x() {
                unit(B::capacity_of(n_qubits), qubit as int)
            } else {
                zeros(B::capacity_of(n_qubits))
            },
            r@.z == if pauli.has_z() {
                unit(B::capacity_of(n_qubits), qubit as int)
            } else {
                zeros(B::capacity_of(n_qubits))
            },
    {
        let (x, z) = basis::<B>(n_qubits, qubit, pauli);
        Self { x, z, kind: OperationKind::Rotation { angle } }
    }

    /// Whether the Pauli string has no factor on a qubit from `n_qubits`
    /// on.
    pub fn lies_on(&self, n_qubits: usize) -> (r: bool)
        requires
            self.wf(),
        ensures
            r == (within(self@.x, n_qubits as int) && within(self@.z, n_qubits as int)),
    {
        proof {
            self.lemma_widths();
        }
        let capacity = self.x.bit_capacity();
        let mut q = n_qubits;
        while q < capacity
            invariant
                n_qubits <= q,
                self.wf(),
                capacity == self.x.seq().len(),
                capacity == self.z.seq().len(),
                forall|i: int| n_qubits <= i < q && i < capacity ==> !self.x.seq()[i] && !self.z.seq()[i],
            decreases capacity - q,
        {
            if self.x.get_bit(q) || self.z.get_bit(q) {
                return false;
            }
            q += 1;
        }
        true
    }

    /// A copy of the operation.
    pub fn duplicate(&self) -> (r: Self)
        requires
            self.wf(),
        ensures
            r.wf(),
            r.class() == self.class(),
            r@ == self@,
    {
        Self { x: self.x.duplicate(), z: self.z.duplicate(), kind: self.kind }
    }

    /// Whether two operations of one class are equal.
    pub fn same(&self, rhs: &Self) -> (r: bool)
        requires
            self.wf(),
            rhs.wf(),
            self.class() == rhs.class(),
        ensures
            r == (self@ == rhs@),
    {
        self.kind == rhs.kind && self.x.same(&rhs.x) && self.z.same(&rhs.z)
    }
}

/// The mathematical contents of a run of operations.
pub open spec fn views<B: Basis>(ops: Seq<Operation<B>>) -> Seq<OperationView> {
    Seq::new(ops.len(), |i: int| ops[i]@)
}

/// Every operation is well formed and of the given class.
pub open spec fn all_wf<B: Basis>(ops: Seq<Operation<B>>, class: nat) -> bool {
    forall|i: int| 0 <= i < ops.len() ==> (#[trigger] ops[i]).wf() && ops[i].class() == class
}

/// The number of pi/8 rotations among `ops`.
pub open spec fn t_count(ops: Seq<OperationView>) -> nat
    decreases ops.len(),
{
    if ops.len() == 0 {
        0
    } else {
        t_count(ops.drop_last()) + if ops.last().is_t() {
            1nat
        } else {
            0nat
        }
    }
}

/// Which operations are no tombstones.
pub open spec fn live_of(ops: Seq<OperationView>) -> Seq<bool> {
    Seq::new(ops.len(), |i: int| !(ops[i].kind is Nop))
}

/// The operations among the first `k` whose slot in `live` is set, in order.
pub open spec fn compacted_prefix(ops: Seq<OperationView>, live: Seq<bool>, k: int) -> Seq<
    OperationView,
>
    decreases k,
{
    if k <= 0 {
        Seq::empty()
    } else {
        let rest = compacted_prefix(ops, live, k - 1);
        if live[k - 1] {
            rest.push(ops[k - 1])
        } else {
            rest
        }
    }
}

/// The operations whose slot in `live` is set, in order.
pub open spec fn compacted(ops: Seq<OperationView>, live: Seq<bool>) -> Seq<OperationView> {
    compacted_prefix(ops, live, ops.len() as int)
}

/// The operations with every one whose slot in `live` is clear turned into
/// a tombstone.
pub open spec fn nopped(ops: Seq<OperationView>, live: Seq<bool>) -> Seq<OperationView> {
    Seq::new(
        ops.len(),
        |i: int|
            if live[i] {
                ops[i]
            } else {
                ops[i].as_nop()
            },
    )
}

/// The operations that are no tombstones, in order.
pub open spec fn without_nops(ops: Seq<OperationView>) -> Seq<OperationView> {
    compacted(ops, live_of(ops))
}

/// A circuit without tombstones.
pub open spec fn no_nops(ops: Seq<OperationView>) -> bool {
    forall|i: int| 0 <= i < ops.len() ==> !((#[trigger] ops[i]).kind is Nop)
}

/// A circuit whose rotations are all by pi/8.
pub open spec fn no_cliffords(ops: Seq<OperationView>) -> bool {
    forall|i: int|
        0 <= i < ops.len() ==> ((#[trigger] ops[i]).kind matches OperationKind::Rotation { angle }
            ==> angle.spec_is_pi8())
}

/// A circuit of Pauli strings of one width on `n` qubits.
pub open spec fn on_qubits(ops: Seq<OperationView>, n: int, width: nat) -> bool {
    forall|i: int|
        0 <= i < ops.len() ==> (#[trigger] ops[i]).x.len() == width && ops[i].z.len() == width
            && within(ops[i].x, n) && within(ops[i].z, n)
}

/// Every operation of the circuit is `good`.
pub open spec fn every(ops: Seq<OperationView>, good: spec_fn(OperationView) -> bool) -> bool {
    forall|i: int| 0 <= i < ops.len() ==> good(#[trigger] ops[i])
}

/// An operation whose Pauli string has the given width and lies on the
/// first `n` qubits.
pub open spec fn op_on(n: int, width: nat) -> spec_fn(OperationView) -> bool {
    |op: OperationView|
        op.x.len() == width && op.z.len() == width && within(op.x, n) && within(op.z, n)
}

/// An operation that is neither a tombstone nor a Clifford rotation.
pub open spec fn op_settled() -> spec_fn(OperationView) -> bool {
    |op: OperationView|
        !(op.kind is Nop) && (op.kind matches OperationKind::Rotation { angle }
            ==> angle.spec_is_pi8())
}

/// The circuit predicates, operation by operation.
pub proof fn lemma_every(ops: Seq<OperationView>, n: int, width: nat)
    ensures
        on_qubits(ops, n, width) <==> every(ops, op_on(n, width)),
        (no_nops(ops) && no_cliffords(ops)) <==> every(ops, op_settled()),
{
    if on_qubits(ops, n, width) {
        assert forall|i: int| 0 <= i < ops.len() implies op_on(n, width)(#[trigger] ops[i]) by {}
    }
    if every(ops, op_on(n, width)) {
        assert forall|i: int| 0 <= i < ops.len() implies (#[trigger] ops[i]).x.len() == width
            && ops[i].z.len() == width && within(ops[i].x, n) && within(ops[i].z, n) by {
            assert(op_on(n, width)(ops[i]));
        }
    }
    if no_nops(ops) && no_cliffords(ops) {
        assert forall|i: int| 0 <= i < ops.len() implies op_settled()(#[trigger] ops[i]) by {}
    }
    if every(ops, op_settled()) {
        assert forall|i: int| 0 <= i < ops.len() implies !((#[trigger] ops[i]).kind is Nop) by {
            assert(op_settled()(ops[i]));
        }
        assert forall|i: int| 0 <= i < ops.len() implies ((#[trigger] ops[i]).kind matches OperationKind::Rotation {
            angle,
        } ==> angle.spec_is_pi8()) by {
            assert(op_settled()(ops[i]));
        }
    }
}

/// A compaction holds only operations of the circuit.
pub proof fn lemma_every_compacted(
    ops: Seq<OperationView>,
    live: Seq<bool>,
    k: int,
    good: spec_fn(OperationView) -> bool,
)
    requires
        every(ops, good),
        0 <= k <= ops.len(),
    ensures
        every(compacted_prefix(ops, live, k), good),
    decreases k,
{
    if k > 0 {
        lemma_every_compacted(ops, live, k - 1, good);
        let rest = compacted_prefix(ops, live, k - 1);
        if live[k - 1] {
            assert forall|i: int| 0 <= i < rest.push(ops[k - 1]).len() implies good(
                #[trigger] rest.push(ops[k - 1])[i],
            ) by {
                if i < rest.len() {
                    assert(rest.push(ops[k - 1])[i] == rest[i]);
                } else {
                    assert(good(ops[k - 1]));
                }
            }
        }
    }
}

/// A concatenation of two circuits of `good` operations is one.
pub proof fn lemma_every_concat(
    a: Seq<OperationView>,
    b: Seq<OperationView>,
    good: spec_fn(OperationView) -> bool,
)
    ensures
        every(a + b, good) <==> every(a, good) && every(b, good),
{
    if every(a, good) && every(b, good) {
        assert forall|i: int| 0 <= i < (a + b).len() implies good(#[trigger] (a + b)[i]) by {
            if i < a.len() {
                assert((a + b)[i] == a[i]);
            } else {
                assert((a + b)[i] == b[i - a.len()]);
            }
        }
    }
    if every(a + b, good) {
        assert forall|i: int| 0 <= i < a.len() implies good(#[trigger] a[i]) by {
            assert((a + b)[i] == a[i]);
        }
        assert forall|i: int| 0 <= i < b.len() implies good(#[trigger] b[i]) by {
            assert((a + b)[i + a.len()] == b[i]);
        }
    }
}

/// A part of a circuit of `good` operations is one.
pub proof fn lemma_every_subrange(
    ops: Seq<OperationView>,
    from: int,
    to: int,
    good: spec_fn(OperationView) -> bool,
)
    requires
        every(ops, good),
        0 <= from <= to <= ops.len(),
    ensures
        every(ops.subrange(from, to), good),
{
    assert forall|i: int| 0 <= i < to - from implies good(#[trigger] ops.subrange(from, to)[i]) by {
        assert(ops.subrange(from, to)[i] == ops[from + i]);
    }
}

} // verus!
