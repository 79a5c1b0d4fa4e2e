//! Pushing the pi/8 rotations forward: the Clifford rotations are absorbed
//! into one running Clifford operator, and every other operation is
//! conjugated by it.
use crate::basis::Basis;
use crate::bits::bit_traits::{BitOps, BitSeq};
use crate::clifford::{
    clifford_on, compose, conjugate, counters_fit, identity_view, lemma_compose_on,
    lemma_conjugate_on, lemma_identity_conjugate, lemma_rotation_on, pi2_view, pi4_view, Clifford,
    CliffordView,
};
use crate::operation::angle::Angle;
use crate::operation::phase::Phase;
use crate::operation::{
    all_wf, no_cliffords, no_nops, on_qubits, t_count, views, Operation, OperationKind,
    OperationView,
};
use crate::symplectic::SignedPauli;
use vstd::prelude::*;

verus! {

/// What one operation does to the driver: the accumulator after it, whether
/// the emitted operation differs from it, whether it is a pi/8 rotation,
/// and what is emitted.
pub struct PushStep {
    pub accumulator: CliffordView,
    pub changed: bool,
    pub was_t: bool,
    pub emitted: Option<OperationView>,
}

/// One step of the driver on an operation that is no tombstone.
pub open spec fn push_step(accumulator: CliffordView, op: OperationView) -> PushStep {
    let n = accumulator.x_rows.len();
    match op.kind {
        OperationKind::Nop => PushStep { accumulator, changed: false, was_t: false, emitted: None },
        OperationKind::Measurement { phase } => {
            let s = conjugate(
                accumulator,
                SignedPauli { sign: phase.spec_sign_bit(), x: op.x, z: op.z },
            );
            PushStep {
                accumulator,
                changed: s.x != op.x || s.z != op.z || s.sign != phase.spec_sign_bit(),
                was_t: false,
                emitted: Some(
                    OperationView {
                        x: s.x,
                        z: s.z,
                        kind: OperationKind::Measurement { phase: Phase::of_sign_bit(s.sign) },
                    },
                ),
            }
        },
        OperationKind::Rotation { angle } => {
            let p = SignedPauli { sign: angle.spec_sign_bit(), x: op.x, z: op.z };
            if angle.spec_is_pi8() {
                let s = conjugate(accumulator, p);
                PushStep {
                    accumulator,
                    changed: s.x != op.x || s.z != op.z || s.sign != angle.spec_sign_bit(),
                    was_t: true,
                    emitted: Some(
                        OperationView {
                            x: s.x,
                            z: s.z,
                            kind: OperationKind::Rotation { angle: angle.with_sign_bit(s.sign) },
                        },
                    ),
                }
            } else if angle == Angle::Pi2 {
                PushStep {
                    accumulator: compose(pi2_view(n, p), accumulator),
                    changed: false,
                    was_t: false,
                    emitted: None,
                }
            } else {
                PushStep {
                    accumulator: compose(pi4_view(n, p), accumulator),
                    changed: false,
                    was_t: false,
                    emitted: None,
                }
            }
        },
    }
}

/// The driver after a run of operations: the accumulator, what was emitted,
/// whether any emitted operation differs from its input, and the number of
/// pi/8 rotations seen.
pub struct PushRun {
    pub accumulator: CliffordView,
    pub emitted: Seq<OperationView>,
    pub changed: bool,
    pub t_gates: nat,
}

/// The driver run over `ops`, starting from `accumulator`.
pub open spec fn push_run(accumulator: CliffordView, ops: Seq<OperationView>) -> PushRun
    decreases ops.len(),
{
    if ops.len() == 0 {
        PushRun { accumulator, emitted: Seq::empty(), changed: false, t_gates: 0 }
    } else {
        let before = push_run(accumulator, ops.drop_last());
        let step = push_step(before.accumulator, ops.last());
        PushRun {
            accumulator: step.accumulator,
            emitted: match step.emitted {
                Some(op) => before.emitted.push(op),
                None => before.emitted,
            },
            changed: before.changed || step.changed,
            t_gates: before.t_gates + if step.was_t {
                1nat
            } else {
                0nat
            },
        }
    }
}

/// The driver emits no more than it reads, emits exactly the pi/8
/// rotations as pi/8 rotations, and emits neither tombstones nor Clifford
/// rotations.
pub proof fn lemma_push_run(accumulator: CliffordView, ops: Seq<OperationView>)
    requires
        no_nops(ops),
    ensures
        push_run(accumulator, ops).emitted.len() <= ops.len(),
        push_run(accumulator, ops).t_gates == t_count(ops),
        t_count(push_run(accumulator, ops).emitted) == t_count(ops),
        no_nops(push_run(accumulator, ops).emitted),
        no_cliffords(push_run(accumulator, ops).emitted),
        push_run(accumulator, ops).accumulator.x_rows.len() == accumulator.x_rows.len(),
    decreases ops.len(),
{
    if ops.len() > 0 {
        assert(no_nops(ops.drop_last())) by {
            assert forall|i: int| 0 <= i < ops.drop_last().len() implies !((
            #[trigger] ops.drop_last()[i]).kind is Nop) by {
                assert(ops.drop_last()[i] == ops[i]);
            }
        }
        lemma_push_run(accumulator, ops.drop_last());
        let before = push_run(accumulator, ops.drop_last());
        let step = push_step(before.accumulator, ops.last());
        assert(!(ops.last().kind is Nop));
        if step.emitted is Some {
            assert(before.emitted.push(step.emitted.unwrap()).drop_last() =~= before.emitted);
            match ops.last().kind {
                OperationKind::Rotation { angle } => {
                    assert(angle.with_sign_bit(true).spec_is_pi8());
                    assert(angle.with_sign_bit(false).spec_is_pi8());
                },
                _ => {},
            }
        }
    }
}

/// Run over a circuit on `n` qubits from an accumulator on them, the driver
/// emits a circuit on them.
pub proof fn lemma_push_run_on(accumulator: CliffordView, ops: Seq<OperationView>, n: nat, width: nat)
    requires
        n <= width,
        clifford_on(accumulator, n as int, width),
        on_qubits(ops, n as int, width),
    ensures
        clifford_on(push_run(accumulator, ops).accumulator, n as int, width),
        on_qubits(push_run(accumulator, ops).emitted, n as int, width),
    decreases ops.len(),
{
    if ops.len() > 0 {
        let rest = ops.drop_last();
        assert(on_qubits(rest, n as int, width)) by {
            assert forall|i: int| 0 <= i < rest.len() implies rest[i] == ops[i] by {}
        }
        lemma_push_run_on(accumulator, rest, n, width);
        let before = push_run(accumulator, rest);
        let op = ops.last();
        let step = push_step(before.accumulator, op);
        match op.kind {
            OperationKind::Nop => {},
            OperationKind::Measurement { phase } => {
                lemma_conjugate_on(
                    before.accumulator,
                    SignedPauli { sign: phase.spec_sign_bit(), x: op.x, z: op.z },
                    n as int,
                    width,
                );
            },
            OperationKind::Rotation { angle } => {
                let p = SignedPauli { sign: angle.spec_sign_bit(), x: op.x, z: op.z };
                lemma_conjugate_on(before.accumulator, p, n as int, width);
                lemma_rotation_on(n, width, p);
                lemma_compose_on(pi2_view(n, p), before.accumulator, n as int, width);
                lemma_compose_on(pi4_view(n, p), before.accumulator, n as int, width);
            },
        }
        if step.emitted is Some {
            let out = before.emitted.push(step.emitted.unwrap());
            assert forall|i: int| 0 <= i < out.len() implies (#[trigger] out[i]).x.len() == width
                && out[i].z.len() == width && crate::bitseq::within(out[i].x, n as int)
                && crate::bitseq::within(out[i].z, n as int) by {
                if i < before.emitted.len() {
                    assert(out[i] == before.emitted[i]);
                }
            }
        }
    }
}

/// Run from the identity over a circuit on its qubits that holds neither
/// tombstones nor Clifford rotations, the driver emits the circuit as it is
/// and reports no change.
pub proof fn lemma_push_run_settled(n: nat, width: nat, ops: Seq<OperationView>)
    requires
        n <= width,
        no_nops(ops),
        no_cliffords(ops),
        on_qubits(ops, n as int, width),
    ensures
        push_run(identity_view(n, width), ops).emitted == ops,
        !push_run(identity_view(n, width), ops).changed,
        push_run(identity_view(n, width), ops).accumulator == identity_view(n, width),
    decreases ops.len(),
{
    if ops.len() > 0 {
        let rest = ops.drop_last();
        assert(no_nops(rest) && no_cliffords(rest) && on_qubits(rest, n as int, width)) by {
            assert forall|i: int| 0 <= i < rest.len() implies rest[i] == ops[i] by {}
        }
        lemma_push_run_settled(n, width, rest);
        let op = ops.last();
        assert(!(op.kind is Nop));
        match op.kind {
            OperationKind::Measurement { phase } => {
                lemma_identity_conjugate(
                    n,
                    SignedPauli { sign: phase.spec_sign_bit(), x: op.x, z: op.z },
                );
            },
            OperationKind::Rotation { angle } => {
                assert(angle.spec_is_pi8());
                lemma_identity_conjugate(
                    n,
                    SignedPauli { sign: angle.spec_sign_bit(), x: op.x, z: op.z },
                );
            },
            _ => {},
        }
        assert(rest.push(op) =~= ops);
    } else {
        assert(ops =~= Seq::<OperationView>::empty());
    }
}

/// Feeds one operation, which is no tombstone, to the driver. Returns
/// whether the emitted operation differs from it, whether it is a pi/8
/// rotation, and the operation to emit, if any. `clifford_buf` is scratch
/// space.
pub fn push_accumulator<B: Basis>(
    accumulator: &mut Clifford<B>,
    clifford_buf: &mut Clifford<B>,
    op: &Operation<B>,
) -> (r: (bool, bool, Option<Operation<B>>))
    requires
        old(accumulator).wf(),
        old(clifford_buf).wf(),
        old(accumulator).qubits() == old(clifford_buf).qubits(),
        op.wf_for(old(accumulator).qubits()),
        !(op.kind is Nop),
    ensures
        final(accumulator).wf(),
        final(clifford_buf).wf(),
        final(accumulator).qubits() == old(accumulator).qubits(),
        final(clifford_buf).qubits() == old(accumulator).qubits(),
        final(accumulator)@ == push_step(old(accumulator)@, op@).accumulator,
        r.0 == push_step(old(accumulator)@, op@).changed,
        r.1 == push_step(old(accumulator)@, op@).was_t,
        r.2 is Some == push_step(old(accumulator)@, op@).emitted is Some,
        r.2 matches Some(out) ==> out.wf_for(old(accumulator).qubits()) && Some(out@) == push_step(
            old(accumulator)@,
            op@,
        ).emitted,
{
    proof {
        accumulator.lemma_wf();
        op.lemma_widths();
    }
    match op.kind {
        OperationKind::Nop => (false, false, None),
        OperationKind::Measurement { phase } => {
            let new_symplectic = accumulator.conjugate(phase.sign_bit(), &op.x, &op.z);
            let changed = !new_symplectic.x.same(&op.x) || !new_symplectic.z.same(&op.z) || (
            new_symplectic.sign != phase.sign_bit());
            let sign = new_symplectic.sign;
            let new_measurement = Operation::measurement(
                new_symplectic.x,
                new_symplectic.z,
                Phase::from(sign),
            );
            (changed, false, Some(new_measurement))
        },
        OperationKind::Rotation { angle } => match angle {
            Angle::PlusPi8 | Angle::MinusPi8 => {
                let new_symplectic = accumulator.conjugate(angle.sign_bit(), &op.x, &op.z);
                let changed = !new_symplectic.x.same(&op.x) || !new_symplectic.z.same(&op.z) || (
                new_symplectic.sign != angle.sign_bit());
                let sign = new_symplectic.sign;
                (
                    changed,
                    true,
                    Some(
                        Operation::rotation(
                            new_symplectic.x,
                            new_symplectic.z,
                            angle.use_sign_bit(sign),
                        ),
                    ),
                )
            },
            Angle::Pi2 => {
                clifford_buf.from_pi2(angle.sign_bit(), &op.x, &op.z);
                clifford_buf.mul_assign(accumulator);
                accumulator.set_to(clifford_buf);
                (false, false, None)
            },
            Angle::PlusPi4 | Angle::MinusPi4 => {
                clifford_buf.from_pi4(angle.sign_bit(), &op.x, &op.z);
                clifford_buf.mul_assign(accumulator);
                accumulator.set_to(clifford_buf);
                (false, false, None)
            },
        },
    }
}

/// Runs the driver over a buffer of operations in place, going on from
/// the accumulator as it stands. Returns whether any emitted operation
/// differs from its input, and the number of pi/8 rotations.
pub fn push_buffer<B: Basis>(
    accumulator: &mut Clifford<B>,
    clifford_buf: &mut Clifford<B>,
    circuit: &mut Vec<Operation<B>>,
) -> (r: (bool, usize))
    requires
        old(accumulator).wf(),
        old(clifford_buf).wf(),
        old(accumulator).qubits() == old(clifford_buf).qubits(),
        all_wf(old(circuit)@, B::class_of(old(accumulator).qubits())),
        no_nops(views(old(circuit)@)),
    ensures
        final(accumulator).wf(),
        final(clifford_buf).wf(),
        final(accumulator).qubits() == old(accumulator).qubits(),
        final(clifford_buf).qubits() == old(accumulator).qubits(),
        all_wf(final(circuit)@, B::class_of(old(accumulator).qubits())),
        ({
            let run = push_run(old(accumulator)@, views(old(circuit)@));
            &&& final(accumulator)@ == run.accumulator
            &&& views(final(circuit)@) == run.emitted
            &&& r.0 == run.changed
            &&& r.1 == run.t_gates
        }),
        final(circuit)@.len() <= old(circuit)@.len(),
        r.1 == t_count(views(old(circuit)@)),
        t_count(views(final(circuit)@)) == t_count(views(old(circuit)@)),
        no_nops(views(final(circuit)@)),
        no_cliffords(views(final(circuit)@)),
{
    let mut changed_last_iteration = false;
    let ghost start = accumulator@;
    let ghost before = circuit@;
    let ghost ops = views(before);
    let ghost qubits = accumulator.qubits();
    let mut t_gate_count: usize = 0;
    let mut out_index: usize = 0;
    let n = circuit.len();
    let mut op_index: usize = 0;
    proof {
        accumulator.lemma_wf();
        assert(ops.take(0) =~= Seq::<OperationView>::empty());
        assert(views(circuit@.take(0)) =~= Seq::<OperationView>::empty());
    }
    while op_index < n
        invariant
            n == circuit@.len(),
            n == before.len(),
            ops == views(before),
            out_index <= op_index <= n,
            t_gate_count <= op_index,
            B::fits(qubits),
            all_wf(before, B::class_of(qubits)),
            all_wf(circuit@, B::class_of(qubits)),
            no_nops(ops),
            accumulator.wf(),
            clifford_buf.wf(),
            accumulator.qubits() == qubits,
            clifford_buf.qubits() == qubits,
            forall|k: int| op_index <= k < n ==> circuit@[k] == before[k],
            ({
                let run = push_run(start, ops.take(op_index as int));
                &&& accumulator@ == run.accumulator
                &&& views(circuit@.take(out_index as int)) == run.emitted
                &&& changed_last_iteration == run.changed
                &&& t_gate_count == run.t_gates
            }),
        decreases n - op_index,
    {
        proof {
            assert(ops.take(op_index + 1).drop_last() =~= ops.take(op_index as int));
            assert(ops.take(op_index + 1).last() == before[op_index as int]@);
            assert(!(ops[op_index as int].kind is Nop));
        }
        let ghost emitted = views(circuit@.take(out_index as int));
        let (did_change, was_t_gate, new_operation) = push_accumulator(
            accumulator,
            clifford_buf,
            &circuit[op_index],
        );
        changed_last_iteration = changed_last_iteration || did_change;
        if was_t_gate {
            t_gate_count += 1;
        }
        if let Some(new_operation) = new_operation {
            circuit[out_index] = new_operation;
            assert(views(circuit@.take(out_index + 1)) =~= emitted.push(new_operation@));
            out_index += 1;
        } else {
            assert(views(circuit@.take(out_index as int)) =~= emitted);
        }
        op_index += 1;
    }
    proof {
        assert(ops.take(n as int) =~= ops);
        lemma_push_run(start, ops);
    }
    let ghost filled = circuit@;
    circuit.truncate(out_index);
    assert(circuit@ =~= filled.take(out_index as int));
    (changed_last_iteration, t_gate_count)
}

/// Runs the driver over a whole circuit in place, starting from the
/// identity. Returns whether any emitted operation differs from its input,
/// and the number of pi/8 rotations.
pub fn push_t_forward_inplace<B: Basis>(circuit: &mut Vec<Operation<B>>, n_qubits: usize) -> (r: (
    bool,
    usize,
))
    requires
        B::fits(n_qubits),
        counters_fit::<B>(n_qubits),
        all_wf(old(circuit)@, B::class_of(n_qubits)),
        no_nops(views(old(circuit)@)),
    ensures
        all_wf(final(circuit)@, B::class_of(n_qubits)),
        ({
            let run = push_run(
                identity_view(n_qubits as nat, B::capacity_of(n_qubits)),
                views(old(circuit)@),
            );
            &&& views(final(circuit)@) == run.emitted
            &&& r.0 == run.changed
            &&& r.1 == run.t_gates
        }),
        final(circuit)@.len() <= old(circuit)@.len(),
        r.1 == t_count(views(old(circuit)@)),
        t_count(views(final(circuit)@)) == t_count(views(old(circuit)@)),
        no_nops(views(final(circuit)@)),
        no_cliffords(views(final(circuit)@)),
{
    let mut accumulator = Clifford::<B>::identity(n_qubits);
    let mut clifford_buf = Clifford::<B>::identity(n_qubits);
    push_buffer(&mut accumulator, &mut clifford_buf, circuit)
}

} // verus!
