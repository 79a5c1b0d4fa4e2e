//! Comparison of two circuits up to the order of the pi/8 rotations
//! within groups of mutually commuting ones.
use crate::basis::Basis;
use crate::bits::bit_traits::BitSeq;
use crate::operation::angle::Angle;
use crate::operation::{all_wf, views, Operation, OperationKind, OperationView};
use crate::symplectic::{commutes, SignedPauli, Symplectic};
use vstd::prelude::*;

verus! {

/// Where and how two circuits differ. `line` counts the operations
/// compared, the first being 1.
#[derive(Clone, Copy, Debug, PartialEq, Eq, Structural)]
pub enum Divergence {
    /// The reference holds fewer operations than the circuit.
    FewerLines { line: usize },
    /// The reference holds more operations than the circuit.
    MoreLines { line: usize },
    /// Two operations that must be equal differ.
    Operation { line: usize },
    /// A pi/8 rotation stands against a rotation that is none.
    Pi8 { line: usize },
    /// The groups of pi/8 rotations before this operation differ.
    Group { line: usize },
    /// One of two pi/8 rotations commutes with its group, the other does
    /// not.
    Commutation { line: usize },
}

/// The contents of a set of Pauli strings.
pub open spec fn set_views<B: Basis>(set: Seq<Symplectic<B>>) -> Seq<SignedPauli> {
    Seq::new(set.len(), |i: int| set[i]@)
}

/// Every Pauli string of the set is well formed and of the given class.
pub open spec fn set_wf<B: Basis>(set: Seq<Symplectic<B>>, class: nat) -> bool {
    forall|i: int| 0 <= i < set.len() ==> (#[trigger] set[i]).wf() && set[i].class() == class
}

/// The first index at which `x` stands in the set; the length if it does
/// not.
pub open spec fn position_of(set: Seq<SignedPauli>, x: SignedPauli, from: int) -> int
    decreases set.len() - from,
{
    if from < 0 || from >= set.len() {
        set.len() as int
    } else if set[from] == x {
        from
    } else {
        position_of(set, x, from + 1)
    }
}

/// Whether the two groups hold the same Pauli strings: they are of one
/// size, and every string of `this` stands in `reference`.
pub open spec fn same_sets(reference: Seq<SignedPauli>, this: Seq<SignedPauli>) -> bool {
    this.len() == reference.len() && forall|i: int|
        0 <= i < this.len() ==> position_of(reference, #[trigger] this[i], 0) < reference.len()
}

/// Whether `x` commutes with every Pauli string of the set.
pub open spec fn commutes_all(set: Seq<SignedPauli>, x: SignedPauli) -> bool {
    forall|i: int| 0 <= i < set.len() ==> commutes(x, #[trigger] set[i])
}

/// The mathematical state of a comparison: the two circuits, how many
/// operations of each were compared, and the pi/8 rotations of the open
/// group that were seen in one circuit and not yet in the other.
pub struct TesterView {
    pub reference: Seq<OperationView>,
    pub this: Seq<OperationView>,
    pub position: int,
    pub reference_set: Seq<SignedPauli>,
    pub this_set: Seq<SignedPauli>,
}

/// The signed Pauli string of a rotation.
pub open spec fn axis(op: OperationView, angle: Angle) -> SignedPauli {
    SignedPauli { sign: angle.spec_sign_bit(), x: op.x, z: op.z }
}

/// Two pi/8 rotations that both commute with the open group meet it: each
/// cancels against its like in the group of the other circuit, or is held
/// in the group of its own. Gives the group of the reference and the group
/// of the circuit.
pub open spec fn meet(s: TesterView, reference_s: SignedPauli, this_s: SignedPauli) -> (
    Seq<SignedPauli>,
    Seq<SignedPauli>,
) {
    let at = position_of(s.this_set, reference_s, 0);
    let (reference_set, this_set) = if at < s.this_set.len() {
        (s.reference_set, s.this_set.remove(at))
    } else {
        (s.reference_set.push(reference_s), s.this_set)
    };
    let at = position_of(reference_set, this_s, 0);
    if at < reference_set.len() {
        (reference_set.remove(at), this_set)
    } else {
        (reference_set, this_set.push(this_s))
    }
}

/// The comparison of two operations of which neither is a pi/8 rotation:
/// the open group must be settled, and the operations equal.
pub open spec fn plain_step(t: TesterView, reference: OperationView, this: OperationView) -> Result<
    bool,
    Divergence,
> {
    if !same_sets(t.reference_set, t.this_set) {
        Err(Divergence::Group { line: t.position as usize })
    } else if reference != this {
        Err(Divergence::Operation { line: t.position as usize })
    } else {
        Ok(false)
    }
}

/// One step of the comparison: the state after it, and whether the
/// circuits are at their end, or how they differ.
pub open spec fn test_step(s: TesterView) -> (TesterView, Result<bool, Divergence>) {
    let i = s.position;
    let reference_done = i >= s.reference.len();
    let this_done = i >= s.this.len();
    if reference_done && this_done {
        (
            s,
            if same_sets(s.reference_set, s.this_set) {
                Ok(true)
            } else {
                Err(Divergence::Group { line: i as usize })
            },
        )
    } else if reference_done {
        (s, Err(Divergence::FewerLines { line: (i + 1) as usize }))
    } else if this_done {
        (s, Err(Divergence::MoreLines { line: (i + 1) as usize }))
    } else {
        let t = TesterView { position: i + 1, ..s };
        let line = (i + 1) as usize;
        let reference = s.reference[i];
        let this = s.this[i];
        match (reference.kind, this.kind) {
            (
                OperationKind::Rotation { angle: reference_angle },
                OperationKind::Rotation { angle: this_angle },
            ) => {
                if reference_angle.spec_is_pi8() && this_angle.spec_is_pi8() {
                    let reference_s = axis(reference, reference_angle);
                    let this_s = axis(this, this_angle);
                    if s.this_set.len() == 0 && s.reference_set.len() == 0 {
                        if this_s == reference_s {
                            (t, Ok(false))
                        } else {
                            (
                                TesterView {
                                    reference_set: seq![reference_s],
                                    this_set: seq![this_s],
                                    ..t
                                },
                                Ok(false),
                            )
                        }
                    } else {
                        let reference_commutes = commutes_all(s.reference_set, reference_s);
                        let this_commutes = commutes_all(s.this_set, this_s);
                        if reference_commutes && this_commutes {
                            let met = meet(s, reference_s, this_s);
                            (TesterView { reference_set: met.0, this_set: met.1, ..t }, Ok(false))
                        } else if reference_commutes || this_commutes {
                            (t, Err(Divergence::Commutation { line }))
                        } else if !same_sets(s.reference_set, s.this_set) {
                            (t, Err(Divergence::Group { line }))
                        } else {
                            (
                                TesterView {
                                    reference_set: seq![reference_s],
                                    this_set: seq![this_s],
                                    ..t
                                },
                                Ok(false),
                            )
                        }
                    }
                } else if reference_angle.spec_is_pi8() || this_angle.spec_is_pi8() {
                    (t, Err(Divergence::Pi8 { line }))
                } else {
                    (t, plain_step(t, reference, this))
                }
            },
            (OperationKind::Rotation { angle: _ }, _) => (t, Err(Divergence::Operation { line })),
            (_, OperationKind::Rotation { angle: _ }) => (t, Err(Divergence::Operation { line })),
            _ => (t, plain_step(t, reference, this)),
        }
    }
}

/// The number of operations that are still to be compared.
pub open spec fn left(s: TesterView) -> int {
    s.reference.len() + s.this.len() - 2 * s.position
}

/// The comparison run to the end of the circuits or to the first
/// difference.
pub open spec fn test_run(s: TesterView) -> Result<(), Divergence>
    decreases left(s),
{
    let (next, outcome) = test_step(s);
    match outcome {
        Ok(true) => Ok(()),
        Err(e) => Err(e),
        Ok(false) => if 0 <= left(next) < left(s) {
            test_run(next)
        } else {
            Ok(())
        },
    }
}

/// The first index at which `x` stands in the set.
fn find<B: Basis>(set: &Vec<Symplectic<B>>, x: &Symplectic<B>) -> (r: usize)
    requires
        x.wf(),
        set_wf(set@, x.class()),
    ensures
        r == position_of(set_views(set@), x@, 0),
        r <= set@.len(),
{
    let n = set.len();
    let mut i: usize = 0;
    while i < n
        invariant
            i <= n,
            n == set@.len(),
            x.wf(),
            set_wf(set@, x.class()),
            position_of(set_views(set@), x@, i as int) == position_of(set_views(set@), x@, 0),
        decreases n - i,
    {
        if set[i].same(x) {
            return i;
        }
        i += 1;
    }
    n
}

/// The comparison of a circuit with a reference.
#[derive(Debug)]
pub struct Tester<B: Basis> {
    n_qubits: usize,
    reference: Vec<Operation<B>>,
    this: Vec<Operation<B>>,
    position: usize,
    reference_set: Vec<Symplectic<B>>,
    this_set: Vec<Symplectic<B>>,
    counter: usize,
}

impl<B: Basis> View for Tester<B> {
    type V = TesterView;

    closed spec fn view(&self) -> TesterView {
        TesterView {
            reference: views(self.reference@),
            this: views(self.this@),
            position: self.position as int,
            reference_set: set_views(self.reference_set@),
            this_set: set_views(self.this_set@),
        }
    }
}

impl<B: Basis> Tester<B> {
    /// The state is sound.
    pub closed spec fn wf(&self) -> bool {
        &&& B::fits(self.n_qubits)
        &&& all_wf(self.reference@, B::class_of(self.n_qubits))
        &&& all_wf(self.this@, B::class_of(self.n_qubits))
        &&& set_wf(self.reference_set@, B::class_of(self.n_qubits))
        &&& set_wf(self.this_set@, B::class_of(self.n_qubits))
        &&& self.counter == self.position
        &&& self.position <= self.reference@.len()
        &&& self.position <= self.this@.len()
    }

    /// The two circuits are the same, and so are the two groups.
    pub closed spec fn alike(&self) -> bool {
        views(self.reference@) == views(self.this@) && set_views(self.reference_set@) == set_views(
            self.this_set@,
        )
    }

    /// The number of operations that are still to be compared.
    pub closed spec fn left(&self) -> int {
        self.reference@.len() + self.this@.len() - 2 * self.position
    }

    /// Sets up the comparison of the circuit `this` with `reference`.
    pub fn new(reference: Vec<Operation<B>>, this: Vec<Operation<B>>, n_qubits: usize) -> (r: Self)
        requires
            B::fits(n_qubits),
            all_wf(reference@, B::class_of(n_qubits)),
            all_wf(this@, B::class_of(n_qubits)),
        ensures
            r.wf(),
            r@ == (TesterView {
                reference: views(reference@),
                this: views(this@),
                position: 0,
                reference_set: Seq::empty(),
                this_set: Seq::empty(),
            }),
            views(reference@) == views(this@) ==> r.alike(),
    {
        let r = Self {
            n_qubits,
            reference,
            this,
            position: 0,
            reference_set: Vec::new(),
            this_set: Vec::new(),
            counter: 0,
        };
        assert(set_views(r.reference_set@) =~= set_views(r.this_set@));
        assert(set_views(r.reference_set@) =~= Seq::<SignedPauli>::empty());
        r
    }

    /// Whether the two groups hold the same Pauli strings.
    fn sets_equal(&self) -> (r: bool)
        requires
            self.wf(),
        ensures
            r == same_sets(self@.reference_set, self@.this_set),
            self.alike() ==> r,
    {
        if self.this_set.len() != self.reference_set.len() {
            assert(set_views(self.this_set@).len() != set_views(self.reference_set@).len());
            return false;
        }
        let n = self.this_set.len();
        let mut i: usize = 0;
        while i < n
            invariant
                i <= n,
                n == self.this_set@.len(),
                n == self.reference_set@.len(),
                self.wf(),
                forall|k: int|
                    0 <= k < i ==> position_of(
                        set_views(self.reference_set@),
                        #[trigger] set_views(self.this_set@)[k],
                        0,
                    ) < n,
            decreases n - i,
        {
            let at = find(&self.reference_set, &self.this_set[i]);
            if at >= self.reference_set.len() {
                proof {
                    assert(set_views(self.this_set@)[i as int] == self.this_set@[i as int]@);
                    if self.alike() {
                        lemma_position_hit(
                            set_views(self.reference_set@),
                            self.this_set@[i as int]@,
                            0,
                            i as int,
                        );
                    }
                }
                return false;
            }
            i += 1;
        }
        true
    }

    /// Checks the groups at the end of a run of pi/8 rotations.
    fn finalize_sets(&self) -> (r: Result<(), Divergence>)
        requires
            self.wf(),
        ensures
            r == if same_sets(self@.reference_set, self@.this_set) {
                Ok::<(), Divergence>(())
            } else {
                Err(Divergence::Group { line: self@.position as usize })
            },
            self.alike() ==> r is Ok,
    {
        if !self.sets_equal() {
            Err(Divergence::Group { line: self.counter })
        } else {
            Ok(())
        }
    }

    /// Whether `x` commutes with every Pauli string of the set.
    fn commutes_with_all(set: &Vec<Symplectic<B>>, x: &Symplectic<B>) -> (r: bool)
        requires
            x.wf(),
            set_wf(set@, x.class()),
        ensures
            r == commutes_all(set_views(set@), x@),
    {
        let n = set.len();
        let mut i: usize = 0;
        while i < n
            invariant
                i <= n,
                n == set@.len(),
                x.wf(),
                set_wf(set@, x.class()),
                forall|k: int|
                    0 <= k < i ==> commutes(x@, #[trigger] set_views(set@)[k]),
            decreases n - i,
        {
            if !x.commutes_with(&set[i]) {
                assert(!commutes(x@, set_views(set@)[i as int]));
                return false;
            }
            i += 1;
        }
        true
    }

    /// Compares the next two operations. Returns whether the circuits are
    /// at their end.
    pub fn test_next(&mut self) -> (r: Result<bool, Divergence>)
        requires
            old(self).wf(),
        ensures
            final(self).wf(),
            (final(self)@, r) == test_step(old(self)@),
            old(self).alike() ==> r is Ok && final(self).alike(),
            r matches Ok(done) ==> (done ==> final(self).left() == old(self).left()) && (!done
                ==> 0 <= final(self).left() < old(self).left()),
    {
        let ghost start = self@;
        let i = self.position;
        let reference_done = i >= self.reference.len();
        let this_done = i >= self.this.len();
        if reference_done && this_done {
            return match self.finalize_sets() {
                Ok(()) => Ok(true),
                Err(e) => Err(e),
            };
        }
        if reference_done {
            proof {
                if old(self).alike() {
                    assert(views(self.reference@).len() == views(self.this@).len());
                }
            }
            return Err(Divergence::FewerLines { line: i + 1 });
        }
        if this_done {
            proof {
                if old(self).alike() {
                    assert(views(self.reference@).len() == views(self.this@).len());
                }
            }
            return Err(Divergence::MoreLines { line: i + 1 });
        }
        self.counter += 1;
        self.position += 1;
        proof {
            assert(self.reference@[i as int].wf());
            assert(self.this@[i as int].wf());
            if old(self).alike() {
                assert(views(self.reference@)[i as int] == views(self.this@)[i as int]);
            }
        }
        let reference_kind = self.reference[i].kind;
        let this_kind = self.this[i].kind;
        match (reference_kind, this_kind) {
            (
                OperationKind::Rotation { angle: reference_angle },
                OperationKind::Rotation { angle: this_angle },
            ) => {
                if reference_angle.is_pi8() && this_angle.is_pi8() {
                    let reference_s = Symplectic {
                        sign: reference_angle.sign_bit(),
                        x: self.reference[i].x.duplicate(),
                        z: self.reference[i].z.duplicate(),
                    };
                    let this_s = Symplectic {
                        sign: this_angle.sign_bit(),
                        x: self.this[i].x.duplicate(),
                        z: self.this[i].z.duplicate(),
                    };
                    proof {
                        assert(reference_s@ == axis(start.reference[i as int], reference_angle));
                        assert(this_s@ == axis(start.this[i as int], this_angle));
                    }
                    if self.this_set.len() == 0 && self.reference_set.len() == 0 {
                        if this_s.same(&reference_s) {
                            return Ok(false);
                        }
                        self.this_set.push(this_s);
                        self.reference_set.push(reference_s);
                        assert(set_views(self.this_set@) =~= seq![this_s@]);
                        assert(set_views(self.reference_set@) =~= seq![reference_s@]);
                        return Ok(false);
                    }
                    let reference_commutes = Self::commutes_with_all(
                        &self.reference_set,
                        &reference_s,
                    );
                    let this_commutes = Self::commutes_with_all(&self.this_set, &this_s);
                    if reference_commutes && this_commutes {
                        let ghost group = set_views(self.this_set@);
                        let ghost like = old(self).alike();
                        let ghost pauli = this_s@;
                        proof {
                            if like {
                                assert(reference_s@ == pauli);
                                assert(set_views(self.reference_set@) == group);
                            }
                        }
                        let at = find(&self.this_set, &reference_s);
                        if at < self.this_set.len() {
                            let ghost before = self.this_set@;
                            self.this_set.remove(at);
                            proof {
                                lemma_set_remove(before, at as int, B::class_of(self.n_qubits));
                            }
                        } else {
                            let ghost before = self.reference_set@;
                            self.reference_set.push(reference_s);
                            proof {
                                assert(set_views(self.reference_set@) =~= set_views(before).push(
                                    reference_s@,
                                ));
                                if like {
                                    lemma_position_push(group, pauli, 0);
                                }
                            }
                        }
                        let at = find(&self.reference_set, &this_s);
                        if at < self.reference_set.len() {
                            let ghost before = self.reference_set@;
                            self.reference_set.remove(at);
                            proof {
                                lemma_set_remove(before, at as int, B::class_of(self.n_qubits));
                                if like {
                                    assert(group.push(pauli).remove(group.len() as int) =~= group);
                                }
                            }
                        } else {
                            let ghost before = self.this_set@;
                            self.this_set.push(this_s);
                            proof {
                                assert(set_views(self.this_set@) =~= set_views(before).push(pauli));
                            }
                        }
                        Ok(false)
                    } else if reference_commutes || this_commutes {
                        Err(Divergence::Commutation { line: self.counter })
                    } else {
                        if !self.sets_equal() {
                            return Err(Divergence::Group { line: self.counter });
                        }
                        self.this_set.clear();
                        self.reference_set.clear();
                        self.this_set.push(this_s);
                        self.reference_set.push(reference_s);
                        assert(set_views(self.this_set@) =~= seq![this_s@]);
                        assert(set_views(self.reference_set@) =~= seq![reference_s@]);
                        Ok(false)
                    }
                } else if reference_angle.is_pi8() || this_angle.is_pi8() {
                    Err(Divergence::Pi8 { line: self.counter })
                } else {
                    let differ = !self.reference[i].same(&self.this[i]);
                    match self.finalize_sets() {
                        Ok(()) => {},
                        Err(e) => {
                            return Err(e);
                        },
                    }
                    if differ {
                        Err(Divergence::Operation { line: self.counter })
                    } else {
                        Ok(false)
                    }
                }
            },
            (OperationKind::Rotation { angle: _ }, _) => Err(
                Divergence::Operation { line: self.counter },
            ),
            (_, OperationKind::Rotation { angle: _ }) => Err(
                Divergence::Operation { line: self.counter },
            ),
            _ => {
                let differ = !self.reference[i].same(&self.this[i]);
                match self.finalize_sets() {
                    Ok(()) => {},
                    Err(e) => {
                        return Err(e);
                    },
                }
                if differ {
                    Err(Divergence::Operation { line: self.counter })
                } else {
                    Ok(false)
                }
            },
        }
    }

    /// Compares the two circuits to their ends.
    pub fn test_all(&mut self) -> (r: Result<(), Divergence>)
        requires
            old(self).wf(),
        ensures
            r == test_run(old(self)@),
            old(self).alike() ==> r is Ok,
    {
        loop
            invariant
                self.wf(),
                self.left() >= 0,
                self.left() == left(self@),
                test_run(self@) == test_run(old(self)@),
                old(self).alike() ==> self.alike(),
            decreases self.left(),
        {
            match self.test_next() {
                Ok(true) => {
                    return Ok(());
                },
                Ok(false) => {},
                Err(e) => {
                    return Err(e);
                },
            }
        }
    }
}

/// A Pauli string that stands in the set is found.
proof fn lemma_position_hit(set: Seq<SignedPauli>, x: SignedPauli, from: int, at: int)
    requires
        0 <= from <= at < set.len(),
        set[at] == x,
    ensures
        position_of(set, x, from) <= at,
    decreases set.len() - from,
{
    if from < at && set[from] != x {
        lemma_position_hit(set, x, from + 1, at);
    }
}

/// Taking a Pauli string out of a set leaves a set, with the contents of
/// the others.
proof fn lemma_set_remove<B: Basis>(set: Seq<Symplectic<B>>, at: int, class: nat)
    requires
        0 <= at < set.len(),
        set_wf(set, class),
    ensures
        set_wf(set.remove(at), class),
        set_views(set.remove(at)) == set_views(set).remove(at),
{
    assert forall|k: int| 0 <= k < set.remove(at).len() implies (#[trigger] set.remove(at)[k]).wf()
        && set.remove(at)[k].class() == class by {
        if k < at {
            assert(set.remove(at)[k] == set[k]);
        } else {
            assert(set.remove(at)[k] == set[k + 1]);
        }
    }
    assert(set_views(set.remove(at)) =~= set_views(set).remove(at));
}

/// A Pauli string that is put at the end of a set that did not hold it is
/// found there.
proof fn lemma_position_push(set: Seq<SignedPauli>, x: SignedPauli, from: int)
    requires
        0 <= from <= set.len(),
        position_of(set, x, from) == set.len(),
    ensures
        position_of(set.push(x), x, from) == set.len(),
    decreases set.len() - from,
{
    if from < set.len() {
        assert(set.push(x)[from] == set[from]);
        lemma_position_push(set, x, from + 1);
    }
}

} // verus!
