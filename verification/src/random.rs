//! Random bases, angles and operations, for tests and experiments.
use crate::basis::Basis;
use crate::bits::bit_traits::BitSeq;
use crate::operation::angle::Angle;
use crate::operation::phase::Phase;
use crate::operation::Operation;
use rand::rngs::SmallRng;
use rand::Rng;
use vstd::prelude::*;

verus! {

/// The small random number generator of the `rand` crate.
#[verifier::external_type_specification]
#[verifier::external_body]
pub struct ExSmallRng(SmallRng);

/// `Rng::gen::<bool>` on a `SmallRng`: some bit. Nothing is claimed of
/// which.
#[verifier::external_body]
fn random_bit(rng: &mut SmallRng) -> (bit: bool) {
    rng.gen()
}

/// `Rng::gen_range(-2..=2)` on a `SmallRng`: some number of the range,
/// both ends included.
#[verifier::external_body]
fn random_angle_code(rng: &mut SmallRng) -> (code: i8)
    ensures
        -2 <= code <= 2,
{
    rng.gen_range(-2..=2)
}

/// A basis for `bit_length` qubits whose bits on those qubits are random.
pub fn rand_basis<B: Basis>(bit_length: usize, rng: &mut SmallRng) -> (r: B)
    requires
        B::fits(bit_length),
    ensures
        r.wf(),
        r.class() == B::class_of(bit_length),
        r.seq().len() == B::capacity_of(bit_length),
        crate::bitseq::within(r.seq(), bit_length as int),
{
    let mut new = B::zero(bit_length);
    proof {
        new.lemma_capacity(bit_length);
    }
    let mut i: usize = 0;
    while i < bit_length
        invariant
            i <= bit_length,
            B::fits(bit_length),
            new.wf(),
            new.class() == B::class_of(bit_length),
            new.seq().len() == B::capacity_of(bit_length),
            bit_length <= new.seq().len(),
            crate::bitseq::within(new.seq(), i as int),
        decreases bit_length - i,
    {
        let bit = random_bit(rng);
        new.set_bit(i, bit);
        i += 1;
    }
    new
}

impl Angle {
    /// A random angle.
    pub fn rand(rng: &mut SmallRng) -> (r: Self) {
        let val = random_angle_code(rng);
        Angle::from_code(val)
    }
}

impl<B: Basis> Operation<B> {
    /// A random measurement or rotation on `n_qubits` qubits.
    pub fn rand(n_qubits: usize, rng: &mut SmallRng) -> (r: Self)
        requires
            B::fits(n_qubits),
        ensures
            r.wf_for(n_qubits),
            !(r.kind is Nop),
            crate::bitseq::within(r@.x, n_qubits as int),
            crate::bitseq::within(r@.z, n_qubits as int),
    {
        if random_bit(rng) {
            let x = rand_basis::<B>(n_qubits, rng);
            let z = rand_basis::<B>(n_qubits, rng);
            let phase = if random_bit(rng) {
                Phase::Negative
            } else {
                Phase::Positive
            };
            Self::measurement(x, z, phase)
        } else {
            let x = rand_basis::<B>(n_qubits, rng);
            let z = rand_basis::<B>(n_qubits, rng);
            Self::rotation(x, z, Angle::rand(rng))
        }
    }
}

} // verus!
