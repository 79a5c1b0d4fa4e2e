//! Bases: bit vectors over the qubits of a circuit.
use crate::bits::bit_traits::{BitOps, BitSeq};
use crate::bits::Bits;
use crate::bitseq::{all_false, count_true, first_k, parity, seq_and, seq_or, seq_xor, unit, zeros};
use vstd::prelude::*;

pub mod dbasis;
pub mod sbasis;

pub use dbasis::DBasis;
pub use sbasis::SBasis;

verus! {

/// Width of the widest fixed-width basis.
pub const LARGEST_STATIC_BASIS: usize = 256;

/// The basis representation chosen for a circuit.
#[derive(Clone, Copy, Debug, PartialEq, Eq, PartialOrd, Ord, Hash)]
pub enum BasisSize {
    Basis8,
    Basis16,
    Basis32,
    Basis64,
    Basis128,
    Basis256,
    BasisDyn,
}

impl BasisSize {
    /// Width in bits of the representation; `None` for the variable-width one.
    pub open spec fn width(self) -> Option<nat> {
        match self {
            BasisSize::Basis8 => Some(8),
            BasisSize::Basis16 => Some(16),
            BasisSize::Basis32 => Some(32),
            BasisSize::Basis64 => Some(64),
            BasisSize::Basis128 => Some(128),
            BasisSize::Basis256 => Some(256),
            BasisSize::BasisDyn => None,
        }
    }

    /// The narrowest representation that holds `size` qubits.
    pub open spec fn spec_from_size(size: nat) -> BasisSize {
        if size <= 8 {
            BasisSize::Basis8
        } else if size <= 16 {
            BasisSize::Basis16
        } else if size <= 32 {
            BasisSize::Basis32
        } else if size <= 64 {
            BasisSize::Basis64
        } else if size <= 128 {
            BasisSize::Basis128
        } else if size <= 256 {
            BasisSize::Basis256
        } else {
            BasisSize::BasisDyn
        }
    }

    /// The narrowest representation that holds `size` qubits.
    pub fn from_size(size: usize) -> (r: Self)
        ensures
            r == Self::spec_from_size(size as nat),
    {
        if size <= 8 {
            BasisSize::Basis8
        } else if size <= 16 {
            BasisSize::Basis16
        } else if size <= 32 {
            BasisSize::Basis32
        } else if size <= 64 {
            BasisSize::Basis64
        } else if size <= 128 {
            BasisSize::Basis128
        } else if size <= 256 {
            BasisSize::Basis256
        } else {
            BasisSize::BasisDyn
        }
    }

    /// The width as text: the number of bits, or `dyn`.
    pub fn bits(&self) -> (r: &'static str)
        ensures
            r@ == match *self {
                BasisSize::Basis8 => "8"@,
                BasisSize::Basis16 => "16"@,
                BasisSize::Basis32 => "32"@,
                BasisSize::Basis64 => "64"@,
                BasisSize::Basis128 => "128"@,
                BasisSize::Basis256 => "256"@,
                BasisSize::BasisDyn => "dyn"@,
            },
    {
        match self {
            BasisSize::Basis8 => "8",
            BasisSize::Basis16 => "16",
            BasisSize::Basis32 => "32",
            BasisSize::Basis64 => "64",
            BasisSize::Basis128 => "128",
            BasisSize::Basis256 => "256",
            BasisSize::BasisDyn => "dyn",
        }
    }
}

/// The chosen representation is the narrowest one that is wide enough.
pub proof fn lemma_from_size_narrowest(size: nat, other: BasisSize)
    ensures
        match BasisSize::spec_from_size(size).width() {
            Some(w) => size <= w && (other.width() is Some && size <= other.width().unwrap() ==> w
                <= other.width().unwrap()),
            None => size > 256,
        },
{
}

/// A basis for up to 8 qubits.
pub type Basis8 = SBasis<u8>;

/// A basis for up to 16 qubits.
pub type Basis16 = SBasis<u16>;

/// A basis for up to 32 qubits.
pub type Basis32 = SBasis<u32>;

/// A basis for up to 64 qubits.
pub type Basis64 = SBasis<u64>;

/// A basis for up to 128 qubits.
pub type Basis128 = SBasis<u128>;

/// A basis for up to 256 qubits.
pub type Basis256 = SBasis<crate::bits::Bits256>;

/// What every basis representation offers below the bit operations.
pub trait BasisCore: BitSeq {
    /// Number of bits that the representation holds.
    fn _bit_capacity(&self) -> (r: usize)
        requires
            self.wf(),
        ensures
            r == self.seq().len(),
    ;

    /// Checks that two bases combine. A mismatch is a caller's error, so
    /// the check is made before the call.
    fn assert_same_length(&self, other: &Self)
        requires
            self.wf(),
            other.wf(),
            self.class() == other.class(),
    ;

    /// In-place conjunction with a basis that is known to combine.
    fn bitand_unchecked(&mut self, rhs: &Self)
        requires
            old(self).wf(),
            rhs.wf(),
            old(self).class() == rhs.class(),
        ensures
            final(self).wf(),
            final(self).class() == old(self).class(),
            final(self).seq() == seq_and(old(self).seq(), rhs.seq()),
    ;

    /// In-place disjunction with a basis that is known to combine.
    fn bitor_unchecked(&mut self, rhs: &Self)
        requires
            old(self).wf(),
            rhs.wf(),
            old(self).class() == rhs.class(),
        ensures
            final(self).wf(),
            final(self).class() == old(self).class(),
            final(self).seq() == seq_or(old(self).seq(), rhs.seq()),
    ;

    /// In-place exclusive or with a basis that is known to combine.
    fn bitxor_unchecked(&mut self, rhs: &Self)
        requires
            old(self).wf(),
            rhs.wf(),
            old(self).class() == rhs.class(),
        ensures
            final(self).wf(),
            final(self).class() == old(self).class(),
            final(self).seq() == seq_xor(old(self).seq(), rhs.seq()),
    ;
}

/// An N-qubit bit vector.
pub trait Basis: BitOps + BasisCore {
    type B: Bits;

    /// Whether this representation can hold `bit_length` qubits.
    spec fn fits(bit_length: usize) -> bool;

    /// The class of the bases made for `bit_length` qubits.
    spec fn class_of(bit_length: usize) -> nat;

    /// The number of bits held by the bases made for `bit_length` qubits.
    spec fn capacity_of(bit_length: usize) -> nat;

    /// Whether this representation can hold `bit_length` qubits.
    fn can_hold(bit_length: usize) -> (r: bool)
        ensures
            r == Self::fits(bit_length),
    ;

    /// The number of bits held by the bases made for `bit_length` qubits.
    fn capacity_for(bit_length: usize) -> (r: usize)
        requires
            Self::fits(bit_length),
        ensures
            r == Self::capacity_of(bit_length),
    ;

    /// The bases made for `bit_length` qubits hold at least that many bits.
    proof fn lemma_fits(bit_length: usize)
        requires
            Self::fits(bit_length),
        ensures
            bit_length <= Self::capacity_of(bit_length),
    ;

    /// A basis made for `bit_length` qubits holds at least that many bits.
    proof fn lemma_capacity(&self, bit_length: usize)
        requires
            self.wf(),
            Self::fits(bit_length),
            self.class() == Self::class_of(bit_length),
        ensures
            self.seq().len() == Self::capacity_of(bit_length),
            bit_length <= Self::capacity_of(bit_length),
    ;

    fn bit_capacity(&self) -> (r: usize)
        requires
            self.wf(),
        ensures
            r == self.seq().len(),
    ;

    fn is_zero(&self) -> (r: bool)
        requires
            self.wf(),
        ensures
            r == all_false(self.seq()),
    ;

    /// The text that names the representation: `static` and the number
    /// of bits for a basis of fixed width, `dynamic` for one of variable
    /// width.
    spec fn descriptor() -> Seq<char>;

    /// The name of the representation.
    fn size_descriptor() -> (r: &'static str)
        ensures
            r@ == Self::descriptor(),
    ;

    /// Number of words in the representation.
    fn n_chunks(&self) -> (r: usize)
        requires
            self.wf(),
        ensures
            r * Self::B::BITS == self.seq().len(),
    ;

    /// The basis for `bit_length` qubits with no bit set.
    fn zero(bit_length: usize) -> (r: Self)
        requires
            Self::fits(bit_length),
        ensures
            r.wf(),
            r.class() == Self::class_of(bit_length),
            r.seq() == zeros(Self::capacity_of(bit_length)),
    ;

    /// The basis for `bit_length` qubits with the bit of every qubit set.
    fn one(bit_length: usize) -> (r: Self)
        requires
            Self::fits(bit_length),
        ensures
            r.wf(),
            r.class() == Self::class_of(bit_length),
            r.seq() == first_k(Self::capacity_of(bit_length), bit_length as int),
    ;

    /// The basis for `bit_length` qubits with only bit `bit` set.
    fn one_bit(bit_length: usize, bit: usize) -> (r: Self)
        requires
            Self::fits(bit_length),
            bit < bit_length,
        ensures
            r.wf(),
            r.class() == Self::class_of(bit_length),
            r.seq() == unit(Self::capacity_of(bit_length), bit as int),
    ;

    /// Clears every bit.
    fn set_zero(&mut self)
        requires
            old(self).wf(),
        ensures
            final(self).wf(),
            final(self).class() == old(self).class(),
            final(self).seq() == zeros(old(self).seq().len()),
    ;

    /// The basis for `bit_length` qubits with only bit `bit` set.
    fn bit_k(bit_length: usize, bit: usize) -> (r: Self)
        requires
            Self::fits(bit_length),
            bit < bit_length,
        ensures
            r.wf(),
            r.class() == Self::class_of(bit_length),
            r.seq() == unit(Self::capacity_of(bit_length), bit as int),
    ;

    /// The basis for `bit_length` qubits with exactly the listed bits set.
    fn with_true_bits(bit_length: usize, bits: &[usize]) -> (r: Self)
        requires
            Self::fits(bit_length),
            forall|j: int| 0 <= j < bits@.len() ==> bits@[j] < Self::capacity_of(bit_length),
        ensures
            r.wf(),
            r.class() == Self::class_of(bit_length),
            r.seq() == Seq::new(Self::capacity_of(bit_length), |i: int| exists|j: int| 0 <= j < bits@.len() && bits@[j] == i),
    ;

    /// Word `i` of the representation.
    fn chunk(&self, i: usize) -> (r: Self::B)
        requires
            self.wf(),
            (i + 1) * Self::B::BITS <= self.seq().len(),
        ensures
            r.seq() == self.seq().subrange(i * Self::B::BITS, (i + 1) * Self::B::BITS),
    ;

    fn set_bit(&mut self, bit: usize, to: bool)
        requires
            old(self).wf(),
            bit < old(self).seq().len(),
        ensures
            final(self).wf(),
            final(self).class() == old(self).class(),
            final(self).seq() == old(self).seq().update(bit as int, to),
    ;

    fn set_bit_true(&mut self, bit: usize)
        requires
            old(self).wf(),
            bit < old(self).seq().len(),
        ensures
            final(self).wf(),
            final(self).class() == old(self).class(),
            final(self).seq() == old(self).seq().update(bit as int, true),
    ;

    fn set_bit_false(&mut self, bit: usize)
        requires
            old(self).wf(),
            bit < old(self).seq().len(),
        ensures
            final(self).wf(),
            final(self).class() == old(self).class(),
            final(self).seq() == old(self).seq().update(bit as int, false),
    ;

    fn get_bit(&self, bit: usize) -> (r: bool)
        requires
            self.wf(),
            bit < self.seq().len(),
        ensures
            r == self.seq()[bit as int],
    ;

    /// Number of set bits.
    fn popcnt(&self) -> (r: usize)
        requires
            self.wf(),
        ensures
            r == count_true(self.seq()),
    ;

    /// Whether the number of set bits is odd.
    fn parity(&self) -> (r: bool)
        requires
            self.wf(),
        ensures
            r == parity(self.seq()),
    ;

    /// A copy of the basis.
    fn duplicate(&self) -> (r: Self)
        requires
            self.wf(),
        ensures
            r.wf(),
            r.class() == self.class(),
            r.seq() == self.seq(),
    ;
}

} // verus!
