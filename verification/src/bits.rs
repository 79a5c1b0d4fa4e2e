//! Fixed-width bitsets: the words that bases are made of.
use crate::bitseq::{count_true, first_k, ones, parity, seq_not, unit, zeros};
use vstd::prelude::*;

pub mod b256;
pub mod bit_traits;
pub mod w128;
pub mod w16;
pub mod w32;
pub mod w64;
pub mod w8;

pub use b256::Bits256;
use bit_traits::{BitOps, BitSeq, LNeg};

verus! {

/// Number of words of type `B` that hold `n_bits` bits.
pub fn n_chunks<B: Bits>(n_bits: usize) -> (r: usize)
    requires
        B::BITS > 0,
        n_bits + B::BITS <= usize::MAX,
    ensures
        r == (n_bits + B::BITS - 1) / (B::BITS as int),
{
    (n_bits + B::BITS - 1) / B::BITS
}

/// The word that holds bit `bit`, and the bit's index within that word.
pub fn chunk_bit<B: Bits>(bit: usize) -> (r: (usize, usize))
    requires
        B::BITS > 0,
    ensures
        r.0 == bit / B::BITS,
        r.1 == bit % B::BITS,
{
    (bit / B::BITS, bit % B::BITS)
}

/// A machine word used as a bitset. Bit 0 is the most significant bit.
pub trait Bits: Copy + BitOps + LNeg {
    /// Width of the word in bits.
    const BITS: usize;

    /// The name of the width: `static` and the number of bits.
    const SIZE_DESCRIPTOR: &'static str;

    /// The text that names the width of the word.
    spec fn descriptor() -> Seq<char>;

    /// `SIZE_DESCRIPTOR` holds the text that names the width.
    proof fn lemma_descriptor()
        ensures
            Self::SIZE_DESCRIPTOR@ == Self::descriptor(),
    ;

    /// Every word is well formed, of one class, and as wide as the type.
    proof fn lemma_word(x: Self)
        ensures
            Self::BITS > 0,
            x.wf(),
            x.class() == Self::BITS,
            x.seq().len() == Self::BITS,
    ;

    /// The word with no bit set.
    fn zero() -> (r: Self)
        ensures
            r.seq() == zeros(Self::BITS as nat),
    ;

    /// The word whose only set bit is the last (least significant) one.
    fn one() -> (r: Self)
        ensures
            r.seq() == unit(Self::BITS as nat, Self::BITS - 1),
    ;

    /// The word with every bit set.
    fn max_value() -> (r: Self)
        ensures
            r.seq() == ones(Self::BITS as nat),
    ;

    /// The word whose first `k` (most significant) bits are set.
    fn mask_first_k(k: usize) -> (r: Self)
        requires
            k <= Self::BITS,
        ensures
            r.seq() == first_k(Self::BITS as nat, k as int),
    ;

    /// The word whose last `k` (least significant) bits are clear and whose
    /// other bits are set; the zero word when `k` exceeds the width.
    fn mask_not_last_k(k: usize) -> (r: Self)
        ensures
            r.seq() == first_k(Self::BITS as nat, Self::BITS - k),
    ;

    /// The word whose only set bit is bit `k`.
    fn bit_k(k: usize) -> (r: Self)
        requires
            k < Self::BITS,
        ensures
            r.seq() == unit(Self::BITS as nat, k as int),
    ;

    /// Number of set bits.
    fn popcnt(&self) -> (r: usize)
        ensures
            r == count_true(self.seq()),
    ;

    /// Whether the number of set bits is odd.
    fn parity(&self) -> (r: bool)
        ensures
            r == parity(self.seq()),
    ;

    /// `MAX` for `true`, `ZERO` for `false`.
    fn splat(val: bool) -> (r: Self)
        ensures
            r.seq() == if val { ones(Self::BITS as nat) } else { zeros(Self::BITS as nat) },
    ;

    /// The bitwise complement.
    fn not(self) -> (r: Self)
        ensures
            r.seq() == seq_not(self.seq()),
    ;
}

} // verus!
