//! Fixed-width bases: one word holds every qubit.
use crate::basis::{Basis, BasisCore};
use crate::bits::bit_traits::{BitOps, BitSeq, RefAnd, RefOr, RefXor};
use crate::bits::Bits;
use crate::bitseq::{lemma_count_zero_iff, zeros};
use vstd::prelude::*;

verus! {

/// A basis of at most `B::BITS` qubits, held in one word.
#[derive(Clone, Copy, Debug, PartialEq, Eq, PartialOrd, Ord)]
pub struct SBasis<B: Bits> {
    bits: B,
}

impl<B: Bits> BitSeq for SBasis<B> {
    closed spec fn seq(&self) -> Seq<bool> {
        self.bits.seq()
    }

    open spec fn wf(&self) -> bool {
        true
    }

    open spec fn class(&self) -> nat {
        B::BITS as nat
    }

    proof fn lemma_class_len(&self, other: &Self) {
        B::lemma_word(self.bits);
        B::lemma_word(other.bits);
    }
}

impl<B: Bits> RefAnd for SBasis<B> {
    fn and(&self, rhs: &Self) -> (r: Self) {
        proof {
            B::lemma_word(self.bits);
            B::lemma_word(rhs.bits);
        }
        SBasis { bits: self.bits.and(&rhs.bits) }
    }
}

impl<B: Bits> RefOr for SBasis<B> {
    fn or(&self, rhs: &Self) -> (r: Self) {
        proof {
            B::lemma_word(self.bits);
            B::lemma_word(rhs.bits);
        }
        SBasis { bits: self.bits.or(&rhs.bits) }
    }
}

impl<B: Bits> RefXor for SBasis<B> {
    fn xor(&self, rhs: &Self) -> (r: Self) {
        proof {
            B::lemma_word(self.bits);
            B::lemma_word(rhs.bits);
        }
        SBasis { bits: self.bits.xor(&rhs.bits) }
    }
}

impl<B: Bits> BitOps for SBasis<B> {
    fn and_assign(&mut self, rhs: &Self) {
        proof {
            B::lemma_word(self.bits);
            B::lemma_word(rhs.bits);
        }
        self.bits.and_assign(&rhs.bits);
    }

    fn or_assign(&mut self, rhs: &Self) {
        proof {
            B::lemma_word(self.bits);
            B::lemma_word(rhs.bits);
        }
        self.bits.or_assign(&rhs.bits);
    }

    fn xor_assign(&mut self, rhs: &Self) {
        proof {
            B::lemma_word(self.bits);
            B::lemma_word(rhs.bits);
        }
        self.bits.xor_assign(&rhs.bits);
    }

    fn same(&self, rhs: &Self) -> (r: bool) {
        proof {
            B::lemma_word(self.bits);
            B::lemma_word(rhs.bits);
        }
        self.bits.same(&rhs.bits)
    }
}

impl<B: Bits> BasisCore for SBasis<B> {
    fn _bit_capacity(&self) -> (r: usize) {
        proof {
            B::lemma_word(self.bits);
        }
        B::BITS
    }

    fn assert_same_length(&self, other: &Self) {
    }

    fn bitand_unchecked(&mut self, rhs: &Self) {
        self.and_assign(rhs);
    }

    fn bitor_unchecked(&mut self, rhs: &Self) {
        self.or_assign(rhs);
    }

    fn bitxor_unchecked(&mut self, rhs: &Self) {
        self.xor_assign(rhs);
    }
}

impl<B: Bits> SBasis<B> {
    /// Sets bit `bit` of the word to `to`.
    fn put(&mut self, bit: usize, to: bool)
        requires
            bit < B::BITS,
        ensures
            final(self).seq() == old(self).seq().update(bit as int, to),
    {
        proof {
            B::lemma_word(self.bits);
        }
        let mask = B::bit_k(bit);
        proof {
            B::lemma_word(mask);
        }
        if to {
            let ghost before = self.bits;
            self.bits.or_assign(&mask);
            assert(self.bits.seq() =~= before.seq().update(bit as int, to));
        } else {
            let ghost before = self.bits;
            let clear = mask.not();
            proof {
                B::lemma_word(clear);
            }
            self.bits.and_assign(&clear);
            assert(self.bits.seq() =~= before.seq().update(bit as int, to));
        }
    }
}

impl<B: Bits> Default for SBasis<B> {
    fn default() -> (r: Self)
        ensures
            r.seq() == zeros(B::BITS as nat),
    {
        proof {
        }
        SBasis { bits: B::zero() }
    }
}

impl<B: Bits> Basis for SBasis<B> {
    type B = B;

    open spec fn fits(bit_length: usize) -> bool {
        bit_length <= B::BITS
    }

    open spec fn class_of(bit_length: usize) -> nat {
        B::BITS as nat
    }

    open spec fn capacity_of(bit_length: usize) -> nat {
        B::BITS as nat
    }

    fn can_hold(bit_length: usize) -> (r: bool) {
        bit_length <= B::BITS
    }

    fn capacity_for(bit_length: usize) -> (r: usize) {
        B::BITS
    }

    proof fn lemma_fits(bit_length: usize) {
    }

    proof fn lemma_capacity(&self, bit_length: usize) {
        B::lemma_word(self.bits);
    }

    fn bit_capacity(&self) -> (r: usize) {
        self._bit_capacity()
    }

    fn is_zero(&self) -> (r: bool) {
        proof {
            B::lemma_word(self.bits);
            lemma_count_zero_iff(self.bits.seq());
        }
        let zero = B::zero();
        proof {
            B::lemma_word(zero);
        }
        self.bits.same(&zero)
    }

    open spec fn descriptor() -> Seq<char> {
        B::descriptor()
    }

    fn size_descriptor() -> (r: &'static str) {
        proof {
            B::lemma_descriptor();
        }
        B::SIZE_DESCRIPTOR
    }

    fn n_chunks(&self) -> (r: usize) {
        proof {
            B::lemma_word(self.bits);
        }
        1
    }

    fn zero(bit_length: usize) -> (r: Self) {
        SBasis { bits: B::zero() }
    }

    fn one(bit_length: usize) -> (r: Self) {
        SBasis { bits: B::mask_first_k(bit_length) }
    }

    fn one_bit(bit_length: usize, bit: usize) -> (r: Self) {
        SBasis { bits: B::bit_k(bit) }
    }

    fn set_zero(&mut self) {
        proof {
            B::lemma_word(self.bits);
        }
        self.bits = B::zero();
    }

    fn bit_k(bit_length: usize, bit: usize) -> (r: Self) {
        SBasis { bits: B::bit_k(bit) }
    }

    fn with_true_bits(bit_length: usize, bits: &[usize]) -> (r: Self) {
        let mut new = Self::zero(bit_length);
        let mut j: usize = 0;
        while j < bits.len()
            invariant
                j <= bits@.len(),
                forall|j: int| 0 <= j < bits@.len() ==> bits@[j] < B::BITS,
                new.seq() == Seq::new(B::BITS as nat, |i: int| exists|l: int| 0 <= l < j && bits@[l] == i),
            decreases bits@.len() - j,
        {
            let ghost before = new.seq();
            new.put(bits[j], true);
            assert(new.seq() =~= Seq::new(B::BITS as nat, |i: int| exists|l: int| 0 <= l < j + 1 && bits@[l] == i)) by {
                assert forall|i: int| 0 <= i < B::BITS implies new.seq()[i] == (exists|l: int| 0 <= l < j + 1 && bits@[l] == i) by {
                    if before[i] {
                        let l = choose|l: int| 0 <= l < j && bits@[l] == i;
                        assert(0 <= l < j + 1 && bits@[l] == i);
                    }
                    if i == bits@[j as int] {
                        assert(0 <= j < j + 1 && bits@[j as int] == i);
                    }
                }
            }
            j += 1;
        }
        new
    }

    fn chunk(&self, i: usize) -> (r: B) {
        proof {
            B::lemma_word(self.bits);
            assert(i == 0) by (nonlinear_arith)
                requires
                    (i + 1) * B::BITS <= B::BITS,
                    B::BITS > 0,
            ;
            assert(i * B::BITS == 0 && (i + 1) * B::BITS == B::BITS) by (nonlinear_arith)
                requires
                    i == 0,
            ;
            assert(self.bits.seq() =~= self.seq().subrange(0, B::BITS as int));
        }
        self.bits
    }

    fn set_bit(&mut self, bit: usize, to: bool) {
        proof {
            B::lemma_word(self.bits);
        }
        self.put(bit, to);
    }

    fn set_bit_true(&mut self, bit: usize) {
        proof {
            B::lemma_word(self.bits);
        }
        self.put(bit, true);
    }

    fn set_bit_false(&mut self, bit: usize) {
        proof {
            B::lemma_word(self.bits);
        }
        self.put(bit, false);
    }

    fn get_bit(&self, bit: usize) -> (r: bool) {
        proof {
            B::lemma_word(self.bits);
        }
        let mask = B::bit_k(bit);
        proof {
            B::lemma_word(mask);
        }
        let hit = self.bits.and(&mask);
        proof {
            B::lemma_word(hit);
            lemma_count_zero_iff(hit.seq());
            if self.bits.seq()[bit as int] {
                assert(hit.seq()[bit as int]);
            }
        }
        let zero = B::zero();
        proof {
            B::lemma_word(zero);
        }
        !hit.same(&zero)
    }

    fn popcnt(&self) -> (r: usize) {
        self.bits.popcnt()
    }

    fn parity(&self) -> (r: bool) {
        self.bits.parity()
    }

    fn duplicate(&self) -> (r: Self) {
        SBasis { bits: self.bits }
    }
}

} // verus!
