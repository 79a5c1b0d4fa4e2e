//! A 256-bit word made of four 64-bit limbs.
use crate::bits::bit_traits::{BitOps, BitSeq, LNeg, RefAnd, RefOr, RefXor};
use crate::bits::w64::{lemma_u64_consts, lemma_u64_seq_injective, u64_seq};
use crate::bits::Bits;
use crate::bitseq::{
    first_k, lemma_count_concat, ones, parity, seq_and, seq_not, seq_or, seq_xor, unit, zeros,
};
use vstd::prelude::*;

verus! {

/// A 256-bit word. The limbs are listed from the most significant one down,
/// so that the derived order is the order of the numbers.
#[derive(Clone, Copy, Debug, PartialEq, Eq, PartialOrd, Ord)]
pub struct Bits256 {
    b3: u64,
    b2: u64,
    b1: u64,
    b0: u64,
}

/// `a - b`, or 0 where `b` exceeds `a`.
pub fn clamping_sub(a: usize, b: usize) -> (r: usize)
    ensures
        r == if a >= b {
            a - b
        } else {
            0
        },
{
    if a >= b {
        a - b
    } else {
        0
    }
}

/// The smaller of two numbers.
fn smaller(a: usize, b: usize) -> (r: usize)
    ensures
        r == if a <= b {
            a
        } else {
            b
        },
{
    if a <= b {
        a
    } else {
        b
    }
}

/// The bits of four limbs, the most significant limb first.
pub open spec fn limbs_seq(b3: u64, b2: u64, b1: u64, b0: u64) -> Seq<bool> {
    u64_seq(b3) + u64_seq(b2) + u64_seq(b1) + u64_seq(b0)
}

impl Bits256 {
    /// The word with the given limbs, the least significant limb first.
    pub fn new(bits: [u64; 4]) -> (r: Self)
        ensures
            r.seq() == limbs_seq(bits@[3], bits@[2], bits@[1], bits@[0]),
    {
        Self { b3: bits[3], b2: bits[2], b1: bits[1], b0: bits[0] }
    }

    /// The type is 256 bits wide.
    pub proof fn lemma_width()
        ensures
            <Bits256 as Bits>::BITS == 256,
    {
    }

    /// The limbs, the least significant limb first.
    pub fn limbs(&self) -> (r: [u64; 4])
        ensures
            self.seq() == limbs_seq(r@[3], r@[2], r@[1], r@[0]),
    {
        [self.b0, self.b1, self.b2, self.b3]
    }
}

impl BitSeq for Bits256 {
    closed spec fn seq(&self) -> Seq<bool> {
        limbs_seq(self.b3, self.b2, self.b1, self.b0)
    }

    open spec fn wf(&self) -> bool {
        true
    }

    open spec fn class(&self) -> nat {
        256
    }

    proof fn lemma_class_len(&self, other: &Self) {
    }
}

impl LNeg for Bits256 {
    fn lneg(&mut self) {
        let ghost a = *self;
        self.b0.lneg();
        self.b1.lneg();
        self.b2.lneg();
        self.b3.lneg();
        assert(self.seq() =~= seq_not(a.seq()));
    }
}

impl RefAnd for Bits256 {
    fn and(&self, rhs: &Self) -> (r: Self) {
        let r = Self {
            b3: self.b3.and(&rhs.b3),
            b2: self.b2.and(&rhs.b2),
            b1: self.b1.and(&rhs.b1),
            b0: self.b0.and(&rhs.b0),
        };
        assert(r.seq() =~= seq_and(self.seq(), rhs.seq()));
        r
    }
}

impl RefOr for Bits256 {
    fn or(&self, rhs: &Self) -> (r: Self) {
        let r = Self {
            b3: self.b3.or(&rhs.b3),
            b2: self.b2.or(&rhs.b2),
            b1: self.b1.or(&rhs.b1),
            b0: self.b0.or(&rhs.b0),
        };
        assert(r.seq() =~= seq_or(self.seq(), rhs.seq()));
        r
    }
}

impl RefXor for Bits256 {
    fn xor(&self, rhs: &Self) -> (r: Self) {
        let r = Self {
            b3: self.b3.xor(&rhs.b3),
            b2: self.b2.xor(&rhs.b2),
            b1: self.b1.xor(&rhs.b1),
            b0: self.b0.xor(&rhs.b0),
        };
        assert(r.seq() =~= seq_xor(self.seq(), rhs.seq()));
        r
    }
}

impl BitOps for Bits256 {
    fn and_assign(&mut self, rhs: &Self) {
        *self = self.and(rhs);
    }

    fn or_assign(&mut self, rhs: &Self) {
        *self = self.or(rhs);
    }

    fn xor_assign(&mut self, rhs: &Self) {
        *self = self.xor(rhs);
    }

    fn same(&self, rhs: &Self) -> (r: bool) {
        proof {
            if self.seq() == rhs.seq() {
                let a = self.seq();
                let b = rhs.seq();
                assert(u64_seq(self.b3) =~= a.subrange(0, 64));
                assert(u64_seq(rhs.b3) =~= b.subrange(0, 64));
                assert(u64_seq(self.b2) =~= a.subrange(64, 128));
                assert(u64_seq(rhs.b2) =~= b.subrange(64, 128));
                assert(u64_seq(self.b1) =~= a.subrange(128, 192));
                assert(u64_seq(rhs.b1) =~= b.subrange(128, 192));
                assert(u64_seq(self.b0) =~= a.subrange(192, 256));
                assert(u64_seq(rhs.b0) =~= b.subrange(192, 256));
                lemma_u64_seq_injective(self.b3, rhs.b3);
                lemma_u64_seq_injective(self.b2, rhs.b2);
                lemma_u64_seq_injective(self.b1, rhs.b1);
                lemma_u64_seq_injective(self.b0, rhs.b0);
            }
        }
        self.b3 == rhs.b3 && self.b2 == rhs.b2 && self.b1 == rhs.b1 && self.b0 == rhs.b0
    }
}

impl Bits for Bits256 {
    const BITS: usize = 256;

    const SIZE_DESCRIPTOR: &'static str = "static 256";

    open spec fn descriptor() -> Seq<char> {
        "static 256"@
    }

    proof fn lemma_descriptor() {
    }

    proof fn lemma_word(x: Self) {
        <u64 as Bits>::lemma_word(0);
    }

    fn zero() -> (r: Self) {
        let r = Bits256 { b3: 0, b2: 0, b1: 0, b0: 0 };
        proof {
            lemma_u64_consts();
            assert(r.seq() =~= zeros(256));
        }
        r
    }

    fn one() -> (r: Self) {
        let r = Bits256 { b3: 0, b2: 0, b1: 0, b0: 1 };
        proof {
            lemma_u64_consts();
            assert(r.seq() =~= unit(256, 255));
        }
        r
    }

    fn max_value() -> (r: Self) {
        let r = Bits256 {
            b3: 0xffff_ffff_ffff_ffffu64,
            b2: 0xffff_ffff_ffff_ffffu64,
            b1: 0xffff_ffff_ffff_ffffu64,
            b0: 0xffff_ffff_ffff_ffffu64,
        };
        proof {
            lemma_u64_consts();
            assert(r.seq() =~= ones(256));
        }
        r
    }

    fn mask_first_k(k: usize) -> (r: Self) {
        proof {
            <u64 as Bits>::lemma_word(0);
        }
        let r = Self {
            b3: <u64 as Bits>::mask_first_k(smaller(k, 64)),
            b2: <u64 as Bits>::mask_first_k(smaller(clamping_sub(k, 64), 64)),
            b1: <u64 as Bits>::mask_first_k(smaller(clamping_sub(k, 2 * 64), 64)),
            b0: <u64 as Bits>::mask_first_k(smaller(clamping_sub(k, 3 * 64), 64)),
        };
        assert(r.seq() =~= first_k(256, k as int));
        r
    }

    fn mask_not_last_k(k: usize) -> (r: Self) {
        proof {
            <u64 as Bits>::lemma_word(0);
        }
        let r = Self {
            b3: <u64 as Bits>::mask_not_last_k(smaller(clamping_sub(k, 3 * 64), 64)),
            b2: <u64 as Bits>::mask_not_last_k(smaller(clamping_sub(k, 2 * 64), 64)),
            b1: <u64 as Bits>::mask_not_last_k(smaller(clamping_sub(k, 64), 64)),
            b0: <u64 as Bits>::mask_not_last_k(smaller(k, 64)),
        };
        assert(r.seq() =~= first_k(256, 256 - k));
        r
    }

    fn bit_k(k: usize) -> (r: Self) {
        proof {
            lemma_u64_consts();
            <u64 as Bits>::lemma_word(0);
        }
        let r = if k < 64 {
            Self { b3: <u64 as Bits>::bit_k(k), b2: 0, b1: 0, b0: 0 }
        } else if k < 2 * 64 {
            Self { b3: 0, b2: <u64 as Bits>::bit_k(k - 64), b1: 0, b0: 0 }
        } else if k < 3 * 64 {
            Self { b3: 0, b2: 0, b1: <u64 as Bits>::bit_k(k - 2 * 64), b0: 0 }
        } else {
            Self { b3: 0, b2: 0, b1: 0, b0: <u64 as Bits>::bit_k(k - 3 * 64) }
        };
        assert(r.seq() =~= unit(256, k as int));
        r
    }

    fn popcnt(&self) -> (r: usize) {
        proof {
            lemma_count_concat(u64_seq(self.b3) + u64_seq(self.b2) + u64_seq(self.b1), u64_seq(self.b0));
            lemma_count_concat(u64_seq(self.b3) + u64_seq(self.b2), u64_seq(self.b1));
            lemma_count_concat(u64_seq(self.b3), u64_seq(self.b2));
            crate::bitseq::lemma_count_bound(u64_seq(self.b3));
            crate::bitseq::lemma_count_bound(u64_seq(self.b2));
            crate::bitseq::lemma_count_bound(u64_seq(self.b1));
            crate::bitseq::lemma_count_bound(u64_seq(self.b0));
        }
        self.b3.popcnt() + self.b2.popcnt() + self.b1.popcnt() + self.b0.popcnt()
    }

    fn parity(&self) -> (r: bool) {
        self.popcnt() % 2 != 0
    }

    fn splat(val: bool) -> (r: Self) {
        if val {
            Self::max_value()
        } else {
            Self::zero()
        }
    }

    fn not(self) -> (r: Self) {
        let mut r = self;
        r.lneg();
        r
    }
}

} // verus!
