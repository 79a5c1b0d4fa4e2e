//! The 64-bit word as a bitset.
use crate::bits::bit_traits::{BitOps, BitSeq, LNeg, RefAnd, RefOr, RefXor};
use crate::bits::Bits;
use crate::bitseq::{
    count_true, first_k, lemma_count_bound, ones, seq_and, seq_not, seq_or, seq_xor, unit, zeros,
};
use vstd::prelude::*;

verus! {

/// Bit `i` of `x`, counted from the most significant bit.
pub open spec fn u64_bit(x: u64, i: int) -> bool {
    (x >> ((63 - i) as u64)) & 1 == 1
}

/// The bits of `x`, most significant first.
pub open spec fn u64_seq(x: u64) -> Seq<bool> {
    Seq::new(64, |i: int| u64_bit(x, i))
}

proof fn lemma_u64_ops(a: u64, b: u64, s: u64)
    by (bit_vector)
    requires
        s < 64,
    ensures
        ((a & b) >> s) & 1 == 1 <==> ((a >> s) & 1 == 1 && (b >> s) & 1 == 1),
        ((a | b) >> s) & 1 == 1 <==> ((a >> s) & 1 == 1 || (b >> s) & 1 == 1),
        ((a ^ b) >> s) & 1 == 1 <==> (((a >> s) & 1 == 1) != ((b >> s) & 1 == 1)),
        ((!a) >> s) & 1 == 1 <==> !((a >> s) & 1 == 1),
        (0u64 >> s) & 1 != 1,
        (0xffff_ffff_ffff_ffffu64 >> s) & 1 == 1,
        (1u64 >> s) & 1 == 1 <==> s == 0,
        a ^ b == 0 ==> a == b,
        a & !(0xffff_ffff_ffff_ffffu64 >> 0u64) == 0,
{
}

proof fn lemma_u64_shift(k: u64, s: u64)
    by (bit_vector)
    requires
        k < 64,
        s < 64,
    ensures
        ((1u64 << k) >> s) & 1 == 1 <==> s == k,
        ((0xffff_ffff_ffff_ffffu64 << k) >> s) & 1 == 1 <==> s >= k,
{
}

proof fn lemma_u64_clear_step(x: u64, k: u64)
    by (bit_vector)
    requires
        k < 64,
        x & !(0xffff_ffff_ffff_ffffu64 >> k) == 0,
        (x >> ((63 - k) as u64)) & 1 != 1,
    ensures
        k < 63 ==> x & !(0xffff_ffff_ffff_ffffu64 >> ((k + 1) as u64)) == 0,
        k == 63 ==> x == 0,
{
}

proof fn lemma_u64_clear(x: u64, k: u64)
    requires
        k < 64,
        forall|i: int| 0 <= i <= k ==> !u64_bit(x, i),
    ensures
        k < 63 ==> x & !(0xffff_ffff_ffff_ffffu64 >> ((k + 1) as u64)) == 0,
        k == 63 ==> x == 0,
    decreases k,
{
    assert(!u64_bit(x, k as int));
    if k == 0 {
        lemma_u64_ops(x, x, 0);
    } else {
        lemma_u64_clear(x, (k - 1) as u64);
    }
    lemma_u64_clear_step(x, k);
}

/// Two words with the same bits are the same word.
pub proof fn lemma_u64_seq_injective(a: u64, b: u64)
    requires
        u64_seq(a) == u64_seq(b),
    ensures
        a == b,
{
    let x = a ^ b;
    assert forall|i: int| 0 <= i <= 63 implies !u64_bit(x, i) by {
        lemma_u64_ops(a, b, (63 - i) as u64);
        assert(u64_seq(a)[i] == u64_bit(a, i));
        assert(u64_seq(b)[i] == u64_bit(b, i));
    }
    lemma_u64_clear(x, 63);
    lemma_u64_ops(a, b, 0);
}

/// `u64::count_ones`: the number of ones in the binary representation.
#[verifier::external_body]
fn u64_count_ones(x: u64) -> (r: u32)
    ensures
        r == count_true(u64_seq(x)),
{
    x.count_ones()
}

/// The bits of the words 0, 1 and the largest one.
pub proof fn lemma_u64_consts()
    ensures
        u64_seq(0) == zeros(64),
        u64_seq(1) == unit(64, 63),
        u64_seq(0xffff_ffff_ffff_ffffu64) == ones(64),
{
    assert forall|i: int| 0 <= i < 64 implies !u64_bit(0, i) && u64_bit(0xffff_ffff_ffff_ffffu64, i) && (u64_bit(1, i) <==> i
        == 63) by {
        lemma_u64_ops(0, 0, (63 - i) as u64);
    }
    assert(u64_seq(0) =~= zeros(64));
    assert(u64_seq(1) =~= unit(64, 63));
    assert(u64_seq(0xffff_ffff_ffff_ffffu64) =~= ones(64));
}

impl BitSeq for u64 {
    open spec fn seq(&self) -> Seq<bool> {
        u64_seq(*self)
    }

    open spec fn wf(&self) -> bool {
        true
    }

    open spec fn class(&self) -> nat {
        64
    }

    proof fn lemma_class_len(&self, other: &Self) {
    }
}

impl LNeg for u64 {
    fn lneg(&mut self) {
        let ghost a = *self;
        *self = !*self;
        proof {
            assert forall|i: int| 0 <= i < 64 implies u64_bit(!a, i) == !u64_bit(a, i) by {
                lemma_u64_ops(a, a, (63 - i) as u64);
            }
            assert(u64_seq(!a) =~= seq_not(u64_seq(a)));
        }
    }
}

impl RefAnd for u64 {
    fn and(&self, rhs: &Self) -> (r: Self) {
        let r = *self & *rhs;
        proof {
            assert forall|i: int| 0 <= i < 64 implies u64_bit(r, i) == (u64_bit(*self, i) && u64_bit(*rhs, i)) by {
                lemma_u64_ops(*self, *rhs, (63 - i) as u64);
            }
            assert(u64_seq(r) =~= seq_and(u64_seq(*self), u64_seq(*rhs)));
        }
        r
    }
}

impl RefOr for u64 {
    fn or(&self, rhs: &Self) -> (r: Self) {
        let r = *self | *rhs;
        proof {
            assert forall|i: int| 0 <= i < 64 implies u64_bit(r, i) == (u64_bit(*self, i) || u64_bit(*rhs, i)) by {
                lemma_u64_ops(*self, *rhs, (63 - i) as u64);
            }
            assert(u64_seq(r) =~= seq_or(u64_seq(*self), u64_seq(*rhs)));
        }
        r
    }
}

impl RefXor for u64 {
    fn xor(&self, rhs: &Self) -> (r: Self) {
        let r = *self ^ *rhs;
        proof {
            assert forall|i: int| 0 <= i < 64 implies u64_bit(r, i) == (u64_bit(*self, i) != u64_bit(*rhs, i)) by {
                lemma_u64_ops(*self, *rhs, (63 - i) as u64);
            }
            assert(u64_seq(r) =~= seq_xor(u64_seq(*self), u64_seq(*rhs)));
        }
        r
    }
}

impl BitOps for u64 {
    fn and_assign(&mut self, rhs: &Self) {
        *self = self.and(rhs);
    }

    fn or_assign(&mut self, rhs: &Self) {
        *self = self.or(rhs);
    }

    fn xor_assign(&mut self, rhs: &Self) {
        *self = self.xor(rhs);
    }

    fn same(&self, rhs: &Self) -> (r: bool) {
        proof {
            if u64_seq(*self) == u64_seq(*rhs) {
                lemma_u64_seq_injective(*self, *rhs);
            }
        }
        *self == *rhs
    }
}

impl Bits for u64 {
    const BITS: usize = 64;

    const SIZE_DESCRIPTOR: &'static str = "static 64";

    open spec fn descriptor() -> Seq<char> {
        "static 64"@
    }

    proof fn lemma_descriptor() {
    }

    proof fn lemma_word(x: Self) {
    }

    fn zero() -> (r: Self) {
        proof {
            lemma_u64_consts();
        }
        0
    }

    fn one() -> (r: Self) {
        proof {
            lemma_u64_consts();
        }
        1
    }

    fn max_value() -> (r: Self) {
        proof {
            lemma_u64_consts();
        }
        0xffff_ffff_ffff_ffffu64
    }

    fn mask_first_k(k: usize) -> (r: Self) {
        if k == 0 {
            proof {
                lemma_u64_consts();
                assert(first_k(64, 0) =~= zeros(64));
            }
            0
        } else {
            let s: u64 = (64 - k) as u64;
            let r: u64 = 0xffff_ffff_ffff_ffffu64 << s;
            proof {
                assert forall|i: int| 0 <= i < 64 implies u64_bit(r, i) == (i < k) by {
                    lemma_u64_shift(s, (63 - i) as u64);
                }
                assert(u64_seq(r) =~= first_k(64, k as int));
            }
            r
        }
    }

    fn mask_not_last_k(k: usize) -> (r: Self) {
        if k >= 64 {
            proof {
                lemma_u64_consts();
                assert(first_k(64, 64 - k) =~= zeros(64));
            }
            0
        } else {
            let s: u64 = k as u64;
            let r: u64 = 0xffff_ffff_ffff_ffffu64 << s;
            proof {
                assert forall|i: int| 0 <= i < 64 implies u64_bit(r, i) == (i < 64 - k) by {
                    lemma_u64_shift(s, (63 - i) as u64);
                }
                assert(u64_seq(r) =~= first_k(64, 64 - k));
            }
            r
        }
    }

    fn bit_k(k: usize) -> (r: Self) {
        let s: u64 = (63 - k) as u64;
        let r: u64 = 1u64 << s;
        proof {
            assert forall|i: int| 0 <= i < 64 implies u64_bit(r, i) == (i == k) by {
                lemma_u64_shift(s, (63 - i) as u64);
            }
            assert(u64_seq(r) =~= unit(64, k as int));
        }
        r
    }

    fn popcnt(&self) -> (r: usize) {
        proof {
            lemma_count_bound(u64_seq(*self));
        }
        u64_count_ones(*self) as usize
    }

    fn parity(&self) -> (r: bool) {
        self.popcnt() % 2 != 0
    }

    fn splat(val: bool) -> (r: Self) {
        proof {
            lemma_u64_consts();
        }
        if val {
            0xffff_ffff_ffff_ffffu64
        } else {
            0
        }
    }

    fn not(self) -> (r: Self) {
        let mut r = self;
        r.lneg();
        r
    }
}

} // verus!
