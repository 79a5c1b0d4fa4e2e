//! The 128-bit word as a bitset.
use crate::bits::bit_traits::{BitOps, BitSeq, LNeg, RefAnd, RefOr, RefXor};
use crate::bits::Bits;
use crate::bitseq::{
    count_true, first_k, lemma_count_bound, ones, seq_and, seq_not, seq_or, seq_xor, unit, zeros,
};
use vstd::prelude::*;

verus! {

/// Bit `i` of `x`, counted from the most significant bit.
pub open spec fn u128_bit(x: u128, i: int) -> bool {
    (x >> ((127 - i) as u128)) & 1 == 1
}

/// The bits of `x`, most significant first.
pub open spec fn u128_seq(x: u128) -> Seq<bool> {
    Seq::new(128, |i: int| u128_bit(x, i))
}

proof fn lemma_u128_ops(a: u128, b: u128, s: u128)
    by (bit_vector)
    requires
        s < 128,
    ensures
        ((a & b) >> s) & 1 == 1 <==> ((a >> s) & 1 == 1 && (b >> s) & 1 == 1),
        ((a | b) >> s) & 1 == 1 <==> ((a >> s) & 1 == 1 || (b >> s) & 1 == 1),
        ((a ^ b) >> s) & 1 == 1 <==> (((a >> s) & 1 == 1) != ((b >> s) & 1 == 1)),
        ((!a) >> s) & 1 == 1 <==> !((a >> s) & 1 == 1),
        (0u128 >> s) & 1 != 1,
        (0xffff_ffff_ffff_ffff_ffff_ffff_ffff_ffffu128 >> s) & 1 == 1,
        (1u128 >> s) & 1 == 1 <==> s == 0,
        a ^ b == 0 ==> a == b,
        a & !(0xffff_ffff_ffff_ffff_ffff_ffff_ffff_ffffu128 >> 0u128) == 0,
{
}

proof fn lemma_u128_shift(k: u128, s: u128)
    by (bit_vector)
    requires
        k < 128,
        s < 128,
    ensures
        ((1u128 << k) >> s) & 1 == 1 <==> s == k,
        ((0xffff_ffff_ffff_ffff_ffff_ffff_ffff_ffffu128 << k) >> s) & 1 == 1 <==> s >= k,
{
}

proof fn lemma_u128_clear_step(x: u128, k: u128)
    by (bit_vector)
    requires
        k < 128,
        x & !(0xffff_ffff_ffff_ffff_ffff_ffff_ffff_ffffu128 >> k) == 0,
        (x >> ((127 - k) as u128)) & 1 != 1,
    ensures
        k < 127 ==> x & !(0xffff_ffff_ffff_ffff_ffff_ffff_ffff_ffffu128 >> ((k + 1) as u128)) == 0,
        k == 127 ==> x == 0,
{
}

proof fn lemma_u128_clear(x: u128, k: u128)
    requires
        k < 128,
        forall|i: int| 0 <= i <= k ==> !u128_bit(x, i),
    ensures
        k < 127 ==> x & !(0xffff_ffff_ffff_ffff_ffff_ffff_ffff_ffffu128 >> ((k + 1) as u128)) == 0,
        k == 127 ==> x == 0,
    decreases k,
{
    assert(!u128_bit(x, k as int));
    if k == 0 {
        lemma_u128_ops(x, x, 0);
    } else {
        lemma_u128_clear(x, (k - 1) as u128);
    }
    lemma_u128_clear_step(x, k);
}

/// Two words with the same bits are the same word.
pub proof fn lemma_u128_seq_injective(a: u128, b: u128)
    requires
        u128_seq(a) == u128_seq(b),
    ensures
        a == b,
{
    let x = a ^ b;
    assert forall|i: int| 0 <= i <= 127 implies !u128_bit(x, i) by {
        lemma_u128_ops(a, b, (127 - i) as u128);
        assert(u128_seq(a)[i] == u128_bit(a, i));
        assert(u128_seq(b)[i] == u128_bit(b, i));
    }
    lemma_u128_clear(x, 127);
    lemma_u128_ops(a, b, 0);
}

/// `u128::count_ones`: the number of ones in the binary representation.
#[verifier::external_body]
fn u128_count_ones(x: u128) -> (r: u32)
    ensures
        r == count_true(u128_seq(x)),
{
    x.count_ones()
}

/// The bits of the words 0, 1 and the largest one.
pub proof fn lemma_u128_consts()
    ensures
        u128_seq(0) == zeros(128),
        u128_seq(1) == unit(128, 127),
        u128_seq(0xffff_ffff_ffff_ffff_ffff_ffff_ffff_ffffu128) == ones(128),
{
    assert forall|i: int| 0 <= i < 128 implies !u128_bit(0, i) && u128_bit(0xffff_ffff_ffff_ffff_ffff_ffff_ffff_ffffu128, i) && (u128_bit(1, i) <==> i
        == 127) by {
        lemma_u128_ops(0, 0, (127 - i) as u128);
    }
    assert(u128_seq(0) =~= zeros(128));
    assert(u128_seq(1) =~= unit(128, 127));
    assert(u128_seq(0xffff_ffff_ffff_ffff_ffff_ffff_ffff_ffffu128) =~= ones(128));
}

impl BitSeq for u128 {
    open spec fn seq(&self) -> Seq<bool> {
        u128_seq(*self)
    }

    open spec fn wf(&self) -> bool {
        true
    }

    open spec fn class(&self) -> nat {
        128
    }

    proof fn lemma_class_len(&self, other: &Self) {
    }
}

impl LNeg for u128 {
    fn lneg(&mut self) {
        let ghost a = *self;
        *self = !*self;
        proof {
            assert forall|i: int| 0 <= i < 128 implies u128_bit(!a, i) == !u128_bit(a, i) by {
                lemma_u128_ops(a, a, (127 - i) as u128);
            }
            assert(u128_seq(!a) =~= seq_not(u128_seq(a)));
        }
    }
}

impl RefAnd for u128 {
    fn and(&self, rhs: &Self) -> (r: Self) {
        let r = *self & *rhs;
        proof {
            assert forall|i: int| 0 <= i < 128 implies u128_bit(r, i) == (u128_bit(*self, i) && u128_bit(*rhs, i)) by {
                lemma_u128_ops(*self, *rhs, (127 - i) as u128);
            }
            assert(u128_seq(r) =~= seq_and(u128_seq(*self), u128_seq(*rhs)));
        }
        r
    }
}

impl RefOr for u128 {
    fn or(&self, rhs: &Self) -> (r: Self) {
        let r = *self | *rhs;
        proof {
            assert forall|i: int| 0 <= i < 128 implies u128_bit(r, i) == (u128_bit(*self, i) || u128_bit(*rhs, i)) by {
                lemma_u128_ops(*self, *rhs, (127 - i) as u128);
            }
            assert(u128_seq(r) =~= seq_or(u128_seq(*self), u128_seq(*rhs)));
        }
        r
    }
}

impl RefXor for u128 {
    fn xor(&self, rhs: &Self) -> (r: Self) {
        let r = *self ^ *rhs;
        proof {
            assert forall|i: int| 0 <= i < 128 implies u128_bit(r, i) == (u128_bit(*self, i) != u128_bit(*rhs, i)) by {
                lemma_u128_ops(*self, *rhs, (127 - i) as u128);
            }
            assert(u128_seq(r) =~= seq_xor(u128_seq(*self), u128_seq(*rhs)));
        }
        r
    }
}

impl BitOps for u128 {
    fn and_assign(&mut self, rhs: &Self) {
        *self = self.and(rhs);
    }

    fn or_assign(&mut self, rhs: &Self) {
        *self = self.or(rhs);
    }

    fn xor_assign(&mut self, rhs: &Self) {
        *self = self.xor(rhs);
    }

    fn same(&self, rhs: &Self) -> (r: bool) {
        proof {
            if u128_seq(*self) == u128_seq(*rhs) {
                lemma_u128_seq_injective(*self, *rhs);
            }
        }
        *self == *rhs
    }
}

impl Bits for u128 {
    const BITS: usize = 128;

    const SIZE_DESCRIPTOR: &'static str = "static 128";

    open spec fn descriptor() -> Seq<char> {
        "static 128"@
    }

    proof fn lemma_descriptor() {
    }

    proof fn lemma_word(x: Self) {
    }

    fn zero() -> (r: Self) {
        proof {
            lemma_u128_consts();
        }
        0
    }

    fn one() -> (r: Self) {
        proof {
            lemma_u128_consts();
        }
        1
    }

    fn max_value() -> (r: Self) {
        proof {
            lemma_u128_consts();
        }
        0xffff_ffff_ffff_ffff_ffff_ffff_ffff_ffffu128
    }

    fn mask_first_k(k: usize) -> (r: Self) {
        if k == 0 {
            proof {
                lemma_u128_consts();
                assert(first_k(128, 0) =~= zeros(128));
            }
            0
        } else {
            let s: u128 = (128 - k) as u128;
            let r: u128 = 0xffff_ffff_ffff_ffff_ffff_ffff_ffff_ffffu128 << s;
            proof {
                assert forall|i: int| 0 <= i < 128 implies u128_bit(r, i) == (i < k) by {
                    lemma_u128_shift(s, (127 - i) as u128);
                }
                assert(u128_seq(r) =~= first_k(128, k as int));
            }
            r
        }
    }

    fn mask_not_last_k(k: usize) -> (r: Self) {
        if k >= 128 {
            proof {
                lemma_u128_consts();
                assert(first_k(128, 128 - k) =~= zeros(128));
            }
            0
        } else {
            let s: u128 = k as u128;
            let r: u128 = 0xffff_ffff_ffff_ffff_ffff_ffff_ffff_ffffu128 << s;
            proof {
                assert forall|i: int| 0 <= i < 128 implies u128_bit(r, i) == (i < 128 - k) by {
                    lemma_u128_shift(s, (127 - i) as u128);
                }
                assert(u128_seq(r) =~= first_k(128, 128 - k));
            }
            r
        }
    }

    fn bit_k(k: usize) -> (r: Self) {
        let s: u128 = (127 - k) as u128;
        let r: u128 = 1u128 << s;
        proof {
            assert forall|i: int| 0 <= i < 128 implies u128_bit(r, i) == (i == k) by {
                lemma_u128_shift(s, (127 - i) as u128);
            }
            assert(u128_seq(r) =~= unit(128, k as int));
        }
        r
    }

    fn popcnt(&self) -> (r: usize) {
        proof {
            lemma_count_bound(u128_seq(*self));
        }
        u128_count_ones(*self) as usize
    }

    fn parity(&self) -> (r: bool) {
        self.popcnt() % 2 != 0
    }

    fn splat(val: bool) -> (r: Self) {
        proof {
            lemma_u128_consts();
        }
        if val {
            0xffff_ffff_ffff_ffff_ffff_ffff_ffff_ffffu128
        } else {
            0
        }
    }

    fn not(self) -> (r: Self) {
        let mut r = self;
        r.lneg();
        r
    }
}

} // verus!
