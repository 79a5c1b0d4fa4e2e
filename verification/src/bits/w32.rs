//! The 32-bit word as a bitset.
use crate::bits::bit_traits::{BitOps, BitSeq, LNeg, RefAnd, RefOr, RefXor};
use crate::bits::Bits;
use crate::bitseq::{
    count_true, first_k, lemma_count_bound, ones, seq_and, seq_not, seq_or, seq_xor, unit, zeros,
};
use vstd::prelude::*;

verus! {

/// Bit `i` of `x`, counted from the most significant bit.
pub open spec fn u32_bit(x: u32, i: int) -> bool {
    (x >> ((31 - i) as u32)) & 1 == 1
}

/// The bits of `x`, most significant first.
pub open spec fn u32_seq(x: u32) -> Seq<bool> {
    Seq::new(32, |i: int| u32_bit(x, i))
}

proof fn lemma_u32_ops(a: u32, b: u32, s: u32)
    by (bit_vector)
    requires
        s < 32,
    ensures
        ((a & b) >> s) & 1 == 1 <==> ((a >> s) & 1 == 1 && (b >> s) & 1 == 1),
        ((a | b) >> s) & 1 == 1 <==> ((a >> s) & 1 == 1 || (b >> s) & 1 == 1),
        ((a ^ b) >> s) & 1 == 1 <==> (((a >> s) & 1 == 1) != ((b >> s) & 1 == 1)),
        ((!a) >> s) & 1 == 1 <==> !((a >> s) & 1 == 1),
        (0u32 >> s) & 1 != 1,
        (0xffff_ffffu32 >> s) & 1 == 1,
        (1u32 >> s) & 1 == 1 <==> s == 0,
        a ^ b == 0 ==> a == b,
        a & !(0xffff_ffffu32 >> 0u32) == 0,
{
}

proof fn lemma_u32_shift(k: u32, s: u32)
    by (bit_vector)
    requires
        k < 32,
        s < 32,
    ensures
        ((1u32 << k) >> s) & 1 == 1 <==> s == k,
        ((0xffff_ffffu32 << k) >> s) & 1 == 1 <==> s >= k,
{
}

proof fn lemma_u32_clear_step(x: u32, k: u32)
    by (bit_vector)
    requires
        k < 32,
        x & !(0xffff_ffffu32 >> k) == 0,
        (x >> ((31 - k) as u32)) & 1 != 1,
    ensures
        k < 31 ==> x & !(0xffff_ffffu32 >> ((k + 1) as u32)) == 0,
        k == 31 ==> x == 0,
{
}

proof fn lemma_u32_clear(x: u32, k: u32)
    requires
        k < 32,
        forall|i: int| 0 <= i <= k ==> !u32_bit(x, i),
    ensures
        k < 31 ==> x & !(0xffff_ffffu32 >> ((k + 1) as u32)) == 0,
        k == 31 ==> x == 0,
    decreases k,
{
    assert(!u32_bit(x, k as int));
    if k == 0 {
        lemma_u32_ops(x, x, 0);
    } else {
        lemma_u32_clear(x, (k - 1) as u32);
    }
    lemma_u32_clear_step(x, k);
}

/// Two words with the same bits are the same word.
pub proof fn lemma_u32_seq_injective(a: u32, b: u32)
    requires
        u32_seq(a) == u32_seq(b),
    ensures
        a == b,
{
    let x = a ^ b;
    assert forall|i: int| 0 <= i <= 31 implies !u32_bit(x, i) by {
        lemma_u32_ops(a, b, (31 - i) as u32);
        assert(u32_seq(a)[i] == u32_bit(a, i));
        assert(u32_seq(b)[i] == u32_bit(b, i));
    }
    lemma_u32_clear(x, 31);
    lemma_u32_ops(a, b, 0);
}

/// `u32::count_ones`: the number of ones in the binary representation.
#[verifier::external_body]
fn u32_count_ones(x: u32) -> (r: u32)
    ensures
        r == count_true(u32_seq(x)),
{
    x.count_ones()
}

/// The bits of the words 0, 1 and the largest one.
pub proof fn lemma_u32_consts()
    ensures
        u32_seq(0) == zeros(32),
        u32_seq(1) == unit(32, 31),
        u32_seq(0xffff_ffffu32) == ones(32),
{
    assert forall|i: int| 0 <= i < 32 implies !u32_bit(0, i) && u32_bit(0xffff_ffffu32, i) && (u32_bit(1, i) <==> i
        == 31) by {
        lemma_u32_ops(0, 0, (31 - i) as u32);
    }
    assert(u32_seq(0) =~= zeros(32));
    assert(u32_seq(1) =~= unit(32, 31));
    assert(u32_seq(0xffff_ffffu32) =~= ones(32));
}

impl BitSeq for u32 {
    open spec fn seq(&self) -> Seq<bool> {
        u32_seq(*self)
    }

    open spec fn wf(&self) -> bool {
        true
    }

    open spec fn class(&self) -> nat {
        32
    }

    proof fn lemma_class_len(&self, other: &Self) {
    }
}

impl LNeg for u32 {
    fn lneg(&mut self) {
        let ghost a = *self;
        *self = !*self;
        proof {
            assert forall|i: int| 0 <= i < 32 implies u32_bit(!a, i) == !u32_bit(a, i) by {
                lemma_u32_ops(a, a, (31 - i) as u32);
            }
            assert(u32_seq(!a) =~= seq_not(u32_seq(a)));
        }
    }
}

impl RefAnd for u32 {
    fn and(&self, rhs: &Self) -> (r: Self) {
        let r = *self & *rhs;
        proof {
            assert forall|i: int| 0 <= i < 32 implies u32_bit(r, i) == (u32_bit(*self, i) && u32_bit(*rhs, i)) by {
                lemma_u32_ops(*self, *rhs, (31 - i) as u32);
            }
            assert(u32_seq(r) =~= seq_and(u32_seq(*self), u32_seq(*rhs)));
        }
        r
    }
}

impl RefOr for u32 {
    fn or(&self, rhs: &Self) -> (r: Self) {
        let r = *self | *rhs;
        proof {
            assert forall|i: int| 0 <= i < 32 implies u32_bit(r, i) == (u32_bit(*self, i) || u32_bit(*rhs, i)) by {
                lemma_u32_ops(*self, *rhs, (31 - i) as u32);
            }
            assert(u32_seq(r) =~= seq_or(u32_seq(*self), u32_seq(*rhs)));
        }
        r
    }
}

impl RefXor for u32 {
    fn xor(&self, rhs: &Self) -> (r: Self) {
        let r = *self ^ *rhs;
        proof {
            assert forall|i: int| 0 <= i < 32 implies u32_bit(r, i) == (u32_bit(*self, i) != u32_bit(*rhs, i)) by {
                lemma_u32_ops(*self, *rhs, (31 - i) as u32);
            }
            assert(u32_seq(r) =~= seq_xor(u32_seq(*self), u32_seq(*rhs)));
        }
        r
    }
}

impl BitOps for u32 {
    fn and_assign(&mut self, rhs: &Self) {
        *self = self.and(rhs);
    }

    fn or_assign(&mut self, rhs: &Self) {
        *self = self.or(rhs);
    }

    fn xor_assign(&mut self, rhs: &Self) {
        *self = self.xor(rhs);
    }

    fn same(&self, rhs: &Self) -> (r: bool) {
        proof {
            if u32_seq(*self) == u32_seq(*rhs) {
                lemma_u32_seq_injective(*self, *rhs);
            }
        }
        *self == *rhs
    }
}

impl Bits for u32 {
    const BITS: usize = 32;

    const SIZE_DESCRIPTOR: &'static str = "static 32";

    open spec fn descriptor() -> Seq<char> {
        "static 32"@
    }

    proof fn lemma_descriptor() {
    }

    proof fn lemma_word(x: Self) {
    }

    fn zero() -> (r: Self) {
        proof {
            lemma_u32_consts();
        }
        0
    }

    fn one() -> (r: Self) {
        proof {
            lemma_u32_consts();
        }
        1
    }

    fn max_value() -> (r: Self) {
        proof {
            lemma_u32_consts();
        }
        0xffff_ffffu32
    }

    fn mask_first_k(k: usize) -> (r: Self) {
        if k == 0 {
            proof {
                lemma_u32_consts();
                assert(first_k(32, 0) =~= zeros(32));
            }
            0
        } else {
            let s: u32 = (32 - k) as u32;
            let r: u32 = 0xffff_ffffu32 << s;
            proof {
                assert forall|i: int| 0 <= i < 32 implies u32_bit(r, i) == (i < k) by {
                    lemma_u32_shift(s, (31 - i) as u32);
                }
                assert(u32_seq(r) =~= first_k(32, k as int));
            }
            r
        }
    }

    fn mask_not_last_k(k: usize) -> (r: Self) {
        if k >= 32 {
            proof {
                lemma_u32_consts();
                assert(first_k(32, 32 - k) =~= zeros(32));
            }
            0
        } else {
            let s: u32 = k as u32;
            let r: u32 = 0xffff_ffffu32 << s;
            proof {
                assert forall|i: int| 0 <= i < 32 implies u32_bit(r, i) == (i < 32 - k) by {
                    lemma_u32_shift(s, (31 - i) as u32);
                }
                assert(u32_seq(r) =~= first_k(32, 32 - k));
            }
            r
        }
    }

    fn bit_k(k: usize) -> (r: Self) {
        let s: u32 = (31 - k) as u32;
        let r: u32 = 1u32 << s;
        proof {
            assert forall|i: int| 0 <= i < 32 implies u32_bit(r, i) == (i == k) by {
                lemma_u32_shift(s, (31 - i) as u32);
            }
            assert(u32_seq(r) =~= unit(32, k as int));
        }
        r
    }

    fn popcnt(&self) -> (r: usize) {
        proof {
            lemma_count_bound(u32_seq(*self));
        }
        u32_count_ones(*self) as usize
    }

    fn parity(&self) -> (r: bool) {
        self.popcnt() % 2 != 0
    }

    fn splat(val: bool) -> (r: Self) {
        proof {
            lemma_u32_consts();
        }
        if val {
            0xffff_ffffu32
        } else {
            0
        }
    }

    fn not(self) -> (r: Self) {
        let mut r = self;
        r.lneg();
        r
    }
}

} // verus!
