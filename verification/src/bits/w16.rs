//! The 16-bit word as a bitset.
use crate::bits::bit_traits::{BitOps, BitSeq, LNeg, RefAnd, RefOr, RefXor};
use crate::bits::Bits;
use crate::bitseq::{
    count_true, first_k, lemma_count_bound, ones, seq_and, seq_not, seq_or, seq_xor, unit, zeros,
};
use vstd::prelude::*;

verus! {

/// Bit `i` of `x`, counted from the most significant bit.
pub open spec fn u16_bit(x: u16, i: int) -> bool {
    (x >> ((15 - i) as u16)) & 1 == 1
}

/// The bits of `x`, most significant first.
pub open spec fn u16_seq(x: u16) -> Seq<bool> {
    Seq::new(16, |i: int| u16_bit(x, i))
}

proof fn lemma_u16_ops(a: u16, b: u16, s: u16)
    by (bit_vector)
    requires
        s < 16,
    ensures
        ((a & b) >> s) & 1 == 1 <==> ((a >> s) & 1 == 1 && (b >> s) & 1 == 1),
        ((a | b) >> s) & 1 == 1 <==> ((a >> s) & 1 == 1 || (b >> s) & 1 == 1),
        ((a ^ b) >> s) & 1 == 1 <==> (((a >> s) & 1 == 1) != ((b >> s) & 1 == 1)),
        ((!a) >> s) & 1 == 1 <==> !((a >> s) & 1 == 1),
        (0u16 >> s) & 1 != 1,
        (0xffffu16 >> s) & 1 == 1,
        (1u16 >> s) & 1 == 1 <==> s == 0,
        a ^ b == 0 ==> a == b,
        a & !(0xffffu16 >> 0u16) == 0,
{
}

proof fn lemma_u16_shift(k: u16, s: u16)
    by (bit_vector)
    requires
        k < 16,
        s < 16,
    ensures
        ((1u16 << k) >> s) & 1 == 1 <==> s == k,
        ((0xffffu16 << k) >> s) & 1 == 1 <==> s >= k,
{
}

proof fn lemma_u16_clear_step(x: u16, k: u16)
    by (bit_vector)
    requires
        k < 16,
        x & !(0xffffu16 >> k) == 0,
        (x >> ((15 - k) as u16)) & 1 != 1,
    ensures
        k < 15 ==> x & !(0xffffu16 >> ((k + 1) as u16)) == 0,
        k == 15 ==> x == 0,
{
}

proof fn lemma_u16_clear(x: u16, k: u16)
    requires
        k < 16,
        forall|i: int| 0 <= i <= k ==> !u16_bit(x, i),
    ensures
        k < 15 ==> x & !(0xffffu16 >> ((k + 1) as u16)) == 0,
        k == 15 ==> x == 0,
    decreases k,
{
    assert(!u16_bit(x, k as int));
    if k == 0 {
        lemma_u16_ops(x, x, 0);
    } else {
        lemma_u16_clear(x, (k - 1) as u16);
    }
    lemma_u16_clear_step(x, k);
}

/// Two words with the same bits are the same word.
pub proof fn lemma_u16_seq_injective(a: u16, b: u16)
    requires
        u16_seq(a) == u16_seq(b),
    ensures
        a == b,
{
    let x = a ^ b;
    assert forall|i: int| 0 <= i <= 15 implies !u16_bit(x, i) by {
        lemma_u16_ops(a, b, (15 - i) as u16);
        assert(u16_seq(a)[i] == u16_bit(a, i));
        assert(u16_seq(b)[i] == u16_bit(b, i));
    }
    lemma_u16_clear(x, 15);
    lemma_u16_ops(a, b, 0);
}

/// `u16::count_ones`: the number of ones in the binary representation.
#[verifier::external_body]
fn u16_count_ones(x: u16) -> (r: u32)
    ensures
        r == count_true(u16_seq(x)),
{
    x.count_ones()
}

/// The bits of the words 0, 1 and the largest one.
pub proof fn lemma_u16_consts()
    ensures
        u16_seq(0) == zeros(16),
        u16_seq(1) == unit(16, 15),
        u16_seq(0xffffu16) == ones(16),
{
    assert forall|i: int| 0 <= i < 16 implies !u16_bit(0, i) && u16_bit(0xffffu16, i) && (u16_bit(1, i) <==> i
        == 15) by {
        lemma_u16_ops(0, 0, (15 - i) as u16);
    }
    assert(u16_seq(0) =~= zeros(16));
    assert(u16_seq(1) =~= unit(16, 15));
    assert(u16_seq(0xffffu16) =~= ones(16));
}

impl BitSeq for u16 {
    open spec fn seq(&self) -> Seq<bool> {
        u16_seq(*self)
    }

    open spec fn wf(&self) -> bool {
        true
    }

    open spec fn class(&self) -> nat {
        16
    }

    proof fn lemma_class_len(&self, other: &Self) {
    }
}

impl LNeg for u16 {
    fn lneg(&mut self) {
        let ghost a = *self;
        *self = !*self;
        proof {
            assert forall|i: int| 0 <= i < 16 implies u16_bit(!a, i) == !u16_bit(a, i) by {
                lemma_u16_ops(a, a, (15 - i) as u16);
            }
            assert(u16_seq(!a) =~= seq_not(u16_seq(a)));
        }
    }
}

impl RefAnd for u16 {
    fn and(&self, rhs: &Self) -> (r: Self) {
        let r = *self & *rhs;
        proof {
            assert forall|i: int| 0 <= i < 16 implies u16_bit(r, i) == (u16_bit(*self, i) && u16_bit(*rhs, i)) by {
                lemma_u16_ops(*self, *rhs, (15 - i) as u16);
            }
            assert(u16_seq(r) =~= seq_and(u16_seq(*self), u16_seq(*rhs)));
        }
        r
    }
}

impl RefOr for u16 {
    fn or(&self, rhs: &Self) -> (r: Self) {
        let r = *self | *rhs;
        proof {
            assert forall|i: int| 0 <= i < 16 implies u16_bit(r, i) == (u16_bit(*self, i) || u16_bit(*rhs, i)) by {
                lemma_u16_ops(*self, *rhs, (15 - i) as u16);
            }
            assert(u16_seq(r) =~= seq_or(u16_seq(*self), u16_seq(*rhs)));
        }
        r
    }
}

impl RefXor for u16 {
    fn xor(&self, rhs: &Self) -> (r: Self) {
        let r = *self ^ *rhs;
        proof {
            assert forall|i: int| 0 <= i < 16 implies u16_bit(r, i) == (u16_bit(*self, i) != u16_bit(*rhs, i)) by {
                lemma_u16_ops(*self, *rhs, (15 - i) as u16);
            }
            assert(u16_seq(r) =~= seq_xor(u16_seq(*self), u16_seq(*rhs)));
        }
        r
    }
}

impl BitOps for u16 {
    fn and_assign(&mut self, rhs: &Self) {
        *self = self.and(rhs);
    }

    fn or_assign(&mut self, rhs: &Self) {
        *self = self.or(rhs);
    }

    fn xor_assign(&mut self, rhs: &Self) {
        *self = self.xor(rhs);
    }

    fn same(&self, rhs: &Self) -> (r: bool) {
        proof {
            if u16_seq(*self) == u16_seq(*rhs) {
                lemma_u16_seq_injective(*self, *rhs);
            }
        }
        *self == *rhs
    }
}

impl Bits for u16 {
    const BITS: usize = 16;

    const SIZE_DESCRIPTOR: &'static str = "static 16";

    open spec fn descriptor() -> Seq<char> {
        "static 16"@
    }

    proof fn lemma_descriptor() {
    }

    proof fn lemma_word(x: Self) {
    }

    fn zero() -> (r: Self) {
        proof {
            lemma_u16_consts();
        }
        0
    }

    fn one() -> (r: Self) {
        proof {
            lemma_u16_consts();
        }
        1
    }

    fn max_value() -> (r: Self) {
        proof {
            lemma_u16_consts();
        }
        0xffffu16
    }

    fn mask_first_k(k: usize) -> (r: Self) {
        if k == 0 {
            proof {
                lemma_u16_consts();
                assert(first_k(16, 0) =~= zeros(16));
            }
            0
        } else {
            let s: u16 = (16 - k) as u16;
            let r: u16 = 0xffffu16 << s;
            proof {
                assert forall|i: int| 0 <= i < 16 implies u16_bit(r, i) == (i < k) by {
                    lemma_u16_shift(s, (15 - i) as u16);
                }
                assert(u16_seq(r) =~= first_k(16, k as int));
            }
            r
        }
    }

    fn mask_not_last_k(k: usize) -> (r: Self) {
        if k >= 16 {
            proof {
                lemma_u16_consts();
                assert(first_k(16, 16 - k) =~= zeros(16));
            }
            0
        } else {
            let s: u16 = k as u16;
            let r: u16 = 0xffffu16 << s;
            proof {
                assert forall|i: int| 0 <= i < 16 implies u16_bit(r, i) == (i < 16 - k) by {
                    lemma_u16_shift(s, (15 - i) as u16);
                }
                assert(u16_seq(r) =~= first_k(16, 16 - k));
            }
            r
        }
    }

    fn bit_k(k: usize) -> (r: Self) {
        let s: u16 = (15 - k) as u16;
        let r: u16 = 1u16 << s;
        proof {
            assert forall|i: int| 0 <= i < 16 implies u16_bit(r, i) == (i == k) by {
                lemma_u16_shift(s, (15 - i) as u16);
            }
            assert(u16_seq(r) =~= unit(16, k as int));
        }
        r
    }

    fn popcnt(&self) -> (r: usize) {
        proof {
            lemma_count_bound(u16_seq(*self));
        }
        u16_count_ones(*self) as usize
    }

    fn parity(&self) -> (r: bool) {
        self.popcnt() % 2 != 0
    }

    fn splat(val: bool) -> (r: Self) {
        proof {
            lemma_u16_consts();
        }
        if val {
            0xffffu16
        } else {
            0
        }
    }

    fn not(self) -> (r: Self) {
        let mut r = self;
        r.lneg();
        r
    }
}

} // verus!
