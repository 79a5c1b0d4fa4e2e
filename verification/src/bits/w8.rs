//! The 8-bit word as a bitset.
use crate::bits::bit_traits::{BitOps, BitSeq, LNeg, RefAnd, RefOr, RefXor};
use crate::bits::Bits;
use crate::bitseq::{
    count_true, first_k, lemma_count_bound, ones, seq_and, seq_not, seq_or, seq_xor, unit, zeros,
};
use vstd::prelude::*;

verus! {

/// Bit `i` of `x`, counted from the most significant bit.
pub open spec fn u8_bit(x: u8, i: int) -> bool {
    (x >> ((7 - i) as u8)) & 1 == 1
}

/// The bits of `x`, most significant first.
pub open spec fn u8_seq(x: u8) -> Seq<bool> {
    Seq::new(8, |i: int| u8_bit(x, i))
}

proof fn lemma_u8_ops(a: u8, b: u8, s: u8)
    by (bit_vector)
    requires
        s < 8,
    ensures
        ((a & b) >> s) & 1 == 1 <==> ((a >> s) & 1 == 1 && (b >> s) & 1 == 1),
        ((a | b) >> s) & 1 == 1 <==> ((a >> s) & 1 == 1 || (b >> s) & 1 == 1),
        ((a ^ b) >> s) & 1 == 1 <==> (((a >> s) & 1 == 1) != ((b >> s) & 1 == 1)),
        ((!a) >> s) & 1 == 1 <==> !((a >> s) & 1 == 1),
        (0u8 >> s) & 1 != 1,
        (0xffu8 >> s) & 1 == 1,
        (1u8 >> s) & 1 == 1 <==> s == 0,
        a ^ b == 0 ==> a == b,
        a & !(0xffu8 >> 0u8) == 0,
{
}

proof fn lemma_u8_shift(k: u8, s: u8)
    by (bit_vector)
    requires
        k < 8,
        s < 8,
    ensures
        ((1u8 << k) >> s) & 1 == 1 <==> s == k,
        ((0xffu8 << k) >> s) & 1 == 1 <==> s >= k,
{
}

proof fn lemma_u8_clear_step(x: u8, k: u8)
    by (bit_vector)
    requires
        k < 8,
        x & !(0xffu8 >> k) == 0,
        (x >> ((7 - k) as u8)) & 1 != 1,
    ensures
        k < 7 ==> x & !(0xffu8 >> ((k + 1) as u8)) == 0,
        k == 7 ==> x == 0,
{
}

proof fn lemma_u8_clear(x: u8, k: u8)
    requires
        k < 8,
        forall|i: int| 0 <= i <= k ==> !u8_bit(x, i),
    ensures
        k < 7 ==> x & !(0xffu8 >> ((k + 1) as u8)) == 0,
        k == 7 ==> x == 0,
    decreases k,
{
    assert(!u8_bit(x, k as int));
    if k == 0 {
        lemma_u8_ops(x, x, 0);
    } else {
        lemma_u8_clear(x, (k - 1) as u8);
    }
    lemma_u8_clear_step(x, k);
}

/// Two words with the same bits are the same word.
pub proof fn lemma_u8_seq_injective(a: u8, b: u8)
    requires
        u8_seq(a) == u8_seq(b),
    ensures
        a == b,
{
    let x = a ^ b;
    assert forall|i: int| 0 <= i <= 7 implies !u8_bit(x, i) by {
        lemma_u8_ops(a, b, (7 - i) as u8);
        assert(u8_seq(a)[i] == u8_bit(a, i));
        assert(u8_seq(b)[i] == u8_bit(b, i));
    }
    lemma_u8_clear(x, 7);
    lemma_u8_ops(a, b, 0);
}

/// `u8::count_ones`: the number of ones in the binary representation.
#[verifier::external_body]
fn u8_count_ones(x: u8) -> (r: u32)
    ensures
        r == count_true(u8_seq(x)),
{
    x.count_ones()
}

/// The bits of the words 0, 1 and the largest one.
pub proof fn lemma_u8_consts()
    ensures
        u8_seq(0) == zeros(8),
        u8_seq(1) == unit(8, 7),
        u8_seq(0xffu8) == ones(8),
{
    assert forall|i: int| 0 <= i < 8 implies !u8_bit(0, i) && u8_bit(0xffu8, i) && (u8_bit(1, i) <==> i
        == 7) by {
        lemma_u8_ops(0, 0, (7 - i) as u8);
    }
    assert(u8_seq(0) =~= zeros(8));
    assert(u8_seq(1) =~= unit(8, 7));
    assert(u8_seq(0xffu8) =~= ones(8));
}

impl BitSeq for u8 {
    open spec fn seq(&self) -> Seq<bool> {
        u8_seq(*self)
    }

    open spec fn wf(&self) -> bool {
        true
    }

    open spec fn class(&self) -> nat {
        8
    }

    proof fn lemma_class_len(&self, other: &Self) {
    }
}

impl LNeg for u8 {
    fn lneg(&mut self) {
        let ghost a = *self;
        *self = !*self;
        proof {
            assert forall|i: int| 0 <= i < 8 implies u8_bit(!a, i) == !u8_bit(a, i) by {
                lemma_u8_ops(a, a, (7 - i) as u8);
            }
            assert(u8_seq(!a) =~= seq_not(u8_seq(a)));
        }
    }
}

impl RefAnd for u8 {
    fn and(&self, rhs: &Self) -> (r: Self) {
        let r = *self & *rhs;
        proof {
            assert forall|i: int| 0 <= i < 8 implies u8_bit(r, i) == (u8_bit(*self, i) && u8_bit(*rhs, i)) by {
                lemma_u8_ops(*self, *rhs, (7 - i) as u8);
            }
            assert(u8_seq(r) =~= seq_and(u8_seq(*self), u8_seq(*rhs)));
        }
        r
    }
}

impl RefOr for u8 {
    fn or(&self, rhs: &Self) -> (r: Self) {
        let r = *self | *rhs;
        proof {
            assert forall|i: int| 0 <= i < 8 implies u8_bit(r, i) == (u8_bit(*self, i) || u8_bit(*rhs, i)) by {
                lemma_u8_ops(*self, *rhs, (7 - i) as u8);
            }
            assert(u8_seq(r) =~= seq_or(u8_seq(*self), u8_seq(*rhs)));
        }
        r
    }
}

impl RefXor for u8 {
    fn xor(&self, rhs: &Self) -> (r: Self) {
        let r = *self ^ *rhs;
        proof {
            assert forall|i: int| 0 <= i < 8 implies u8_bit(r, i) == (u8_bit(*self, i) != u8_bit(*rhs, i)) by {
                lemma_u8_ops(*self, *rhs, (7 - i) as u8);
            }
            assert(u8_seq(r) =~= seq_xor(u8_seq(*self), u8_seq(*rhs)));
        }
        r
    }
}

impl BitOps for u8 {
    fn and_assign(&mut self, rhs: &Self) {
        *self = self.and(rhs);
    }

    fn or_assign(&mut self, rhs: &Self) {
        *self = self.or(rhs);
    }

    fn xor_assign(&mut self, rhs: &Self) {
        *self = self.xor(rhs);
    }

    fn same(&self, rhs: &Self) -> (r: bool) {
        proof {
            if u8_seq(*self) == u8_seq(*rhs) {
                lemma_u8_seq_injective(*self, *rhs);
            }
        }
        *self == *rhs
    }
}

impl Bits for u8 {
    const BITS: usize = 8;

    const SIZE_DESCRIPTOR: &'static str = "static 8";

    open spec fn descriptor() -> Seq<char> {
        "static 8"@
    }

    proof fn lemma_descriptor() {
    }

    proof fn lemma_word(x: Self) {
    }

    fn zero() -> (r: Self) {
        proof {
            lemma_u8_consts();
        }
        0
    }

    fn one() -> (r: Self) {
        proof {
            lemma_u8_consts();
        }
        1
    }

    fn max_value() -> (r: Self) {
        proof {
            lemma_u8_consts();
        }
        0xffu8
    }

    fn mask_first_k(k: usize) -> (r: Self) {
        if k == 0 {
            proof {
                lemma_u8_consts();
                assert(first_k(8, 0) =~= zeros(8));
            }
            0
        } else {
            let s: u8 = (8 - k) as u8;
            let r: u8 = 0xffu8 << s;
            proof {
                assert forall|i: int| 0 <= i < 8 implies u8_bit(r, i) == (i < k) by {
                    lemma_u8_shift(s, (7 - i) as u8);
                }
                assert(u8_seq(r) =~= first_k(8, k as int));
            }
            r
        }
    }

    fn mask_not_last_k(k: usize) -> (r: Self) {
        if k >= 8 {
            proof {
                lemma_u8_consts();
                assert(first_k(8, 8 - k) =~= zeros(8));
            }
            0
        } else {
            let s: u8 = k as u8;
            let r: u8 = 0xffu8 << s;
            proof {
                assert forall|i: int| 0 <= i < 8 implies u8_bit(r, i) == (i < 8 - k) by {
                    lemma_u8_shift(s, (7 - i) as u8);
                }
                assert(u8_seq(r) =~= first_k(8, 8 - k));
            }
            r
        }
    }

    fn bit_k(k: usize) -> (r: Self) {
        let s: u8 = (7 - k) as u8;
        let r: u8 = 1u8 << s;
        proof {
            assert forall|i: int| 0 <= i < 8 implies u8_bit(r, i) == (i == k) by {
                lemma_u8_shift(s, (7 - i) as u8);
            }
            assert(u8_seq(r) =~= unit(8, k as int));
        }
        r
    }

    fn popcnt(&self) -> (r: usize) {
        proof {
            lemma_count_bound(u8_seq(*self));
        }
        u8_count_ones(*self) as usize
    }

    fn parity(&self) -> (r: bool) {
        self.popcnt() % 2 != 0
    }

    fn splat(val: bool) -> (r: Self) {
        proof {
            lemma_u8_consts();
        }
        if val {
            0xffu8
        } else {
            0
        }
    }

    fn not(self) -> (r: Self) {
        let mut r = self;
        r.lneg();
        r
    }
}

} // verus!
