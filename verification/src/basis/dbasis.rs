//! Variable-width bases: as many 128-bit words as the qubits need.
use crate::basis::{Basis, BasisCore};
use crate::bits::bit_traits::{BitOps, BitSeq, RefAnd, RefOr, RefXor};
use crate::bits::w128::{lemma_u128_consts, lemma_u128_seq_injective, u128_seq};
use crate::bits::Bits;
use crate::bitseq::{
    all_false, count_true, first_k, lemma_count_bound, lemma_count_concat, lemma_count_zero_iff,
    parity, seq_and, seq_or, seq_xor, unit, zeros,
};
use vstd::prelude::*;

verus! {

/// The bits of a run of words, word 0 first.
pub open spec fn chunks_seq(chunks: Seq<u128>) -> Seq<bool>
    decreases chunks.len(),
{
    if chunks.len() == 0 {
        Seq::empty()
    } else {
        chunks_seq(chunks.drop_last()) + u128_seq(chunks.last())
    }
}

/// Bit `j` of a run of words is bit `j % 128` of word `j / 128`.
pub proof fn lemma_chunks_seq(chunks: Seq<u128>)
    ensures
        chunks_seq(chunks).len() == 128 * chunks.len(),
        forall|j: int|
            0 <= j < 128 * chunks.len() ==> #[trigger] chunks_seq(chunks)[j] == u128_seq(
                chunks[j / 128],
            )[j % 128],
    decreases chunks.len(),
{
    if chunks.len() > 0 {
        lemma_chunks_seq(chunks.drop_last());
        let rest = chunks_seq(chunks.drop_last());
        assert forall|j: int| 0 <= j < 128 * chunks.len() implies #[trigger] chunks_seq(chunks)[j]
            == u128_seq(chunks[j / 128])[j % 128] by {
            if j < rest.len() {
                assert(chunks_seq(chunks)[j] == rest[j]);
                assert(chunks.drop_last()[j / 128] == chunks[j / 128]);
            } else {
                assert(chunks_seq(chunks)[j] == u128_seq(chunks.last())[j - rest.len()]);
                assert(j / 128 == chunks.len() - 1);
                assert(j % 128 == j - rest.len());
            }
        }
    }
}

/// The number of words that hold `n` bits.
pub open spec fn words_for(n: int) -> int {
    (n + 127) / 128
}

/// A basis of any number of qubits. `len` is the number of qubits that it
/// was made for; bases of different `len` do not combine.
#[derive(Clone, Debug, Hash, PartialEq, Eq)]
pub struct DBasis {
    bits: Vec<u128>,
    len: usize,
}

impl BitSeq for DBasis {
    closed spec fn seq(&self) -> Seq<bool> {
        chunks_seq(self.bits@)
    }

    closed spec fn wf(&self) -> bool {
        &&& self.bits@.len() == words_for(self.len as int)
        &&& self.len + 128 <= usize::MAX
    }

    closed spec fn class(&self) -> nat {
        self.len as nat
    }

    proof fn lemma_class_len(&self, other: &Self) {
        lemma_chunks_seq(self.bits@);
        lemma_chunks_seq(other.bits@);
    }
}

impl DBasis {
    /// The number of qubits that the basis was made for.
    pub fn len(&self) -> (r: usize)
        ensures
            r == self.class(),
    {
        self.len
    }

    /// A basis holds 128 bits for each of its words.
    pub proof fn lemma_words(&self)
        requires
            self.wf(),
        ensures
            self.seq().len() == 128 * words_for(self.class() as int),
            self.class() <= self.seq().len(),
            self.seq().len() <= usize::MAX,
    {
        lemma_chunks_seq(self.bits@);
    }

    /// Applies a word operation to every pair of words.
    fn zip_with(&mut self, rhs: &Self, which: u8)
        requires
            old(self).wf(),
            rhs.wf(),
            old(self).class() == rhs.class(),
            which < 3,
        ensures
            final(self).wf(),
            final(self).class() == old(self).class(),
            which == 0 ==> final(self).seq() == seq_and(old(self).seq(), rhs.seq()),
            which == 1 ==> final(self).seq() == seq_or(old(self).seq(), rhs.seq()),
            which == 2 ==> final(self).seq() == seq_xor(old(self).seq(), rhs.seq()),
    {
        let n = self.bits.len();
        let ghost before = self.bits@;
        let mut i: usize = 0;
        while i < n
            invariant
                i <= n,
                n == self.bits@.len(),
                n == before.len(),
                n == rhs.bits@.len(),
                which < 3,
                self.len == old(self).len,
                before == old(self).bits@,
                forall|k: int| i <= k < n ==> self.bits@[k] == before[k],
                forall|k: int|
                    0 <= k < i ==> u128_seq(#[trigger] self.bits@[k]) == if which == 0 {
                        seq_and(u128_seq(before[k]), u128_seq(rhs.bits@[k]))
                    } else if which == 1 {
                        seq_or(u128_seq(before[k]), u128_seq(rhs.bits@[k]))
                    } else {
                        seq_xor(u128_seq(before[k]), u128_seq(rhs.bits@[k]))
                    },
            decreases n - i,
        {
            let word = self.bits[i];
            let other = rhs.bits[i];
            let new = if which == 0 {
                word.and(&other)
            } else if which == 1 {
                word.or(&other)
            } else {
                word.xor(&other)
            };
            self.bits[i] = new;
            i += 1;
        }
        proof {
            lemma_chunks_seq(self.bits@);
            lemma_chunks_seq(before);
            lemma_chunks_seq(rhs.bits@);
            let a = chunks_seq(before);
            let b = chunks_seq(rhs.bits@);
            let r = chunks_seq(self.bits@);
            assert forall|j: int| 0 <= j < r.len() implies r[j] == if which == 0 {
                a[j] && b[j]
            } else if which == 1 {
                a[j] || b[j]
            } else {
                a[j] != b[j]
            } by {
                let k = j / 128;
                assert(0 <= k < n);
                assert(u128_seq(self.bits@[k]) == if which == 0 {
                    seq_and(u128_seq(before[k]), u128_seq(rhs.bits@[k]))
                } else if which == 1 {
                    seq_or(u128_seq(before[k]), u128_seq(rhs.bits@[k]))
                } else {
                    seq_xor(u128_seq(before[k]), u128_seq(rhs.bits@[k]))
                });
            }
            if which == 0 {
                assert(r =~= seq_and(a, b));
            } else if which == 1 {
                assert(r =~= seq_or(a, b));
            } else {
                assert(r =~= seq_xor(a, b));
            }
        }
    }

    /// Sets bit `bit` to `to`.
    fn put(&mut self, bit: usize, to: bool)
        requires
            old(self).wf(),
            bit < old(self).seq().len(),
        ensures
            final(self).wf(),
            final(self).class() == old(self).class(),
            final(self).seq() == old(self).seq().update(bit as int, to),
    {
        proof {
            lemma_chunks_seq(self.bits@);
            <u128 as Bits>::lemma_word(0);
        }
        let chunk = bit / 128;
        let offset = bit % 128;
        let ghost before = self.bits@;
        let mask = <u128 as Bits>::bit_k(offset);
        let word = self.bits[chunk];
        let new = if to {
            word.or(&mask)
        } else {
            word.and(&mask.not())
        };
        self.bits[chunk] = new;
        proof {
            lemma_chunks_seq(self.bits@);
            assert(u128_seq(new) =~= u128_seq(word).update(offset as int, to));
            let a = chunks_seq(before);
            let r = chunks_seq(self.bits@);
            assert forall|j: int| 0 <= j < r.len() implies r[j] == a.update(bit as int, to)[j] by {
                let k = j / 128;
                if k != chunk {
                    assert(self.bits@[k] == before[k]);
                }
            }
            assert(r =~= a.update(bit as int, to));
        }
    }
}

impl RefAnd for DBasis {
    fn and(&self, rhs: &Self) -> (r: Self) {
        let mut new = self.duplicate();
        new.zip_with(rhs, 0);
        new
    }
}

impl RefOr for DBasis {
    fn or(&self, rhs: &Self) -> (r: Self) {
        let mut new = self.duplicate();
        new.zip_with(rhs, 1);
        new
    }
}

impl RefXor for DBasis {
    fn xor(&self, rhs: &Self) -> (r: Self) {
        let mut new = self.duplicate();
        new.zip_with(rhs, 2);
        new
    }
}

impl BitOps for DBasis {
    fn and_assign(&mut self, rhs: &Self) {
        self.zip_with(rhs, 0);
    }

    fn or_assign(&mut self, rhs: &Self) {
        self.zip_with(rhs, 1);
    }

    fn xor_assign(&mut self, rhs: &Self) {
        self.zip_with(rhs, 2);
    }

    fn same(&self, rhs: &Self) -> (r: bool) {
        let n = self.bits.len();
        proof {
            lemma_chunks_seq(self.bits@);
            lemma_chunks_seq(rhs.bits@);
        }
        let mut i: usize = 0;
        while i < n
            invariant
                i <= n,
                n == self.bits@.len(),
                n == rhs.bits@.len(),
                forall|k: int| 0 <= k < i ==> self.bits@[k] == rhs.bits@[k],
            decreases n - i,
        {
            if self.bits[i] != rhs.bits[i] {
                proof {
                    lemma_chunks_seq(self.bits@);
                    lemma_chunks_seq(rhs.bits@);
                    if self.seq() == rhs.seq() {
                        let a = self.bits@[i as int];
                        let b = rhs.bits@[i as int];
                        assert forall|m: int| 0 <= m < 128 implies u128_seq(a)[m] == u128_seq(b)[m] by {
                            let j = 128 * i + m;
                            assert(j / 128 == i);
                            assert(j % 128 == m);
                            assert(chunks_seq(self.bits@)[j] == u128_seq(a)[m]);
                            assert(chunks_seq(rhs.bits@)[j] == u128_seq(b)[m]);
                        }
                        assert(u128_seq(a) =~= u128_seq(b));
                        lemma_u128_seq_injective(a, b);
                    }
                }
                return false;
            }
            i += 1;
        }
        assert(self.bits@ =~= rhs.bits@);
        true
    }
}

impl BasisCore for DBasis {
    fn _bit_capacity(&self) -> (r: usize) {
        proof {
            self.lemma_words();
        }
        128 * self.bits.len()
    }

    fn assert_same_length(&self, other: &Self) {
    }

    fn bitand_unchecked(&mut self, rhs: &Self) {
        self.zip_with(rhs, 0);
    }

    fn bitor_unchecked(&mut self, rhs: &Self) {
        self.zip_with(rhs, 1);
    }

    fn bitxor_unchecked(&mut self, rhs: &Self) {
        self.zip_with(rhs, 2);
    }
}

impl Basis for DBasis {
    type B = u128;

    open spec fn fits(bit_length: usize) -> bool {
        bit_length + 128 <= usize::MAX
    }

    open spec fn class_of(bit_length: usize) -> nat {
        bit_length as nat
    }

    open spec fn capacity_of(bit_length: usize) -> nat {
        (128 * words_for(bit_length as int)) as nat
    }

    fn can_hold(bit_length: usize) -> (r: bool) {
        bit_length <= usize::MAX - 128
    }

    fn capacity_for(bit_length: usize) -> (r: usize) {
        128 * ((bit_length + 127) / 128)
    }

    proof fn lemma_fits(bit_length: usize) {
    }

    proof fn lemma_capacity(&self, bit_length: usize) {
        self.lemma_words();
    }

    fn bit_capacity(&self) -> (r: usize) {
        self._bit_capacity()
    }

    fn is_zero(&self) -> (r: bool) {
        let n = self.bits.len();
        proof {
            lemma_chunks_seq(self.bits@);
        }
        let mut i: usize = 0;
        while i < n
            invariant
                i <= n,
                n == self.bits@.len(),
                forall|k: int| 0 <= k < i ==> self.bits@[k] == 0,
            decreases n - i,
        {
            if self.bits[i] != 0 {
                proof {
                    lemma_chunks_seq(self.bits@);
                    lemma_u128_consts();
                    let a = self.bits@[i as int];
                    if all_false(self.seq()) {
                        assert forall|m: int| 0 <= m < 128 implies !u128_seq(a)[m] by {
                            let j = 128 * i + m;
                            assert(j / 128 == i);
                            assert(j % 128 == m);
                            assert(chunks_seq(self.bits@)[j] == u128_seq(a)[m]);
                        }
                        assert(u128_seq(a) =~= zeros(128));
                        lemma_u128_seq_injective(a, 0);
                    }
                }
                return false;
            }
            i += 1;
        }
        proof {
            lemma_u128_consts();
            assert forall|j: int| 0 <= j < self.seq().len() implies !self.seq()[j] by {
                assert(self.bits@[j / 128] == 0);
            }
        }
        true
    }

    open spec fn descriptor() -> Seq<char> {
        "dynamic"@
    }

    fn size_descriptor() -> (r: &'static str) {
        "dynamic"
    }

    fn n_chunks(&self) -> (r: usize) {
        proof {
            self.lemma_words();
            <u128 as Bits>::lemma_word(0);
        }
        self.bits.len()
    }

    fn zero(bit_length: usize) -> (r: Self) {
        let count = (bit_length + 127) / 128;
        let mut bits: Vec<u128> = Vec::with_capacity(count);
        let mut i: usize = 0;
        while i < count
            invariant
                i <= count,
                bits@.len() == i,
                forall|k: int| 0 <= k < i ==> bits@[k] == 0,
            decreases count - i,
        {
            bits.push(0);
            i += 1;
        }
        let r = Self { bits, len: bit_length };
        proof {
            lemma_chunks_seq(r.bits@);
            lemma_u128_consts();
            assert(r.seq() =~= zeros((128 * words_for(bit_length as int)) as nat));
        }
        r
    }

    fn one(bit_length: usize) -> (r: Self) {
        let mut new = Self::zero(bit_length);
        proof {
            new.lemma_words();
        }
        let ghost cap = new.seq().len();
        let mut bit: usize = 0;
        while bit < bit_length
            invariant
                bit <= bit_length <= cap,
                new.wf(),
                new.class() == bit_length,
                new.seq() == first_k(cap, bit as int),
            decreases bit_length - bit,
        {
            new.put(bit, true);
            assert(new.seq() =~= first_k(cap, bit + 1));
            bit += 1;
        }
        new
    }

    fn one_bit(bit_length: usize, bit: usize) -> (r: Self) {
        let mut new = Self::zero(bit_length);
        proof {
            new.lemma_words();
        }
        new.put(bit, true);
        assert(new.seq() =~= unit(Self::capacity_of(bit_length), bit as int));
        new
    }

    fn set_zero(&mut self) {
        let n = self.bits.len();
        let mut i: usize = 0;
        while i < n
            invariant
                i <= n,
                n == self.bits@.len(),
                self.wf(),
                self.len == old(self).len,
                forall|k: int| 0 <= k < i ==> self.bits@[k] == 0,
            decreases n - i,
        {
            self.bits[i] = 0;
            i += 1;
        }
        proof {
            lemma_chunks_seq(self.bits@);
            lemma_chunks_seq(old(self).bits@);
            lemma_u128_consts();
            assert(self.seq() =~= zeros(old(self).seq().len()));
        }
    }

    fn bit_k(bit_length: usize, bit: usize) -> (r: Self) {
        Self::one_bit(bit_length, bit)
    }

    fn with_true_bits(bit_length: usize, bits: &[usize]) -> (r: Self) {
        let mut new = Self::zero(bit_length);
        proof {
            new.lemma_words();
        }
        let ghost cap = Self::capacity_of(bit_length);
        let mut j: usize = 0;
        while j < bits.len()
            invariant
                j <= bits@.len(),
                cap == Self::capacity_of(bit_length),
                forall|j: int| 0 <= j < bits@.len() ==> bits@[j] < cap,
                new.wf(),
                new.class() == bit_length,
                new.seq() == Seq::new(cap, |i: int| exists|l: int| 0 <= l < j && bits@[l] == i),
            decreases bits@.len() - j,
        {
            let ghost before = new.seq();
            new.put(bits[j], true);
            assert(new.seq() =~= Seq::new(cap, |i: int| exists|l: int| 0 <= l < j + 1 && bits@[l] == i)) by {
                assert forall|i: int| 0 <= i < cap implies new.seq()[i] == (exists|l: int|
                    0 <= l < j + 1 && bits@[l] == i) by {
                    if before[i] {
                        let l = choose|l: int| 0 <= l < j && bits@[l] == i;
                        assert(0 <= l < j + 1 && bits@[l] == i);
                    }
                    if i == bits@[j as int] {
                        assert(0 <= j < j + 1 && bits@[j as int] == i);
                    }
                }
            }
            j += 1;
        }
        new
    }

    fn chunk(&self, i: usize) -> (r: u128) {
        proof {
            lemma_chunks_seq(self.bits@);
            <u128 as Bits>::lemma_word(0);
        }
        let r = self.bits[i];
        proof {
            let part = self.seq().subrange(i * 128, (i + 1) * 128);
            assert forall|m: int| 0 <= m < 128 implies u128_seq(r)[m] == part[m] by {
                let j = 128 * i + m;
                assert(j / 128 == i);
                assert(j % 128 == m);
            }
            assert(u128_seq(r) =~= part);
        }
        r
    }

    fn set_bit(&mut self, bit: usize, to: bool) {
        self.put(bit, to);
    }

    fn set_bit_true(&mut self, bit: usize) {
        self.put(bit, true);
    }

    fn set_bit_false(&mut self, bit: usize) {
        self.put(bit, false);
    }

    fn get_bit(&self, bit: usize) -> (r: bool) {
        proof {
            lemma_chunks_seq(self.bits@);
            <u128 as Bits>::lemma_word(0);
            lemma_u128_consts();
        }
        let chunk = bit / 128;
        let offset = bit % 128;
        let mask = <u128 as Bits>::bit_k(offset);
        let hit = self.bits[chunk].and(&mask);
        proof {
            lemma_count_zero_iff(u128_seq(hit));
            if u128_seq(self.bits@[chunk as int])[offset as int] {
                assert(u128_seq(hit)[offset as int]);
            }
            if u128_seq(hit) == zeros(128) {
                lemma_u128_seq_injective(hit, 0);
            }
        }
        hit != 0
    }

    fn popcnt(&self) -> (r: usize) {
        let n = self.bits.len();
        let mut total: usize = 0;
        let mut i: usize = 0;
        proof {
            self.lemma_words();
            assert(self.bits@.take(0) =~= Seq::<u128>::empty());
        }
        while i < n
            invariant
                i <= n,
                n == self.bits@.len(),
                128 * n <= usize::MAX,
                total == count_true(chunks_seq(self.bits@.take(i as int))),
                total <= 128 * i,
            decreases n - i,
        {
            proof {
                assert(self.bits@.take(i + 1).drop_last() =~= self.bits@.take(i as int));
                lemma_count_concat(
                    chunks_seq(self.bits@.take(i as int)),
                    u128_seq(self.bits@[i as int]),
                );
                lemma_count_bound(u128_seq(self.bits@[i as int]));
            }
            total += self.bits[i].popcnt();
            i += 1;
        }
        assert(self.bits@.take(n as int) =~= self.bits@);
        total
    }

    fn parity(&self) -> (r: bool) {
        self.popcnt() % 2 != 0
    }

    fn duplicate(&self) -> (r: Self) {
        let n = self.bits.len();
        let mut bits: Vec<u128> = Vec::with_capacity(n);
        let mut i: usize = 0;
        while i < n
            invariant
                i <= n,
                n == self.bits@.len(),
                bits@ == self.bits@.take(i as int),
            decreases n - i,
        {
            bits.push(self.bits[i]);
            assert(bits@ =~= self.bits@.take(i + 1));
            i += 1;
        }
        assert(bits@ =~= self.bits@);
        Self { bits, len: self.len }
    }
}

} // verus!
