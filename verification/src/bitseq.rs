//! Bit sequences: the mathematical model of every bitset in this crate.
//!
//! A bitset of width `W` is a `Seq<bool>` of length `W`; index 0 is the first
//! (most significant) bit.
use vstd::prelude::*;

verus! {

/// Number of `true` entries of `s`.
pub open spec fn count_true(s: Seq<bool>) -> nat
    decreases s.len(),
{
    if s.len() == 0 {
        0
    } else {
        count_true(s.drop_last()) + if s.last() {
            1nat
        } else {
            0nat
        }
    }
}

/// The all-`false` sequence of length `n`.
pub open spec fn zeros(n: nat) -> Seq<bool> {
    Seq::new(n, |i: int| false)
}

/// The all-`true` sequence of length `n`.
pub open spec fn ones(n: nat) -> Seq<bool> {
    Seq::new(n, |i: int| true)
}

/// The sequence of length `n` whose only `true` entry is at index `k`.
pub open spec fn unit(n: nat, k: int) -> Seq<bool> {
    Seq::new(n, |i: int| i == k)
}

/// The sequence of length `n` whose first `k` entries are `true`.
pub open spec fn first_k(n: nat, k: int) -> Seq<bool> {
    Seq::new(n, |i: int| i < k)
}

/// Pointwise conjunction; the result has the length of `a`.
pub open spec fn seq_and(a: Seq<bool>, b: Seq<bool>) -> Seq<bool> {
    Seq::new(a.len(), |i: int| a[i] && b[i])
}

/// Pointwise disjunction; the result has the length of `a`.
pub open spec fn seq_or(a: Seq<bool>, b: Seq<bool>) -> Seq<bool> {
    Seq::new(a.len(), |i: int| a[i] || b[i])
}

/// Pointwise exclusive or; the result has the length of `a`.
pub open spec fn seq_xor(a: Seq<bool>, b: Seq<bool>) -> Seq<bool> {
    Seq::new(a.len(), |i: int| a[i] != b[i])
}

/// Pointwise negation.
pub open spec fn seq_not(a: Seq<bool>) -> Seq<bool> {
    Seq::new(a.len(), |i: int| !a[i])
}

/// Whether the number of `true` entries is odd.
pub open spec fn parity(s: Seq<bool>) -> bool {
    count_true(s) % 2 == 1
}

/// No entry of `s` is `true` at index `n` or above.
pub open spec fn within(s: Seq<bool>, n: int) -> bool {
    forall|i: int| 0 <= i < s.len() && n <= i ==> !s[i]
}

/// Whether every entry is `false`.
pub open spec fn all_false(s: Seq<bool>) -> bool {
    forall|i: int| 0 <= i < s.len() ==> !s[i]
}

/// A sequence has no more `true` entries than entries.
pub proof fn lemma_count_bound(s: Seq<bool>)
    ensures
        count_true(s) <= s.len(),
    decreases s.len(),
{
    if s.len() > 0 {
        lemma_count_bound(s.drop_last());
    }
}

/// The all-`false` sequence counts zero.
pub proof fn lemma_count_zeros(n: nat)
    ensures
        count_true(zeros(n)) == 0,
    decreases n,
{
    if n > 0 {
        lemma_count_zeros((n - 1) as nat);
        assert(zeros(n).drop_last() =~= zeros((n - 1) as nat));
    }
}

/// The all-`true` sequence counts its length.
pub proof fn lemma_count_ones(n: nat)
    ensures
        count_true(ones(n)) == n,
    decreases n,
{
    if n > 0 {
        lemma_count_ones((n - 1) as nat);
        assert(ones(n).drop_last() =~= ones((n - 1) as nat));
    }
}

/// The sequence whose first `k` entries are `true` counts `k`.
pub proof fn lemma_count_first_k(n: nat, k: int)
    requires
        0 <= k <= n,
    ensures
        count_true(first_k(n, k)) == k,
    decreases n,
{
    if n > 0 {
        if k == n {
            lemma_count_first_k((n - 1) as nat, k - 1);
            assert(first_k(n, k).drop_last() =~= first_k((n - 1) as nat, k - 1));
        } else {
            lemma_count_first_k((n - 1) as nat, k);
            assert(first_k(n, k).drop_last() =~= first_k((n - 1) as nat, k));
        }
    }
}

/// A sequence with one `true` entry counts one.
pub proof fn lemma_count_unit(n: nat, k: int)
    requires
        0 <= k < n,
    ensures
        count_true(unit(n, k)) == 1,
    decreases n,
{
    if k == n - 1 {
        lemma_count_zeros((n - 1) as nat);
        assert(unit(n, k).drop_last() =~= zeros((n - 1) as nat));
    } else {
        lemma_count_unit((n - 1) as nat, k);
        assert(unit(n, k).drop_last() =~= unit((n - 1) as nat, k));
    }
}

/// A sequence counts zero exactly when all its entries are `false`.
pub proof fn lemma_count_zero_iff(s: Seq<bool>)
    ensures
        count_true(s) == 0 <==> all_false(s),
        all_false(s) <==> s == zeros(s.len()),
    decreases s.len(),
{
    if s.len() > 0 {
        lemma_count_zero_iff(s.drop_last());
        if all_false(s) {
            assert forall|i: int| 0 <= i < s.drop_last().len() implies !s.drop_last()[i] by {
                assert(s.drop_last()[i] == s[i]);
            }
        }
        if count_true(s) == 0 {
            assert forall|i: int| 0 <= i < s.len() implies !s[i] by {
                if i < s.len() - 1 {
                    assert(s.drop_last()[i] == s[i]);
                }
            }
        }
    }
    if all_false(s) {
        assert(s =~= zeros(s.len()));
    }
}

/// The count of a concatenation is the sum of the counts.
pub proof fn lemma_count_concat(a: Seq<bool>, b: Seq<bool>)
    ensures
        count_true(a + b) == count_true(a) + count_true(b),
    decreases b.len(),
{
    if b.len() == 0 {
        assert(a + b =~= a);
    } else {
        lemma_count_concat(a, b.drop_last());
        assert((a + b).drop_last() =~= a + b.drop_last());
    }
}

/// Changing one entry from `false` to `true` raises the count by one.
pub proof fn lemma_count_update(s: Seq<bool>, k: int, v: bool)
    requires
        0 <= k < s.len(),
    ensures
        count_true(s.update(k, v)) + (if s[k] { 1nat } else { 0nat }) == count_true(s) + (if v { 1nat } else { 0nat }),
    decreases s.len(),
{
    if k == s.len() - 1 {
        assert(s.update(k, v).drop_last() =~= s.drop_last());
    } else {
        lemma_count_update(s.drop_last(), k, v);
        assert(s.update(k, v).drop_last() =~= s.drop_last().update(k, v));
    }
}

/// Inclusion-exclusion for exclusive or.
pub proof fn lemma_count_xor(a: Seq<bool>, b: Seq<bool>)
    requires
        a.len() == b.len(),
    ensures
        count_true(seq_xor(a, b)) + 2 * count_true(seq_and(a, b)) == count_true(a) + count_true(b),
    decreases a.len(),
{
    if a.len() > 0 {
        lemma_count_xor(a.drop_last(), b.drop_last());
        assert(seq_xor(a, b).drop_last() =~= seq_xor(a.drop_last(), b.drop_last()));
        assert(seq_and(a, b).drop_last() =~= seq_and(a.drop_last(), b.drop_last()));
    }
}

/// Of the words of width `w` and every `k` below `w`: the word with only
/// bit `k` set has one set bit, the mask of the first `k` bits has `k` set
/// bits, and the mask without the last `k` bits has `w - k`.
pub proof fn lemma_mask_counts(w: nat, k: int)
    requires
        0 <= k < w,
    ensures
        count_true(unit(w, k)) == 1,
        count_true(first_k(w, k)) == k,
        count_true(first_k(w, w - k)) == w - k,
{
    lemma_count_unit(w, k);
    lemma_count_first_k(w, k);
    lemma_count_first_k(w, w - k);
}

/// The parity of a word is the number of its set bits modulo two.
pub proof fn lemma_parity_count(s: Seq<bool>)
    ensures
        parity(s) == (count_true(s) % 2 == 1),
        !parity(s) == (count_true(s) % 2 == 0),
{
}

/// Conjunction is commutative.
pub proof fn lemma_and_comm(a: Seq<bool>, b: Seq<bool>)
    requires
        a.len() == b.len(),
    ensures
        seq_and(a, b) == seq_and(b, a),
{
    assert(seq_and(a, b) =~= seq_and(b, a));
}

} // verus!
