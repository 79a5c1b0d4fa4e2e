//! Traits for logical operations on bitsets, including in-place negation.
use crate::bitseq::{seq_and, seq_not, seq_or, seq_xor};
use vstd::prelude::*;

verus! {

/// A value that stands for a bit sequence.
pub trait BitSeq: Sized {
    /// The bits of the value, first (most significant) bit at index 0.
    spec fn seq(&self) -> Seq<bool>;

    /// The representation invariant of the value.
    spec fn wf(&self) -> bool;

    /// The length class of the value. Two values combine only within one
    /// class; values of one class have bit sequences of one length.
    spec fn class(&self) -> nat;

    proof fn lemma_class_len(&self, other: &Self)
        requires
            self.wf(),
            other.wf(),
            self.class() == other.class(),
        ensures
            self.seq().len() == other.seq().len(),
    ;
}

/// In-place logical negation: `x.lneg()` is `x = !x`.
pub trait LNeg: BitSeq {
    fn lneg(&mut self)
        requires
            old(self).wf(),
        ensures
            final(self).wf(),
            final(self).class() == old(self).class(),
            final(self).seq() == seq_not(old(self).seq()),
    ;
}

/// Bitwise conjunction of two values of one class.
pub trait RefAnd: BitSeq {
    fn and(&self, rhs: &Self) -> (r: Self)
        requires
            self.wf(),
            rhs.wf(),
            self.class() == rhs.class(),
        ensures
            r.wf(),
            r.class() == self.class(),
            r.seq() == seq_and(self.seq(), rhs.seq()),
    ;
}

/// Bitwise disjunction of two values of one class.
pub trait RefOr: BitSeq {
    fn or(&self, rhs: &Self) -> (r: Self)
        requires
            self.wf(),
            rhs.wf(),
            self.class() == rhs.class(),
        ensures
            r.wf(),
            r.class() == self.class(),
            r.seq() == seq_or(self.seq(), rhs.seq()),
    ;
}

/// Bitwise exclusive or of two values of one class.
pub trait RefXor: BitSeq {
    fn xor(&self, rhs: &Self) -> (r: Self)
        requires
            self.wf(),
            rhs.wf(),
            self.class() == rhs.class(),
        ensures
            r.wf(),
            r.class() == self.class(),
            r.seq() == seq_xor(self.seq(), rhs.seq()),
    ;
}

/// The binary bit operations, by value and in place, and equality.
pub trait BitOps: RefAnd + RefOr + RefXor {
    fn and_assign(&mut self, rhs: &Self)
        requires
            old(self).wf(),
            rhs.wf(),
            old(self).class() == rhs.class(),
        ensures
            final(self).wf(),
            final(self).class() == old(self).class(),
            final(self).seq() == seq_and(old(self).seq(), rhs.seq()),
    ;

    fn or_assign(&mut self, rhs: &Self)
        requires
            old(self).wf(),
            rhs.wf(),
            old(self).class() == rhs.class(),
        ensures
            final(self).wf(),
            final(self).class() == old(self).class(),
            final(self).seq() == seq_or(old(self).seq(), rhs.seq()),
    ;

    fn xor_assign(&mut self, rhs: &Self)
        requires
            old(self).wf(),
            rhs.wf(),
            old(self).class() == rhs.class(),
        ensures
            final(self).wf(),
            final(self).class() == old(self).class(),
            final(self).seq() == seq_xor(old(self).seq(), rhs.seq()),
    ;

    /// Whether two values of one class hold the same bits.
    fn same(&self, rhs: &Self) -> (r: bool)
        requires
            self.wf(),
            rhs.wf(),
            self.class() == rhs.class(),
        ensures
            r == (self.seq() == rhs.seq()),
    ;
}

} // verus!
