//! Going through a slice in chunks of a size that is known at compile time.
use vstd::pervasive::cloned;
use vstd::prelude::*;

verus! {

/// A slice that is handed out chunk by chunk.
pub struct IterChunks<'a, T, const CHUNK_SIZE: usize> {
    slice: &'a [T],
    index: usize,
}

/// `<&[T; N]>::try_from` on a slice of length `N`: the same elements as an
/// array.
#[verifier::external_body]
fn as_chunk<'a, T, const N: usize>(slice: &'a [T]) -> (r: &'a [T; N])
    requires
        slice@.len() == N,
    ensures
        r@ == slice@,
{
    <&[T; N]>::try_from(slice).unwrap()
}

impl<'a, T, const CHUNK_SIZE: usize> IterChunks<'a, T, CHUNK_SIZE> {
    /// The elements of the whole slice.
    pub closed spec fn elements(&self) -> Seq<T> {
        self.slice@
    }

    /// The number of elements that were handed out.
    pub closed spec fn position(&self) -> int {
        self.index as int
    }

    /// The position lies within the slice.
    #[verifier::type_invariant]
    spec fn inv(self) -> bool {
        self.index <= self.slice@.len()
    }

    /// An iterator over the chunks of `slice`, at its start.
    pub fn new(slice: &'a [T]) -> (r: Self)
        ensures
            r.elements() == slice@,
            r.position() == 0,
    {
        Self { slice, index: 0 }
    }

    /// The next chunk, if more elements than a chunk holds are left.
    pub fn next_chunk(&mut self) -> (r: Option<&'a [T; CHUNK_SIZE]>)
        ensures
            final(self).elements() == old(self).elements(),
            0 <= old(self).position() <= old(self).elements().len(),
            match r {
                Some(chunk) => {
                    &&& old(self).position() + CHUNK_SIZE < old(self).elements().len()
                    &&& chunk@ == old(self).elements().subrange(
                        old(self).position(),
                        old(self).position() + CHUNK_SIZE,
                    )
                    &&& final(self).position() == old(self).position() + CHUNK_SIZE
                },
                None => {
                    &&& old(self).position() + CHUNK_SIZE >= old(self).elements().len()
                    &&& final(self).position() == old(self).position()
                },
            },
    {
        proof {
            use_type_invariant(&*self);
        }
        let start = self.index;
        if CHUNK_SIZE >= self.slice.len() - start {
            None
        } else {
            let end = start + CHUNK_SIZE;
            self.index = end;
            let (head, rest) = self.slice.split_at(start);
            let (part, tail) = rest.split_at(CHUNK_SIZE);
            assert(part@ =~= self.slice@.subrange(start as int, end as int));
            Some(as_chunk(part))
        }
    }

    /// The elements that are left; after it none are.
    pub fn remainder(&mut self) -> (r: &'a [T])
        ensures
            final(self).elements() == old(self).elements(),
            0 <= old(self).position() <= old(self).elements().len(),
            r@ == old(self).elements().skip(old(self).position()),
            final(self).position() == old(self).elements().len(),
    {
        proof {
            use_type_invariant(&*self);
        }
        let start = self.index;
        let (head, rest) = self.slice.split_at(start);
        self.index = self.slice.len();
        assert(rest@ =~= self.slice@.skip(start as int));
        rest
    }
}

impl<'a, T: Clone, const CHUNK_SIZE: usize> IterChunks<'a, T, CHUNK_SIZE> {
    /// Copies the next chunk into `chunk`, if more elements than a chunk
    /// holds are left; says whether it did.
    pub fn next_chunk_into(&mut self, chunk: &mut [T; CHUNK_SIZE]) -> (r: bool)
        ensures
            final(self).elements() == old(self).elements(),
            0 <= old(self).position() <= old(self).elements().len(),
            r == (old(self).position() + CHUNK_SIZE < old(self).elements().len()),
            r ==> final(self).position() == old(self).position() + CHUNK_SIZE && forall|i: int|
                0 <= i < CHUNK_SIZE ==> cloned(
                    #[trigger] old(self).elements()[old(self).position() + i],
                    final(chunk)@[i],
                ),
            !r ==> final(self).position() == old(self).position() && final(chunk)@ == old(chunk)@,
    {
        proof {
            use_type_invariant(&*self);
        }
        let start = self.index;
        if CHUNK_SIZE >= self.slice.len() - start {
            false
        } else {
            self.index = start + CHUNK_SIZE;
            let n = self.slice.len();
            let mut i: usize = 0;
            while i < CHUNK_SIZE
                invariant
                    i <= CHUNK_SIZE,
                    n == self.slice@.len(),
                    start + CHUNK_SIZE < n,
                    forall|k: int|
                        0 <= k < i ==> cloned(#[trigger] self.slice@[start + k], chunk@[k]),
                decreases CHUNK_SIZE - i,
            {
                chunk[i] = self.slice[start + i].clone();
                i += 1;
            }
            true
        }
    }
}

/// Starts going through `slice` in chunks of `CHUNK_SIZE` elements.
pub fn chunks<const CHUNK_SIZE: usize, T>(slice: &[T]) -> (r: IterChunks<'_, T, CHUNK_SIZE>)
    ensures
        r.elements() == slice@,
        r.position() == 0,
{
    IterChunks::new(slice)
}

} // verus!
