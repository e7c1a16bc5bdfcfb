use vstd::prelude::*;
use crate::common::Error;

verus! {

/// Read access to guest physical memory.
pub trait MemoryView: Sized {
    /// The view's own consistency, kept by every read.
    open spec fn inv(&self) -> bool {
        true
    }

    /// What a read of `size` bytes at `offset` may hand back: the bytes read,
    /// or `None` for a failed read.
    open spec fn admits(&self, offset: int, size: int, out: Option<Seq<u8>>) -> bool {
        true
    }

    /// Reads `block_size` bytes at guest physical `offset` into a new buffer.
    fn read_block(&mut self, offset: usize, block_size: usize) -> (r: Result<Vec<u8>, Error>)
        requires
            old(self).inv(),
        ensures
            final(self).inv(),
            forall|o: int, s: int, out: Option<Seq<u8>>| #[trigger] final(self).admits(o, s, out)
                == old(self).admits(o, s, out),
            match r {
                Ok(v) => v@.len() == block_size && old(self).admits(
                    offset as int,
                    block_size as int,
                    Some(v@),
                ),
                Err(e) => e == Error::FailedToReadBlock && old(self).admits(
                    offset as int,
                    block_size as int,
                    None,
                ),
            },
    ;

    /// Reads `block_size` bytes at guest physical `offset` into the front of `block`.
    fn read_block_inplace(&mut self, offset: usize, block_size: usize, block: &mut [u8]) -> (r:
        Result<(), Error>)
        requires
            old(self).inv(),
            block_size <= old(block)@.len(),
        ensures
            final(self).inv(),
            forall|o: int, s: int, out: Option<Seq<u8>>| #[trigger] final(self).admits(o, s, out)
                == old(self).admits(o, s, out),
            final(block)@.len() == old(block)@.len(),
            match r {
                Ok(_) => old(self).admits(
                    offset as int,
                    block_size as int,
                    Some(final(block)@.subrange(0, block_size as int)),
                ),
                Err(e) => e == Error::FailedToReadBlock && old(self).admits(
                    offset as int,
                    block_size as int,
                    None,
                ),
            },
    ;
}

/// Every read has exactly one admitted outcome, as for memory whose contents
/// do not change.
pub open spec fn deterministic<M: MemoryView>(m: M) -> bool {
    &&& forall|o: int, s: int| #[trigger] m.admits(o, s, read_result(m, o, s))
    &&& forall|o: int, s: int, a: Option<Seq<u8>>, b: Option<Seq<u8>>|
        #[trigger] m.admits(o, s, a) && #[trigger] m.admits(o, s, b) ==> a == b
}

/// The admitted outcome of reading `size` bytes at `offset`.
pub open spec fn read_result<M: MemoryView>(m: M, offset: int, size: int) -> Option<Seq<u8>> {
    choose|out: Option<Seq<u8>>| m.admits(offset, size, out)
}

/// Whether, when `exact` holds, every outcome that `m` admits is the one `rd` gives.
pub open spec fn reads_follow<M: MemoryView>(
    m: M,
    exact: bool,
    rd: spec_fn(int, int) -> Option<Seq<u8>>,
) -> bool {
    exact ==> forall|o: int, s: int, out: Option<Seq<u8>>| #[trigger] m.admits(o, s, out) ==> out
        == rd(o, s)
}

/// A memory view over an in-memory byte buffer starting at guest physical address 0.
pub struct MemoryViewFromArray {
    pub data: Vec<u8>,
}

impl MemoryViewFromArray {
    pub fn from(data: &[u8]) -> (r: Self)
        ensures
            r.data@ == data@,
    {
        let mut v: Vec<u8> = Vec::with_capacity(data.len());
        let mut i: usize = 0;
        while i < data.len()
            invariant
                i <= data@.len(),
                v@ == data@.subrange(0, i as int),
            decreases data@.len() - i,
        {
            v.push(data[i]);
            i += 1;
            proof {
                assert(v@ =~= data@.subrange(0, i as int));
            }
        }
        MemoryViewFromArray { data: v }
    }
}

impl MemoryView for MemoryViewFromArray {
    open spec fn inv(&self) -> bool {
        true
    }

    /// A read succeeds exactly when it lies inside the buffer, and then returns its bytes.
    open spec fn admits(&self, offset: int, size: int, out: Option<Seq<u8>>) -> bool {
        match out {
            Some(b) => offset + size <= self.data@.len() && b == self.data@.subrange(
                offset,
                offset + size,
            ),
            None => offset + size > self.data@.len(),
        }
    }

    fn read_block(&mut self, offset: usize, block_size: usize) -> (r: Result<Vec<u8>, Error>) {
        if offset > self.data.len() || block_size > self.data.len() - offset {
            return Err(Error::FailedToReadBlock);
        }
        let n = self.data.len();
        let mut v: Vec<u8> = Vec::with_capacity(block_size);
        let mut i: usize = 0;
        while i < block_size
            invariant
                n == self.data@.len(),
                offset + block_size <= self.data@.len(),
                i <= block_size,
                v@ == self.data@.subrange(offset as int, offset + i),
            decreases block_size - i,
        {
            v.push(self.data[offset + i]);
            i += 1;
            proof {
                assert(v@ =~= self.data@.subrange(offset as int, offset + i));
            }
        }
        Ok(v)
    }

    fn read_block_inplace(&mut self, offset: usize, block_size: usize, block: &mut [u8]) -> (r:
        Result<(), Error>) {
        if offset > self.data.len() || block_size > self.data.len() - offset {
            return Err(Error::FailedToReadBlock);
        }
        let n = self.data.len();
        let mut i: usize = 0;
        while i < block_size
            invariant
                n == self.data@.len(),
                offset + block_size <= self.data@.len(),
                block_size <= block@.len(),
                block@.len() == old(block)@.len(),
                i <= block_size,
                block@.subrange(0, i as int) == self.data@.subrange(offset as int, offset + i),
            decreases block_size - i,
        {
            block[i] = self.data[offset + i];
            i += 1;
            proof {
                assert(block@.subrange(0, i as int) =~= self.data@.subrange(
                    offset as int,
                    offset + i,
                ));
            }
        }
        Ok(())
    }
}

/// Reads of an in-memory buffer have exactly one outcome each.
pub proof fn lemma_array_view_deterministic(m: MemoryViewFromArray)
    ensures
        deterministic(m),
{
    assert forall|o: int, s: int| #[trigger] m.admits(o, s, read_result(m, o, s)) by {
        let witness: Option<Seq<u8>> = if o + s <= m.data@.len() {
            Some(m.data@.subrange(o, o + s))
        } else {
            None
        };
        assert(m.admits(o, s, witness));
    }
}

/// The outcome of a positional read that asked for `expected` bytes and
/// returned `read` of them, or failed (`None`): success only when every
/// requested byte came back.
pub fn read_outcome(read: Option<usize>, expected: usize) -> (r: Result<(), Error>)
    ensures
        r == (if read == Some(expected) {
            Ok::<(), Error>(())
        } else {
            Err(Error::FailedToReadBlock)
        }),
{
    match read {
        Some(n) => {
            if n == expected {
                Ok(())
            } else {
                Err(Error::FailedToReadBlock)
            }
        },
        None => Err(Error::FailedToReadBlock),
    }
}

} // verus!
