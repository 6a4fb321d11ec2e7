//! The page: the smallest unit of buffered data, first mutable, then frozen.

use crate::buf::{bytes_mut_view, bytes_view, copy_into, zeros};
use bytes::{Bytes, BytesMut};
use vstd::prelude::*;

verus! {

/// What can go wrong when data is written into or collected from a buffer.
#[derive(Debug, Clone, Copy, PartialEq, Eq, Structural)]
pub enum CacheError {
    /// An append would make the buffer longer than its chunk.
    ChunkOverflow,
    /// A write reached a page that has been frozen.
    FrozenPageWrite,
    /// A page was read before it was frozen.
    ReadBeforeFreeze,
}

enum PageBuf {
    Mutable(BytesMut),
    Frozen(Bytes),
}

/// A fixed-size page of a chunk's write buffer.
pub struct Page {
    data: PageBuf,
}

impl Page {
    /// The bytes the page holds.
    pub closed spec fn contents(&self) -> Seq<u8> {
        match self.data {
            PageBuf::Mutable(b) => bytes_mut_view(b),
            PageBuf::Frozen(b) => bytes_view(b),
        }
    }

    /// Whether the page has been frozen.
    pub closed spec fn frozen(&self) -> bool {
        self.data is Frozen
    }

    /// A mutable page of `size` zero bytes.
    pub fn new(size: usize) -> (r: Page)
        ensures
            r.contents() == zeros(size as nat),
            !r.frozen(),
    {
        let buf = BytesMut::zeroed(size);
        Page { data: PageBuf::Mutable(buf) }
    }

    /// Whether the page has been frozen.
    pub fn is_frozen(&self) -> (r: bool)
        ensures
            r == self.frozen(),
    {
        match &self.data {
            PageBuf::Mutable(_) => false,
            PageBuf::Frozen(_) => true,
        }
    }

    /// What writing `n` bytes of `src` from `from` on at `start` into `old` leaves
    /// and returns.
    pub open spec fn write_outcome(
        &self,
        old: &Page,
        start: int,
        src: Seq<u8>,
        from: int,
        n: int,
        r: Result<(), CacheError>,
    ) -> bool {
        if old.frozen() {
            r == Err::<(), CacheError>(CacheError::FrozenPageWrite) && *self == *old
        } else {
            &&& r is Ok
            &&& !self.frozen()
            &&& self.contents() == old.contents().subrange(0, start) + src.subrange(from, from + n)
                + old.contents().subrange(start + n, old.contents().len() as int)
        }
    }

    /// What reading the page returns.
    pub open spec fn read_outcome(&self, r: Result<Bytes, CacheError>) -> bool {
        if self.frozen() {
            r is Ok && bytes_view(r->Ok_0) == self.contents()
        } else {
            r == Err::<Bytes, CacheError>(CacheError::ReadBeforeFreeze)
        }
    }

    /// Copies the `n` bytes of `src` from `from` on into the page at `start`.
    /// A frozen page is left as it is and the write fails.
    pub fn write_slice(&mut self, start: usize, src: &[u8], from: usize, n: usize) -> (r: Result<
        (),
        CacheError,
    >)
        requires
            start + n <= old(self).contents().len(),
            from + n <= src@.len(),
        ensures
            final(self).write_outcome(old(self), start as int, src@, from as int, n as int, r),
    {
        match &mut self.data {
            PageBuf::Mutable(buf) => {
                copy_into(buf, start, src, from, n);
                Ok(())
            },
            PageBuf::Frozen(_) => Err(CacheError::FrozenPageWrite),
        }
    }

    /// Turns the page into an immutable, shareable snapshot of its bytes. A frozen
    /// page stays as it is.
    pub fn freeze(&mut self)
        ensures
            final(self).frozen(),
            final(self).contents() == old(self).contents(),
    {
        if let PageBuf::Mutable(_) = &self.data {
            let mut taken = PageBuf::Frozen(Bytes::new());
            std::mem::swap(&mut self.data, &mut taken);
            match taken {
                PageBuf::Mutable(buf) => {
                    self.data = PageBuf::Frozen(buf.freeze());
                },
                PageBuf::Frozen(b) => {
                    self.data = PageBuf::Frozen(b);
                },
            }
        }
    }

    /// A shared handle on the frozen bytes; a page that is still mutable cannot
    /// be read.
    pub fn frozen_bytes(&self) -> (r: Result<Bytes, CacheError>)
        ensures
            self.read_outcome(r),
    {
        match &self.data {
            PageBuf::Frozen(b) => Ok(b.clone()),
            PageBuf::Mutable(_) => Err(CacheError::ReadBeforeFreeze),
        }
    }
}

/// A page that has been frozen refuses every write and stays as it is.
pub proof fn lemma_write_after_freeze(
    before: Page,
    frozen: Page,
    start: int,
    src: Seq<u8>,
    from: int,
    n: int,
    after: Page,
    r: Result<(), CacheError>,
)
    requires
        frozen.frozen(),
        frozen.contents() == before.contents(),
        after.write_outcome(&frozen, start, src, from, n, r),
    ensures
        r == Err::<(), CacheError>(CacheError::FrozenPageWrite),
        after == frozen,
{
}

/// A page that has not been frozen cannot be read.
pub proof fn lemma_read_before_freeze(p: Page, r: Result<Bytes, CacheError>)
    requires
        !p.frozen(),
        p.read_outcome(r),
    ensures
        r == Err::<Bytes, CacheError>(CacheError::ReadBeforeFreeze),
{
}

} // verus!
