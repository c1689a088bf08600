use vstd::prelude::*;
use crate::error::Error;

verus! {

/// The container after writing `data` at `offset`: a write past the end
/// first fills the gap with zero bytes, as positioned file writes do.
pub open spec fn spliced(old: Seq<u8>, offset: int, data: Seq<u8>) -> Seq<u8> {
    let n = if offset + data.len() > old.len() {
        offset + data.len()
    } else {
        old.len() as int
    };
    Seq::new(
        n as nat,
        |i: int|
            if offset <= i < offset + data.len() {
                data[i - offset]
            } else if i < old.len() {
                old[i]
            } else {
                0u8
            },
    )
}

/// A random-access byte container: a file, a memory buffer, or anything that
/// supports positioned reads and writes.
///
/// Implementations report their own failures as errors other than `Busy`,
/// which is kept for lock conflicts.
pub trait Backing {
    /// The bytes the container holds.
    spec fn contents(&self) -> Seq<u8>;

    /// Whether reads in range and writes that end within `usize::MAX` never
    /// fail, as for a buffer in memory.
    spec fn infallible(&self) -> bool;

    /// The container's length in bytes.
    fn size(&self) -> (r: u64)
        ensures
            r == self.contents().len(),
    ;

    /// Fills `buf` with the bytes at `[offset, offset + buf.len())`.
    fn read_at(&mut self, offset: u64, buf: &mut Vec<u8>) -> (r: Result<(), Error>)
        ensures
            final(self).contents() == old(self).contents(),
            final(buf)@.len() == old(buf)@.len(),
            final(self).infallible() == old(self).infallible(),
            r is Ok ==> offset + old(buf)@.len() <= old(self).contents().len() && final(buf)@
                == old(self).contents().subrange(offset as int, offset + old(buf)@.len()),
            old(self).infallible() && offset + old(buf)@.len() <= old(self).contents().len() ==> r is Ok,
            !(r matches Err(Error::Busy)),
    ;

    /// Writes `data` at `offset`, growing the container when needed.
    fn write_at(&mut self, offset: u64, data: &[u8]) -> (r: Result<(), Error>)
        ensures
            final(self).infallible() == old(self).infallible(),
            r is Ok ==> final(self).contents() == spliced(old(self).contents(), offset as int, data@),
            old(self).infallible() && offset + data@.len() <= usize::MAX ==> r is Ok,
            !(r matches Err(Error::Busy)),
    ;
}

/// A container held in memory.
pub struct MemoryBacking {
    bytes: Vec<u8>,
}

impl MemoryBacking {
    /// A container holding `bytes`.
    pub fn new(bytes: Vec<u8>) -> (r: MemoryBacking)
        ensures
            r.contents() == bytes@,
            r.infallible(),
    {
        MemoryBacking { bytes }
    }

    /// The bytes held.
    pub fn bytes(&self) -> (r: &Vec<u8>)
        ensures
            r@ == self.contents(),
    {
        &self.bytes
    }

    /// Gives up the container and returns its bytes.
    pub fn into_bytes(self) -> (r: Vec<u8>)
        ensures
            r@ == self.contents(),
    {
        self.bytes
    }
}

impl Backing for MemoryBacking {
    closed spec fn contents(&self) -> Seq<u8> {
        self.bytes@
    }

    open spec fn infallible(&self) -> bool {
        true
    }

    fn size(&self) -> (r: u64) {
        self.bytes.len() as u64
    }

    fn read_at(&mut self, offset: u64, buf: &mut Vec<u8>) -> (r: Result<(), Error>) {
        let n = buf.len();
        let size = self.bytes.len();
        if offset as u128 + n as u128 > size as u128 {
            return Err(Error::UnexpectedEof);
        }
        let start = offset as usize;
        let mut i: usize = 0;
        while i < n
            invariant
                n == buf@.len(),
                size == self.bytes@.len(),
                start + n <= size,
                start == offset,
                i <= n,
                self.bytes@ == old(self).contents(),
                forall|j: int| 0 <= j < i ==> buf@[j] == self.bytes@[start + j],
            decreases n - i,
        {
            buf[i] = self.bytes[start + i];
            i = i + 1;
        }
        assert(buf@ =~= old(self).contents().subrange(offset as int, offset + n));
        Ok(())
    }

    fn write_at(&mut self, offset: u64, data: &[u8]) -> (r: Result<(), Error>) {
        let n = data.len();
        if offset as u128 + n as u128 > usize::MAX as u128 {
            return Err(Error::StorageFull);
        }
        let start = offset as usize;
        let end = start + n;
        let ghost old_bytes = self.bytes@;
        while self.bytes.len() < end
            invariant
                self.bytes@.len() <= if end > old_bytes.len() {
                    end as int
                } else {
                    old_bytes.len() as int
                },
                self.bytes@.len() >= old_bytes.len(),
                forall|j: int| 0 <= j < old_bytes.len() ==> self.bytes@[j] == old_bytes[j],
                forall|j: int| old_bytes.len() <= j < self.bytes@.len() ==> self.bytes@[j] == 0u8,
            decreases end - self.bytes@.len(),
        {
            self.bytes.push(0u8);
        }
        let ghost total = self.bytes@.len();
        let mut i: usize = 0;
        while i < n
            invariant
                n == data@.len(),
                end == start + n,
                start == offset,
                i <= n,
                total == self.bytes@.len(),
                total >= end,
                total == if end > old_bytes.len() {
                    end as int
                } else {
                    old_bytes.len() as int
                },
                forall|j: int|
                    0 <= j < total ==> self.bytes@[j] == if start <= j < start + i {
                        data@[j - start]
                    } else if j < old_bytes.len() {
                        old_bytes[j]
                    } else {
                        0u8
                    },
            decreases n - i,
        {
            self.bytes[start + i] = data[i];
            i = i + 1;
        }
        assert(self.bytes@ =~= spliced(old_bytes, offset as int, data@));
        Ok(())
    }
}

/// After a write, its range holds the data written, the container is at
/// least as long as before and reaches the range's end, and any range the
/// write did not touch holds what it held.
pub proof fn lemma_spliced(old: Seq<u8>, offset: int, data: Seq<u8>)
    requires
        0 <= offset,
    ensures
        spliced(old, offset, data).len() >= old.len(),
        spliced(old, offset, data).len() >= offset + data.len(),
        spliced(old, offset, data).subrange(offset, offset + data.len()) == data,
        forall|a: int, b: int|
            0 <= a <= b <= old.len() && (b <= offset || a >= offset + data.len()) ==> #[trigger] spliced(
                old,
                offset,
                data,
            ).subrange(a, b) == old.subrange(a, b),
{
    let s = spliced(old, offset, data);
    assert(s.subrange(offset, offset + data.len()) =~= data);
    assert forall|a: int, b: int|
        0 <= a <= b <= old.len() && (b <= offset || a >= offset + data.len()) implies #[trigger] spliced(
        old,
        offset,
        data,
    ).subrange(a, b) == old.subrange(a, b) by {
        assert(s.subrange(a, b) =~= old.subrange(a, b));
    }
}

} // verus!
