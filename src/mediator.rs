use vstd::prelude::*;
use crate::array::Array;
use crate::backing::{Backing, spliced};
use crate::error::Error;

verus! {

/// An active lock on a byte range of the container.
#[derive(Copy, Clone, Debug)]
pub enum RangeLock {
    Read(Array),
    Write(Array),
}

impl RangeLock {
    /// The locked range.
    pub open spec fn range_spec(self) -> Array {
        match self {
            RangeLock::Read(r) => r,
            RangeLock::Write(r) => r,
        }
    }

    /// The locked range.
    pub fn get_range(&self) -> (r: Array)
        ensures
            r == self.range_spec(),
    {
        match self {
            RangeLock::Read(range) => *range,
            RangeLock::Write(range) => *range,
        }
    }
}

/// Whether a read of `r` must wait: some active write lock overlaps it.
pub open spec fn read_blocked(locks: Seq<RangeLock>, r: Array) -> bool {
    exists|i: int| 0 <= i < locks.len() && #[trigger] locks[i] is Write && locks[i].range_spec().overlaps(r)
}

/// Whether a write of `r` must wait: some active lock, read or write, overlaps it.
pub open spec fn write_blocked(locks: Seq<RangeLock>, r: Array) -> bool {
    exists|i: int| 0 <= i < locks.len() && #[trigger] locks[i].range_spec().overlaps(r)
}

/// Whether two ranges overlap, computed without overflow.
pub fn ranges_overlap(a: Array, b: Array) -> (r: bool)
    ensures
        r == a.overlaps(b),
{
    (a.offset as u128) < (b.offset as u128) + (b.length as u128) && (b.offset as u128) < (
    a.offset as u128) + (a.length as u128)
}

/// The gatekeeper of container I/O: it owns the container and the set of
/// active range locks, and refuses with `Busy` any access that conflicts with
/// a lock: a read overlapping a write lock, a write overlapping any lock.
pub struct Mediator<B: Backing> {
    locks: Vec<RangeLock>,
    backing: B,
}

impl<B: Backing> Mediator<B> {
    /// The active locks, oldest first.
    pub closed spec fn locks_spec(&self) -> Seq<RangeLock> {
        self.locks@
    }

    /// The bytes of the container.
    pub closed spec fn contents(&self) -> Seq<u8> {
        self.backing.contents()
    }

    /// Whether the container never fails in-range I/O.
    pub closed spec fn infallible(&self) -> bool {
        self.backing.infallible()
    }

    /// A mediator over `backing`, with no lock held.
    pub fn new(backing: B) -> (r: Mediator<B>)
        ensures
            r.locks_spec() == Seq::<RangeLock>::empty(),
            r.contents() == backing.contents(),
            r.infallible() == backing.infallible(),
    {
        Mediator { locks: Vec::new(), backing }
    }

    /// The container.
    pub fn backing(&self) -> (r: &B)
        ensures
            r.contents() == self.contents(),
            r.infallible() == self.infallible(),
    {
        &self.backing
    }

    /// Gives up the container.
    pub fn into_backing(self) -> (r: B)
        ensures
            r.contents() == self.contents(),
            r.infallible() == self.infallible(),
    {
        self.backing
    }

    /// The container's length in bytes.
    pub fn size(&self) -> (r: u64)
        ensures
            r == self.contents().len(),
    {
        self.backing.size()
    }

    /// The active locks.
    pub fn locks(&self) -> (r: &Vec<RangeLock>)
        ensures
            r@ == self.locks_spec(),
    {
        &self.locks
    }

    fn find_conflict(&self, range: Array, write: bool) -> (r: bool)
        ensures
            write ==> r == write_blocked(self.locks@, range),
            !write ==> r == read_blocked(self.locks@, range),
    {
        let mut i: usize = 0;
        while i < self.locks.len()
            invariant
                i <= self.locks@.len(),
                forall|j: int|
                    0 <= j < i ==> !((write || self.locks@[j] is Write)
                        && #[trigger] self.locks@[j].range_spec().overlaps(range)),
            decreases self.locks@.len() - i,
        {
            let l = self.locks[i];
            let is_write = match l {
                RangeLock::Write(_) => true,
                RangeLock::Read(_) => false,
            };
            if (write || is_write) && ranges_overlap(l.get_range(), range) {
                return true;
            }
            i = i + 1;
        }
        false
    }

    /// Takes a read lock on `range`, unless a write lock overlaps it.
    pub fn try_lock_read(&mut self, range: Array) -> (r: Result<(), Error>)
        ensures
            final(self).contents() == old(self).contents(),
            final(self).infallible() == old(self).infallible(),
            read_blocked(old(self).locks_spec(), range) ==> r == Err::<(), Error>(Error::Busy)
                && final(self).locks_spec() == old(self).locks_spec(),
            !read_blocked(old(self).locks_spec(), range) ==> r is Ok && final(self).locks_spec()
                == old(self).locks_spec().push(RangeLock::Read(range)),
    {
        if self.find_conflict(range, false) {
            return Err(Error::Busy);
        }
        self.locks.push(RangeLock::Read(range));
        Ok(())
    }

    /// Takes a write lock on `range`, unless any lock overlaps it.
    pub fn try_lock_write(&mut self, range: Array) -> (r: Result<(), Error>)
        ensures
            final(self).contents() == old(self).contents(),
            final(self).infallible() == old(self).infallible(),
            write_blocked(old(self).locks_spec(), range) ==> r == Err::<(), Error>(Error::Busy)
                && final(self).locks_spec() == old(self).locks_spec(),
            !write_blocked(old(self).locks_spec(), range) ==> r is Ok && final(self).locks_spec()
                == old(self).locks_spec().push(RangeLock::Write(range)),
    {
        if self.find_conflict(range, true) {
            return Err(Error::Busy);
        }
        self.locks.push(RangeLock::Write(range));
        Ok(())
    }

    /// Releases the oldest lock of the same kind on the same range; false when
    /// there is none.
    pub fn unlock(&mut self, lock: RangeLock) -> (r: bool)
        ensures
            final(self).contents() == old(self).contents(),
            final(self).infallible() == old(self).infallible(),
            r <==> exists|i: int| 0 <= i < old(self).locks_spec().len() && old(self).locks_spec()[i] == lock,
            r ==> exists|i: int|
                0 <= i < old(self).locks_spec().len() && old(self).locks_spec()[i] == lock
                    && (forall|j: int| 0 <= j < i ==> old(self).locks_spec()[j] != lock)
                    && final(self).locks_spec() == old(self).locks_spec().remove(i),
            !r ==> final(self).locks_spec() == old(self).locks_spec(),
    {
        let mut i: usize = 0;
        while i < self.locks.len()
            invariant
                i <= self.locks@.len(),
                self.locks@ == old(self).locks@,
                self.backing == old(self).backing,
                forall|j: int| 0 <= j < i ==> self.locks@[j] != lock,
            decreases self.locks@.len() - i,
        {
            let l = self.locks[i];
            let same = match (l, lock) {
                (RangeLock::Read(a), RangeLock::Read(b)) => a.offset == b.offset && a.length
                    == b.length,
                (RangeLock::Write(a), RangeLock::Write(b)) => a.offset == b.offset && a.length
                    == b.length,
                _ => false,
            };
            if same {
                self.locks.remove(i);
                return true;
            }
            i = i + 1;
        }
        false
    }

    /// Reads `buffer.len()` bytes at `offset` under a read lock, released
    /// before returning. `Busy`, with nothing read, exactly when a write lock
    /// overlaps the range; `UnexpectedEof` when the range ends past
    /// `u64::MAX`.
    pub fn try_read_range(&mut self, buffer: &mut Vec<u8>, offset: u64) -> (r: Result<(), Error>)
        ensures
            final(self).locks_spec() == old(self).locks_spec(),
            final(self).contents() == old(self).contents(),
            final(self).infallible() == old(self).infallible(),
            final(buffer)@.len() == old(buffer)@.len(),
            (r == Err::<(), Error>(Error::Busy)) <==> read_blocked(
                old(self).locks_spec(),
                Array { offset, length: old(buffer)@.len() as u64 },
            ),
            r == Err::<(), Error>(Error::Busy) ==> final(buffer)@ == old(buffer)@,
            !read_blocked(old(self).locks_spec(), Array { offset, length: old(buffer)@.len() as u64 })
                && offset + old(buffer)@.len() > u64::MAX ==> r == Err::<(), Error>(
                Error::UnexpectedEof,
            ) && final(buffer)@ == old(buffer)@,
            r is Ok ==> offset + old(buffer)@.len() <= old(self).contents().len() && final(buffer)@
                == old(self).contents().subrange(offset as int, offset + old(buffer)@.len()),
            !read_blocked(old(self).locks_spec(), Array { offset, length: old(buffer)@.len() as u64 })
                && old(self).infallible() && offset + old(buffer)@.len() <= old(
                self,
            ).contents().len() ==> r is Ok,
    {
        let n = buffer.len();
        let range = Array { offset, length: n as u64 };
        match self.try_lock_read(range) {
            Err(e) => {
                return Err(e);
            },
            Ok(()) => {},
        }
        if offset as u128 + n as u128 > u64::MAX as u128 {
            let _size = self.backing.size();
            self.locks.pop();
            assert(self.locks@ =~= old(self).locks@);
            return Err(Error::UnexpectedEof);
        }
        let r = self.backing.read_at(offset, buffer);
        self.locks.pop();
        assert(self.locks@ =~= old(self).locks@);
        r
    }

    /// Writes `buffer` at `offset` under a write lock, released before
    /// returning. `Busy`, with nothing written, exactly when any lock overlaps
    /// the range; `StorageFull`, with nothing written, when the range ends
    /// past `u64::MAX`.
    pub fn try_write_range(&mut self, buffer: &[u8], offset: u64) -> (r: Result<(), Error>)
        ensures
            final(self).locks_spec() == old(self).locks_spec(),
            final(self).infallible() == old(self).infallible(),
            (r == Err::<(), Error>(Error::Busy)) <==> write_blocked(
                old(self).locks_spec(),
                Array { offset, length: buffer@.len() as u64 },
            ),
            r == Err::<(), Error>(Error::Busy) ==> final(self).contents() == old(self).contents(),
            !write_blocked(old(self).locks_spec(), Array { offset, length: buffer@.len() as u64 })
                && offset + buffer@.len() > u64::MAX ==> r == Err::<(), Error>(Error::StorageFull)
                && final(self).contents() == old(self).contents(),
            r is Ok ==> final(self).contents() == spliced(
                old(self).contents(),
                offset as int,
                buffer@,
            ),
            !write_blocked(old(self).locks_spec(), Array { offset, length: buffer@.len() as u64 })
                && old(self).infallible() && offset + buffer@.len() <= u64::MAX && offset
                + buffer@.len() <= usize::MAX ==> r is Ok,
    {
        let n = buffer.len();
        let range = Array { offset, length: n as u64 };
        match self.try_lock_write(range) {
            Err(e) => {
                return Err(e);
            },
            Ok(()) => {},
        }
        if offset as u128 + n as u128 > u64::MAX as u128 {
            self.locks.pop();
            assert(self.locks@ =~= old(self).locks@);
            return Err(Error::StorageFull);
        }
        let r = self.backing.write_at(offset, buffer);
        self.locks.pop();
        assert(self.locks@ =~= old(self).locks@);
        r
    }
}

/// Overlapping writes exclude each other: once a write lock on `a` has been
/// taken, a write, or a read, of any range `b` that overlaps `a` is refused
/// with `Busy` until that lock is released; overlap being symmetric, so is
/// the exclusion.
pub proof fn lemma_overlapping_writes_exclude(locks: Seq<RangeLock>, a: Array, b: Array)
    requires
        a.overlaps(b),
    ensures
        write_blocked(locks.push(RangeLock::Write(a)), b),
        read_blocked(locks.push(RangeLock::Write(a)), b),
        b.overlaps(a),
{
    let l = locks.push(RangeLock::Write(a));
    let k = locks.len() as int;
    assert(l[k] == RangeLock::Write(a));
    assert(l[k].range_spec().overlaps(b));
    assert(l[k] is Write);
}

} // verus!
