//! Cursored reads and writes over the concatenation of a page's chunks.
use vstd::prelude::*;
use crate::array::{Array, round};
use crate::backing::{Backing, lemma_spliced, spliced};
use crate::database::{Database, acl_fit, free_of_pages, layout_overflows};
use crate::codec::strings_fit;
use crate::inode::{grown, records_size};
use crate::error::Error;
use crate::inode::{PageDescriptor, PageView};

verus! {

/// The total length of the chunks: the page's logical size.
pub open spec fn total_len(cs: Seq<Array>) -> int
    decreases cs.len(),
{
    if cs.len() == 0 {
        0
    } else {
        total_len(cs.drop_last()) + cs.last().length
    }
}

/// The logical offset at which chunk `k` starts.
pub open spec fn prefix_len(cs: Seq<Array>, k: int) -> int {
    total_len(cs.take(k))
}

/// Whether chunk `k` holds logical offset `index`.
pub open spec fn holds(cs: Seq<Array>, k: int, index: int) -> bool {
    0 <= k < cs.len() && prefix_len(cs, k) <= index < prefix_len(cs, k) + cs[k].length
}

/// Whether some chunk holds logical offset `index`.
pub open spec fn located(cs: Seq<Array>, index: int) -> bool {
    exists|k: int| #[trigger] holds(cs, k, index)
}

/// The page's content in container `c`: the bytes of its chunks, in order.
pub open spec fn page_content(c: Seq<u8>, cs: Seq<Array>) -> Seq<u8>
    decreases cs.len(),
{
    if cs.len() == 0 {
        Seq::empty()
    } else {
        page_content(c, cs.drop_last()) + c.subrange(cs.last().offset as int, cs.last().end_spec())
    }
}

/// Whether `new` is `old` with chunk `a` of `n` bytes appended, where `a`
/// lies in the data region and shares no position with any page's chunk.
pub open spec fn appended(
    old: Seq<Array>,
    new: Seq<Array>,
    a: Array,
    n: int,
    data_start: int,
    pages: Seq<PageView>,
) -> bool {
    &&& new == old.push(a)
    &&& a.length == n
    &&& data_start <= a.offset
    &&& free_of_pages(pages, a)
}

/// A position to seek to, as in positioned I/O.
#[derive(Copy, Clone, Debug)]
pub enum SeekFrom {
    Start(u64),
    End(i64),
    Current(i64),
}

/// Where a seek lands, or `None` when that is negative or past `u64::MAX`.
pub open spec fn seek_target(pos: SeekFrom, index: int, total: int) -> Option<int> {
    let t = match pos {
        SeekFrom::Start(n) => n as int,
        SeekFrom::End(d) => total + d,
        SeekFrom::Current(d) => index + d,
    };
    if 0 <= t <= u64::MAX {
        Some(t)
    } else {
        None
    }
}

/// Seeking by zero from the current position stays where the last seek
/// landed.
pub proof fn lemma_seek_then_current_zero(pos: SeekFrom, index: int, total: int)
    requires
        seek_target(pos, index, total) is Some,
    ensures
        seek_target(SeekFrom::Current(0), seek_target(pos, index, total)->0, total) == seek_target(
            pos,
            index,
            total,
        ),
{
}

/// Seeking `n` bytes back from the end, for `0 <= n <= total`, lands at
/// `total - n`.
pub proof fn lemma_seek_end_back(n: i64, index: int, total: int)
    requires
        0 <= n <= total <= u64::MAX,
    ensures
        seek_target(SeekFrom::End((-n) as i64), index, total) == Some(total - n),
{
}

proof fn lemma_prefix_step(cs: Seq<Array>, k: int)
    requires
        0 <= k < cs.len(),
    ensures
        prefix_len(cs, k + 1) == prefix_len(cs, k) + cs[k].length,
{
    assert(cs.take(k + 1).drop_last() =~= cs.take(k));
}

proof fn lemma_prefix_mono(cs: Seq<Array>, j: int, k: int)
    requires
        0 <= j <= k <= cs.len(),
    ensures
        prefix_len(cs, j) <= prefix_len(cs, k),
    decreases k - j,
{
    if j < k {
        lemma_prefix_mono(cs, j, k - 1);
        lemma_prefix_step(cs, k - 1);
    }
}

/// The chunk that holds logical offset `index` and the offset within it.
pub fn locate(cs: &Vec<Array>, index: u64) -> (r: Option<(usize, u64)>)
    requires
        total_len(cs@) <= u64::MAX,
    ensures
        r matches Some((k, off)) ==> holds(cs@, k as int, index as int) && off == index
            - prefix_len(cs@, k as int),
        r is None ==> forall|k: int| !holds(cs@, k, index as int),
{
    let mut running: u64 = 0;
    let mut k: usize = 0;
    assert(cs@.take(cs@.len() as int) =~= cs@);
    while k < cs.len()
        invariant
            k <= cs@.len(),
            total_len(cs@) <= u64::MAX,
            running == prefix_len(cs@, k as int),
            forall|j: int| 0 <= j < k ==> !holds(cs@, j, index as int),
        decreases cs@.len() - k,
    {
        let c = cs[k];
        proof {
            lemma_prefix_step(cs@, k as int);
            lemma_prefix_mono(cs@, k + 1, cs@.len() as int);
            assert(cs@.take(cs@.len() as int) =~= cs@);
        }
        if running <= index && index - running < c.length {
            return Some((k, index - running));
        }
        running = running + c.length;
        k = k + 1;
    }
    None
}

/// The page's logical size.
pub fn total_of(cs: &Vec<Array>) -> (r: u128)
    ensures
        r == total_len(cs@),
{
    let mut t: u128 = 0;
    let mut k: usize = 0;
    assert(cs@.take(0) =~= Seq::<Array>::empty());
    while k < cs.len()
        invariant
            k <= cs@.len(),
            t == total_len(cs@.take(k as int)),
            t <= k * 0x1_0000_0000_0000_0000,
        decreases cs@.len() - k,
    {
        assert(cs@.take(k + 1).drop_last() =~= cs@.take(k as int));
        t = t + cs[k].length as u128;
        k = k + 1;
    }
    assert(cs@.take(k as int) =~= cs@);
    t
}

/// A named, cursored handle on a page's content: the concatenation of its
/// chunks. Operations take the database the page belongs to.
pub struct Page {
    pub(crate) descriptor: PageDescriptor,
    pub(crate) index: u64,
}

impl Page {
    /// The page as stored.
    pub closed spec fn view(&self) -> PageView {
        self.descriptor@
    }

    /// The cursor, a logical offset into the page.
    pub closed spec fn position(&self) -> u64 {
        self.index
    }

    /// The page's logical size fits a `u64`.
    pub closed spec fn wf(&self) -> bool {
        total_len(self.descriptor.inodes@) <= u64::MAX
    }

    pub(crate) fn from_descriptor(d: PageDescriptor) -> (r: Page)
        requires
            total_len(d.inodes@) <= u64::MAX,
        ensures
            r.view() == d@,
            r.position() == 0,
            r.wf(),
    {
        Page { descriptor: d, index: 0 }
    }

    /// The descriptor this handle holds.
    pub fn descriptor(&self) -> (r: &PageDescriptor)
        ensures
            r@ == self.view(),
    {
        &self.descriptor
    }

    /// The cursor.
    pub fn cursor(&self) -> (r: u64)
        ensures
            r == self.position(),
    {
        self.index
    }

    /// The page's logical size: the total length of its chunks.
    pub fn len(&self) -> (r: u64)
        requires
            self.wf(),
        ensures
            r == total_len(self.view().chunks),
    {
        total_of(&self.descriptor.inodes) as u64
    }

    /// Moves the cursor; `InvalidSeek` when the target is negative or past
    /// `u64::MAX`. Seeking past the end is allowed.
    pub fn seek(&mut self, pos: SeekFrom) -> (r: Result<u64, Error>)
        requires
            old(self).wf(),
        ensures
            final(self).wf(),
            final(self).view() == old(self).view(),
            match seek_target(pos, old(self).position() as int, total_len(old(self).view().chunks)) {
                Some(t) => r == Ok::<u64, Error>(t as u64) && final(self).position() == t,
                None => r == Err::<u64, Error>(Error::InvalidSeek) && final(self).position() == old(
                    self,
                ).position(),
            },
    {
        let total = self.len() as i128;
        let t: i128 = match pos {
            SeekFrom::Start(n) => n as i128,
            SeekFrom::End(d) => total + d as i128,
            SeekFrom::Current(d) => self.index as i128 + d as i128,
        };
        if t < 0 || t > u64::MAX as i128 {
            return Err(Error::InvalidSeek);
        }
        self.index = t as u64;
        Ok(t as u64)
    }

    /// Reads from the chunk that holds the cursor, never past its end: up to
    /// `buf.len()` bytes, into the front of `buf`, advancing the cursor.
    /// Returns 0 at or past the end of the page.
    pub fn read<B: Backing>(&mut self, db: &mut Database<B>, buf: &mut Vec<u8>) -> (r: Result<
        usize,
        Error,
    >)
        requires
            old(self).wf(),
            old(db).wf(),
        ensures
            final(self).wf(),
            final(db).wf(),
            final(self).view() == old(self).view(),
            final(db).image() == old(db).image(),
            final(db).contents() == old(db).contents(),
            final(buf)@.len() == old(buf)@.len(),
            r is Err ==> final(self).position() == old(self).position(),
            !located(old(self).view().chunks, old(self).position() as int) ==> r
                == Ok::<usize, Error>(0) && final(self).position() == old(self).position()
                && final(buf)@ == old(buf)@,
            forall|k: int|
                holds(old(self).view().chunks, k, old(self).position() as int) ==> (r matches Ok(n)
                    ==> ({
                    let c = old(self).view().chunks[k];
                    let off = old(self).position() - prefix_len(old(self).view().chunks, k);
                    let phys = c.offset + off;
                    &&& n == if c.length - off < old(buf)@.len() {
                        c.length - off
                    } else {
                        old(buf)@.len() as int
                    }
                    &&& final(self).position() == old(self).position() + n
                    &&& final(buf)@.subrange(0, n as int) == old(db).contents().subrange(
                        phys,
                        phys + n,
                    )
                    &&& final(buf)@.subrange(n as int, old(buf)@.len() as int) == old(
                        buf,
                    )@.subrange(n as int, old(buf)@.len() as int)
                })),
    {
        let ghost cs = self.descriptor.inodes@;
        let (k, off) = match locate(&self.descriptor.inodes, self.index) {
            Some(x) => x,
            None => {
                return Ok(0);
            },
        };
        proof {
            lemma_holds_unique(cs, k as int, self.index as int);
            assert(holds(cs, k as int, self.index as int));
            assert(located(cs, self.index as int));
            lemma_prefix_step(cs, k as int);
            lemma_prefix_mono(cs, k + 1, cs.len() as int);
            assert(cs.take(cs.len() as int) =~= cs);
        }
        let c = self.descriptor.inodes[k];
        let avail = c.length - off;
        let n: usize = if avail < buf.len() as u64 {
            avail as usize
        } else {
            buf.len()
        };
        if c.offset as u128 + off as u128 > u64::MAX as u128 {
            return Err(Error::UnexpectedEof);
        }
        let mut tmp: Vec<u8> = vec![0u8; n];
        match db.read_range(&mut tmp, c.offset + off) {
            Ok(()) => {},
            Err(e) => {
                return Err(e);
            },
        }
        let ghost before = buf@;
        let mut i: usize = 0;
        while i < n
            invariant
                n == tmp@.len(),
                n <= buf@.len(),
                buf@.len() == before.len(),
                i <= n,
                forall|j: int| 0 <= j < i ==> buf@[j] == tmp@[j],
                forall|j: int| i <= j < buf@.len() ==> buf@[j] == before[j],
            decreases n - i,
        {
            buf[i] = tmp[i];
            i = i + 1;
        }
        assert(buf@.subrange(0, n as int) =~= tmp@);
        assert(buf@.subrange(n as int, buf@.len() as int) =~= before.subrange(
            n as int,
            before.len() as int,
        ));
        self.index = self.index + n as u64;
        Ok(n)
    }

    /// Reads the whole page: the bytes of its chunks, in order.
    pub fn read_all<B: Backing>(&self, db: &mut Database<B>) -> (r: Result<Vec<u8>, Error>)
        requires
            old(db).wf(),
        ensures
            final(db).wf(),
            final(db).image() == old(db).image(),
            final(db).contents() == old(db).contents(),
            r matches Ok(v) ==> v@ == page_content(old(db).contents(), self.view().chunks),
    {
        let cs = &self.descriptor.inodes;
        let mut out: Vec<u8> = Vec::new();
        let mut i: usize = 0;
        assert(cs@.take(0) =~= Seq::<Array>::empty());
        while i < cs.len()
            invariant
                i <= cs@.len(),
                cs@ == self.view().chunks,
                db.wf(),
                db.image() == old(db).image(),
                db.contents() == old(db).contents(),
                out@ == page_content(old(db).contents(), cs@.take(i as int)),
            decreases cs@.len() - i,
        {
            let c = cs[i];
            if c.length > usize::MAX as u64 {
                return Err(Error::TooLarge);
            }
            let mut tmp: Vec<u8> = vec![0u8; c.length as usize];
            match db.read_range(&mut tmp, c.offset) {
                Ok(()) => {},
                Err(e) => {
                    return Err(e);
                },
            }
            out.append(&mut tmp);
            proof {
                assert(cs@.take(i + 1).drop_last() =~= cs@.take(i as int));
                assert(cs@.take(i + 1).last() == c);
            }
            i = i + 1;
        }
        assert(cs@.take(i as int) =~= cs@);
        Ok(out)
    }

    /// Writes `buf` at the cursor. Inside the page, it overwrites in place,
    /// never past the end of the chunk that holds the cursor. At or past the
    /// end, it takes a new chunk of `buf.len()` bytes from the allocator,
    /// appends it to the page, flushes the header and then writes `buf` into
    /// the chunk; the cursor then follows the new chunk's bytes. Returns the
    /// number of bytes written; `NotFound` when the database no longer has
    /// the page, `StorageFull` when the page would pass `u64::MAX` bytes or
    /// no chunk can be had.
    ///
    /// The tables are rewritten in front of the data region on every flush
    /// and grow with the pages, so the new chunk is sought only past the
    /// 4 KiB boundary that follows the tables' extent after this write:
    /// the tables keep room to grow without reaching page data.
    pub fn write<B: Backing>(&mut self, db: &mut Database<B>, buf: &[u8], now: u64) -> (r: Result<
        usize,
        Error,
    >)
        requires
            old(self).wf(),
            old(db).wf(),
        ensures
            final(self).wf(),
            final(db).wf(),
            final(self).view().name == old(self).view().name,
            final(self).view().acl == old(self).view().acl,
            r matches Ok(n) ==> n <= buf@.len() && (buf@.len() > 0 ==> n > 0),
            buf@.len() == 0 ==> r == Ok::<usize, Error>(0) && final(self).view() == old(self).view()
                && final(self).position() == old(self).position() && final(db).image() == old(
                db,
            ).image() && final(db).contents() == old(db).contents(),
            forall|k: int|
                buf@.len() > 0 && holds(old(self).view().chunks, k, old(self).position() as int) ==> (
                r matches Ok(n) ==> ({
                    let c = old(self).view().chunks[k];
                    let off = old(self).position() - prefix_len(old(self).view().chunks, k);
                    let phys = c.offset + off;
                    &&& n == if c.length - off < buf@.len() {
                        c.length - off
                    } else {
                        buf@.len() as int
                    }
                    &&& final(self).position() == old(self).position() + n
                    &&& final(self).view() == old(self).view()
                    &&& final(db).image() == old(db).image()
                    &&& final(db).contents() == spliced(
                        old(db).contents(),
                        phys,
                        buf@.subrange(0, n as int),
                    )
                })),
            buf@.len() > 0 && !located(old(self).view().chunks, old(self).position() as int) && !(
            exists|i: int|
                0 <= i < old(db).image().pages.len() && old(db).image().pages[i].name == old(
                    self,
                ).view().name) ==> r == Err::<usize, Error>(Error::NotFound),
            buf@.len() > 0 && !located(old(self).view().chunks, old(self).position() as int) && (
            exists|i: int|
                0 <= i < old(db).image().pages.len() && old(db).image().pages[i].name == old(
                    self,
                ).view().name) && total_len(old(self).view().chunks) + buf@.len() > u64::MAX ==> r
                == Err::<usize, Error>(Error::StorageFull),
            buf@.len() > 0 && !located(old(self).view().chunks, old(self).position() as int) ==> (
            r matches Ok(n) ==> ({
                &&& n == buf@.len()
                &&& appended(
                    old(self).view().chunks,
                    final(self).view().chunks,
                    final(self).view().chunks.last(),
                    n as int,
                    old(db).data_start(),
                    old(db).image().pages,
                )
                &&& final(db).contents().subrange(
                    final(self).view().chunks.last().offset as int,
                    final(self).view().chunks.last().offset + n,
                ) == buf@
                &&& final(self).position() == total_len(old(self).view().chunks) + n
                &&& final(db).persisted()
            })),
    {
        if buf.len() == 0 {
            return Ok(0);
        }
        let ghost cs = self.descriptor.inodes@;
        match locate(&self.descriptor.inodes, self.index) {
            Some((k, off)) => {
                proof {
                    lemma_holds_unique(cs, k as int, self.index as int);
                    assert(located(cs, self.index as int));
                    assert(located(old(self).view().chunks, old(self).position() as int));
                }
                let c = self.descriptor.inodes[k];
                let avail = c.length - off;
                let n: usize = if avail < buf.len() as u64 {
                    avail as usize
                } else {
                    buf.len()
                };
                if c.offset as u128 + off as u128 > u64::MAX as u128 {
                    return Err(Error::StorageFull);
                }
                proof {
                    lemma_prefix_step(cs, k as int);
                    lemma_prefix_mono(cs, k + 1, cs.len() as int);
                    assert(cs.take(cs.len() as int) =~= cs);
                }
                let part = vstd::slice::slice_subrange(buf, 0, n);
                match db.write_range(part, c.offset + off) {
                    Ok(()) => {},
                    Err(e) => {
                        return Err(e);
                    },
                }
                self.index = self.index + n as u64;
                Ok(n)
            },
            None => {
                match db.find_page(self.descriptor.name.as_str()) {
                    Some(_) => {},
                    None => {
                        return Err(Error::NotFound);
                    },
                }
                let total = self.len();
                let m = buf.len() as u64;
                if total as u128 + m as u128 > u64::MAX as u128 {
                    return Err(Error::StorageFull);
                }
                let planned = match db.planned_end(1) {
                    Ok(f) => f,
                    Err(_) => {
                        return Err(Error::StorageFull);
                    },
                };
                if planned > u64::MAX - 0x1000 {
                    return Err(Error::StorageFull);
                }
                let floor = round(planned, 0x1000);
                let chunks = match db.allocate_from(m, floor) {
                    Ok(v) => v,
                    Err(_) => {
                        return Err(Error::StorageFull);
                    },
                };
                let a = chunks[0];
                match db.attach(self.descriptor.name.as_str(), a, now) {
                    Ok(()) => {},
                    Err(e) => {
                        return Err(e);
                    },
                }
                self.descriptor.inodes.push(a);
                self.descriptor.modified = now;
                proof {
                    assert(self.descriptor.inodes@.drop_last() =~= cs);
                }
                self.index = total + m;
                match db.write_header() {
                    Ok(()) => {},
                    Err(e) => {
                        return Err(e);
                    },
                }
                let ghost c_before = db.contents();
                match db.write_data(buf, a.offset) {
                    Ok(()) => {},
                    Err(e) => {
                        return Err(e);
                    },
                }
                proof {
                    lemma_spliced(c_before, a.offset as int, buf@);
                    assert(self.view().chunks == cs.push(a));
                    assert(self.view().chunks.last() == a);
                    assert(appended(
                        old(self).view().chunks,
                        self.view().chunks,
                        a,
                        m as int,
                        old(db).data_start(),
                        old(db).image().pages,
                    ));
                }
                Ok(buf.len())
            },
        }
    }

    /// Writes the database header, so that the container holds the page's
    /// chunk list.
    pub fn flush<B: Backing>(&mut self, db: &mut Database<B>) -> (r: Result<(), Error>)
        requires
            old(db).wf(),
        ensures
            final(db).wf(),
            final(db).infallible() == old(db).infallible(),
            final(db).image().pages == old(db).image().pages,
            final(db).image().metadata == old(db).image().metadata,
            grown(old(db).image().strings, final(db).image().strings, old(db).image().pages),
            !acl_fit(old(db).image().pages) ==> r == Err::<(), Error>(Error::TooLarge),
            acl_fit(old(db).image().pages) && !strings_fit(final(db).image().strings) ==> r == Err::<
                (),
                Error,
            >(Error::TooLarge),
            acl_fit(old(db).image().pages) && strings_fit(final(db).image().strings)
                && layout_overflows(
                old(db).image().metadata.len() as int,
                records_size(old(db).image().pages),
                final(db).image().strings,
            ) ==> r == Err::<(), Error>(Error::StorageFull),
            old(db).infallible() && acl_fit(old(db).image().pages) && strings_fit(
                final(db).image().strings,
            ) && !layout_overflows(
                old(db).image().metadata.len() as int,
                records_size(old(db).image().pages),
                final(db).image().strings,
            ) ==> r is Ok,
            r is Ok ==> final(db).persisted(),
            r is Ok ==> forall|x: int, y: int|
                final(db).data_start() <= x <= y <= old(db).contents().len() ==> #[trigger] final(db).contents().subrange(x, y) == old(db).contents().subrange(x, y),
    {
        db.write_header()
    }

    /// Flushes, then gives up the handle.
    pub fn close<B: Backing>(self, db: &mut Database<B>) -> (r: Result<(), Error>)
        requires
            old(db).wf(),
        ensures
            final(db).wf(),
            final(db).infallible() == old(db).infallible(),
            final(db).image().pages == old(db).image().pages,
            final(db).image().metadata == old(db).image().metadata,
            grown(old(db).image().strings, final(db).image().strings, old(db).image().pages),
            !acl_fit(old(db).image().pages) ==> r == Err::<(), Error>(Error::TooLarge),
            acl_fit(old(db).image().pages) && !strings_fit(final(db).image().strings) ==> r == Err::<
                (),
                Error,
            >(Error::TooLarge),
            acl_fit(old(db).image().pages) && strings_fit(final(db).image().strings)
                && layout_overflows(
                old(db).image().metadata.len() as int,
                records_size(old(db).image().pages),
                final(db).image().strings,
            ) ==> r == Err::<(), Error>(Error::StorageFull),
            old(db).infallible() && acl_fit(old(db).image().pages) && strings_fit(
                final(db).image().strings,
            ) && !layout_overflows(
                old(db).image().metadata.len() as int,
                records_size(old(db).image().pages),
                final(db).image().strings,
            ) ==> r is Ok,
            r is Ok ==> final(db).persisted(),
            r is Ok ==> forall|x: int, y: int|
                final(db).data_start() <= x <= y <= old(db).contents().len() ==> #[trigger] final(db).contents().subrange(x, y) == old(db).contents().subrange(x, y),
    {
        db.write_header()
    }
}

/// At most one chunk holds a given logical offset.
proof fn lemma_holds_unique(cs: Seq<Array>, k: int, index: int)
    requires
        holds(cs, k, index),
    ensures
        forall|j: int| #[trigger] holds(cs, j, index) ==> j == k,
{
    assert forall|j: int| #[trigger] holds(cs, j, index) implies j == k by {
        if j < k {
            lemma_prefix_step(cs, j);
            lemma_prefix_mono(cs, j + 1, k);
        } else if j > k {
            lemma_prefix_step(cs, k);
            lemma_prefix_mono(cs, k + 1, j);
        }
    }
}

} // verus!
