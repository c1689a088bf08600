//! The database: header, tables and metadata bound to one container.
use vstd::prelude::*;
use crate::array::{Array, round, round_spec};
use crate::backing::{Backing, MemoryBacking, lemma_spliced, spliced};
use crate::codec::{
    Header, HEADER_SIZE, RawRecordView, encode_ranges, encode_records, lemma_header_round_trip,
    lemma_records_round_trip, lemma_strings_round_trip, magic, parse_header, parse_header_spec,
    parse_records, parse_records_spec, parse_strings_spec, ranges_image, record_fits, records_image,
    records_view, strings_fit, strings_image, version,
};
use crate::error::Error;
use crate::inode::{
    PageDescriptor, PageView, all_present, grown, present, lemma_records_size, pages_view, records_of, records_size, resolve_all_spec, resolve_each,
    resolve_records, resolve_spec, resolves, unique_names,
};
use crate::mediator::Mediator;
use crate::allocator::{best_fit, find_gap, free, gap_len, lemma_fit_is_free};
use crate::access::Access;
use crate::page::{Page, total_len, total_of};
use crate::strtab::StringTable;
use crate::inode::prefix_of;

verus! {

/// What a container holds once decoded.
pub struct Image {
    pub header: Header,
    pub strings: Seq<Seq<char>>,
    pub pages: Seq<PageView>,
    pub metadata: Seq<u8>,
    /// Bytes taken by the inode table.
    pub inode_size: nat,
    /// Bytes taken by the string table.
    pub string_size: nat,
}

/// The container `c` decoded, or why it is refused: the header, then the
/// metadata bytes, the string table and the inode table where the header
/// places them, then the inode table's indices resolved through the strings.
pub open spec fn decode_spec(c: Seq<u8>) -> Result<Image, Error> {
    match parse_header_spec(c) {
        Err(e) => Err(e),
        Ok(h) => if h.metadata.offset + h.metadata.length > c.len() || h.string_table.offset
            > c.len() || h.inode_table.offset > c.len() {
            Err(Error::UnexpectedEof)
        } else {
            match parse_strings_spec(c.skip(h.string_table.offset as int), h.string_table.length as nat) {
                Err(e) => Err(e),
                Ok((strs, ssz)) => match parse_records_spec(
                    c.skip(h.inode_table.offset as int),
                    h.inode_table.length as nat,
                ) {
                    Err(e) => Err(e),
                    Ok((raws, isz)) => match resolve_all_spec(raws, strs) {
                        Err(e) => Err(e),
                        Ok(pages) => Ok(
                            Image {
                                header: h,
                                strings: strs,
                                pages,
                                metadata: c.subrange(
                                    h.metadata.offset as int,
                                    h.metadata.offset + h.metadata.length,
                                ),
                                inode_size: isz,
                                string_size: ssz,
                            },
                        ),
                    },
                },
            }
        },
    }
}

/// The pieces a flush writes, each where the header `h` says: magic and
/// version, the region descriptors, the metadata, the string table and the
/// inode table of records `raws`.
pub open spec fn laid_out(
    c: Seq<u8>,
    h: Header,
    strs: Seq<Seq<char>>,
    raws: Seq<RawRecordView>,
    meta: Seq<u8>,
) -> bool {
    &&& c.len() >= HEADER_SIZE
    &&& c.subrange(0, 4) == magic()
    &&& c.subrange(4, 8) == version()
    &&& c.subrange(16, 80) == ranges_image(h)
    &&& h.metadata.length == meta.len()
    &&& h.metadata.offset + meta.len() <= c.len()
    &&& c.subrange(h.metadata.offset as int, h.metadata.offset + meta.len()) == meta
    &&& h.string_table.length == strs.len()
    &&& strings_fit(strs)
    &&& h.string_table.offset + strings_image(strs).len() <= c.len()
    &&& c.subrange(
        h.string_table.offset as int,
        h.string_table.offset + strings_image(strs).len(),
    ) == strings_image(strs)
    &&& h.inode_table.length == raws.len()
    &&& forall|i: int| 0 <= i < raws.len() ==> record_fits(#[trigger] raws[i])
    &&& h.inode_table.offset + records_image(raws).len() <= c.len()
    &&& c.subrange(h.inode_table.offset as int, h.inode_table.offset + records_image(raws).len())
        == records_image(raws)
}

/// What a flush lays out is opened back as it was: the same header, strings,
/// pages and metadata, for any container holding those pieces.
pub proof fn lemma_open_laid_out(
    c: Seq<u8>,
    h: Header,
    strs: Seq<Seq<char>>,
    raws: Seq<RawRecordView>,
    meta: Seq<u8>,
)
    requires
        laid_out(c, h, strs, raws, meta),
        forall|i: int| 0 <= i < raws.len() ==> resolves(#[trigger] raws[i], strs),
        unique_names(resolve_each(raws, strs)),
    ensures
        decode_spec(c) == Ok::<Image, Error>(
            Image {
                header: h,
                strings: strs,
                pages: resolve_each(raws, strs),
                metadata: meta,
                inode_size: records_image(raws).len(),
                string_size: strings_image(strs).len(),
            },
        ),
{
    lemma_header_round_trip(c, h);
    let so = h.string_table.offset as int;
    let simg = strings_image(strs);
    assert(c.skip(so) =~= simg + c.skip(so + simg.len()));
    lemma_strings_round_trip(strs, c.skip(so + simg.len()));
    let io = h.inode_table.offset as int;
    let rimg = records_image(raws);
    assert(c.skip(io) =~= rimg + c.skip(io + rimg.len()));
    lemma_records_round_trip(raws, c.skip(io + rimg.len()));
}

/// Decodes a whole container held in memory; the pages' timestamps are set to `now`.
pub fn decode(bytes: &Vec<u8>, now: u64) -> (r: Result<
    (Header, StringTable, Vec<PageDescriptor>, usize, usize),
    Error,
>)
    ensures
        match decode_spec(bytes@) {
            Ok(img) => r matches Ok((h, t, pages, isz, ssz)) && h == img.header && t@ == img.strings
                && pages_view(pages@) == img.pages && isz == img.inode_size && ssz
                == img.string_size,
            Err(e) => r == Err::<(Header, StringTable, Vec<PageDescriptor>, usize, usize), Error>(e),
        },
{
    let h = match parse_header(bytes) {
        Ok(h) => h,
        Err(e) => {
            return Err(e);
        },
    };
    let len = bytes.len() as u64;
    if h.metadata.offset as u128 + h.metadata.length as u128 > len as u128 || h.string_table.offset
        > len || h.inode_table.offset > len {
        return Err(Error::UnexpectedEof);
    }
    let (t, send) = match StringTable::parse(
        bytes,
        h.string_table.offset as usize,
        h.string_table.length,
    ) {
        Ok(x) => x,
        Err(e) => {
            return Err(e);
        },
    };
    let (raws, iend) = match parse_records(
        bytes,
        h.inode_table.offset as usize,
        h.inode_table.length,
    ) {
        Ok(x) => x,
        Err(e) => {
            return Err(e);
        },
    };
    let pages = match resolve_records(&raws, &t, now) {
        Ok(p) => p,
        Err(e) => {
            return Err(e);
        },
    };
    Ok(
        (
            h,
            t,
            pages,
            iend - h.inode_table.offset as usize,
            send - h.string_table.offset as usize,
        ),
    )
}

/// The largest metadata blob a database accepts.
pub const MAX_METADATA: u64 = 0xffff_ffff_ffff;

/// An open database: its container, behind a mediator, and the cached
/// header, tables and metadata.
pub struct Database<B: Backing> {
    pub(crate) mediator: Mediator<B>,
    pub(crate) header: Header,
    pub(crate) inode_table: Vec<PageDescriptor>,
    pub(crate) string_table: StringTable,
    pub(crate) inode_table_size: u64,
    pub(crate) string_table_size: u64,
    pub(crate) raw_header: Vec<u8>,
    pub(crate) meta: Vec<u8>,
}

impl<B: Backing> Database<B> {
    /// What the database holds, as a container would hold it.
    pub closed spec fn image(&self) -> Image {
        Image {
            header: self.header,
            strings: self.string_table@,
            pages: pages_view(self.inode_table@),
            metadata: self.meta@,
            inode_size: self.inode_table_size as nat,
            string_size: self.string_table_size as nat,
        }
    }

    /// The bytes of the container.
    pub closed spec fn contents(&self) -> Seq<u8> {
        self.mediator.contents()
    }

    /// Whether the container never fails in-range I/O.
    pub closed spec fn infallible(&self) -> bool {
        self.mediator.infallible()
    }

    /// The cached header starts with the magic and the version, page names
    /// are unique, the metadata is not too large, and no range lock is left
    /// behind.
    pub closed spec fn wf(&self) -> bool {
        &&& self.raw_header@.len() == HEADER_SIZE
        &&& self.raw_header@.subrange(0, 4) == magic()
        &&& self.raw_header@.subrange(4, 8) == version()
        &&& self.raw_header@.subrange(8, 16) == zeros8()
        &&& unique_names(pages_view(self.inode_table@))
        &&& self.meta@.len() <= MAX_METADATA
        &&& self.mediator.locks_spec() == Seq::<crate::mediator::RangeLock>::empty()
    }

    /// The container holds the database as it is: the header, the metadata
    /// and both tables, laid out where the header says.
    pub closed spec fn persisted(&self) -> bool {
        exists|raws: Seq<RawRecordView>|
            #![trigger records_image(raws)]
            {
                &&& laid_out(self.contents(), self.header, self.string_table@, raws, self.meta@)
                &&& forall|i: int| 0 <= i < raws.len() ==> resolves(#[trigger] raws[i], self.string_table@)
                &&& resolve_each(raws, self.string_table@) == pages_view(self.inode_table@)
                &&& self.inode_table_size == records_image(raws).len()
                &&& self.string_table_size == strings_image(self.string_table@).len()
            }
    }

    /// Opens the database that a container holds. The whole container is
    /// read, then decoded; pages get `now` as their timestamps.
    pub fn open(backing: B, now: u64) -> (r: Result<Database<B>, Error>)
        ensures
            r matches Ok(db) ==> db.wf() && db.infallible() == backing.infallible() && db.contents() == backing.contents() && decode_spec(
                backing.contents(),
            ) == Ok::<Image, Error>(db.image()),
            decode_spec(backing.contents()) is Err ==> r is Err,
            backing.contents().len() > usize::MAX ==> r == Err::<Database<B>, Error>(Error::TooLarge),
            r is Ok ==> backing.contents().len() <= usize::MAX,
            r matches Ok(db) ==> db.image().metadata.len() <= MAX_METADATA,
            backing.infallible() && backing.contents().len() <= usize::MAX ==> match decode_spec(
                backing.contents(),
            ) {
                Ok(img) => if img.metadata.len() <= MAX_METADATA {
                    r is Ok
                } else {
                    r == Err::<Database<B>, Error>(Error::TooLarge)
                },
                Err(e) => r == Err::<Database<B>, Error>(e),
            },
    {
        let ghost c = backing.contents();
        let mut backing = backing;
        let size = backing.size();
        if size > usize::MAX as u64 {
            return Err(Error::TooLarge);
        }
        let mut bytes: Vec<u8> = vec![0u8; size as usize];
        match backing.read_at(0, &mut bytes) {
            Ok(()) => {},
            Err(e) => {
                return Err(e);
            },
        }
        assert(bytes@ =~= c);
        let (header, string_table, inode_table, isz, ssz) = match decode(&bytes, now) {
            Ok(x) => x,
            Err(e) => {
                return Err(e);
            },
        };
        let meta = vstd::slice::slice_to_vec(
            vstd::slice::slice_subrange(
                bytes.as_slice(),
                header.metadata.offset as usize,
                (header.metadata.offset + header.metadata.length) as usize,
            ),
        );
        if meta.len() as u64 > MAX_METADATA {
            return Err(Error::TooLarge);
        }
        let mut raw_header: Vec<u8> = vec![
            0x46u8,
            0x53u8,
            0x44u8,
            0x42u8,
            0x01u8,
            0x00u8,
            0x00u8,
            0x00u8,
            0u8,
            0u8,
            0u8,
            0u8,
            0u8,
            0u8,
            0u8,
            0u8,
        ];
        let mut ranges = vstd::slice::slice_to_vec(vstd::slice::slice_subrange(bytes.as_slice(), 16, 80));
        raw_header.append(&mut ranges);
        proof {
            assert(raw_header@.subrange(0, 4) =~= magic());
            assert(raw_header@.subrange(4, 8) =~= version());
            assert(raw_header@.subrange(8, 16) =~= zeros8());
        }
        Ok(
            Database {
                mediator: Mediator::new(backing),
                header,
                inode_table,
                string_table,
                inode_table_size: isz as u64,
                string_table_size: ssz as u64,
                raw_header,
                meta,
            },
        )
    }

    /// Writes the whole header: the cached header bytes (magic, version,
    /// eight zero bytes), the metadata at `0x50`, the inode table at the next
    /// 16-byte boundary past the metadata, the string table at the next
    /// 256-byte boundary past the inode table, and last the region
    /// descriptors. Writing the inode table interns page names and
    /// principals, so the string table may grow. The history table is
    /// declared empty, at `string offset + string count` rounded to the next
    /// 256-byte boundary. `TooLarge` when an access list has more than 65535
    /// entries or a string more than 65535 bytes; `StorageFull` when the
    /// regions would end past `usize::MAX`. Bytes past the new data start are
    /// left as they were.
    pub fn write_header(&mut self) -> (r: Result<(), Error>)
        requires
            old(self).wf(),
        ensures
            final(self).wf(),
            final(self).infallible() == old(self).infallible(),
            final(self).image().pages == old(self).image().pages,
            final(self).image().metadata == old(self).image().metadata,
            prefix_of(old(self).image().strings, final(self).image().strings),
            grown(old(self).image().strings, final(self).image().strings, old(self).image().pages),
            !acl_fit(old(self).image().pages) ==> r == Err::<(), Error>(Error::TooLarge),
            acl_fit(old(self).image().pages) && !strings_fit(final(self).image().strings) ==> r == Err::<
                (),
                Error,
            >(Error::TooLarge),
            acl_fit(old(self).image().pages) && strings_fit(final(self).image().strings)
                && layout_overflows(
                old(self).image().metadata.len() as int,
                records_size(old(self).image().pages),
                final(self).image().strings,
            ) ==> r == Err::<(), Error>(Error::StorageFull),
            old(self).infallible() && acl_fit(old(self).image().pages) && strings_fit(
                final(self).image().strings,
            ) && !layout_overflows(
                old(self).image().metadata.len() as int,
                records_size(old(self).image().pages),
                final(self).image().strings,
            ) ==> r is Ok,
            r is Ok ==> final(self).persisted(),
            r is Ok ==> final(self).image().inode_size == records_size(old(self).image().pages),
            r is Ok ==> final(self).image().string_size == strings_image(
                final(self).image().strings,
            ).len(),
            r is Ok ==> final(self).contents().subrange(8, 16) == zeros8(),
            r is Ok ==> final(self).contents().len() >= old(self).contents().len(),
            r is Ok ==> forall|x: int, y: int|
                final(self).data_start() <= x <= y <= old(self).contents().len() ==> #[trigger] final(self).contents().subrange(x, y) == old(self).contents().subrange(x, y),
            r is Ok ==> final(self).image().header.metadata == (Array {
                length: old(self).image().metadata.len() as u64,
                offset: HEADER_SIZE,
            }),
            r is Ok ==> final(self).image().header.inode_table == (Array {
                length: old(self).image().pages.len() as u64,
                offset: round_spec(HEADER_SIZE + old(self).image().metadata.len(), 0x10) as u64,
            }),
            r is Ok ==> final(self).image().header.string_table == (Array {
                length: final(self).image().strings.len() as u64,
                offset: round_spec(
                    final(self).image().header.inode_table.offset + final(self).image().inode_size,
                    0x100,
                ) as u64,
            }),
            r is Ok ==> final(self).image().header.history_table == (Array {
                length: 0,
                offset: round_spec(
                    final(self).image().header.string_table.offset + final(self).image().strings.len(),
                    0x100,
                ) as u64,
            }),
    {
        let m = self.meta.len() as u64;
        let meta_end = HEADER_SIZE + m;
        let inode_offset = round(meta_end, 0x10);
        let records = match records_of(&mut self.string_table, &self.inode_table) {
            Ok(rs) => rs,
            Err(e) => {
                proof {
                    let pv = pages_view(self.inode_table@);
                    if acl_fit(pv) {
                        assert forall|i: int| 0 <= i < self.inode_table@.len() implies (
                        #[trigger] self.inode_table@[i]).access_control_list@.len() <= u16::MAX by {
                            assert(pv[i] == self.inode_table@[i]@);
                        }
                    }
                }
                return Err(e);
            },
        };
        proof {
            let pv = pages_view(self.inode_table@);
            assert forall|i: int| 0 <= i < pv.len() implies pv[i].acl.len() <= u16::MAX by {
                assert(resolve_spec(records@[i]@, self.string_table@) == self.inode_table@[i]@);
                assert(resolve_spec(records@[i]@, self.string_table@).acl.len() == records@[i]@.acl.len());
            }
            let raws = records_view(records@);
            assert(resolve_each(raws, self.string_table@) =~= pages_view(self.inode_table@)) by {
                assert forall|i: int| 0 <= i < raws.len() implies resolve_each(raws, self.string_table@)[i]
                    == pages_view(self.inode_table@)[i] by {
                    assert(raws[i] == records@[i]@);
                }
            }
            lemma_records_size(raws, self.string_table@);
        }
        let inode_bytes = encode_records(&records);
        let strings = match self.string_table.serialise() {
            Ok(v) => v,
            Err(e) => {
                return Err(e);
            },
        };
        let isz = inode_bytes.len() as u64;
        let ssz = strings.len() as u64;
        let count = self.string_table.len() as u64;
        proof {
            assert(usize::MAX <= u64::MAX);
        }
        if inode_offset as u128 + isz as u128 + ssz as u128 + count as u128 + 0x300
            > usize::MAX as u128 {
            return Err(Error::StorageFull);
        }
        let string_offset = round(inode_offset + isz, 0x100);
        let history_offset = round(string_offset + count, 0x100);
        let h = Header {
            inode_table: Array { length: self.inode_table.len() as u64, offset: inode_offset },
            string_table: Array { length: count, offset: string_offset },
            history_table: Array { length: 0, offset: history_offset },
            metadata: Array { length: m, offset: HEADER_SIZE },
        };
        let ranges = encode_ranges(&h);
        let ghost c0 = self.mediator.contents();
        match self.mediator.try_write_range(self.raw_header.as_slice(), 0) {
            Ok(()) => {},
            Err(e) => {
                return Err(e);
            },
        }
        let ghost c1 = self.mediator.contents();
        match self.mediator.try_write_range(self.meta.as_slice(), HEADER_SIZE) {
            Ok(()) => {},
            Err(e) => {
                return Err(e);
            },
        }
        let ghost c2 = self.mediator.contents();
        match self.mediator.try_write_range(inode_bytes.as_slice(), inode_offset) {
            Ok(()) => {},
            Err(e) => {
                return Err(e);
            },
        }
        let ghost c3 = self.mediator.contents();
        match self.mediator.try_write_range(strings.as_slice(), string_offset) {
            Ok(()) => {},
            Err(e) => {
                return Err(e);
            },
        }
        let ghost c4 = self.mediator.contents();
        match self.mediator.try_write_range(ranges.as_slice(), 16) {
            Ok(()) => {},
            Err(e) => {
                return Err(e);
            },
        }
        let ghost c5 = self.mediator.contents();
        self.header = h;
        self.inode_table_size = isz;
        self.string_table_size = ssz;
        proof {
            let raws = records_view(records@);
            let mo = HEADER_SIZE as int;
            let io = inode_offset as int;
            let so = string_offset as int;
            lemma_spliced(c0, 0, self.raw_header@);
            lemma_spliced(c1, mo, self.meta@);
            lemma_spliced(c2, io, inode_bytes@);
            lemma_spliced(c3, so, strings@);
            lemma_spliced(c4, 16, ranges@);
            assert(c1.subrange(0, 4) == self.raw_header@.subrange(0, 4)) by {
                assert(c1.subrange(0, 4) =~= c1.subrange(0, 80).subrange(0, 4));
            }
            assert(c1.subrange(4, 8) == self.raw_header@.subrange(4, 8)) by {
                assert(c1.subrange(4, 8) =~= c1.subrange(0, 80).subrange(4, 8));
            }
            assert(c1.subrange(8, 16) == self.raw_header@.subrange(8, 16)) by {
                assert(c1.subrange(8, 16) =~= c1.subrange(0, 80).subrange(8, 16));
            }
            assert(c2.subrange(0, 4) == c1.subrange(0, 4));
            assert(c3.subrange(0, 4) == c2.subrange(0, 4));
            assert(c4.subrange(0, 4) == c3.subrange(0, 4));
            assert(c5.subrange(0, 4) == c4.subrange(0, 4));
            assert(c2.subrange(4, 8) == c1.subrange(4, 8));
            assert(c3.subrange(4, 8) == c2.subrange(4, 8));
            assert(c4.subrange(4, 8) == c3.subrange(4, 8));
            assert(c5.subrange(4, 8) == c4.subrange(4, 8));
            assert(c2.subrange(8, 16) == c1.subrange(8, 16));
            assert(c3.subrange(8, 16) == c2.subrange(8, 16));
            assert(c4.subrange(8, 16) == c3.subrange(8, 16));
            assert(c5.subrange(8, 16) == c4.subrange(8, 16));
            assert(c3.subrange(mo, mo + m) == c2.subrange(mo, mo + m));
            assert(c4.subrange(mo, mo + m) == c3.subrange(mo, mo + m));
            assert(c5.subrange(mo, mo + m) == c4.subrange(mo, mo + m));
            assert(c4.subrange(io, io + isz) == c3.subrange(io, io + isz));
            assert(c5.subrange(io, io + isz) == c4.subrange(io, io + isz));
            assert(c5.subrange(so, so + ssz) == c4.subrange(so, so + ssz));
            assert(raws.len() == records@.len());
            assert forall|i: int| 0 <= i < raws.len() implies record_fits(#[trigger] raws[i]) by {
                assert(raws[i] == records@[i]@);
            }
            assert forall|i: int| 0 <= i < raws.len() implies resolves(#[trigger] raws[i], self.string_table@) by {
                assert(raws[i] == records@[i]@);
            }
            assert(laid_out(c5, h, self.string_table@, raws, self.meta@));
            assert(self.persisted());
            assert forall|x: int, y: int|
                self.data_start() <= x <= y <= c0.len() implies #[trigger] c5.subrange(x, y)
                == c0.subrange(x, y) by {
                assert(c1.subrange(x, y) == c0.subrange(x, y));
                assert(c2.subrange(x, y) == c1.subrange(x, y));
                assert(c3.subrange(x, y) == c2.subrange(x, y));
                assert(c4.subrange(x, y) == c3.subrange(x, y));
                assert(c5.subrange(x, y) == c4.subrange(x, y));
            }
        }
        Ok(())
    }

    /// The first byte past the header, the tables and the metadata: the
    /// data region starts there.
    pub closed spec fn data_start(&self) -> int {
        let a = self.header.inode_table.offset + self.inode_table_size;
        let b = self.header.string_table.offset + self.string_table_size;
        let c = self.header.metadata.offset + self.header.metadata.length;
        let ab = if a > b {
            a
        } else {
            b
        };
        let abc = if ab > c {
            ab
        } else {
            c
        };
        if abc > HEADER_SIZE {
            abc
        } else {
            HEADER_SIZE as int
        }
    }

    /// The first byte past the header, the tables and the metadata.
    pub fn data_offset(&self) -> (r: u128)
        ensures
            r == self.data_start(),
    {
        let a = self.header.inode_table.offset as u128 + self.inode_table_size as u128;
        let b = self.header.string_table.offset as u128 + self.string_table_size as u128;
        let c = self.header.metadata.offset as u128 + self.header.metadata.length as u128;
        let ab = if a > b {
            a
        } else {
            b
        };
        let abc = if ab > c {
            ab
        } else {
            c
        };
        if abc > HEADER_SIZE as u128 {
            abc
        } else {
            HEADER_SIZE as u128
        }
    }

    /// Finds room for `min_space` bytes that no page uses, in the data
    /// region: the smallest gap between chunks that holds them or, when none
    /// does, a range past the end of the container, which then grows by
    /// `min_space` rounded up to the next 4 KiB boundary (always by at least
    /// one more byte) of zeros. The range is returned, not yet attached to
    /// any page.
    pub fn allocate_chunks(&mut self, min_space: u64) -> (r: Result<Vec<Array>, Error>)
        requires
            old(self).wf(),
        ensures
            final(self).wf(),
            final(self).image() == old(self).image(),
            final(self).infallible() == old(self).infallible(),
            allocated(
                old(self).image().pages,
                old(self).data_start(),
                old(self).contents(),
                final(self).contents(),
                min_space as int,
                old(self).infallible(),
                r,
            ),
    {
        self.allocate_from(min_space, 0)
    }

    /// As `allocate_chunks`, with the data region starting no lower than `floor`.
    pub(crate) fn allocate_from(&mut self, min_space: u64, floor: u64) -> (r: Result<Vec<Array>, Error>)
        requires
            old(self).wf(),
        ensures
            final(self).wf(),
            final(self).image() == old(self).image(),
            final(self).infallible() == old(self).infallible(),
            allocated(
                old(self).image().pages,
                max_int(old(self).data_start(), floor as int),
                old(self).contents(),
                final(self).contents(),
                min_space as int,
                old(self).infallible(),
                r,
            ),
    {
        let ghost pages = pages_view(self.inode_table@);
        let ghost c0 = self.mediator.contents();
        let mut ds = self.data_offset();
        if (floor as u128) > ds {
            ds = floor as u128;
        }
        let len = self.mediator.size();
        let chunks = collect_chunks(&self.inode_table);
        let ghost gds = ds as int;
        proof {
            assert(gds == max_int(self.data_start(), floor as int));
            lemma_no_fit_none(chunks@, gds, len as int, min_space as int);
        }
        let top = max_end(&chunks);
        if ds > u64::MAX as u128 {
            proof {
                assert(best_fit(chunks@, gds, len as int, min_space as int, None));
                assert(c0.subrange(0, c0.len() as int) =~= c0);
            }
            return Err(Error::StorageFull);
        }
        let found = find_gap(&chunks, ds as u64, len, min_space);
        match found {
            Some(a) => {
                proof {
                    lemma_fit_is_free(chunks@, ds as int, len as int, a);
                    lemma_free_of_pages(pages, a);
                    assert(c0.subrange(0, c0.len() as int) =~= c0);
                    let v = seq![a];
                    assert(v[0] == a);
                }
                return Ok(vec![a]);
            },
            None => {},
        }
        let mut at: u128 = len as u128;
        if ds > at {
            at = ds;
        }
        if top > at {
            at = top;
        }
        proof {
            assert(at == grow_point(pages, gds, len as int));
            assert(usize::MAX <= u64::MAX);
        }
        if at > u64::MAX as u128 || at + 0x1000 + min_space as u128 > usize::MAX as u128 {
            proof {
                assert(c0.subrange(0, c0.len() as int) =~= c0);
            }
            return Err(Error::StorageFull);
        }
        let grow = round(min_space, 0x1000);
        let zeros: Vec<u8> = vec![0u8; grow as usize];
        proof {
            assert(zeros@ =~= zero_bytes(round_spec(min_space as int, 0x1000) as nat));
        }
        match self.mediator.try_write_range(zeros.as_slice(), at as u64) {
            Ok(()) => {},
            Err(e) => {
                return Err(e);
            },
        }
        let a = Array { offset: at as u64, length: min_space };
        proof {
            lemma_spliced(c0, at as int, zeros@);
            assert(free(chunks@, a));
            lemma_free_of_pages(pages, a);
            let v = seq![a];
            assert(v[0] == a);
            assert(self.contents().subrange(0, c0.len() as int) == c0.subrange(0, c0.len() as int));
            assert(c0.subrange(0, c0.len() as int) =~= c0);
        }
        Ok(vec![a])
    }

    /// Where the tables of the next flush will end if `extra_chunks` more
    /// chunks are attached first; names and principals are interned as a
    /// flush would intern them.
    pub(crate) fn planned_end(&mut self, extra_chunks: u64) -> (r: Result<u64, Error>)
        requires
            old(self).wf(),
        ensures
            final(self).wf(),
            final(self).contents() == old(self).contents(),
            final(self).image().header == old(self).image().header,
            final(self).image().pages == old(self).image().pages,
            final(self).image().metadata == old(self).image().metadata,
            final(self).image().inode_size == old(self).image().inode_size,
            final(self).image().string_size == old(self).image().string_size,
            final(self).data_start() == old(self).data_start(),
            prefix_of(old(self).image().strings, final(self).image().strings),
    {
        let m = self.meta.len() as u64;
        let inode_offset = round(HEADER_SIZE + m, 0x10);
        let records = match records_of(&mut self.string_table, &self.inode_table) {
            Ok(rs) => rs,
            Err(e) => {
                return Err(e);
            },
        };
        let isz = encode_records(&records).len() as u64;
        let ssz = match self.string_table.serialise() {
            Ok(v) => v.len() as u64,
            Err(e) => {
                return Err(e);
            },
        };
        if extra_chunks > 0xffff_ffff || inode_offset as u128 + isz as u128 + 16 * extra_chunks as u128
            + ssz as u128 + 0x100 > u64::MAX as u128 {
            return Err(Error::StorageFull);
        }
        let string_offset = round(inode_offset + isz + 16 * extra_chunks, 0x100);
        Ok(string_offset + ssz)
    }

    /// Appends chunk `a` to the page named `name` and sets its modification
    /// time; `NotFound` when there is no such page.
    pub(crate) fn attach(&mut self, name: &str, a: Array, now: u64) -> (r: Result<(), Error>)
        requires
            old(self).wf(),
        ensures
            final(self).wf(),
            final(self).contents() == old(self).contents(),
            final(self).image().header == old(self).image().header,
            final(self).image().strings == old(self).image().strings,
            final(self).image().metadata == old(self).image().metadata,
            final(self).image().inode_size == old(self).image().inode_size,
            final(self).image().string_size == old(self).image().string_size,
            r is Err ==> final(self).image() == old(self).image() && r == Err::<(), Error>(
                Error::NotFound,
            ),
            r is Ok ==> exists|i: int|
                0 <= i < old(self).image().pages.len() && old(self).image().pages[i].name == name@
                    && final(self).image().pages == old(self).image().pages.update(
                    i,
                    PageView {
                        name: old(self).image().pages[i].name,
                        acl: old(self).image().pages[i].acl,
                        chunks: old(self).image().pages[i].chunks.push(a),
                    },
                ),
    {
        let i = match self.find_page(name) {
            Some(i) => i,
            None => {
                return Err(Error::NotFound);
            },
        };
        let ghost old_pages = pages_view(self.inode_table@);
        let ghost old_d = self.inode_table@[i as int]@;
        let mut d = self.inode_table.remove(i);
        d.inodes.push(a);
        d.modified = now;
        self.inode_table.insert(i, d);
        proof {
            let np = PageView { name: old_d.name, acl: old_d.acl, chunks: old_d.chunks.push(a) };
            assert(old_pages[i as int] == old_d);
            assert(self.inode_table@[i as int]@ == np);
            assert(pages_view(self.inode_table@) =~= old_pages.update(i as int, np));
            let pv = pages_view(self.inode_table@);
            assert forall|x: int, y: int|
                0 <= x < pv.len() && 0 <= y < pv.len() && x != y implies pv[x].name != pv[y].name by {
                assert(pv[x].name == old_pages[x].name);
                assert(pv[y].name == old_pages[y].name);
            }
        }
        Ok(())
    }

    /// Reads container bytes at `offset` through the mediator.
    pub(crate) fn read_range(&mut self, buffer: &mut Vec<u8>, offset: u64) -> (r: Result<(), Error>)
        requires
            old(self).wf(),
        ensures
            final(self).wf(),
            final(self).image() == old(self).image(),
            final(self).contents() == old(self).contents(),
            final(buffer)@.len() == old(buffer)@.len(),
            r is Ok ==> offset + old(buffer)@.len() <= old(self).contents().len() && final(buffer)@
                == old(self).contents().subrange(offset as int, offset + old(buffer)@.len()),
    {
        self.mediator.try_read_range(buffer, offset)
    }

    /// Writes container bytes at `offset` through the mediator.
    pub(crate) fn write_range(&mut self, data: &[u8], offset: u64) -> (r: Result<(), Error>)
        requires
            old(self).wf(),
        ensures
            final(self).wf(),
            final(self).image() == old(self).image(),
            r is Ok ==> final(self).contents() == spliced(old(self).contents(), offset as int, data@),
    {
        self.mediator.try_write_range(data, offset)
    }

    /// Writes page data at `offset`, which must lie in the data region
    /// (`StorageFull` otherwise); the tables the container holds stay as
    /// they were.
    pub(crate) fn write_data(&mut self, data: &[u8], offset: u64) -> (r: Result<(), Error>)
        requires
            old(self).wf(),
        ensures
            final(self).wf(),
            final(self).image() == old(self).image(),
            final(self).infallible() == old(self).infallible(),
            final(self).data_start() == old(self).data_start(),
            offset < old(self).data_start() ==> r == Err::<(), Error>(Error::StorageFull)
                && final(self).contents() == old(self).contents(),
            r is Ok ==> final(self).contents() == spliced(old(self).contents(), offset as int, data@),
            r is Ok && old(self).persisted() ==> final(self).persisted(),
    {
        if (offset as u128) < self.data_offset() {
            return Err(Error::StorageFull);
        }
        let ghost c0 = self.mediator.contents();
        let r = self.mediator.try_write_range(data, offset);
        proof {
            if r is Ok && old(self).persisted() {
                let raws = choose|raws: Seq<RawRecordView>|
                    #![trigger records_image(raws)]
                    {
                        &&& laid_out(c0, self.header, self.string_table@, raws, self.meta@)
                        &&& forall|i: int| 0 <= i < raws.len() ==> resolves(#[trigger] raws[i], self.string_table@)
                        &&& resolve_each(raws, self.string_table@) == pages_view(self.inode_table@)
                        &&& self.inode_table_size == records_image(raws).len()
                        &&& self.string_table_size == strings_image(self.string_table@).len()
                    };
                lemma_spliced(c0, offset as int, data@);
                let c1 = self.mediator.contents();
                let h = self.header;
                let mo = h.metadata.offset as int;
                let so = h.string_table.offset as int;
                let io = h.inode_table.offset as int;
                let sl = strings_image(self.string_table@).len() as int;
                let il = records_image(raws).len() as int;
                assert(c1.subrange(0, 4) == c0.subrange(0, 4));
                assert(c1.subrange(4, 8) == c0.subrange(4, 8));
                assert(c1.subrange(16, 80) == c0.subrange(16, 80));
                assert(c1.subrange(mo, mo + self.meta@.len()) == c0.subrange(mo, mo + self.meta@.len()));
                assert(c1.subrange(so, so + sl) == c0.subrange(so, so + sl));
                assert(c1.subrange(io, io + il) == c0.subrange(io, io + il));
                assert(laid_out(c1, self.header, self.string_table@, raws, self.meta@));
            }
        }
        r
    }

    /// The index of the page named `name`, if any.
    pub fn find_page(&self, name: &str) -> (r: Option<usize>)
        ensures
            r matches Some(i) ==> i < self.image().pages.len() && self.image().pages[i as int].name
                == name@,
            r is None ==> forall|i: int|
                0 <= i < self.image().pages.len() ==> self.image().pages[i].name != name@,
    {
        let target = name.to_owned();
        let mut i: usize = 0;
        while i < self.inode_table.len()
            invariant
                i <= self.inode_table@.len(),
                target@ == name@,
                forall|j: int| 0 <= j < i ==> (#[trigger] self.inode_table@[j]).name@ != name@,
            decreases self.inode_table@.len() - i,
        {
            if self.inode_table[i].name == target {
                return Some(i);
            }
            i = i + 1;
        }
        None
    }

    /// Creates an empty page named `name`, with no access entries and both
    /// timestamps `now`; `AlreadyExists` when the name is taken. The name is
    /// interned in the string table.
    pub fn create_page(&mut self, name: &str, now: u64) -> (r: Result<Page, Error>)
        requires
            old(self).wf(),
        ensures
            final(self).wf(),
            final(self).contents() == old(self).contents(),
            (exists|i: int|
                0 <= i < old(self).image().pages.len() && old(self).image().pages[i].name == name@)
                ==> r == Err::<Page, Error>(Error::AlreadyExists) && final(self).image() == old(
                self,
            ).image(),
            !(exists|i: int|
                0 <= i < old(self).image().pages.len() && old(self).image().pages[i].name == name@)
                ==> (r matches Ok(p) && p.view() == (PageView {
                name: name@,
                acl: Seq::empty(),
                chunks: Seq::empty(),
            }) && p.position() == 0 && p.wf() && final(self).image().pages == old(self).image().pages.push(
                p.view(),
            ) && prefix_of(old(self).image().strings, final(self).image().strings) && present(
                final(self).image().strings,
                name@,
            )),
    {
        match self.find_page(name) {
            Some(i) => {
                return Err(Error::AlreadyExists);
            },
            None => {},
        }
        let ghost t0 = self.string_table@;
        let idx = self.string_table.intern(name);
        proof {
            crate::strtab::lemma_intern_lookup(t0, name@, self.string_table@, idx as int);
        }
        let d = PageDescriptor {
            name: name.to_owned(),
            access_control_list: Vec::new(),
            modified: now,
            created: now,
            inodes: Vec::new(),
        };
        proof {
            assert(d.inodes@.len() == 0);
        }
        let page = Page::from_descriptor(d.duplicate());
        let ghost old_pages = pages_view(self.inode_table@);
        self.inode_table.push(d);
        proof {
            assert(d@.acl =~= Seq::<(u8, Seq<char>)>::empty());
            assert(pages_view(self.inode_table@) =~= old_pages.push(d@));
            let pv = pages_view(self.inode_table@);
            assert forall|a: int, b: int|
                0 <= a < pv.len() && 0 <= b < pv.len() && a != b implies pv[a].name != pv[b].name by {
                if a < old_pages.len() && b < old_pages.len() {
                    assert(old_pages[a] == pv[a] && old_pages[b] == pv[b]);
                } else if a < old_pages.len() {
                    assert(old_pages[a] == pv[a]);
                } else if b < old_pages.len() {
                    assert(old_pages[b] == pv[b]);
                }
            }
        }
        Ok(page)
    }

    /// Removes the page named `name` from the inode table, which frees its
    /// chunks for allocation; the container keeps the page until the next
    /// flush. `NotFound` when there is no such page.
    pub fn delete_page(&mut self, name: &str) -> (r: Result<(), Error>)
        requires
            old(self).wf(),
        ensures
            final(self).wf(),
            final(self).contents() == old(self).contents(),
            final(self).image().strings == old(self).image().strings,
            final(self).image().header == old(self).image().header,
            final(self).image().metadata == old(self).image().metadata,
            !(exists|i: int|
                0 <= i < old(self).image().pages.len() && old(self).image().pages[i].name == name@)
                ==> r == Err::<(), Error>(Error::NotFound) && final(self).image() == old(self).image(),
            forall|i: int|
                0 <= i < old(self).image().pages.len() && old(self).image().pages[i].name == name@
                    ==> r is Ok && final(self).image().pages == old(self).image().pages.remove(i),
    {
        let i = match self.find_page(name) {
            Some(i) => i,
            None => {
                return Err(Error::NotFound);
            },
        };
        let ghost old_pages = pages_view(self.inode_table@);
        self.inode_table.remove(i);
        proof {
            assert(pages_view(self.inode_table@) =~= old_pages.remove(i as int));
            assert forall|j: int| 0 <= j < old_pages.len() && old_pages[j].name == name@ implies j
                == i by {}
            let pv = pages_view(self.inode_table@);
            assert forall|x: int, y: int|
                0 <= x < pv.len() && 0 <= y < pv.len() && x != y implies pv[x].name != pv[y].name by {
                let ox = if x < i {
                    x
                } else {
                    x + 1
                };
                let oy = if y < i {
                    y
                } else {
                    y + 1
                };
                assert(pv[x] == old_pages[ox]);
                assert(pv[y] == old_pages[oy]);
            }
        }
        Ok(())
    }

    /// Opens the page named `name` at position 0; `NotFound` when there is
    /// none, `TooLarge` when its chunks add up to more than `u64::MAX` bytes.
    pub fn open_page(&self, name: &str) -> (r: Result<Page, Error>)
        requires
            self.wf(),
        ensures
            forall|i: int|
                0 <= i < self.image().pages.len() && self.image().pages[i].name == name@ ==> (if total_len(
                    self.image().pages[i].chunks,
                ) <= u64::MAX {
                    r matches Ok(p) && p.view() == self.image().pages[i] && p.position() == 0 && p.wf()
                } else {
                    r == Err::<Page, Error>(Error::TooLarge)
                }),
            !(exists|i: int| 0 <= i < self.image().pages.len() && self.image().pages[i].name == name@)
                ==> r == Err::<Page, Error>(Error::NotFound),
    {
        match self.find_page(name) {
            Some(i) => {
                let d = self.inode_table[i].duplicate();
                if total_of(&d.inodes) > u64::MAX as u128 {
                    proof {
                        let pv = pages_view(self.inode_table@);
                        assert(pv[i as int] == self.inode_table@[i as int]@);
                        assert forall|j: int| 0 <= j < pv.len() && pv[j].name == name@ implies j == i by {}
                    }
                    return Err(Error::TooLarge);
                }
                let p = Page::from_descriptor(d);
                proof {
                    let pv = pages_view(self.inode_table@);
                    assert(pv[i as int] == self.inode_table@[i as int]@);
                    assert forall|j: int| 0 <= j < pv.len() && pv[j].name == name@ implies j == i by {}
                }
                Ok(p)
            },
            None => Err(Error::NotFound),
        }
    }

    /// Moves the database onto another container and writes the whole
    /// header to it at once.
    pub fn change_buffer<N: Backing>(self, buffer: N) -> (r: Result<Database<N>, Error>)
        requires
            self.wf(),
        ensures
            r matches Ok(db) ==> db.wf() && db.persisted() && db.infallible() == buffer.infallible()
                && db.image().pages == self.image().pages && db.image().metadata
                == self.image().metadata && grown(
                self.image().strings,
                db.image().strings,
                self.image().pages,
            ) && db.contents().subrange(8, 16) == zeros8() && db.image().inode_size
                == records_size(self.image().pages),
            !acl_fit(self.image().pages) ==> r == Err::<Database<N>, Error>(Error::TooLarge),
            acl_fit(self.image().pages) && all_present(self.image().pages, self.image().strings)
                && !strings_fit(self.image().strings) ==> r == Err::<Database<N>, Error>(
                Error::TooLarge,
            ),
            acl_fit(self.image().pages) && all_present(self.image().pages, self.image().strings)
                && strings_fit(self.image().strings) && layout_overflows(
                self.image().metadata.len() as int,
                records_size(self.image().pages),
                self.image().strings,
            ) ==> r == Err::<Database<N>, Error>(Error::StorageFull),
            buffer.infallible() && acl_fit(self.image().pages) && all_present(
                self.image().pages,
                self.image().strings,
            ) && strings_fit(self.image().strings) && !layout_overflows(
                self.image().metadata.len() as int,
                records_size(self.image().pages),
                self.image().strings,
            ) ==> (r matches Ok(db) && db.image().strings == self.image().strings),
    {
        let mut db = Database {
            mediator: Mediator::new(buffer),
            header: self.header,
            inode_table: self.inode_table,
            string_table: self.string_table,
            inode_table_size: self.inode_table_size,
            string_table_size: self.string_table_size,
            raw_header: self.raw_header,
            meta: self.meta,
        };
        match db.write_header() {
            Ok(()) => Ok(db),
            Err(e) => Err(e),
        }
    }

    /// The region descriptors currently cached.
    pub fn header(&self) -> (r: Header)
        ensures
            r == self.image().header,
    {
        self.header
    }

    /// The string table.
    pub fn string_table(&self) -> (r: &StringTable)
        ensures
            r@ == self.image().strings,
    {
        &self.string_table
    }

    /// The metadata bytes.
    pub fn metadata(&self) -> (r: &Vec<u8>)
        ensures
            r@ == self.image().metadata,
    {
        &self.meta
    }

    /// The page descriptors, in order.
    pub fn pages(&self) -> (r: &Vec<PageDescriptor>)
        ensures
            pages_view(r@) == self.image().pages,
    {
        &self.inode_table
    }

    /// The container.
    pub fn backing(&self) -> (r: &B)
        ensures
            r.contents() == self.contents(),
    {
        self.mediator.backing()
    }

    /// Gives up the container.
    pub fn into_backing(self) -> (r: B)
        ensures
            r.contents() == self.contents(),
    {
        self.mediator.into_backing()
    }
}

/// Where the data region starts, in terms of what the database holds: the
/// furthest end of the header, the two tables and the metadata.
pub proof fn lemma_data_start<B: Backing>(db: &Database<B>)
    ensures
        db.data_start() == max_int(
            max_int(
                max_int(
                    db.image().header.inode_table.offset + db.image().inode_size,
                    db.image().header.string_table.offset + db.image().string_size,
                ),
                db.image().header.metadata.offset + db.image().header.metadata.length,
            ),
            HEADER_SIZE as int,
        ),
{
}

/// After a successful flush the container opens back as the database that
/// wrote it: the same header, strings, pages and metadata.
pub proof fn lemma_reopen<B: Backing>(db: &Database<B>)
    requires
        db.wf(),
        db.persisted(),
    ensures
        decode_spec(db.contents()) == Ok::<Image, Error>(db.image()),
{
    let raws = choose|raws: Seq<RawRecordView>|
        #![trigger records_image(raws)]
        {
            &&& laid_out(db.contents(), db.header, db.string_table@, raws, db.meta@)
            &&& forall|i: int| 0 <= i < raws.len() ==> resolves(#[trigger] raws[i], db.string_table@)
            &&& resolve_each(raws, db.string_table@) == pages_view(db.inode_table@)
            &&& db.inode_table_size == records_image(raws).len()
            &&& db.string_table_size == strings_image(db.string_table@).len()
        };
    lemma_open_laid_out(db.contents(), db.header, db.string_table@, raws, db.meta@);
}

/// `n` zero bytes.
pub open spec fn zero_bytes(n: nat) -> Seq<u8> {
    Seq::new(n, |i: int| 0u8)
}

/// Where the container grows when no gap fits: its end, unless the data
/// start or a chunk lies further.
pub open spec fn grow_point(pages: Seq<PageView>, data_start: int, len: int) -> int {
    max_int(max_int(len, data_start), max_end_spec(all_chunks(pages)))
}

/// Growing at `gp` by `m` bytes rounded up to 4 KiB would end past `usize::MAX`.
pub open spec fn grow_fails(gp: int, m: int) -> bool {
    gp + 0x1000 + m > usize::MAX
}

/// What allocating `m` bytes among `pages`, in a data region from
/// `data_start`, turns container `c0` into (`c1`) and returns (`r`): the
/// smallest gap that holds them, with nothing written; when none does, a
/// range at the grow point, after `round(m, 0x1000)` zero bytes are written
/// there, or `StorageFull` when that would pass `usize::MAX`. Any range
/// returned is `m` bytes long, inside the data region and the container, and
/// shares no position with any page's chunk.
pub open spec fn allocated(
    pages: Seq<PageView>,
    data_start: int,
    c0: Seq<u8>,
    c1: Seq<u8>,
    m: int,
    infallible: bool,
    r: Result<Vec<Array>, Error>,
) -> bool {
    let len = c0.len() as int;
    let all = all_chunks(pages);
    let gp = grow_point(pages, data_start, len);
    &&& (exists|a: Array| #[trigger] best_fit(all, data_start, len, m, Some(a))) ==> (r matches Ok(v)
        && v@.len() == 1 && best_fit(all, data_start, len, m, Some(v@[0])) && c1 == c0)
    &&& best_fit(all, data_start, len, m, None) && grow_fails(gp, m) ==> r == Err::<
        Vec<Array>,
        Error,
    >(Error::StorageFull) && c1 == c0
    &&& best_fit(all, data_start, len, m, None) && !grow_fails(gp, m) && infallible ==> r is Ok
    &&& best_fit(all, data_start, len, m, None) ==> (r matches Ok(v) ==> v@.len() == 1 && v@[0]
        == (Array { offset: gp as u64, length: m as u64 }) && c1 == spliced(
        c0,
        gp,
        zero_bytes(round_spec(m, 0x1000) as nat),
    ))
    &&& r matches Ok(v) ==> {
        &&& v@.len() == 1
        &&& v@[0].length == m
        &&& data_start <= v@[0].offset
        &&& v@[0].end_spec() <= c1.len()
        &&& free_of_pages(pages, v@[0])
        &&& c1.len() >= c0.len()
        &&& c1.subrange(0, len) == c0
    }
}

proof fn lemma_no_fit_none(chunks: Seq<Array>, ds: int, len: int, m: int)
    ensures
        best_fit(chunks, ds, len, m, None) ==> !(exists|a: Array| #[trigger] best_fit(chunks, ds, len, m, Some(a))),
{
    if best_fit(chunks, ds, len, m, None) {
        assert forall|a: Array| !#[trigger] best_fit(chunks, ds, len, m, Some(a)) by {
            if best_fit(chunks, ds, len, m, Some(a)) {
                assert(gap_len(chunks, a.offset as int, len) >= m);
            }
        }
    }
}

/// Eight zero bytes.
pub open spec fn zeros8() -> Seq<u8> {
    Seq::new(8, |i: int| 0u8)
}

/// Every access list has at most 65535 entries.
pub open spec fn acl_fit(ps: Seq<PageView>) -> bool {
    forall|i: int| 0 <= i < ps.len() ==> (#[trigger] ps[i]).acl.len() <= u16::MAX
}

/// Whether the regions of a flush, with `m` metadata bytes, an inode table of
/// `isz` bytes and string table `strs`, would end past `usize::MAX`.
pub open spec fn layout_overflows(m: int, isz: int, strs: Seq<Seq<char>>) -> bool {
    round_spec(HEADER_SIZE + m, 0x10) + isz + strings_image(strs).len() + strs.len() + 0x300
        > usize::MAX
}

/// The larger of two integers.
pub open spec fn max_int(a: int, b: int) -> int {
    if a > b {
        a
    } else {
        b
    }
}

/// Every chunk of every page, page after page.
pub open spec fn all_chunks(pages: Seq<PageView>) -> Seq<Array>
    decreases pages.len(),
{
    if pages.len() == 0 {
        Seq::empty()
    } else {
        all_chunks(pages.drop_last()) + pages.last().chunks
    }
}

/// Whether range `a` shares no position with any chunk of any page.
pub open spec fn free_of_pages(pages: Seq<PageView>, a: Array) -> bool {
    forall|p: int, k: int|
        0 <= p < pages.len() && 0 <= k < pages[p].chunks.len() ==> !(#[trigger] pages[p].chunks[k]).overlaps(a)
}

pub proof fn lemma_free_of_pages(pages: Seq<PageView>, a: Array)
    requires
        free(all_chunks(pages), a),
    ensures
        free_of_pages(pages, a),
    decreases pages.len(),
{
    if pages.len() > 0 {
        let d = pages.drop_last();
        let all = all_chunks(pages);
        let pre = all_chunks(d);
        assert forall|i: int| 0 <= i < pre.len() implies !(#[trigger] pre[i]).overlaps(a) by {
            assert(all[i] == pre[i]);
        }
        lemma_free_of_pages(d, a);
        assert forall|p: int, k: int|
            0 <= p < pages.len() && 0 <= k < pages[p].chunks.len() implies !(
            #[trigger] pages[p].chunks[k]).overlaps(a) by {
            if p < d.len() {
                assert(d[p] == pages[p]);
            } else {
                assert(all[pre.len() + k] == pages[p].chunks[k]);
            }
        }
    }
}

/// All chunks of all pages.
fn collect_chunks(pages: &Vec<PageDescriptor>) -> (r: Vec<Array>)
    ensures
        r@ == all_chunks(pages_view(pages@)),
{
    let ghost pv = pages_view(pages@);
    let mut out: Vec<Array> = Vec::new();
    let mut i: usize = 0;
    assert(pv.take(0) =~= Seq::<PageView>::empty());
    while i < pages.len()
        invariant
            i <= pages@.len(),
            pv == pages_view(pages@),
            pv.len() == pages@.len(),
            out@ == all_chunks(pv.take(i as int)),
        decreases pages@.len() - i,
    {
        let ghost before = out@;
        let cs = &pages[i].inodes;
        let mut j: usize = 0;
        while j < cs.len()
            invariant
                j <= cs@.len(),
                out@ == before + cs@.take(j as int),
            decreases cs@.len() - j,
        {
            out.push(cs[j]);
            j = j + 1;
            assert(out@ =~= before + cs@.take(j as int));
        }
        proof {
            assert(cs@.take(j as int) =~= cs@);
            assert(pv.take(i + 1).drop_last() =~= pv.take(i as int));
            assert(pv.take(i + 1).last() == pages@[i as int]@);
        }
        i = i + 1;
    }
    assert(pv.take(i as int) =~= pv);
    out
}

/// The greatest end of any chunk, or 0.
pub open spec fn max_end_spec(cs: Seq<Array>) -> int
    decreases cs.len(),
{
    if cs.len() == 0 {
        0
    } else {
        let m = max_end_spec(cs.drop_last());
        if cs.last().end_spec() > m {
            cs.last().end_spec()
        } else {
            m
        }
    }
}

fn max_end(cs: &Vec<Array>) -> (r: u128)
    ensures
        r == max_end_spec(cs@),
        forall|i: int| 0 <= i < cs@.len() ==> (#[trigger] cs@[i]).end_spec() <= r,
{
    let mut m: u128 = 0;
    let mut i: usize = 0;
    assert(cs@.take(0) =~= Seq::<Array>::empty());
    while i < cs.len()
        invariant
            i <= cs@.len(),
            m == max_end_spec(cs@.take(i as int)),
            forall|k: int| 0 <= k < i ==> (#[trigger] cs@[k]).end_spec() <= m,
        decreases cs@.len() - i,
    {
        let e = cs[i].offset as u128 + cs[i].length as u128;
        proof {
            assert(cs@.take(i + 1).drop_last() =~= cs@.take(i as int));
            assert(cs@.take(i + 1).last() == cs@[i as int]);
        }
        if e > m {
            m = e;
        }
        i = i + 1;
    }
    assert(cs@.take(i as int) =~= cs@);
    m
}

/// A fresh in-memory database: a header for an empty container, the
/// metadata bytes at `0x50`, a string table `["/", "*"]` and one root page
/// `"/"` granting `ReadWriteExecute` to `"*"`. The data region starts at
/// `round(max(0x50 + metadata length, 0x80), 0x10)`, with the inode, string
/// and history tables placed at that offset, 256 bytes and 512 bytes past it.
/// Nothing but the header and the metadata is written yet: moving the
/// database onto a container writes the tables.
pub fn blank(metadata: Vec<u8>, now: u64) -> (r: Result<Database<MemoryBacking>, Error>)
    ensures
        metadata@.len() > MAX_METADATA ==> r == Err::<Database<MemoryBacking>, Error>(
            Error::TooLarge,
        ),
        metadata@.len() <= MAX_METADATA ==> (r matches Ok(db) && db.wf() && db.infallible() && db.image().metadata
            == metadata@ && db.image().strings == seq!["/"@, "*"@] && db.image().pages == seq![
            PageView {
                name: "/"@,
                acl: seq![(0b111u8, "*"@)],
                chunks: Seq::<Array>::empty(),
            },
        ] && db.image().header == blank_header(metadata@.len()) && parse_header_spec(db.contents())
            == Ok::<Header, Error>(blank_header(metadata@.len())) && db.contents().skip(
            HEADER_SIZE as int,
        ) == metadata@),
{
    let m = metadata.len() as u64;
    if m > MAX_METADATA {
        return Err(Error::TooLarge);
    }
    let end = HEADER_SIZE + m;
    let base = if end > 0x80 {
        end
    } else {
        0x80
    };
    let data = round(base, 0x10);
    let h = Header {
        inode_table: Array { length: 1, offset: data },
        string_table: Array { length: 2, offset: data + 0x100 },
        history_table: Array { length: 0, offset: data + 0x200 },
        metadata: Array { length: m, offset: HEADER_SIZE },
    };
    let mut raw: Vec<u8> = vec![
        0x46u8,
        0x53u8,
        0x44u8,
        0x42u8,
        0x01u8,
        0x00u8,
        0x00u8,
        0x00u8,
        0u8,
        0u8,
        0u8,
        0u8,
        0u8,
        0u8,
        0u8,
        0u8,
    ];
    let mut ranges = encode_ranges(&h);
    raw.append(&mut ranges);
    let mut bytes = vstd::slice::slice_to_vec(raw.as_slice());
    let mut meta_copy = vstd::slice::slice_to_vec(metadata.as_slice());
    bytes.append(&mut meta_copy);
    let mut strings = StringTable::new();
    strings.intern("/");
    let ghost t1 = strings@;
    proof {
        reveal_strlit("/");
        reveal_strlit("*");
        assert(t1 =~= seq!["/"@]);
        assert("/"@[0] != "*"@[0]);
        assert(!(exists|j: int| 0 <= j < t1.len() && t1[j] == "*"@));
    }
    strings.intern("*");
    let root = PageDescriptor {
        name: "/".to_owned(),
        access_control_list: vec![Access::ReadWriteExecute("*".to_owned())],
        modified: now,
        created: now,
        inodes: Vec::new(),
    };
    let db = Database {
        mediator: Mediator::new(MemoryBacking::new(bytes)),
        header: h,
        inode_table: vec![root],
        string_table: strings,
        inode_table_size: 0x20,
        string_table_size: 6,
        raw_header: raw,
        meta: metadata,
    };
    proof {
        reveal_strlit("/");
        reveal_strlit("*");
        assert(db.raw_header@.subrange(0, 4) =~= magic());
        assert(db.raw_header@.subrange(4, 8) =~= version());
        assert(db.raw_header@.subrange(8, 16) =~= zeros8());
        assert(db.string_table@ =~= seq!["/"@, "*"@]);
        let pv = pages_view(db.inode_table@);
        assert(pv[0].acl =~= seq![(0b111u8, "*"@)]);
        assert(pv =~= seq![
            PageView {
                name: "/"@,
                acl: seq![(0b111u8, "*"@)],
                chunks: Seq::<Array>::empty(),
            },
        ]);
        assert(h == blank_header(m as nat));
        let c = db.contents();
        assert(c.subrange(16, 80) =~= ranges_image(h));
        assert(c.subrange(0, 4) =~= magic());
        assert(c.subrange(4, 8) =~= version());
        lemma_header_round_trip(c, h);
        assert(c.skip(HEADER_SIZE as int) =~= metadata@);
    }
    Ok(db)
}

/// The header of a fresh database whose metadata has `m` bytes.
pub open spec fn blank_header(m: nat) -> Header {
    let end = HEADER_SIZE + m;
    let base = if end > 0x80 {
        end
    } else {
        0x80
    };
    let data = round_spec(base, 0x10) as u64;
    Header {
        inode_table: Array { length: 1, offset: data },
        string_table: Array { length: 2, offset: (data + 0x100) as u64 },
        history_table: Array { length: 0, offset: (data + 0x200) as u64 },
        metadata: Array { length: m as u64, offset: HEADER_SIZE },
    }
}

} // verus!
