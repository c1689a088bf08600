//! Byte-level encoding of the container's header and tables.
use vstd::prelude::*;
use vstd::bytes::*;
use vstd::slice::slice_subrange;
use crate::array::{Array, round, round_spec};
use vstd::utf8::*;
use crate::error::Error;

verus! {

broadcast use vstd::seq_lib::group_seq_properties;

/// Little-endian bytes of a `u64`.
pub open spec fn le64(x: u64) -> Seq<u8> {
    spec_u64_to_le_bytes(x)
}

/// Little-endian bytes of a `u16`.
pub open spec fn le16(x: u16) -> Seq<u8> {
    spec_u16_to_le_bytes(x)
}

/// The `u64` stored little-endian at `p`.
pub open spec fn u64_at(s: Seq<u8>, p: int) -> u64 {
    spec_u64_from_le_bytes(s.subrange(p, p + 8))
}

/// The `u16` stored little-endian at `p`.
pub open spec fn u16_at(s: Seq<u8>, p: int) -> u16 {
    spec_u16_from_le_bytes(s.subrange(p, p + 2))
}

pub proof fn lemma_le64(x: u64)
    ensures
        le64(x).len() == 8,
        spec_u64_from_le_bytes(le64(x)) == x,
{
    lemma_auto_spec_u64_to_from_le_bytes();
}

pub proof fn lemma_le16(x: u16)
    ensures
        le16(x).len() == 2,
        spec_u16_from_le_bytes(le16(x)) == x,
{
    lemma_auto_spec_u16_to_from_le_bytes();
    assert(spec_u16_to_le_bytes(x).len() == 2);
}

/// Reading back a `u64` written at `p`.
pub proof fn lemma_u64_at(s: Seq<u8>, p: int, x: u64)
    requires
        0 <= p,
        p + 8 <= s.len(),
        s.subrange(p, p + 8) == le64(x),
    ensures
        u64_at(s, p) == x,
{
    lemma_le64(x);
}

pub(crate) fn read_u64(bytes: &Vec<u8>, p: usize) -> (r: u64)
    requires
        p + 8 <= bytes@.len(),
    ensures
        r == u64_at(bytes@, p as int),
{
    let _n = bytes.len();
    u64_from_le_bytes(slice_subrange(bytes.as_slice(), p, p + 8))
}

pub(crate) fn read_u16(bytes: &Vec<u8>, p: usize) -> (r: u16)
    requires
        p + 2 <= bytes@.len(),
    ensures
        r == u16_at(bytes@, p as int),
{
    let _n = bytes.len();
    u16_from_le_bytes(slice_subrange(bytes.as_slice(), p, p + 2))
}

pub(crate) fn push_u64(out: &mut Vec<u8>, x: u64)
    ensures
        final(out)@ == old(out)@ + le64(x),
{
    let mut b = u64_to_le_bytes(x);
    out.append(&mut b);
}

pub(crate) fn push_u16(out: &mut Vec<u8>, x: u16)
    ensures
        final(out)@ == old(out)@ + le16(x),
{
    let mut b = u16_to_le_bytes(x);
    out.append(&mut b);
}

// ---------------------------------------------------------------- header

/// Size of the fixed header at the start of the container.
pub const HEADER_SIZE: u64 = 0x50;

/// The magic bytes `"FSDB"`.
pub open spec fn magic() -> Seq<u8> {
    seq![0x46u8, 0x53u8, 0x44u8, 0x42u8]
}

/// The format version `1`, little-endian.
pub open spec fn version() -> Seq<u8> {
    seq![0x01u8, 0x00u8, 0x00u8, 0x00u8]
}

/// Where the four regions of the container lie; each `length` counts records
/// for the tables and bytes for the metadata.
#[derive(Copy, Clone, Debug)]
pub struct Header {
    pub inode_table: Array,
    pub string_table: Array,
    pub history_table: Array,
    pub metadata: Array,
}

/// The 64 bytes of region descriptors that follow the first 16 header bytes,
/// each as `(length, offset)`.
pub open spec fn ranges_image(h: Header) -> Seq<u8> {
    le64(h.inode_table.length) + le64(h.inode_table.offset) + le64(h.string_table.length)
        + le64(h.string_table.offset) + le64(h.history_table.length) + le64(
        h.history_table.offset,
    ) + le64(h.metadata.length) + le64(h.metadata.offset)
}

/// The array stored as `(length, offset)` at `p`.
pub open spec fn array_at(s: Seq<u8>, p: int) -> Array {
    Array { length: u64_at(s, p), offset: u64_at(s, p + 8) }
}

/// What the header at the start of `s` declares, or why it is refused.
pub open spec fn parse_header_spec(s: Seq<u8>) -> Result<Header, Error> {
    if s.len() < HEADER_SIZE {
        Err(Error::UnexpectedEof)
    } else if s.subrange(0, 4) != magic() {
        Err(Error::BadMagic)
    } else if s.subrange(4, 8) != version() {
        Err(Error::UnsupportedVersion)
    } else {
        Ok(
            Header {
                inode_table: array_at(s, 16),
                string_table: array_at(s, 32),
                history_table: array_at(s, 48),
                metadata: array_at(s, 64),
            },
        )
    }
}

/// Decodes the header at the start of `bytes`.
pub fn parse_header(bytes: &Vec<u8>) -> (r: Result<Header, Error>)
    ensures
        r == parse_header_spec(bytes@),
{
    if bytes.len() < 0x50 {
        return Err(Error::UnexpectedEof);
    }
    if !(bytes[0] == 0x46 && bytes[1] == 0x53 && bytes[2] == 0x44 && bytes[3] == 0x42) {
        assert(bytes@.subrange(0, 4) != magic()) by {
            if bytes@.subrange(0, 4) == magic() {
                assert(bytes@.subrange(0, 4)[0] == bytes@[0]);
                assert(bytes@.subrange(0, 4)[1] == bytes@[1]);
                assert(bytes@.subrange(0, 4)[2] == bytes@[2]);
                assert(bytes@.subrange(0, 4)[3] == bytes@[3]);
            }
        }
        return Err(Error::BadMagic);
    }
    assert(bytes@.subrange(0, 4) =~= magic());
    if !(bytes[4] == 0x01 && bytes[5] == 0 && bytes[6] == 0 && bytes[7] == 0) {
        assert(bytes@.subrange(4, 8) != version()) by {
            if bytes@.subrange(4, 8) == version() {
                assert(bytes@.subrange(4, 8)[0] == bytes@[4]);
                assert(bytes@.subrange(4, 8)[1] == bytes@[5]);
                assert(bytes@.subrange(4, 8)[2] == bytes@[6]);
                assert(bytes@.subrange(4, 8)[3] == bytes@[7]);
            }
        }
        return Err(Error::UnsupportedVersion);
    }
    assert(bytes@.subrange(4, 8) =~= version());
    Ok(
        Header {
            inode_table: Array { length: read_u64(bytes, 16), offset: read_u64(bytes, 24) },
            string_table: Array { length: read_u64(bytes, 32), offset: read_u64(bytes, 40) },
            history_table: Array { length: read_u64(bytes, 48), offset: read_u64(bytes, 56) },
            metadata: Array { length: read_u64(bytes, 64), offset: read_u64(bytes, 72) },
        },
    )
}

/// Encodes the region descriptors that follow the first 16 header bytes.
pub fn encode_ranges(h: &Header) -> (r: Vec<u8>)
    ensures
        r@ == ranges_image(*h),
        r@.len() == 64,
{
    let mut out: Vec<u8> = Vec::new();
    push_u64(&mut out, h.inode_table.length);
    push_u64(&mut out, h.inode_table.offset);
    push_u64(&mut out, h.string_table.length);
    push_u64(&mut out, h.string_table.offset);
    push_u64(&mut out, h.history_table.length);
    push_u64(&mut out, h.history_table.offset);
    push_u64(&mut out, h.metadata.length);
    push_u64(&mut out, h.metadata.offset);
    proof {
        lemma_le64(h.inode_table.length);
        lemma_le64(h.inode_table.offset);
        lemma_le64(h.string_table.length);
        lemma_le64(h.string_table.offset);
        lemma_le64(h.history_table.length);
        lemma_le64(h.history_table.offset);
        lemma_le64(h.metadata.length);
        lemma_le64(h.metadata.offset);
        assert(out@ =~= ranges_image(*h));
    }
    out
}

/// A header whose first 16 bytes carry the magic and the version, followed by
/// the region descriptors of `h`, is read back as `h`.
pub proof fn lemma_header_round_trip(s: Seq<u8>, h: Header)
    requires
        s.len() >= HEADER_SIZE,
        s.subrange(0, 4) == magic(),
        s.subrange(4, 8) == version(),
        s.subrange(16, 80) == ranges_image(h),
    ensures
        parse_header_spec(s) == Ok::<Header, Error>(h),
{
    let r = ranges_image(h);
    lemma_le64(h.inode_table.length);
    lemma_le64(h.inode_table.offset);
    lemma_le64(h.string_table.length);
    lemma_le64(h.string_table.offset);
    lemma_le64(h.history_table.length);
    lemma_le64(h.history_table.offset);
    lemma_le64(h.metadata.length);
    lemma_le64(h.metadata.offset);
    assert(r.len() == 64);
    assert(r.subrange(0, 8) =~= le64(h.inode_table.length));
    assert(r.subrange(8, 16) =~= le64(h.inode_table.offset));
    assert(r.subrange(16, 24) =~= le64(h.string_table.length));
    assert(r.subrange(24, 32) =~= le64(h.string_table.offset));
    assert(r.subrange(32, 40) =~= le64(h.history_table.length));
    assert(r.subrange(40, 48) =~= le64(h.history_table.offset));
    assert(r.subrange(48, 56) =~= le64(h.metadata.length));
    assert(r.subrange(56, 64) =~= le64(h.metadata.offset));
    assert(s.subrange(16, 24) =~= r.subrange(0, 8));
    assert(s.subrange(24, 32) =~= r.subrange(8, 16));
    assert(s.subrange(32, 40) =~= r.subrange(16, 24));
    assert(s.subrange(40, 48) =~= r.subrange(24, 32));
    assert(s.subrange(48, 56) =~= r.subrange(32, 40));
    assert(s.subrange(56, 64) =~= r.subrange(40, 48));
    assert(s.subrange(64, 72) =~= r.subrange(48, 56));
    assert(s.subrange(72, 80) =~= r.subrange(56, 64));
}

// ---------------------------------------------------------------- strings

/// Relies on `String::from_utf8`: it accepts exactly the valid UTF-8 byte
/// sequences, and the string it returns holds the characters they encode.
#[verifier::external_body]
fn utf8_string(bytes: Vec<u8>) -> (r: Option<String>)
    ensures
        r is Some <==> valid_utf8(bytes@),
        r matches Some(s) ==> s@ == decode_utf8(bytes@),
{
    String::from_utf8(bytes).ok()
}

/// The characters of each string.
pub open spec fn chars_of(v: Seq<String>) -> Seq<Seq<char>> {
    v.map_values(|s: String| s@)
}

/// A string-table record: a `u16` byte count, then the UTF-8 bytes.
pub open spec fn string_record(x: Seq<char>) -> Seq<u8> {
    le16(encode_utf8(x).len() as u16) + encode_utf8(x)
}

/// Records back to back, with no alignment between them.
pub open spec fn strings_image(xs: Seq<Seq<char>>) -> Seq<u8>
    decreases xs.len(),
{
    if xs.len() == 0 {
        Seq::empty()
    } else {
        strings_image(xs.drop_last()) + string_record(xs.last())
    }
}

/// Every string is short enough for its `u16` byte count.
pub open spec fn strings_fit(xs: Seq<Seq<char>>) -> bool {
    forall|i: int| 0 <= i < xs.len() ==> #[trigger] encode_utf8(xs[i]).len() <= u16::MAX
}

/// The string record at the start of `s` and its size, or why it is refused.
pub open spec fn parse_string_spec(s: Seq<u8>) -> Result<(Seq<char>, nat), Error> {
    if s.len() < 2 {
        Err(Error::UnexpectedEof)
    } else if s.len() < 2 + u16_at(s, 0) {
        Err(Error::UnexpectedEof)
    } else if !valid_utf8(s.subrange(2, 2 + u16_at(s, 0))) {
        Err(Error::CorruptFormat)
    } else {
        Ok((decode_utf8(s.subrange(2, 2 + u16_at(s, 0))), (2 + u16_at(s, 0)) as nat))
    }
}

/// Prepends what was already decoded to the outcome of decoding the rest.
pub open spec fn after<T>(done: Seq<T>, off: nat, r: Result<(Seq<T>, nat), Error>) -> Result<
    (Seq<T>, nat),
    Error,
> {
    match r {
        Ok((xs, k)) => Ok((done + xs, off + k)),
        Err(e) => Err(e),
    }
}

/// `count` string records from the start of `s` and their total size, or why
/// they are refused.
pub open spec fn parse_strings_spec(s: Seq<u8>, count: nat) -> Result<(Seq<Seq<char>>, nat), Error>
    decreases count,
{
    if count == 0 {
        Ok((Seq::empty(), 0))
    } else {
        match parse_string_spec(s) {
            Err(e) => Err(e),
            Ok((x, k)) => after(seq![x], k, parse_strings_spec(s.skip(k as int), (count - 1) as nat)),
        }
    }
}

fn parse_string(bytes: &Vec<u8>, pos: usize) -> (r: Result<(String, usize), Error>)
    requires
        pos <= bytes@.len(),
    ensures
        match parse_string_spec(bytes@.skip(pos as int)) {
            Ok((x, k)) => r matches Ok((s, e)) && s@ == x && e == pos + k,
            Err(err) => r == Err::<(String, usize), Error>(err),
        },
{
    let len = bytes.len();
    let ghost s = bytes@.skip(pos as int);
    if len - pos < 2 {
        return Err(Error::UnexpectedEof);
    }
    let n = read_u16(bytes, pos) as usize;
    assert(s.subrange(0, 2) =~= bytes@.subrange(pos as int, pos + 2));
    if len - pos - 2 < n {
        return Err(Error::UnexpectedEof);
    }
    let raw = vstd::slice::slice_to_vec(slice_subrange(bytes.as_slice(), pos + 2, pos + 2 + n));
    assert(s.subrange(2, 2 + n) =~= raw@);
    match utf8_string(raw) {
        None => Err(Error::CorruptFormat),
        Some(st) => Ok((st, pos + 2 + n)),
    }
}

/// Decodes `count` string records starting at `pos`; returns them and the
/// position after the last.
pub fn parse_strings(bytes: &Vec<u8>, pos: usize, count: u64) -> (r: Result<
    (Vec<String>, usize),
    Error,
>)
    requires
        pos <= bytes@.len(),
    ensures
        match parse_strings_spec(bytes@.skip(pos as int), count as nat) {
            Ok((xs, k)) => r matches Ok((v, e)) && chars_of(v@) == xs && e == pos + k,
            Err(err) => r == Err::<(Vec<String>, usize), Error>(err),
        },
{
    let mut out: Vec<String> = Vec::new();
    let mut cur = pos;
    let mut i: u64 = 0;
    assert(chars_of(out@) + seq![] =~= chars_of(out@));
    while i < count
        invariant
            pos <= cur <= bytes@.len(),
            i <= count,
            parse_strings_spec(bytes@.skip(pos as int), count as nat) == after(
                chars_of(out@),
                (cur - pos) as nat,
                parse_strings_spec(bytes@.skip(cur as int), (count - i) as nat),
            ),
        decreases count - i,
    {
        match parse_string(bytes, cur) {
            Err(e) => {
                return Err(e);
            },
            Ok((st, e)) => {
                proof {
                    let s2 = bytes@.skip(e as int);
                    assert(bytes@.skip(cur as int).skip((e - cur) as int) =~= s2);
                    assert(chars_of(out@.push(st)) =~= chars_of(out@).push(st@));
                    match parse_strings_spec(s2, (count - i - 1) as nat) {
                        Ok((xs, k2)) => {
                            assert(chars_of(out@) + (seq![st@] + xs) =~= chars_of(out@).push(st@)
                                + xs);
                        },
                        Err(_) => {},
                    }
                }
                out.push(st);
                cur = e;
                i = i + 1;
            },
        }
    }
    assert(chars_of(out@) + seq![] =~= chars_of(out@));
    Ok((out, cur))
}

/// Encodes the string table; fails with `TooLarge` when a string has more
/// bytes than its `u16` count can hold.
pub fn encode_strings(strs: &Vec<String>) -> (r: Result<Vec<u8>, Error>)
    ensures
        match r {
            Ok(v) => strings_fit(chars_of(strs@)) && v@ == strings_image(chars_of(strs@)),
            Err(e) => !strings_fit(chars_of(strs@)) && e == Error::TooLarge,
        },
{
    let mut out: Vec<u8> = Vec::new();
    let mut i: usize = 0;
    assert(chars_of(strs@.take(0)) =~= Seq::<Seq<char>>::empty());
    while i < strs.len()
        invariant
            i <= strs@.len(),
            strings_fit(chars_of(strs@.take(i as int))),
            out@ == strings_image(chars_of(strs@.take(i as int))),
        decreases strs@.len() - i,
    {
        let b = strs[i].as_str().as_bytes();
        let n = b.len();
        if n > 0xffff {
            assert(chars_of(strs@)[i as int] == strs@[i as int]@);
            return Err(Error::TooLarge);
        }
        push_u16(&mut out, n as u16);
        let mut v = vstd::slice::slice_to_vec(b);
        out.append(&mut v);
        proof {
            let t = chars_of(strs@.take(i + 1));
            assert(t.drop_last() =~= chars_of(strs@.take(i as int)));
            assert(t.last() == strs@[i as int]@);
            assert(strings_fit(t)) by {
                assert forall|j: int| 0 <= j < t.len() implies #[trigger] encode_utf8(t[j]).len()
                    <= u16::MAX by {
                    if j < i {
                        assert(t[j] == chars_of(strs@.take(i as int))[j]);
                    }
                }
            }
            assert(out@ =~= strings_image(t));
        }
        i = i + 1;
    }
    assert(strs@.take(i as int) =~= strs@);
    Ok(out)
}

/// The table splits into its first record and the table of the rest.
pub proof fn lemma_strings_image_first(xs: Seq<Seq<char>>)
    requires
        xs.len() > 0,
    ensures
        strings_image(xs) == string_record(xs[0]) + strings_image(xs.drop_first()),
    decreases xs.len(),
{
    if xs.len() == 1 {
        assert(xs.drop_last() =~= Seq::<Seq<char>>::empty());
        assert(xs.drop_first() =~= Seq::<Seq<char>>::empty());
        assert(strings_image(xs) =~= string_record(xs[0]) + strings_image(xs.drop_first()));
    } else {
        lemma_strings_image_first(xs.drop_last());
        assert(xs.drop_last().drop_first() =~= xs.drop_first().drop_last());
        assert(xs.drop_first().last() == xs.last());
        assert(strings_image(xs) =~= string_record(xs[0]) + strings_image(xs.drop_first()));
    }
}

/// Decoding an encoded string table, whatever follows it, gives back the
/// strings and the table's size.
pub proof fn lemma_strings_round_trip(xs: Seq<Seq<char>>, rest: Seq<u8>)
    requires
        strings_fit(xs),
    ensures
        parse_strings_spec(strings_image(xs) + rest, xs.len()) == Ok::<
            (Seq<Seq<char>>, nat),
            Error,
        >((xs, strings_image(xs).len())),
    decreases xs.len(),
{
    if xs.len() == 0 {
    } else {
        lemma_strings_image_first(xs);
        let x = xs[0];
        let b = encode_utf8(x);
        let n = b.len() as int;
        assert(n <= u16::MAX);
        lemma_le16(n as u16);
        encode_utf8_valid_utf8(x);
        encode_utf8_decode_utf8(x);
        let tail = xs.drop_first();
        assert(strings_fit(tail)) by {
            assert forall|j: int| 0 <= j < tail.len() implies #[trigger] encode_utf8(tail[j]).len()
                <= u16::MAX by {
                assert(tail[j] == xs[j + 1]);
            }
        }
        let s = strings_image(xs) + rest;
        assert(s =~= le16(n as u16) + b + (strings_image(tail) + rest));
        assert(s.subrange(0, 2) =~= le16(n as u16));
        assert(u16_at(s, 0) == n);
        assert(s.subrange(2, 2 + n) =~= b);
        assert(s.skip(2 + n) =~= strings_image(tail) + rest);
        lemma_strings_round_trip(tail, rest);
        assert(seq![x] + tail =~= xs);
    }
}

// ---------------------------------------------------------------- inode records

/// An inode-table record as stored: string-table indices in place of names.
#[derive(Debug)]
pub struct RawRecord {
    /// Index of the page name.
    pub name: u64,
    /// `(permission bits, principal index)` for each access entry.
    pub acl: Vec<(u8, u64)>,
    /// The page's chunks in logical order.
    pub chunks: Vec<Array>,
}

/// What a raw record holds.
pub struct RawRecordView {
    pub name: u64,
    pub acl: Seq<(u8, u64)>,
    pub chunks: Seq<Array>,
}

impl View for RawRecord {
    type V = RawRecordView;

    open spec fn view(&self) -> RawRecordView {
        RawRecordView { name: self.name, acl: self.acl@, chunks: self.chunks@ }
    }
}

/// The views of a list of raw records.
pub open spec fn records_view(v: Seq<RawRecord>) -> Seq<RawRecordView> {
    v.map_values(|r: RawRecord| r@)
}

/// One access entry: the permission byte, then the principal's index.
pub open spec fn acl_entry(e: (u8, u64)) -> Seq<u8> {
    seq![e.0] + le64(e.1)
}

pub open spec fn acl_image(acl: Seq<(u8, u64)>) -> Seq<u8>
    decreases acl.len(),
{
    if acl.len() == 0 {
        Seq::empty()
    } else {
        acl_image(acl.drop_last()) + acl_entry(acl.last())
    }
}

/// One chunk: its length, then its offset.
pub open spec fn chunk_entry(a: Array) -> Seq<u8> {
    le64(a.length) + le64(a.offset)
}

pub open spec fn chunks_image(cs: Seq<Array>) -> Seq<u8>
    decreases cs.len(),
{
    if cs.len() == 0 {
        Seq::empty()
    } else {
        chunks_image(cs.drop_last()) + chunk_entry(cs.last())
    }
}

/// Zero bytes after `n` access entries: `round(2 + 9n, 16) - (2 + 9n)`.
pub open spec fn acl_pad(n: int) -> int {
    round_spec(2 + 9 * n, 16) - (2 + 9 * n)
}

/// Position, within a record, of its chunk count.
pub open spec fn chunk_count_pos(n: int) -> int {
    10 + 9 * n + acl_pad(n)
}

/// A record: name index, access-entry count, the entries, zero padding, chunk
/// count, the chunks.
pub open spec fn record_image(r: RawRecordView) -> Seq<u8> {
    le64(r.name) + le16(r.acl.len() as u16) + acl_image(r.acl) + Seq::new(
        acl_pad(r.acl.len() as int) as nat,
        |i: int| 0u8,
    ) + le64(r.chunks.len() as u64) + chunks_image(r.chunks)
}

/// The record fits its count fields.
pub open spec fn record_fits(r: RawRecordView) -> bool {
    r.acl.len() <= u16::MAX && r.chunks.len() <= u64::MAX
}

/// The record at the start of `s` and its size, or why it is refused.
/// The padding bytes are not inspected.
pub open spec fn parse_record_spec(s: Seq<u8>) -> Result<(RawRecordView, nat), Error> {
    if s.len() < 10 {
        Err(Error::UnexpectedEof)
    } else {
        let n = u16_at(s, 8) as int;
        let p = chunk_count_pos(n);
        if s.len() < p + 8 {
            Err(Error::UnexpectedEof)
        } else {
            let c = u64_at(s, p) as int;
            if s.len() < p + 8 + 16 * c {
                Err(Error::UnexpectedEof)
            } else {
                Ok(
                    (
                        RawRecordView {
                            name: u64_at(s, 0),
                            acl: Seq::new(n as nat, |i: int| (s[10 + 9 * i], u64_at(s, 11 + 9 * i))),
                            chunks: Seq::new(c as nat, |i: int| array_at(s, p + 8 + 16 * i)),
                        },
                        (p + 8 + 16 * c) as nat,
                    ),
                )
            }
        }
    }
}

pub proof fn lemma_acl_pad(n: int)
    requires
        0 <= n,
    ensures
        1 <= acl_pad(n) <= 16,
        (2 + 9 * n + acl_pad(n)) % 16 == 0,
{
    let x = 2 + 9 * n;
    vstd::arithmetic::div_mod::lemma_fundamental_div_mod(x, 16);
    assert(round_spec(x, 16) == 16 * (x / 16) + 16);
    vstd::arithmetic::div_mod::lemma_mod_multiples_basic(x / 16 + 1, 16);
    assert(16 * (x / 16) + 16 == (x / 16 + 1) * 16) by (nonlinear_arith);
}

pub proof fn lemma_acl_pad_len(n: int)
    requires
        0 <= n,
    ensures
        acl_pad(n) >= 1,
        10 + 9 * n + acl_pad(n) == 8 + round_spec(2 + 9 * n, 16),
{
    lemma_acl_pad(n);
}

pub proof fn lemma_acl_image(acl: Seq<(u8, u64)>)
    ensures
        acl_image(acl).len() == 9 * acl.len(),
        forall|i: int|
            0 <= i < acl.len() ==> acl_image(acl)[9 * i] == (#[trigger] acl[i]).0
                && acl_image(acl).subrange(9 * i + 1, 9 * i + 9) == le64(acl[i].1),
    decreases acl.len(),
{
    if acl.len() > 0 {
        let d = acl.drop_last();
        lemma_acl_image(d);
        lemma_le64(acl.last().1);
        let img = acl_image(acl);
        assert forall|i: int| 0 <= i < acl.len() implies img[9 * i] == (#[trigger] acl[i]).0
            && img.subrange(9 * i + 1, 9 * i + 9) == le64(acl[i].1) by {
            if i < d.len() {
                assert(d[i] == acl[i]);
                assert(img.subrange(9 * i + 1, 9 * i + 9) =~= acl_image(d).subrange(
                    9 * i + 1,
                    9 * i + 9,
                ));
            } else {
                assert(img.subrange(9 * i + 1, 9 * i + 9) =~= le64(acl[i].1));
            }
        }
    }
}

pub proof fn lemma_chunks_image(cs: Seq<Array>)
    ensures
        chunks_image(cs).len() == 16 * cs.len(),
        forall|i: int|
            0 <= i < cs.len() ==> chunks_image(cs).subrange(16 * i, 16 * i + 8) == le64(
                (#[trigger] cs[i]).length,
            ) && chunks_image(cs).subrange(16 * i + 8, 16 * i + 16) == le64(cs[i].offset),
    decreases cs.len(),
{
    if cs.len() > 0 {
        let d = cs.drop_last();
        lemma_chunks_image(d);
        lemma_le64(cs.last().length);
        lemma_le64(cs.last().offset);
        let img = chunks_image(cs);
        assert forall|i: int| 0 <= i < cs.len() implies img.subrange(16 * i, 16 * i + 8) == le64(
            (#[trigger] cs[i]).length,
        ) && img.subrange(16 * i + 8, 16 * i + 16) == le64(cs[i].offset) by {
            if i < d.len() {
                assert(d[i] == cs[i]);
                assert(img.subrange(16 * i, 16 * i + 8) =~= chunks_image(d).subrange(
                    16 * i,
                    16 * i + 8,
                ));
                assert(img.subrange(16 * i + 8, 16 * i + 16) =~= chunks_image(d).subrange(
                    16 * i + 8,
                    16 * i + 16,
                ));
            } else {
                assert(img.subrange(16 * i, 16 * i + 8) =~= le64(cs[i].length));
                assert(img.subrange(16 * i + 8, 16 * i + 16) =~= le64(cs[i].offset));
            }
        }
    }
}

/// Decoding an encoded record, whatever follows it, gives back the record and
/// its size.
pub proof fn lemma_record_round_trip(r: RawRecordView, rest: Seq<u8>)
    requires
        record_fits(r),
    ensures
        parse_record_spec(record_image(r) + rest) == Ok::<(RawRecordView, nat), Error>(
            (r, record_image(r).len()),
        ),
{
    let n = r.acl.len() as int;
    let c = r.chunks.len() as int;
    lemma_acl_pad(n);
    lemma_acl_image(r.acl);
    lemma_chunks_image(r.chunks);
    lemma_le64(r.name);
    lemma_le16(n as u16);
    lemma_le64(c as u64);
    let a = acl_image(r.acl);
    let f = chunks_image(r.chunks);
    let p = chunk_count_pos(n);
    let s = record_image(r) + rest;
    assert(s.subrange(0, 8) =~= le64(r.name));
    assert(s.subrange(8, 10) =~= le16(n as u16));
    assert(u16_at(s, 8) == n);
    assert(s.subrange(10, 10 + 9 * n) =~= a);
    assert(s.subrange(p, p + 8) =~= le64(c as u64));
    assert(u64_at(s, p) == c);
    assert(s.subrange(p + 8, p + 8 + 16 * c) =~= f);
    let acl2 = Seq::new(n as nat, |i: int| (s[10 + 9 * i], u64_at(s, 11 + 9 * i)));
    assert forall|i: int| 0 <= i < n implies #[trigger] acl2[i] == r.acl[i] by {
        let e = r.acl[i];
        assert(a[9 * i] == e.0);
        assert(a.subrange(9 * i + 1, 9 * i + 9) == le64(e.1));
        assert(s[10 + 9 * i] == a[9 * i]);
        assert(s.subrange(11 + 9 * i, 19 + 9 * i) =~= a.subrange(9 * i + 1, 9 * i + 9));
        lemma_u64_at(s, 11 + 9 * i, e.1);
        assert(acl2[i] == (s[10 + 9 * i], u64_at(s, 11 + 9 * i)));
    }
    assert(acl2 =~= r.acl);
    let cs2 = Seq::new(c as nat, |i: int| array_at(s, p + 8 + 16 * i));
    assert forall|i: int| 0 <= i < c implies #[trigger] cs2[i] == r.chunks[i] by {
        let e = r.chunks[i];
        assert(f.subrange(16 * i, 16 * i + 8) == le64(e.length));
        assert(f.subrange(16 * i + 8, 16 * i + 16) == le64(e.offset));
        assert(s.subrange(p + 8 + 16 * i, p + 16 + 16 * i) =~= f.subrange(16 * i, 16 * i + 8));
        assert(s.subrange(p + 16 + 16 * i, p + 24 + 16 * i) =~= f.subrange(
            16 * i + 8,
            16 * i + 16,
        ));
        lemma_u64_at(s, p + 8 + 16 * i, e.length);
        lemma_u64_at(s, p + 16 + 16 * i, e.offset);
        assert(cs2[i] == array_at(s, p + 8 + 16 * i));
    }
    assert(cs2 =~= r.chunks);
}

/// Appends the encoding of one record.
pub fn encode_record(out: &mut Vec<u8>, r: &RawRecord)
    requires
        r.acl@.len() <= u16::MAX,
    ensures
        final(out)@ == old(out)@ + record_image(r@),
{
    let ghost start = out@;
    push_u64(out, r.name);
    let n = r.acl.len();
    push_u16(out, n as u16);
    let ghost head = out@;
    let mut i: usize = 0;
    assert(r.acl@.take(0) =~= Seq::<(u8, u64)>::empty());
    assert(head =~= head + acl_image(r.acl@.take(0)));
    while i < n
        invariant
            n == r.acl@.len(),
            i <= n,
            out@ == head + acl_image(r.acl@.take(i as int)),
        decreases n - i,
    {
        let (bits, idx) = r.acl[i];
        out.push(bits);
        push_u64(out, idx);
        proof {
            assert(r.acl@.take(i + 1).drop_last() =~= r.acl@.take(i as int));
            assert(r.acl@.take(i + 1).last() == r.acl@[i as int]);
            assert(out@ =~= head + acl_image(r.acl@.take(i + 1)));
        }
        i = i + 1;
    }
    assert(r.acl@.take(n as int) =~= r.acl@);
    let ghost with_acl = out@;
    let x = 2 + 9 * (n as u64);
    proof {
        lemma_acl_pad(n as int);
    }
    let pad = round(x, 16) - x;
    let mut j: u64 = 0;
    while j < pad
        invariant
            j <= pad,
            pad == acl_pad(n as int),
            out@ == with_acl + Seq::new(j as nat, |k: int| 0u8),
        decreases pad - j,
    {
        out.push(0u8);
        j = j + 1;
        assert(out@ =~= with_acl + Seq::new(j as nat, |k: int| 0u8));
    }
    let m = r.chunks.len();
    push_u64(out, m as u64);
    let ghost head2 = out@;
    let mut i: usize = 0;
    assert(r.chunks@.take(0) =~= Seq::<Array>::empty());
    assert(head2 =~= head2 + chunks_image(r.chunks@.take(0)));
    while i < m
        invariant
            m == r.chunks@.len(),
            i <= m,
            out@ == head2 + chunks_image(r.chunks@.take(i as int)),
        decreases m - i,
    {
        let a = r.chunks[i];
        push_u64(out, a.length);
        push_u64(out, a.offset);
        proof {
            assert(r.chunks@.take(i + 1).drop_last() =~= r.chunks@.take(i as int));
            assert(r.chunks@.take(i + 1).last() == r.chunks@[i as int]);
            assert(out@ =~= head2 + chunks_image(r.chunks@.take(i + 1)));
        }
        i = i + 1;
    }
    assert(r.chunks@.take(m as int) =~= r.chunks@);
    assert(out@ =~= start + record_image(r@));
}

proof fn lemma_div16(x: int, c: int)
    requires
        0 <= x,
        0 <= c,
    ensures
        x < 16 * c <==> x / 16 < c,
{
    vstd::arithmetic::div_mod::lemma_fundamental_div_mod(x, 16);
    if x / 16 < c {
        assert(16 * (x / 16) + 16 <= 16 * c) by (nonlinear_arith)
            requires
                x / 16 < c,
        ;
    } else {
        assert(16 * (x / 16) >= 16 * c) by (nonlinear_arith)
            requires
                x / 16 >= c,
        ;
    }
}

fn parse_record(bytes: &Vec<u8>, pos: usize) -> (r: Result<(RawRecord, usize), Error>)
    requires
        pos <= bytes@.len(),
    ensures
        match parse_record_spec(bytes@.skip(pos as int)) {
            Ok((x, k)) => r matches Ok((rec, e)) && rec@ == x && e == pos + k,
            Err(err) => r == Err::<(RawRecord, usize), Error>(err),
        },
{
    let len = bytes.len();
    let ghost s = bytes@.skip(pos as int);
    let rem = len - pos;
    if rem < 10 {
        return Err(Error::UnexpectedEof);
    }
    let name = read_u64(bytes, pos);
    assert(s.subrange(0, 8) =~= bytes@.subrange(pos as int, pos + 8));
    let n16 = read_u16(bytes, pos + 8);
    assert(s.subrange(8, 10) =~= bytes@.subrange(pos + 8, pos + 10));
    let n = n16 as usize;
    proof {
        lemma_acl_pad(n as int);
    }
    let p = (8 + round(2 + 9 * (n as u64), 16)) as usize;
    assert(p == chunk_count_pos(n as int));
    if rem < p + 8 {
        return Err(Error::UnexpectedEof);
    }
    let c64 = read_u64(bytes, pos + p);
    assert(s.subrange(p as int, p + 8) =~= bytes@.subrange(pos + p, pos + p + 8));
    proof {
        lemma_div16((rem - p - 8) as int, c64 as int);
    }
    if (((rem - p - 8) / 16) as u64) < c64 {
        return Err(Error::UnexpectedEof);
    }
    let c = c64 as usize;
    let mut acl: Vec<(u8, u64)> = Vec::new();
    let mut i: usize = 0;
    while i < n
        invariant
            i <= n,
            10 + 9 * n <= rem,
            rem == bytes@.len() - pos,
            len == bytes@.len(),
            pos <= len,
            s == bytes@.skip(pos as int),
            acl@ == Seq::new(i as nat, |j: int| (s[10 + 9 * j], u64_at(s, 11 + 9 * j))),
        decreases n - i,
    {
        let b = bytes[pos + 10 + 9 * i];
        let v = read_u64(bytes, pos + 11 + 9 * i);
        proof {
            assert(s.subrange(11 + 9 * i, 19 + 9 * i) =~= bytes@.subrange(
                pos + 11 + 9 * i,
                pos + 19 + 9 * i,
            ));
        }
        acl.push((b, v));
        i = i + 1;
        assert(acl@ =~= Seq::new(i as nat, |j: int| (s[10 + 9 * j], u64_at(s, 11 + 9 * j))));
    }
    let mut chunks: Vec<Array> = Vec::new();
    let mut i: usize = 0;
    while i < c
        invariant
            i <= c,
            p + 8 + 16 * c <= rem,
            rem == bytes@.len() - pos,
            len == bytes@.len(),
            pos <= len,
            s == bytes@.skip(pos as int),
            chunks@ == Seq::new(i as nat, |j: int| array_at(s, p + 8 + 16 * j)),
        decreases c - i,
    {
        let at = pos + p + 8 + 16 * i;
        let length = read_u64(bytes, at);
        let offset = read_u64(bytes, at + 8);
        proof {
            assert(s.subrange(p + 8 + 16 * i, p + 16 + 16 * i) =~= bytes@.subrange(
                at as int,
                at + 8,
            ));
            assert(s.subrange(p + 16 + 16 * i, p + 24 + 16 * i) =~= bytes@.subrange(
                at + 8,
                at + 16,
            ));
        }
        chunks.push(Array { length, offset });
        i = i + 1;
        assert(chunks@ =~= Seq::new(i as nat, |j: int| array_at(s, p + 8 + 16 * j)));
    }
    Ok((RawRecord { name, acl, chunks }, pos + p + 8 + 16 * c))
}

pub open spec fn records_image(rs: Seq<RawRecordView>) -> Seq<u8>
    decreases rs.len(),
{
    if rs.len() == 0 {
        Seq::empty()
    } else {
        records_image(rs.drop_last()) + record_image(rs.last())
    }
}

/// `count` records from the start of `s` and their total size, or why they
/// are refused.
pub open spec fn parse_records_spec(s: Seq<u8>, count: nat) -> Result<(Seq<RawRecordView>, nat), Error>
    decreases count,
{
    if count == 0 {
        Ok((Seq::empty(), 0))
    } else {
        match parse_record_spec(s) {
            Err(e) => Err(e),
            Ok((x, k)) => after(seq![x], k, parse_records_spec(s.skip(k as int), (count - 1) as nat)),
        }
    }
}

/// Decodes `count` inode records starting at `pos`; returns them and the
/// position after the last.
pub fn parse_records(bytes: &Vec<u8>, pos: usize, count: u64) -> (r: Result<
    (Vec<RawRecord>, usize),
    Error,
>)
    requires
        pos <= bytes@.len(),
    ensures
        match parse_records_spec(bytes@.skip(pos as int), count as nat) {
            Ok((xs, k)) => r matches Ok((v, e)) && records_view(v@) == xs && e == pos + k,
            Err(err) => r == Err::<(Vec<RawRecord>, usize), Error>(err),
        },
{
    let mut out: Vec<RawRecord> = Vec::new();
    let mut cur = pos;
    let mut i: u64 = 0;
    assert(records_view(out@) + seq![] =~= records_view(out@));
    while i < count
        invariant
            pos <= cur <= bytes@.len(),
            i <= count,
            parse_records_spec(bytes@.skip(pos as int), count as nat) == after(
                records_view(out@),
                (cur - pos) as nat,
                parse_records_spec(bytes@.skip(cur as int), (count - i) as nat),
            ),
        decreases count - i,
    {
        match parse_record(bytes, cur) {
            Err(e) => {
                return Err(e);
            },
            Ok((rec, e)) => {
                proof {
                    let s2 = bytes@.skip(e as int);
                    assert(bytes@.skip(cur as int).skip((e - cur) as int) =~= s2);
                    assert(records_view(out@.push(rec)) =~= records_view(out@).push(rec@));
                    match parse_records_spec(s2, (count - i - 1) as nat) {
                        Ok((xs, k2)) => {
                            assert(records_view(out@) + (seq![rec@] + xs) =~= records_view(
                                out@,
                            ).push(rec@) + xs);
                        },
                        Err(_) => {},
                    }
                }
                out.push(rec);
                cur = e;
                i = i + 1;
            },
        }
    }
    assert(records_view(out@) + seq![] =~= records_view(out@));
    Ok((out, cur))
}

/// Encodes the inode table.
pub fn encode_records(recs: &Vec<RawRecord>) -> (r: Vec<u8>)
    requires
        forall|i: int| 0 <= i < recs@.len() ==> (#[trigger] recs@[i]).acl@.len() <= u16::MAX,
    ensures
        r@ == records_image(records_view(recs@)),
{
    let mut out: Vec<u8> = Vec::new();
    let mut i: usize = 0;
    assert(records_view(recs@.take(0)) =~= Seq::<RawRecordView>::empty());
    while i < recs.len()
        invariant
            i <= recs@.len(),
            forall|i: int| 0 <= i < recs@.len() ==> (#[trigger] recs@[i]).acl@.len() <= u16::MAX,
            out@ == records_image(records_view(recs@.take(i as int))),
        decreases recs@.len() - i,
    {
        encode_record(&mut out, &recs[i]);
        proof {
            let t = records_view(recs@.take(i + 1));
            assert(t.drop_last() =~= records_view(recs@.take(i as int)));
            assert(t.last() == recs@[i as int]@);
        }
        i = i + 1;
    }
    assert(recs@.take(i as int) =~= recs@);
    out
}

pub proof fn lemma_records_image_first(xs: Seq<RawRecordView>)
    requires
        xs.len() > 0,
    ensures
        records_image(xs) == record_image(xs[0]) + records_image(xs.drop_first()),
    decreases xs.len(),
{
    if xs.len() == 1 {
        assert(xs.drop_last() =~= Seq::<RawRecordView>::empty());
        assert(xs.drop_first() =~= Seq::<RawRecordView>::empty());
        assert(records_image(xs) =~= record_image(xs[0]) + records_image(xs.drop_first()));
    } else {
        lemma_records_image_first(xs.drop_last());
        assert(xs.drop_last().drop_first() =~= xs.drop_first().drop_last());
        assert(xs.drop_first().last() == xs.last());
        assert(records_image(xs) =~= record_image(xs[0]) + records_image(xs.drop_first()));
    }
}

/// Decoding an encoded inode table, whatever follows it, gives back the
/// records and the table's size.
pub proof fn lemma_records_round_trip(xs: Seq<RawRecordView>, rest: Seq<u8>)
    requires
        forall|i: int| 0 <= i < xs.len() ==> record_fits(#[trigger] xs[i]),
    ensures
        parse_records_spec(records_image(xs) + rest, xs.len()) == Ok::<
            (Seq<RawRecordView>, nat),
            Error,
        >((xs, records_image(xs).len())),
    decreases xs.len(),
{
    if xs.len() > 0 {
        lemma_records_image_first(xs);
        let tail = xs.drop_first();
        assert forall|i: int| 0 <= i < tail.len() implies record_fits(#[trigger] tail[i]) by {
            assert(tail[i] == xs[i + 1]);
        }
        let s = records_image(xs) + rest;
        assert(s =~= record_image(xs[0]) + (records_image(tail) + rest));
        assert(record_fits(xs[0]));
        lemma_record_round_trip(xs[0], records_image(tail) + rest);
        assert(s.skip(record_image(xs[0]).len() as int) =~= records_image(tail) + rest);
        lemma_records_round_trip(tail, rest);
        assert(seq![xs[0]] + tail =~= xs);
    }
}

} // verus!
