use datastore_provider::access::Access;
use datastore_provider::array::{round, Array};
use datastore_provider::backing::{Backing, MemoryBacking};
use datastore_provider::codec::{parse_header, parse_records, RawRecord, encode_records};
use datastore_provider::database::{blank, Database};
use datastore_provider::error::Error;
use datastore_provider::mediator::{Mediator, RangeLock};
use datastore_provider::page::SeekFrom;
use datastore_provider::strtab::StringTable;

const META: &[u8] = b"(friendly_name:\"\",max_chunk_size:4096)";

fn fresh() -> Database<MemoryBacking> {
    blank(META.to_vec(), 1)
        .unwrap()
        .change_buffer(MemoryBacking::new(Vec::new()))
        .unwrap()
}

fn bytes_of(db: Database<MemoryBacking>) -> Vec<u8> {
    db.into_backing().into_bytes()
}

#[test]
fn blank_then_attach_writes_magic_version_and_root() {
    let db = fresh();
    let bytes = bytes_of(db);
    assert_eq!(&bytes[0..4], &[0x46, 0x53, 0x44, 0x42]);
    assert_eq!(&bytes[4..8], &[0x01, 0x00, 0x00, 0x00]);
    let h = parse_header(&bytes).unwrap();
    assert_eq!(h.inode_table.length, 1);
    assert_eq!(h.string_table.length, 2);
    assert_eq!(h.history_table.length, 0);
    assert_eq!(h.metadata.offset, 0x50);
    assert_eq!(h.metadata.length, META.len() as u64);
    assert_eq!(&bytes[0x50..0x50 + META.len()], META);
}

#[test]
fn blank_layout_matches_formula() {
    let db = blank(META.to_vec(), 1).unwrap();
    let h = db.header();
    let data = round(std::cmp::max(0x50 + META.len() as u64, 0x80), 0x10);
    assert_eq!(h.inode_table.offset, data);
    assert_eq!(h.string_table.offset, data + 0x100);
    assert_eq!(h.history_table.offset, data + 0x200);
    assert_eq!(db.string_table().strings().clone(), vec!["/".to_string(), "*".to_string()]);
    let root = &db.pages()[0];
    assert_eq!(root.name, "/");
    assert!(matches!(&root.access_control_list[0], Access::ReadWriteExecute(p) if p == "*"));
}

#[test]
fn write_header_layout_offsets() {
    let db = fresh();
    let h = db.header();
    let m = META.len() as u64;
    let io = round(0x50 + m, 0x10);
    assert_eq!(h.inode_table.offset, io);
    // one root record: 8 + 2 + 9 + 5 padding + 8 = 32 bytes
    assert_eq!(h.string_table.offset, round(io + 32, 0x100));
    // two strings
    assert_eq!(h.history_table.offset, round(h.string_table.offset + 2, 0x100));
    assert_eq!(h.history_table.length, 0);
}

#[test]
fn create_and_open_pages() {
    let mut db = fresh();
    assert!(db.create_page("test", 2).is_ok());
    assert!(matches!(db.create_page("test", 3), Err(Error::AlreadyExists)));
    assert!(db.open_page("test").is_ok());
    assert!(matches!(db.open_page("absent"), Err(Error::NotFound)));
}

#[test]
fn write_back_and_read() {
    let mut db = fresh();
    let mut page = db.create_page("test", 2).unwrap();
    let n = page.write(&mut db, b"hello, world!", 3).unwrap();
    assert_eq!(n, 13);
    page.flush(&mut db).unwrap();
    let total: u64 = page.descriptor().inodes.iter().map(|a| a.length).sum();
    assert!(!page.descriptor().inodes.is_empty());
    assert!(total >= 13);
    assert_eq!(page.seek(SeekFrom::Start(0)).unwrap(), 0);
    let mut buf = vec![0u8; 13];
    let got = page.read(&mut db, &mut buf).unwrap();
    assert_eq!(got, 13);
    assert_eq!(&buf[..], b"hello, world!");
    assert_eq!(page.read_all(&mut db).unwrap(), b"hello, world!".to_vec());
}

#[test]
fn written_page_survives_reopen() {
    let mut db = fresh();
    let mut page = db.create_page("test", 2).unwrap();
    page.write(&mut db, b"hello, world!", 3).unwrap();
    let bytes = bytes_of(db);
    let mut db2 = Database::open(MemoryBacking::new(bytes), 9).unwrap();
    let page2 = db2.open_page("test").unwrap();
    assert_eq!(page2.read_all(&mut db2).unwrap(), b"hello, world!".to_vec());
    assert_eq!(db2.metadata().clone(), META.to_vec());
}

#[test]
fn partial_read_stops_at_chunk_end() {
    let mut db = fresh();
    let mut a = db.create_page("a", 1).unwrap();
    let mut b = db.create_page("b", 1).unwrap();
    a.write(&mut db, b"abcd", 2).unwrap();
    b.write(&mut db, b"wxyz", 2).unwrap();
    a.write(&mut db, b"efgh", 2).unwrap();
    let chunks = a.descriptor().inodes.clone();
    assert_eq!(chunks.len(), 2);
    assert_ne!(chunks[0].offset + 4, chunks[1].offset);
    a.seek(SeekFrom::Start(0)).unwrap();
    let mut buf = vec![0u8; 6];
    assert_eq!(a.read(&mut db, &mut buf).unwrap(), 4);
    assert_eq!(&buf[..4], b"abcd");
    let mut buf = vec![0u8; 6];
    assert_eq!(a.read(&mut db, &mut buf).unwrap(), 4);
    assert_eq!(&buf[..4], b"efgh");
    let mut buf = vec![0u8; 6];
    assert_eq!(a.read(&mut db, &mut buf).unwrap(), 0);
}

#[test]
fn read_all_concatenates_chunks() {
    let mut db = fresh();
    let mut a = db.create_page("a", 1).unwrap();
    let mut b = db.create_page("b", 1).unwrap();
    a.write(&mut db, b"abcd", 2).unwrap();
    b.write(&mut db, b"wxyz", 2).unwrap();
    a.write(&mut db, b"efgh", 2).unwrap();
    assert_eq!(a.read_all(&mut db).unwrap(), b"abcdefgh".to_vec());
    assert_eq!(b.read_all(&mut db).unwrap(), b"wxyz".to_vec());
}

#[test]
fn overwrite_in_place_is_chunk_bounded() {
    let mut db = fresh();
    let mut a = db.create_page("a", 1).unwrap();
    let mut b = db.create_page("b", 1).unwrap();
    a.write(&mut db, b"abcd", 2).unwrap();
    b.write(&mut db, b"wxyz", 2).unwrap();
    a.write(&mut db, b"efgh", 2).unwrap();
    a.seek(SeekFrom::Start(2)).unwrap();
    assert_eq!(a.write(&mut db, b"XYZW", 3).unwrap(), 2);
    assert_eq!(a.write(&mut db, b"QR", 3).unwrap(), 2);
    assert_eq!(a.read_all(&mut db).unwrap(), b"abXYQRgh".to_vec());
    assert_eq!(b.read_all(&mut db).unwrap(), b"wxyz".to_vec());
}

#[test]
fn range_lock_conflict() {
    let mut m = Mediator::new(MemoryBacking::new(vec![7u8; 500]));
    m.try_lock_write(Array { offset: 100, length: 100 }).unwrap();
    let mut buf = vec![0u8; 100];
    assert!(matches!(m.try_read_range(&mut buf, 150), Err(Error::Busy)));
    assert!(m.try_read_range(&mut buf, 300).is_ok());
    assert_eq!(buf, vec![7u8; 100]);
    assert!(matches!(m.try_write_range(&[1u8; 10], 190), Err(Error::Busy)));
    assert!(m.try_write_range(&[1u8; 10], 200).is_ok());
    assert!(m.unlock(RangeLock::Write(Array { offset: 100, length: 100 })));
    assert!(m.try_read_range(&mut buf, 150).is_ok());
}

#[test]
fn read_lock_blocks_write_not_read() {
    let mut m = Mediator::new(MemoryBacking::new(vec![0u8; 500]));
    m.try_lock_read(Array { offset: 0, length: 50 }).unwrap();
    let mut buf = vec![0u8; 10];
    assert!(m.try_read_range(&mut buf, 10).is_ok());
    assert!(matches!(m.try_write_range(&[1u8; 10], 45), Err(Error::Busy)));
    assert!(m.try_write_range(&[1u8; 10], 50).is_ok());
    assert!(matches!(m.try_lock_write(Array { offset: 49, length: 1 }), Err(Error::Busy)));
    assert_eq!(m.locks().len(), 1);
}

#[test]
fn change_buffer_migration_opens_with_root_only() {
    let db = blank(META.to_vec(), 1).unwrap();
    let db = db.change_buffer(MemoryBacking::new(vec![0xAA; 3])).unwrap();
    let bytes = bytes_of(db);
    let db2 = Database::open(MemoryBacking::new(bytes), 5).unwrap();
    let names: Vec<String> = db2.pages().iter().map(|p| p.name.clone()).collect();
    assert_eq!(names, vec!["/".to_string()]);
}

#[test]
fn reopen_gives_back_pages_strings_and_header() {
    let mut db = fresh();
    db.create_page("one", 1).unwrap();
    let mut two = db.create_page("two", 1).unwrap();
    two.write(&mut db, b"12345", 1).unwrap();
    two.flush(&mut db).unwrap();
    let header = db.header();
    let strings = db.string_table().strings().clone();
    let names: Vec<String> = db.pages().iter().map(|p| p.name.clone()).collect();
    let chunks: Vec<Vec<(u64, u64)>> = db
        .pages()
        .iter()
        .map(|p| p.inodes.iter().map(|a| (a.offset, a.length)).collect())
        .collect();
    let bytes = bytes_of(db);
    let db2 = Database::open(MemoryBacking::new(bytes), 7).unwrap();
    assert_eq!(db2.string_table().strings().clone(), strings);
    let names2: Vec<String> = db2.pages().iter().map(|p| p.name.clone()).collect();
    assert_eq!(names2, names);
    let chunks2: Vec<Vec<(u64, u64)>> = db2
        .pages()
        .iter()
        .map(|p| p.inodes.iter().map(|a| (a.offset, a.length)).collect())
        .collect();
    assert_eq!(chunks2, chunks);
    assert_eq!(db2.header().string_table.offset, header.string_table.offset);
    assert_eq!(db2.header().inode_table.offset, header.inode_table.offset);
}

#[test]
fn allocation_avoids_chunks_and_tables() {
    let mut db = fresh();
    let mut a = db.create_page("a", 1).unwrap();
    a.write(&mut db, &[1u8; 100], 1).unwrap();
    let existing: Vec<Array> = db.pages().iter().flat_map(|p| p.inodes.clone()).collect();
    let start = db.data_offset() as u64;
    let got = db.allocate_chunks(50).unwrap();
    assert_eq!(got.len(), 1);
    let r = got[0];
    assert_eq!(r.length, 50);
    assert!(r.offset >= start);
    assert!(r.offset + r.length <= db.backing().size());
    for c in existing {
        assert!(!(c.offset < r.offset + r.length && r.offset < c.offset + c.length));
    }
}

#[test]
fn allocation_extends_by_rounded_zeros() {
    let mut db = fresh();
    let before = db.backing().size();
    let got = db.allocate_chunks(0x1000).unwrap();
    assert_eq!(got[0].offset, before);
    assert_eq!(db.backing().size(), before + 0x2000);
}

#[test]
fn intern_and_lookup_round_trip() {
    let mut t = StringTable::new();
    let a = t.intern("alpha");
    let b = t.intern("beta");
    assert_eq!((a, b), (0, 1));
    assert_eq!(t.intern("alpha"), 0);
    assert_eq!(t.len(), 2);
    for i in 0..2u64 {
        let s = t.lookup(i).unwrap();
        assert_eq!(t.intern(&s), i);
    }
    assert_eq!(t.lookup(1).unwrap(), "beta");
    assert!(matches!(t.lookup(2), Err(Error::NotFound)));
    assert_eq!(t.position("beta"), Some(1));
    assert_eq!(t.position("gamma"), None);
}

#[test]
fn string_table_wire_form() {
    let mut t = StringTable::new();
    t.intern("/");
    t.intern("é");
    let bytes = t.serialise().unwrap();
    assert_eq!(bytes, vec![1, 0, b'/', 2, 0, 0xC3, 0xA9]);
    let (back, end) = StringTable::parse(&bytes, 0, 2).unwrap();
    assert_eq!(end, 7);
    assert_eq!(back.strings().clone(), vec!["/".to_string(), "é".to_string()]);
}

#[test]
fn string_table_rejects_bad_utf8_and_truncation() {
    assert!(matches!(StringTable::parse(&vec![2, 0, 0xFF, 0xFE], 0, 1), Err(Error::CorruptFormat)));
    assert!(matches!(StringTable::parse(&vec![5, 0, b'a'], 0, 1), Err(Error::UnexpectedEof)));
    assert!(matches!(StringTable::parse(&vec![1], 0, 1), Err(Error::UnexpectedEof)));
}

#[test]
fn string_too_long_is_refused() {
    let mut t = StringTable::new();
    let long = "x".repeat(0x10000);
    t.intern(&long);
    assert!(matches!(t.serialise(), Err(Error::TooLarge)));
}

#[test]
fn inode_record_wire_form() {
    let rec = RawRecord { name: 3, acl: vec![(0b101, 1)], chunks: vec![Array { length: 13, offset: 0x200 }] };
    let bytes = encode_records(&vec![rec]);
    let mut want = Vec::new();
    want.extend_from_slice(&3u64.to_le_bytes());
    want.extend_from_slice(&1u16.to_le_bytes());
    want.push(0b101);
    want.extend_from_slice(&1u64.to_le_bytes());
    want.extend_from_slice(&[0u8; 5]);
    want.extend_from_slice(&1u64.to_le_bytes());
    want.extend_from_slice(&13u64.to_le_bytes());
    want.extend_from_slice(&0x200u64.to_le_bytes());
    assert_eq!(bytes, want);
    let (back, end) = parse_records(&bytes, 0, 1).unwrap();
    assert_eq!(end, bytes.len());
    assert_eq!(back[0].name, 3);
    assert_eq!(back[0].acl, vec![(0b101, 1)]);
    assert_eq!(back[0].chunks[0].offset, 0x200);
    assert_eq!(back[0].chunks[0].length, 13);
}

#[test]
fn empty_acl_pads_fourteen_bytes() {
    let rec = RawRecord { name: 0, acl: vec![], chunks: vec![] };
    let bytes = encode_records(&vec![rec]);
    assert_eq!(bytes.len(), 8 + 2 + 14 + 8);
}

#[test]
fn header_errors() {
    let mut bytes = bytes_of(fresh());
    assert!(matches!(parse_header(&bytes[..40].to_vec()), Err(Error::UnexpectedEof)));
    bytes[4] = 2;
    assert!(matches!(parse_header(&bytes), Err(Error::UnsupportedVersion)));
    bytes[0] = b'X';
    assert!(matches!(parse_header(&bytes), Err(Error::BadMagic)));
    assert!(matches!(Database::open(MemoryBacking::new(bytes), 0), Err(Error::BadMagic)));
}

#[test]
fn open_refuses_missing_string_index() {
    let mut bytes = bytes_of(fresh());
    let h = parse_header(&bytes).unwrap();
    // point the root record's name at index 9
    let at = h.inode_table.offset as usize;
    bytes[at..at + 8].copy_from_slice(&9u64.to_le_bytes());
    assert!(matches!(Database::open(MemoryBacking::new(bytes), 0), Err(Error::CorruptFormat)));
}

#[test]
fn open_refuses_duplicate_page_names() {
    let mut db = fresh();
    db.create_page("x", 1).unwrap();
    db.write_header().unwrap();
    let mut bytes = bytes_of(db);
    let h = parse_header(&bytes).unwrap();
    // second record's name index := first record's name index
    let first = h.inode_table.offset as usize;
    let second = first + 32;
    let name0 = bytes[first..first + 8].to_vec();
    bytes[second..second + 8].copy_from_slice(&name0);
    assert!(matches!(Database::open(MemoryBacking::new(bytes), 0), Err(Error::CorruptFormat)));
}

#[test]
fn seek_laws_and_errors() {
    let mut db = fresh();
    let mut p = db.create_page("p", 1).unwrap();
    p.write(&mut db, b"0123456789", 1).unwrap();
    assert_eq!(p.len(), 10);
    let at = p.seek(SeekFrom::Start(4)).unwrap();
    assert_eq!(p.seek(SeekFrom::Current(0)).unwrap(), at);
    assert_eq!(p.seek(SeekFrom::End(-3)).unwrap(), 7);
    assert_eq!(p.seek(SeekFrom::End(0)).unwrap(), 10);
    assert_eq!(p.seek(SeekFrom::End(-10)).unwrap(), 0);
    assert!(matches!(p.seek(SeekFrom::End(-11)), Err(Error::InvalidSeek)));
    assert!(matches!(p.seek(SeekFrom::Current(-1)), Err(Error::InvalidSeek)));
    assert_eq!(p.seek(SeekFrom::Start(20)).unwrap(), 20);
    let mut buf = vec![0u8; 4];
    assert_eq!(p.read(&mut db, &mut buf).unwrap(), 0);
}

#[test]
fn round_values() {
    assert_eq!(round(0x50, 0x10), 0x60);
    assert_eq!(round(0x51, 0x10), 0x60);
    assert_eq!(round(11, 16), 16);
    assert_eq!(round(0, 0x1000), 0x1000);
    assert_eq!(round(0x1000, 0x1000), 0x2000);
}

#[test]
fn array_end_range_and_equality() {
    let a = Array { length: 4, offset: 10 };
    assert_eq!(a.end(), 14);
    assert_eq!(a.to_range(), 10..14);
    assert!(a == Array { length: 99, offset: 10 });
    assert!(a != Array { length: 4, offset: 11 });
}

#[test]
fn access_bits_round_trip() {
    let cases: [(u8, &str); 6] = [(0, "NoAccess"), (1, "Read"), (3, "ReadWrite"), (5, "ReadExecute"), (7, "ReadWriteExecute"), (0b110, "Custom")];
    for (bits, kind) in cases {
        let a = Access::from_bits(bits, "me".to_string());
        assert_eq!(a.bits(), bits);
        assert_eq!(a.principal(), "me");
        let got = match a {
            Access::NoAccess(_) => "NoAccess",
            Access::Read(_) => "Read",
            Access::ReadWrite(_) => "ReadWrite",
            Access::ReadExecute(_) => "ReadExecute",
            Access::ReadWriteExecute(_) => "ReadWriteExecute",
            Access::Custom(_, _) => "Custom",
        };
        assert_eq!(got, kind);
    }
}

#[test]
fn error_constructors() {
    assert_eq!(Error::other("disk"), Error::Other("disk".to_string()));
    assert_eq!(Error::misc("odd"), Error::Misc("odd".to_string()));
}

#[test]
fn metadata_too_large_is_refused_by_open_of_truncated() {
    let bytes = bytes_of(fresh());
    let cut = bytes[..bytes.len() - 1].to_vec();
    assert!(Database::open(MemoryBacking::new(cut), 0).is_err());
}

#[test]
fn delete_page_frees_name() {
    let mut db = fresh();
    db.create_page("gone", 1).unwrap();
    assert!(db.delete_page("gone").is_ok());
    assert!(matches!(db.open_page("gone"), Err(Error::NotFound)));
    assert!(matches!(db.delete_page("gone"), Err(Error::NotFound)));
    assert!(db.create_page("gone", 2).is_ok());
    db.write_header().unwrap();
    let bytes = bytes_of(db);
    let db2 = Database::open(MemoryBacking::new(bytes), 0).unwrap();
    assert_eq!(db2.pages().len(), 2);
}

#[test]
fn overlapping_writes_do_not_both_proceed() {
    let mut m = Mediator::new(MemoryBacking::new(vec![0u8; 64]));
    assert!(m.try_lock_write(Array { offset: 0, length: 16 }).is_ok());
    assert!(matches!(m.try_lock_write(Array { offset: 15, length: 16 }), Err(Error::Busy)));
    assert!(matches!(m.try_write_range(&[9u8; 4], 12), Err(Error::Busy)));
    assert!(m.try_lock_write(Array { offset: 16, length: 16 }).is_ok());
    assert_eq!(m.backing().bytes().clone(), vec![0u8; 64]);
}

#[test]
fn read_allowed_beside_write_lock() {
    let mut m = Mediator::new(MemoryBacking::new((0u8..64).collect()));
    m.try_lock_write(Array { offset: 8, length: 8 }).unwrap();
    let mut buf = vec![0u8; 8];
    assert!(m.try_read_range(&mut buf, 0).is_ok());
    assert_eq!(buf, (0u8..8).collect::<Vec<u8>>());
    assert!(m.try_read_range(&mut buf, 16).is_ok());
    assert!(matches!(m.try_read_range(&mut buf, 1), Err(Error::Busy)));
    assert!(matches!(m.try_read_range(&mut buf, 60), Err(Error::UnexpectedEof)));
}

#[test]
fn arrays_order_by_offset() {
    let a = Array { length: 50, offset: 10 };
    let b = Array { length: 1, offset: 20 };
    assert!(a < b);
    assert!(b > a);
    assert_eq!(a.partial_cmp(&Array { length: 0, offset: 10 }), Some(std::cmp::Ordering::Equal));
}

#[test]
fn reserved_header_bytes_are_rewritten_as_zero() {
    let mut bytes = bytes_of(fresh());
    for b in &mut bytes[8..16] {
        *b = 0xEE;
    }
    let mut db = Database::open(MemoryBacking::new(bytes), 0).unwrap();
    db.write_header().unwrap();
    let bytes = bytes_of(db);
    assert_eq!(&bytes[8..16], &[0u8; 8]);
}

#[test]
fn interned_name_and_unchanged_data_after_flush() {
    let mut db = fresh();
    let mut p = db.create_page("notes", 1).unwrap();
    assert_eq!(db.string_table().position("notes"), Some(2));
    p.write(&mut db, b"first", 1).unwrap();
    let chunk = p.descriptor().inodes[0];
    db.create_page("more", 1).unwrap();
    db.write_header().unwrap();
    let bytes = db.backing().bytes().clone();
    let start = chunk.offset as usize;
    assert_eq!(&bytes[start..start + 5], b"first");
}

#[test]
fn write_to_deleted_page_is_not_found() {
    let mut db = fresh();
    let mut p = db.create_page("temp", 1).unwrap();
    db.delete_page("temp").unwrap();
    assert!(matches!(p.write(&mut db, b"x", 1), Err(Error::NotFound)));
}
