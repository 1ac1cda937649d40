//! Literal scenarios against the wire format: exact stream lengths, on-disk
//! flag bits, slot reuse, error cases, and the path hash.

use silpkg::pkg_path_hash;
use silpkg::storage::MemStorage;
use silpkg::sync::{Compression, EntryCompression, Flags, Pkg};

fn plain() -> Flags {
    Flags { compression: EntryCompression::Plain }
}

fn deflate(level: u32) -> Flags {
    Flags { compression: EntryCompression::Deflate(Compression::new(level)) }
}

fn insert_bytes(pkg: &mut Pkg, name: &str, bytes: &[u8], flags: Flags) {
    let mut w = pkg.insert(name, flags).unwrap();
    w.write(bytes);
    w.finish(pkg).unwrap();
}

fn read_all(pkg: &Pkg, name: &str) -> Vec<u8> {
    let mut r = pkg.open(name).unwrap();
    r.read_to_end(pkg)
}

fn be32(b: &[u8], off: usize) -> u32 {
    ((b[off] as u32) << 24) | ((b[off + 1] as u32) << 16) | ((b[off + 2] as u32) << 8) | (b[off
        + 3] as u32)
}

/// Fresh create, one uncompressed file, parse from the raw bytes, read back.
#[test]
fn create_insert_parse_read() {
    let mut pkg = Pkg::create(MemStorage::new()).unwrap();
    insert_bytes(&mut pkg, "hello.txt", b"A very happy little file", plain());
    let bytes = pkg.into_inner().into_vec();
    assert!(bytes.len() >= 16 + 64 * 20 + 64 * 30 + 24);
    let pkg = Pkg::parse(MemStorage::from_vec(bytes)).unwrap();
    assert_eq!(read_all(&pkg, "hello.txt"), b"A very happy little file".to_vec());
}

/// A deflate entry's record carries the deflate flag bit; its sizes record
/// the compression. A compressible payload's stored size shrinks below its
/// unpacked size.
#[test]
fn deflate_flag_bits_on_disk() {
    let mut pkg = Pkg::create(MemStorage::new()).unwrap();
    insert_bytes(&mut pkg, "hello.txt", b"A very happy little file", plain());
    insert_bytes(&mut pkg, "fox.txt", b"A brown fox jumps over the lazy dog.", deflate(9));
    let squeezable = vec![0x41u8; 512];
    insert_bytes(&mut pkg, "zeros.bin", &squeezable, deflate(9));
    assert_eq!(read_all(&pkg, "fox.txt"), b"A brown fox jumps over the lazy dog.".to_vec());
    assert_eq!(read_all(&pkg, "zeros.bin"), squeezable);
    let bytes = pkg.into_inner().into_vec();
    let entry_count = be32(&bytes, 8) as usize;
    let mut found_fox = false;
    let mut found_zeros = false;
    for i in 0..entry_count {
        let base = 16 + 20 * i;
        if be32(&bytes, base + 8) == 0 {
            continue;
        }
        if be32(&bytes, base) == pkg_path_hash("fox.txt") {
            let packed = be32(&bytes, base + 4);
            assert_eq!(packed & 0xFF00_0000, 0x0100_0000, "deflate flag bit");
            assert_eq!(be32(&bytes, base + 16), 36);
            found_fox = true;
        }
        if be32(&bytes, base) == pkg_path_hash("zeros.bin") {
            let packed = be32(&bytes, base + 4);
            assert_eq!(packed & 0xFF00_0000, 0x0100_0000, "deflate flag bit");
            assert_eq!(be32(&bytes, base + 16), 512);
            assert!(be32(&bytes, base + 12) < 512);
            found_zeros = true;
        }
    }
    assert!(found_fox && found_zeros);
}

/// After a repack of the two-entry archive, the stream holds exactly the
/// header, two records, the two packed paths and the two blobs, and the
/// records are ordered by path hash.
#[test]
fn repack_minimal_length_and_order() {
    let mut pkg = Pkg::create(MemStorage::new()).unwrap();
    insert_bytes(&mut pkg, "hello.txt", b"A very happy little file", plain());
    insert_bytes(&mut pkg, "fox.txt", b"A brown fox jumps over the lazy dog.", deflate(9));
    pkg.repack().unwrap();
    let bytes = pkg.inner().as_vec().clone();
    let fox_size = {
        let fox_hash = pkg_path_hash("fox.txt");
        let mut size = 0;
        for i in 0..be32(&bytes, 8) as usize {
            let base = 16 + 20 * i;
            if be32(&bytes, base) == fox_hash {
                size = be32(&bytes, base + 12) as usize;
            }
        }
        size
    };
    let expected = 16 + 2 * 20 + ("hello.txt".len() + 1) + ("fox.txt".len() + 1) + 24 + fox_size;
    assert_eq!(bytes.len(), expected);
    let h0 = be32(&bytes, 16);
    let h1 = be32(&bytes, 16 + 20);
    assert!(h0 <= h1);
    assert_eq!(read_all(&pkg, "hello.txt"), b"A very happy little file".to_vec());
}

/// Rename moves content to the new name; renaming onto an existing name is
/// rejected and changes nothing.
#[test]
fn rename_moves_and_rejects_existing() {
    let mut pkg = Pkg::create(MemStorage::new()).unwrap();
    insert_bytes(&mut pkg, "a", b"alpha", plain());
    insert_bytes(&mut pkg, "c", b"gamma", plain());
    pkg.rename("a", "b").unwrap();
    assert!(!pkg.contains("a"));
    assert!(pkg.contains("b"));
    assert_eq!(read_all(&pkg, "b"), b"alpha".to_vec());
    let err = pkg.rename("b", "c").unwrap_err();
    assert!(matches!(err, silpkg::errors::RenameError::AlreadyExists));
    assert_eq!(read_all(&pkg, "b"), b"alpha".to_vec());
}

/// Renaming there and back restores the original name and bytes.
#[test]
fn rename_round_trip() {
    let mut pkg = Pkg::create(MemStorage::new()).unwrap();
    insert_bytes(&mut pkg, "a", b"alpha", plain());
    pkg.rename("a", "b").unwrap();
    pkg.rename("b", "a").unwrap();
    assert_eq!(pkg.paths(), vec!["a".to_string()]);
    assert_eq!(read_all(&pkg, "a"), b"alpha".to_vec());
}

/// Removing the only entry leaves a parseable, empty archive; reinserting
/// the name reuses the freed slot.
#[test]
fn remove_then_reinsert_reuses_slot() {
    let mut pkg = Pkg::create(MemStorage::new()).unwrap();
    insert_bytes(&mut pkg, "only", b"data", plain());
    pkg.remove("only").unwrap();
    assert!(matches!(pkg.open("only"), Err(silpkg::errors::OpenError::NotFound)));
    let reparsed = Pkg::parse(MemStorage::from_vec(pkg.inner().as_vec().clone())).unwrap();
    assert!(reparsed.paths().is_empty());
    insert_bytes(&mut pkg, "only", b"fresh", plain());
    let bytes = pkg.into_inner().into_vec();
    // the first record slot holds the reinserted entry
    assert_ne!(be32(&bytes, 16 + 8), 0);
    let pkg = Pkg::parse(MemStorage::from_vec(bytes)).unwrap();
    assert_eq!(read_all(&pkg, "only"), b"fresh".to_vec());
}

/// The path hash is case-insensitive, yet differently-cased names coexist.
#[test]
fn hash_is_case_insensitive_hint_only() {
    assert_eq!(pkg_path_hash("Foo"), pkg_path_hash("foo"));
    let mut pkg = Pkg::create(MemStorage::new()).unwrap();
    insert_bytes(&mut pkg, "Foo", b"upper", plain());
    insert_bytes(&mut pkg, "foo", b"lower", plain());
    assert_eq!(read_all(&pkg, "Foo"), b"upper".to_vec());
    assert_eq!(read_all(&pkg, "foo"), b"lower".to_vec());
}

/// The hash matches its reference values byte for byte.
#[test]
fn hash_reference_value() {
    // h("a"): rotate of zero is zero, xor 'a'
    assert_eq!(pkg_path_hash("a"), 0x61);
    assert_eq!(pkg_path_hash("A"), 0x61);
    // one more round: rotate right by five, xor 'b'
    let h1 = 0x61u32;
    let expected = ((h1 << 27) | (h1 >> 5)) ^ 0x62;
    assert_eq!(pkg_path_hash("ab"), expected);
}

/// Inserting an existing name is rejected; the entry stays readable.
#[test]
fn insert_existing_rejected() {
    let mut pkg = Pkg::create(MemStorage::new()).unwrap();
    insert_bytes(&mut pkg, "x", b"first", plain());
    assert!(matches!(pkg.insert("x", plain()), Err(silpkg::errors::InsertError::AlreadyExists)));
    assert_eq!(read_all(&pkg, "x"), b"first".to_vec());
}

/// Growing past the preallocated slots keeps the archive parseable.
#[test]
fn entry_table_growth() {
    let mut pkg = Pkg::create(MemStorage::new()).unwrap();
    for i in 0..70 {
        insert_bytes(&mut pkg, &format!("file{i}"), format!("bytes{i}").as_bytes(), plain());
    }
    let pkg = Pkg::parse(pkg.into_inner()).unwrap();
    for i in 0..70 {
        assert_eq!(read_all(&pkg, &format!("file{i}")), format!("bytes{i}").into_bytes());
    }
}

/// Overflowing the free path-region tail grows the path region in place.
#[test]
fn path_region_growth() {
    let mut pkg = Pkg::create(MemStorage::new()).unwrap();
    let long = "n".repeat(400);
    for i in 0..6 {
        insert_bytes(&mut pkg, &format!("{long}{i}"), b"x", plain());
    }
    let pkg = Pkg::parse(pkg.into_inner()).unwrap();
    for i in 0..6 {
        assert_eq!(read_all(&pkg, &format!("{long}{i}")), b"x".to_vec());
    }
}

/// Replace moves the source's bytes onto the destination and frees the
/// source; a missing source is reported.
#[test]
fn replace_takes_over() {
    let mut pkg = Pkg::create(MemStorage::new()).unwrap();
    insert_bytes(&mut pkg, "src", b"new bytes", plain());
    insert_bytes(&mut pkg, "dst", b"old bytes", plain());
    pkg.replace("src", "dst").unwrap();
    assert!(!pkg.contains("src"));
    assert_eq!(read_all(&pkg, "dst"), b"new bytes".to_vec());
    assert!(matches!(
        pkg.replace("missing", "dst"),
        Err(silpkg::errors::ReplaceError::NotFound)
    ));
}

/// A repack of entries with overlapping data ranges is rejected and changes
/// nothing.
#[test]
fn repack_rejects_overlap() {
    let mut pkg = Pkg::create(MemStorage::new()).unwrap();
    insert_bytes(&mut pkg, "a", b"0123456789", plain());
    insert_bytes(&mut pkg, "b", b"abcdefghij", plain());
    let mut bytes = pkg.into_inner().into_vec();
    // point b's record at a's bytes, shifted, to fabricate an overlap
    let a_off = be32(&bytes, 16 + 8);
    let second = 16 + 20;
    let forged = a_off + 5;
    bytes[second + 8] = (forged >> 24) as u8;
    bytes[second + 9] = (forged >> 16) as u8;
    bytes[second + 10] = (forged >> 8) as u8;
    bytes[second + 11] = forged as u8;
    let before = bytes.clone();
    let mut pkg = Pkg::parse(MemStorage::from_vec(bytes)).unwrap();
    assert!(matches!(pkg.repack(), Err(silpkg::errors::RepackError::OverlappingEntries)));
    assert_eq!(pkg.into_inner().into_vec(), before);
}

/// Seeking within a raw entry follows start, end and current origins, and
/// rejects targets before the entry's start; compressed entries are not
/// seekable.
#[test]
fn seek_semantics() {
    let mut pkg = Pkg::create(MemStorage::new()).unwrap();
    insert_bytes(&mut pkg, "r", b"0123456789", plain());
    insert_bytes(&mut pkg, "z", b"0123456789", deflate(6));
    let mut r = pkg.open("r").unwrap();
    assert!(r.is_seekable());
    assert_eq!(r.seek(silpkg::SeekFrom::Start(4)).unwrap(), 4);
    assert_eq!(r.read_to_end(&pkg), b"456789".to_vec());
    assert_eq!(r.seek(silpkg::SeekFrom::End(-3)).unwrap(), 7);
    assert_eq!(r.read_to_end(&pkg), b"789".to_vec());
    assert_eq!(r.seek(silpkg::SeekFrom::Start(2)).unwrap(), 2);
    assert_eq!(r.seek(silpkg::SeekFrom::Current(3)).unwrap(), 5);
    assert!(matches!(
        r.seek(silpkg::SeekFrom::Current(-9)),
        Err(silpkg::errors::SeekError::SeekOutOfBounds)
    ));
    let mut z = pkg.open("z").unwrap();
    assert!(z.is_compressed());
    assert!(!z.is_seekable());
    assert!(matches!(
        z.seek(silpkg::SeekFrom::Start(0)),
        Err(silpkg::errors::SeekError::NotSeekable)
    ));
}

/// Parse rejects a wrong magic number and wrong size fields.
#[test]
fn parse_rejects_bad_headers() {
    assert!(matches!(
        Pkg::parse(MemStorage::from_vec(b"nope".to_vec())),
        Err(silpkg::errors::ParseError::MismatchedMagic)
    ));
    let mut bytes = Pkg::create(MemStorage::new()).unwrap().into_inner().into_vec();
    bytes[5] = 17;
    assert!(matches!(
        Pkg::parse(MemStorage::from_vec(bytes)),
        Err(silpkg::errors::ParseError::MismatchedHeaderSize { size: 17 })
    ));
    let mut bytes = Pkg::create(MemStorage::new()).unwrap().into_inner().into_vec();
    bytes[7] = 21;
    assert!(matches!(
        Pkg::parse(MemStorage::from_vec(bytes)),
        Err(silpkg::errors::ParseError::MismatchedEntrySize { size: 21 })
    ));
}

/// A deflate round trip through the storage bytes: reparse and read back.
#[test]
fn deflate_round_trip_through_parse() {
    let mut pkg = Pkg::create(MemStorage::new()).unwrap();
    let payload: Vec<u8> = (0..2000u32).map(|i| (i % 251) as u8).collect();
    insert_bytes(&mut pkg, "blob", &payload, deflate(5));
    let pkg = Pkg::parse(pkg.into_inner()).unwrap();
    assert_eq!(read_all(&pkg, "blob"), payload);
}

/// A second repack of an already packed archive moves nothing: the bytes,
/// and with them every data offset, are fixed points.
#[test]
fn repack_twice_is_fixed_point() {
    let mut pkg = Pkg::create(MemStorage::new()).unwrap();
    insert_bytes(&mut pkg, "one", b"first blob", plain());
    insert_bytes(&mut pkg, "two", b"second blob, somewhat longer", deflate(3));
    insert_bytes(&mut pkg, "three", b"third", plain());
    pkg.remove("two").unwrap();
    pkg.repack().unwrap();
    let packed = pkg.inner().as_vec().clone();
    pkg.repack().unwrap();
    assert_eq!(pkg.inner().as_vec(), &packed);
}
