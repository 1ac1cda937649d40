//! End-to-end exercises of the archive handle: inserting, extracting,
//! renaming, repacking and reparsing.

use silpkg::storage::MemStorage;
use silpkg::sync::{Compression, EntryCompression, Flags, Pkg};

fn plain() -> Flags {
    Flags { compression: EntryCompression::Plain }
}

fn best() -> Flags {
    Flags { compression: EntryCompression::Deflate(Compression::best()) }
}

/// Deterministic filler bytes for a pseudo file of `size` bytes.
fn filler(seed: u64, size: usize) -> Vec<u8> {
    let mut state = seed.wrapping_mul(6364136223846793005).wrapping_add(1442695040888963407);
    let mut out = Vec::with_capacity(size);
    for _ in 0..size {
        state = state.wrapping_mul(6364136223846793005).wrapping_add(1442695040888963407);
        out.push((state >> 33) as u8);
    }
    out
}

fn combined_data() -> Vec<(String, Vec<u8>)> {
    let mut data: Vec<(String, Vec<u8>)> = vec![
        ("hello.txt".to_string(), b"A very happy little file".to_vec()),
        ("fox.txt".to_string(), b"A brown fox jumps over the lazy dog.".to_vec()),
        ("lorem/lorem512.txt".to_string(), filler(512, 512)),
        ("lorem/lorem1024.txt".to_string(), filler(1024, 1024)),
        ("lorem/lorem4096.txt".to_string(), filler(4096, 4096)),
        ("lorem/lorem16384.txt".to_string(), filler(16384, 16384)),
    ];
    for i in 0..20u32 {
        let size = 2usize.pow(i);
        data.push((format!("random/{size}.bin"), filler(i as u64, size)));
    }
    data
}

fn add(pkg: &mut Pkg, flags_deflate: bool, data: &[(String, Vec<u8>)]) {
    for (name, bytes) in data {
        let flags = if flags_deflate { best() } else { plain() };
        let mut writer = pkg.insert(name, flags).unwrap();
        writer.write(bytes.as_slice());
        writer.finish(pkg).unwrap();
    }
}

fn rename_all(pkg: &mut Pkg, data: &[(String, Vec<u8>)]) {
    for (name, _) in data {
        let renamed = format!("{name}-renamed");
        pkg.rename(name, &renamed).unwrap();
    }
}

fn extract(pkg: &Pkg, data: &[(String, Vec<u8>)]) {
    for (name, bytes) in data {
        let mut reader = pkg.open(name).unwrap();
        let out = reader.read_to_end(pkg);
        assert_eq!(&out, bytes, "mismatch for {name}");
    }
}

fn list(pkg: &Pkg, data: &[(String, Vec<u8>)]) {
    let mut paths = pkg.paths();
    let mut expected: Vec<String> = data.iter().map(|(n, _)| n.clone()).collect();
    paths.sort();
    expected.sort();
    assert_eq!(paths, expected);
}

fn renamed(data: &[(String, Vec<u8>)]) -> Vec<(String, Vec<u8>)> {
    data.iter().map(|(n, d)| (format!("{n}-renamed"), d.clone())).collect()
}

#[test]
fn add_extract() {
    let mut pkg = Pkg::create(MemStorage::new()).unwrap();
    let data = combined_data();
    add(&mut pkg, false, &data);
    extract(&pkg, &data);
    list(&pkg, &data);
}

#[test]
fn add_repack_extract() {
    let mut pkg = Pkg::create(MemStorage::new()).unwrap();
    let data = combined_data();
    add(&mut pkg, false, &data);
    pkg.repack().unwrap();
    extract(&pkg, &data);
    list(&pkg, &data);
}

#[test]
fn add_parse_extract() {
    let mut pkg = Pkg::create(MemStorage::new()).unwrap();
    let data = combined_data();
    add(&mut pkg, false, &data);
    let storage = pkg.into_inner();
    let pkg = Pkg::parse(storage).unwrap();
    extract(&pkg, &data);
    list(&pkg, &data);
}

#[test]
fn add_parse_repack_extract() {
    let mut pkg = Pkg::create(MemStorage::new()).unwrap();
    let data = combined_data();
    add(&mut pkg, false, &data);
    pkg.repack().unwrap();
    let mut pkg = Pkg::parse(pkg.into_inner()).unwrap();
    pkg.repack().unwrap();
    extract(&pkg, &data);
}

#[test]
fn add_compressed_repack_extract() {
    let mut pkg = Pkg::create(MemStorage::new()).unwrap();
    let data = combined_data();
    add(&mut pkg, true, &data);
    pkg.repack().unwrap();
    extract(&pkg, &data);
}

#[test]
fn add_extract_rename_extract() {
    let mut pkg = Pkg::create(MemStorage::new()).unwrap();
    let data = combined_data();
    add(&mut pkg, true, &data);
    extract(&pkg, &data);
    rename_all(&mut pkg, &data);
    let data = renamed(&data);
    extract(&pkg, &data);
}

#[test]
fn add_extract_rename_repack_extract() {
    let mut pkg = Pkg::create(MemStorage::new()).unwrap();
    let data = combined_data();
    add(&mut pkg, true, &data);
    extract(&pkg, &data);
    rename_all(&mut pkg, &data);
    let data = renamed(&data);
    pkg.repack().unwrap();
    extract(&pkg, &data);
}

#[test]
fn everything() {
    let mut pkg = Pkg::create(MemStorage::new()).unwrap();
    let data = combined_data();
    add(&mut pkg, true, &data);
    extract(&pkg, &data);
    rename_all(&mut pkg, &data);
    let data = renamed(&data);
    let mut pkg = Pkg::parse(pkg.into_inner()).unwrap();
    extract(&pkg, &data);
    pkg.repack().unwrap();
    let pkg = Pkg::parse(pkg.into_inner()).unwrap();
    extract(&pkg, &data);
}
