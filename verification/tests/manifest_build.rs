use droplet::manifest::{generate_manifest_for_zip, Manifest, ManifestBuilder};
use droplet::types::{DropletError, VersionFile};
use droplet::zip::{MinimumFileObject, ZipVersionBackend};

fn file(name: &str, size: u64) -> VersionFile {
    VersionFile {
        relative_filename: name.to_string(),
        permission: 0o644,
        size,
    }
}

fn sha256_hex_reference(data: &[u8]) -> String {
    let digest = <sha2::Sha256 as sha2::Digest>::digest(data);
    let mut s = String::new();
    for b in digest.iter() {
        s.push_str(&format!("{:02x}", b));
    }
    s
}

fn push_u16(out: &mut Vec<u8>, v: u16) {
    out.push((v & 0xff) as u8);
    out.push((v >> 8) as u8);
}

fn push_u32(out: &mut Vec<u8>, v: u32) {
    out.push((v & 0xff) as u8);
    out.push(((v >> 8) & 0xff) as u8);
    out.push(((v >> 16) & 0xff) as u8);
    out.push(((v >> 24) & 0xff) as u8);
}

fn build_stored_zip(entries: &[(&str, Vec<u8>)]) -> Vec<u8> {
    let mut out: Vec<u8> = Vec::new();
    let mut offsets: Vec<u32> = Vec::new();
    for (name, content) in entries {
        offsets.push(out.len() as u32);
        push_u32(&mut out, 0x04034b50);
        push_u16(&mut out, 20);
        push_u16(&mut out, 0);
        push_u16(&mut out, 0);
        push_u16(&mut out, 0);
        push_u16(&mut out, 0);
        push_u32(&mut out, crc32fast::hash(content));
        push_u32(&mut out, content.len() as u32);
        push_u32(&mut out, content.len() as u32);
        push_u16(&mut out, name.len() as u16);
        push_u16(&mut out, 0);
        out.extend_from_slice(name.as_bytes());
        out.extend_from_slice(content);
    }
    let cd_offset = out.len() as u32;
    for (i, (name, content)) in entries.iter().enumerate() {
        push_u32(&mut out, 0x02014b50);
        push_u16(&mut out, 20);
        push_u16(&mut out, 20);
        push_u16(&mut out, 0);
        push_u16(&mut out, 0);
        push_u16(&mut out, 0);
        push_u16(&mut out, 0);
        push_u32(&mut out, crc32fast::hash(content));
        push_u32(&mut out, content.len() as u32);
        push_u32(&mut out, content.len() as u32);
        push_u16(&mut out, name.len() as u16);
        push_u16(&mut out, 0);
        push_u16(&mut out, 0);
        push_u16(&mut out, 0);
        push_u16(&mut out, 0);
        push_u32(&mut out, 0);
        push_u32(&mut out, offsets[i]);
        out.extend_from_slice(name.as_bytes());
    }
    let cd_size = out.len() as u32 - cd_offset;
    push_u32(&mut out, 0x06054b50);
    push_u16(&mut out, 0);
    push_u16(&mut out, 0);
    push_u16(&mut out, entries.len() as u16);
    push_u16(&mut out, entries.len() as u16);
    push_u32(&mut out, cd_size);
    push_u32(&mut out, cd_offset);
    push_u16(&mut out, 0);
    out
}

#[test]
fn single_buffer_chunk_checksum_matches_reference_digest() {
    let content = b"a small in-memory buffer".to_vec();
    let mut b = ManifestBuilder::new(
        vec![file("buf.bin", content.len() as u64)],
        1024,
        0,
        true,
    )
    .unwrap();
    let req = b.next_request().unwrap();
    assert_eq!(req.file, 0);
    assert_eq!(req.start, 0);
    assert_eq!(req.length, content.len() as u64);
    b.supply(content.clone()).unwrap();
    assert!(b.is_finished());
    let m = b.finish();
    assert_eq!(m.chunks.len(), 1);
    assert_eq!(m.chunks[0].checksum, sha256_hex_reference(&content));
    assert_eq!(m.size, content.len() as u64);
    assert_eq!(m.version, "2");
}

#[test]
fn known_digest_vector_is_reproduced() {
    let mut b = ManifestBuilder::new(vec![file("abc.txt", 3)], 10, 0, true).unwrap();
    b.supply(b"abc".to_vec()).unwrap();
    let m = b.finish();
    assert_eq!(
        m.chunks[0].checksum,
        "ba7816bf8f01cfea414140de5dae2223b00361a396177a9cb410ff61f20015ad"
    );
}

#[test]
fn builder_records_file_entries_in_order() {
    let mut b = ManifestBuilder::new(
        vec![file("a", 3), file("b", 4)],
        100,
        0,
        true,
    )
    .unwrap();
    b.supply(b"aaa".to_vec()).unwrap();
    b.supply(b"bbbb".to_vec()).unwrap();
    assert!(b.is_finished());
    let m = b.finish();
    assert_eq!(m.chunks.len(), 1);
    let entries = &m.chunks[0].files;
    assert_eq!(entries.len(), 2);
    assert_eq!(entries[0].filename, "a");
    assert_eq!(entries[0].start, 0);
    assert_eq!(entries[0].length, 3);
    assert_eq!(entries[0].permissions, 0o644);
    assert_eq!(entries[1].filename, "b");
    assert_eq!(entries[1].length, 4);
    assert_eq!(m.size, 7);
    assert_eq!(m.chunks[0].id.len(), 36);
    assert_eq!(
        m.chunks[0].checksum,
        sha256_hex_reference(b"aaabbbb")
    );
}

#[test]
fn builder_rejects_wrong_length_and_stray_data() {
    let mut b = ManifestBuilder::new(vec![file("a", 3)], 10, 0, true).unwrap();
    assert_eq!(b.supply(b"toolong".to_vec()).unwrap_err(), DropletError::RangeError);
    b.supply(b"abc".to_vec()).unwrap();
    assert!(b.next_request().is_none());
    assert_eq!(b.supply(b"abc".to_vec()).unwrap_err(), DropletError::RangeError);
}

#[test]
fn builder_rejects_zero_budget() {
    let err = match ManifestBuilder::new(vec![file("a", 3)], 0, 0, true) {
        Ok(_) => panic!("a zero budget must be rejected"),
        Err(e) => e,
    };
    assert_eq!(err, DropletError::RangeError);
}

fn demo_archive() -> (Vec<u8>, Vec<(String, Vec<u8>)>) {
    let a: Vec<u8> = (0u32..300).map(|i| (i % 251) as u8).collect();
    let b: Vec<u8> = b"the second, smaller file".to_vec();
    let c: Vec<u8> = Vec::new();
    let entries = vec![
        (String::from("data/a.bin"), a.clone()),
        (String::from("b.txt"), b.clone()),
        (String::from("empty"), c.clone()),
    ];
    let archive = build_stored_zip(&[
        ("data/a.bin", a),
        ("b.txt", b),
        ("empty", c),
    ]);
    (archive, entries)
}

#[test]
fn zip_manifest_covers_every_file_exactly_once() {
    let (archive, contents) = demo_archive();
    let zip = ZipVersionBackend::new(archive).unwrap();
    let m: Manifest = generate_manifest_for_zip(&zip, 128, 0).unwrap();
    // replaying each file's entries in chunk order reproduces its bytes
    for (name, content) in &contents {
        let listed = zip.peek_file(name).unwrap();
        let mut replay: Vec<u8> = Vec::new();
        for chunk in &m.chunks {
            for e in &chunk.files {
                if &e.filename == name {
                    let mut r = zip.reader(&listed, e.start, e.start + e.length).unwrap();
                    let n = r.remaining();
                    replay.extend_from_slice(&r.read(n));
                }
            }
        }
        assert_eq!(&replay, content);
    }
    let total: u64 = contents.iter().map(|(_, c)| c.len() as u64).sum();
    assert_eq!(m.size, total);
}

#[test]
fn zip_manifest_chunks_respect_the_budget() {
    let (archive, _) = demo_archive();
    let zip = ZipVersionBackend::new(archive).unwrap();
    let budget = 128u64;
    let m = generate_manifest_for_zip(&zip, budget, 0).unwrap();
    assert!(m.chunks.len() >= 2);
    for chunk in &m.chunks {
        let total: u64 = chunk.files.iter().map(|e| e.length).sum();
        if total > budget {
            assert_eq!(chunk.files.len(), 1);
            assert_eq!(chunk.files[0].start, 0);
        }
    }
}

#[test]
fn zip_manifest_checksums_match_reference_digests() {
    let (archive, contents) = demo_archive();
    let zip = ZipVersionBackend::new(archive).unwrap();
    let m = generate_manifest_for_zip(&zip, 128, 0).unwrap();
    for chunk in &m.chunks {
        let mut bytes: Vec<u8> = Vec::new();
        for e in &chunk.files {
            let content = &contents.iter().find(|(n, _)| n == &e.filename).unwrap().1;
            bytes.extend_from_slice(
                &content[e.start as usize..(e.start + e.length) as usize],
            );
        }
        assert_eq!(chunk.checksum, sha256_hex_reference(&bytes));
    }
}

#[test]
fn two_runs_agree_on_everything_but_identifiers() {
    let (archive, _) = demo_archive();
    let zip = ZipVersionBackend::new(archive).unwrap();
    let m1 = generate_manifest_for_zip(&zip, 128, 0).unwrap();
    let m2 = generate_manifest_for_zip(&zip, 128, 0).unwrap();
    assert_eq!(m1.size, m2.size);
    assert_eq!(m1.chunks.len(), m2.chunks.len());
    for (c1, c2) in m1.chunks.iter().zip(m2.chunks.iter()) {
        assert_eq!(c1.checksum, c2.checksum);
        assert_eq!(c1.files.len(), c2.files.len());
        for (e1, e2) in c1.files.iter().zip(c2.files.iter()) {
            assert_eq!(e1.filename, e2.filename);
            assert_eq!(e1.start, e2.start);
            assert_eq!(e1.length, e2.length);
            assert_eq!(e1.permissions, e2.permissions);
        }
    }
}

#[test]
fn corrupt_archive_aborts_the_whole_build() {
    let a: Vec<u8> = (0u32..50).map(|i| i as u8).collect();
    let mut archive = build_stored_zip(&[("a.bin", a)]);
    // corrupt one payload byte so the declared checksum no longer matches
    archive[40] ^= 0xff;
    let zip = ZipVersionBackend::new(archive).unwrap();
    let r = generate_manifest_for_zip(&zip, 128, 0);
    assert_eq!(r.unwrap_err(), DropletError::IntegrityError);
}
