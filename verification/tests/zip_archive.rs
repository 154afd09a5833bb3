use droplet::types::DropletError;
use droplet::zip::{MinimumFileObject, ZipFileWrapper, ZipVersionBackend};

struct TestEntry {
    name: String,
    data: Vec<u8>,
    method: u16,
    crc: u32,
    uncompressed_size: u32,
}

fn entry_stored(name: &str, content: &[u8]) -> TestEntry {
    TestEntry {
        name: name.to_string(),
        data: content.to_vec(),
        method: 0,
        crc: crc32fast::hash(content),
        uncompressed_size: content.len() as u32,
    }
}

fn entry_deflate(name: &str, content: &[u8]) -> TestEntry {
    TestEntry {
        name: name.to_string(),
        data: miniz_oxide::deflate::compress_to_vec(content, 6),
        method: 8,
        crc: crc32fast::hash(content),
        uncompressed_size: content.len() as u32,
    }
}

fn push_u16(out: &mut Vec<u8>, v: u16) {
    out.push((v & 0xff) as u8);
    out.push((v >> 8) as u8);
}

fn push_u32(out: &mut Vec<u8>, v: u32) {
    out.push((v & 0xff) as u8);
    out.push(((v >> 8) & 0xff) as u8);
    out.push(((v >> 16) & 0xff) as u8);
    out.push(((v >> 24) & 0xff) as u8);
}

fn build_zip(entries: &[TestEntry]) -> Vec<u8> {
    let mut out: Vec<u8> = Vec::new();
    let mut offsets: Vec<u32> = Vec::new();
    for e in entries {
        offsets.push(out.len() as u32);
        push_u32(&mut out, 0x04034b50);
        push_u16(&mut out, 20); // version needed
        push_u16(&mut out, 0); // flags
        push_u16(&mut out, e.method);
        push_u16(&mut out, 0); // mod time
        push_u16(&mut out, 0); // mod date
        push_u32(&mut out, e.crc);
        push_u32(&mut out, e.data.len() as u32);
        push_u32(&mut out, e.uncompressed_size);
        push_u16(&mut out, e.name.len() as u16);
        push_u16(&mut out, 0); // extra len
        out.extend_from_slice(e.name.as_bytes());
        out.extend_from_slice(&e.data);
    }
    let cd_offset = out.len() as u32;
    for (i, e) in entries.iter().enumerate() {
        push_u32(&mut out, 0x02014b50);
        push_u16(&mut out, 20); // version made by
        push_u16(&mut out, 20); // version needed
        push_u16(&mut out, 0); // flags
        push_u16(&mut out, e.method);
        push_u16(&mut out, 0); // mod time
        push_u16(&mut out, 0); // mod date
        push_u32(&mut out, e.crc);
        push_u32(&mut out, e.data.len() as u32);
        push_u32(&mut out, e.uncompressed_size);
        push_u16(&mut out, e.name.len() as u16);
        push_u16(&mut out, 0); // extra len
        push_u16(&mut out, 0); // comment len
        push_u16(&mut out, 0); // disk number
        push_u16(&mut out, 0); // internal attrs
        push_u32(&mut out, 0); // external attrs
        push_u32(&mut out, offsets[i]);
        out.extend_from_slice(e.name.as_bytes());
    }
    let cd_size = out.len() as u32 - cd_offset;
    push_u32(&mut out, 0x06054b50);
    push_u16(&mut out, 0); // disk number
    push_u16(&mut out, 0); // central directory disk
    push_u16(&mut out, entries.len() as u16);
    push_u16(&mut out, entries.len() as u16);
    push_u32(&mut out, cd_size);
    push_u32(&mut out, cd_offset);
    push_u16(&mut out, 0); // comment len
    out
}

fn read_all(w: &mut ZipFileWrapper) -> Vec<u8> {
    let n = w.remaining();
    w.read(n)
}

#[test]
fn lists_non_directory_entries_with_sizes() {
    let archive = build_zip(&[
        entry_stored("a.txt", b"hello"),
        entry_stored("dir/", b""),
        entry_deflate("dir/b.bin", b"0123456789abcdef"),
    ]);
    let zip = ZipVersionBackend::new(archive).unwrap();
    let files = zip.list_files();
    assert_eq!(files.len(), 2);
    assert_eq!(files[0].relative_filename, "a.txt");
    assert_eq!(files[0].size, 5);
    assert_eq!(files[0].permission, 0);
    assert_eq!(files[1].relative_filename, "dir/b.bin");
    assert_eq!(files[1].size, 16);
}

#[test]
fn peek_file_finds_one_entry() {
    let archive = build_zip(&[
        entry_stored("a.txt", b"hello"),
        entry_deflate("b.txt", b"world!"),
    ]);
    let zip = ZipVersionBackend::new(archive).unwrap();
    let f = zip.peek_file(&String::from("b.txt")).unwrap();
    assert_eq!(f.relative_filename, "b.txt");
    assert_eq!(f.size, 6);
    let missing = zip.peek_file(&String::from("c.txt"));
    assert_eq!(missing.unwrap_err(), DropletError::NotFound);
}

#[test]
fn deflate_range_read_yields_inner_window() {
    let archive = build_zip(&[entry_deflate("text.txt", b"abcdefghij")]);
    let zip = ZipVersionBackend::new(archive).unwrap();
    let f = zip.peek_file(&String::from("text.txt")).unwrap();
    let mut r = zip.reader(&f, 3, 7).unwrap();
    assert_eq!(read_all(&mut r), b"defg".to_vec());
}

#[test]
fn stored_whole_read_with_end_sentinel() {
    let archive = build_zip(&[entry_stored("raw.bin", b"some raw bytes")]);
    let zip = ZipVersionBackend::new(archive).unwrap();
    let f = zip.peek_file(&String::from("raw.bin")).unwrap();
    let mut r = zip.reader(&f, 0, 0).unwrap();
    assert_eq!(read_all(&mut r), b"some raw bytes".to_vec());
}

#[test]
fn skip_by_decompression_from_offset_to_end() {
    let archive = build_zip(&[entry_deflate("text.txt", b"abcdefghij")]);
    let zip = ZipVersionBackend::new(archive).unwrap();
    let f = zip.peek_file(&String::from("text.txt")).unwrap();
    let mut r = zip.reader(&f, 4, 0).unwrap();
    assert_eq!(read_all(&mut r), b"efghij".to_vec());
}

#[test]
fn reader_rejects_inverted_range() {
    let archive = build_zip(&[entry_stored("a.txt", b"hello")]);
    let zip = ZipVersionBackend::new(archive).unwrap();
    let f = zip.peek_file(&String::from("a.txt")).unwrap();
    let r = zip.reader(&f, 5, 3);
    assert_eq!(r.err().unwrap(), DropletError::RangeError);
}

#[test]
fn reader_rejects_unknown_compression_method() {
    let mut e = entry_stored("odd.bin", b"data");
    e.method = 99;
    let archive = build_zip(&[e]);
    let zip = ZipVersionBackend::new(archive).unwrap();
    let f = zip.peek_file(&String::from("odd.bin")).unwrap();
    let r = zip.reader(&f, 0, 0);
    assert_eq!(r.err().unwrap(), DropletError::UnsupportedFormat);
}

#[test]
fn reader_rejects_checksum_mismatch() {
    let mut e = entry_stored("a.txt", b"hello");
    e.crc ^= 0xdead_beef;
    let archive = build_zip(&[e]);
    let zip = ZipVersionBackend::new(archive).unwrap();
    let f = zip.peek_file(&String::from("a.txt")).unwrap();
    let r = zip.reader(&f, 0, 0);
    assert_eq!(r.err().unwrap(), DropletError::IntegrityError);
}

#[test]
fn reader_reports_missing_file() {
    let archive = build_zip(&[entry_stored("a.txt", b"hello")]);
    let zip = ZipVersionBackend::new(archive).unwrap();
    let mut ghost_file = zip.peek_file(&String::from("a.txt")).unwrap();
    ghost_file.relative_filename = String::from("b.txt");
    let r = zip.reader(&ghost_file, 0, 0);
    assert_eq!(r.err().unwrap(), DropletError::NotFound);
}

#[test]
fn garbage_is_a_format_error() {
    let r = ZipVersionBackend::new(vec![1, 2, 3, 4, 5]);
    assert_eq!(r.err().unwrap(), DropletError::FormatError);
}

#[test]
fn truncated_central_directory_is_a_format_error() {
    let archive = build_zip(&[entry_stored("a.txt", b"hello")]);
    // keep the end-of-central-directory record but cut into the directory
    let eocd = archive.len() - 22;
    let mut broken = Vec::new();
    broken.extend_from_slice(&archive[..eocd - 30]);
    broken.extend_from_slice(&archive[eocd..]);
    let r = ZipVersionBackend::new(broken);
    assert_eq!(r.err().unwrap(), DropletError::FormatError);
}

#[test]
fn traversal_entry_name_is_rejected() {
    let archive = build_zip(&[entry_stored("../evil.txt", b"x")]);
    let r = ZipVersionBackend::new(archive);
    assert_eq!(r.err().unwrap(), DropletError::FormatError);
}

#[test]
fn declared_size_mismatch_is_a_format_error() {
    let mut e = entry_stored("a.txt", b"hello");
    e.uncompressed_size = 99;
    let archive = build_zip(&[e]);
    let zip = ZipVersionBackend::new(archive).unwrap();
    let f = zip.peek_file(&String::from("a.txt")).unwrap();
    let r = zip.reader(&f, 0, 0);
    assert_eq!(r.err().unwrap(), DropletError::FormatError);
}

#[test]
fn require_whole_files_holds_for_archives() {
    let archive = build_zip(&[entry_stored("a.txt", b"hello")]);
    let zip = ZipVersionBackend::new(archive).unwrap();
    assert!(zip.require_whole_files());
}

#[test]
fn wrapper_reads_forward_only_in_bursts() {
    let mut w = ZipFileWrapper::new(b"abcdefgh".to_vec());
    assert_eq!(w.remaining(), 8);
    assert_eq!(w.read(3), b"abc".to_vec());
    assert_eq!(w.remaining(), 5);
    assert_eq!(w.read(4), b"defg".to_vec());
    assert_eq!(w.read(10), b"h".to_vec());
    assert_eq!(w.read(10), Vec::<u8>::new());
    assert_eq!(w.remaining(), 0);
}
