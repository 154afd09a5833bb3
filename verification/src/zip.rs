//! The zip archive backend, driven by the archive's central directory: an
//! in-memory index of entries is built once, and every later lookup or read
//! resolves against that index.  Entry data is decompressed on demand and
//! checked against the entry's declared checksum.

use vstd::prelude::*;
use vstd::utf8::{decode_utf8, valid_utf8};

use crate::types::{file_models, spec_lookup, DropletError, VersionFile, VersionFileModel};

verus! {

/// The little-endian 16-bit value at byte offset `off`.
pub open spec fn le16(b: Seq<u8>, off: int) -> int
    recommends
        0 <= off,
        off + 2 <= b.len(),
{
    b[off] + 256 * b[off + 1]
}

/// The little-endian 32-bit value at byte offset `off`.
pub open spec fn le32(b: Seq<u8>, off: int) -> int
    recommends
        0 <= off,
        off + 4 <= b.len(),
{
    b[off] + 256 * b[off + 1] + 65536 * b[off + 2] + 16777216 * b[off + 3]
}

fn read_u16(b: &Vec<u8>, off: usize) -> (r: u16)
    requires
        off + 2 <= b@.len(),
    ensures
        r as int == le16(b@, off as int),
{
    let _n = b.len();
    b[off] as u16 + 256 * (b[off + 1] as u16)
}

fn read_u32(b: &Vec<u8>, off: usize) -> (r: u32)
    requires
        off + 4 <= b@.len(),
    ensures
        r as int == le32(b@, off as int),
{
    let _n = b.len();
    b[off] as u32 + 256 * (b[off + 1] as u32) + 65536 * (b[off + 2] as u32) + 16777216 * (b[off
        + 3] as u32)
}

/// Copies the byte range `[from, to)` out of a buffer.
fn copy_range(b: &Vec<u8>, from: usize, to: usize) -> (r: Vec<u8>)
    requires
        from <= to,
        to <= b@.len(),
    ensures
        r@ == b@.subrange(from as int, to as int),
{
    let mut r: Vec<u8> = Vec::new();
    let mut i = from;
    while i < to
        invariant
            from <= i <= to,
            to <= b@.len(),
            r@ == b@.subrange(from as int, i as int),
        decreases to - i,
    {
        r.push(b[i]);
        proof {
            assert(r@ =~= b@.subrange(from as int, i + 1 as int));
        }
        i = i + 1;
    }
    r
}

/// What raw-deflate decompression of a byte sequence yields, when it
/// succeeds.  The result depends on the compressed bytes alone.
pub uninterp spec fn inflated(compressed: Seq<u8>) -> Option<Seq<u8>>;

/// Relies on miniz_oxide::inflate::decompress_to_vec: raw-deflate
/// decompression of the whole buffer, a function of its bytes alone.
#[verifier::external_body]
fn inflate(compressed: &[u8]) -> (r: Option<Vec<u8>>)
    ensures
        match r {
            Some(p) => inflated(compressed@) == Some(p@),
            None => inflated(compressed@) is None,
        },
{
    match miniz_oxide::inflate::decompress_to_vec(compressed) {
        Ok(v) => Some(v),
        Err(_) => None,
    }
}

/// The CRC-32 (IEEE) checksum of a byte sequence, as zip archives declare it
/// for each entry.  The checksum depends on the bytes alone.
pub uninterp spec fn crc32_of(bytes: Seq<u8>) -> u32;

/// Relies on crc32fast::hash: the CRC-32 (IEEE) checksum, a function of the
/// bytes alone.
#[verifier::external_body]
fn crc32(bytes: &[u8]) -> (r: u32)
    ensures
        r == crc32_of(bytes@),
{
    crc32fast::hash(bytes)
}

/// Relies on String::from_utf8: it succeeds exactly on valid UTF-8 input and
/// yields the decoded characters.
#[verifier::external_body]
fn bytes_to_string(bytes: Vec<u8>) -> (r: Option<String>)
    ensures
        match r {
            Some(s) => valid_utf8(bytes@) && s@ == decode_utf8(bytes@),
            None => !valid_utf8(bytes@),
        },
{
    match String::from_utf8(bytes) {
        Ok(s) => Some(s),
        Err(_) => None,
    }
}

/// One entry of the archive's central directory, as the index keeps it.
#[derive(Clone, Debug)]
pub struct ZipEntry {
    pub name: String,
    pub is_dir: bool,
    pub method: u16,
    pub crc: u32,
    pub compressed_size: u64,
    pub uncompressed_size: u64,
    pub local_offset: u64,
}

/// The mathematical view of a central-directory entry.
pub ghost struct ZipEntryModel {
    pub name: Seq<char>,
    pub is_dir: bool,
    pub method: u16,
    pub crc: u32,
    pub compressed_size: u64,
    pub uncompressed_size: u64,
    pub local_offset: u64,
}

impl View for ZipEntry {
    type V = ZipEntryModel;

    open spec fn view(&self) -> ZipEntryModel {
        ZipEntryModel {
            name: self.name@,
            is_dir: self.is_dir,
            method: self.method,
            crc: self.crc,
            compressed_size: self.compressed_size,
            uncompressed_size: self.uncompressed_size,
            local_offset: self.local_offset,
        }
    }
}

pub open spec fn entry_models(entries: Seq<ZipEntry>) -> Seq<ZipEntryModel> {
    entries.map_values(|e: ZipEntry| e@)
}

/// The entry name holds a path-traversal component: a `..` standing alone
/// between separators (or at either end).
pub open spec fn has_traversal(name: Seq<u8>) -> bool {
    exists|i: int|
        0 <= i && i + 2 <= name.len() && #[trigger] name[i] == 46 && name[i + 1] == 46 && (i == 0
            || name[i - 1] == 47) && (i + 2 == name.len() || name[i + 2] == 47)
}

fn contains_traversal(name: &Vec<u8>) -> (r: bool)
    ensures
        r == has_traversal(name@),
{
    let n = name.len();
    if n < 2 {
        return false;
    }
    let mut i: usize = 0;
    while i <= n - 2
        invariant
            n == name@.len(),
            n >= 2,
            i <= name@.len(),
            forall|j: int|
                0 <= j && j + 2 <= name@.len() && j < i ==> !(#[trigger] name@[j] == 46 && name@[j
                    + 1] == 46 && (j == 0 || name@[j - 1] == 47) && (j + 2 == name@.len()
                    || name@[j + 2] == 47)),
        decreases name@.len() - i,
    {
        if name[i] == 46 && name[i + 1] == 46 && (i == 0 || name[i - 1] == 47) && (i + 2 == n
            || name[i + 2] == 47) {
            return true;
        }
        i = i + 1;
    }
    false
}

/// A central-directory file header starts at `off`.
pub open spec fn cd_sig_at(b: Seq<u8>, off: int) -> bool {
    &&& 0 <= off
    &&& off + 46 <= b.len()
    &&& b[off] == 0x50
    &&& b[off + 1] == 0x4b
    &&& b[off + 2] == 0x01
    &&& b[off + 3] == 0x02
}

/// Parses the central-directory entry at `off`: its fields, decoded name,
/// and the offset of the following entry.  Entries whose name is not valid
/// UTF-8 or holds a path-traversal component are rejected.
pub open spec fn spec_parse_entry(b: Seq<u8>, off: int) -> Option<(ZipEntryModel, int)> {
    if !cd_sig_at(b, off) {
        None
    } else {
        let name_len = le16(b, off + 28);
        let extra_len = le16(b, off + 30);
        let comment_len = le16(b, off + 32);
        let next = off + 46 + name_len + extra_len + comment_len;
        if next > b.len() {
            None
        } else {
            let name_bytes = b.subrange(off + 46, off + 46 + name_len);
            if !valid_utf8(name_bytes) {
                None
            } else if has_traversal(name_bytes) {
                None
            } else {
                Some(
                    (
                        ZipEntryModel {
                            name: decode_utf8(name_bytes),
                            is_dir: name_len > 0 && b[off + 46 + name_len - 1] == 47,
                            method: le16(b, off + 10) as u16,
                            crc: le32(b, off + 16) as u32,
                            compressed_size: le32(b, off + 20) as u64,
                            uncompressed_size: le32(b, off + 24) as u64,
                            local_offset: le32(b, off + 42) as u64,
                        },
                        next,
                    ),
                )
            }
        }
    }
}

/// Parses `count` consecutive central-directory entries starting at `off`.
pub open spec fn spec_parse_cd(b: Seq<u8>, off: int, count: nat) -> Option<Seq<ZipEntryModel>>
    decreases count,
{
    if count == 0 {
        Some(Seq::empty())
    } else {
        match spec_parse_entry(b, off) {
            None => None,
            Some((e, next)) => match spec_parse_cd(b, next, (count - 1) as nat) {
                None => None,
                Some(rest) => Some(seq![e] + rest),
            },
        }
    }
}

fn parse_entry(archive: &Vec<u8>, off: usize) -> (r: Result<(ZipEntry, usize), DropletError>)
    ensures
        match r {
            Ok((e, next)) => spec_parse_entry(archive@, off as int) == Some((e@, next as int)),
            Err(err) => spec_parse_entry(archive@, off as int) is None && err
                == DropletError::FormatError,
        },
{
    if archive.len() < 46 || off > archive.len() - 46 {
        return Err(DropletError::FormatError);
    }
    if !(archive[off] == 0x50 && archive[off + 1] == 0x4b && archive[off + 2] == 0x01
        && archive[off + 3] == 0x02) {
        return Err(DropletError::FormatError);
    }
    let name_len = read_u16(archive, off + 28) as usize;
    let extra_len = read_u16(archive, off + 30) as usize;
    let comment_len = read_u16(archive, off + 32) as usize;
    let remaining = archive.len() - (off + 46);
    if name_len + extra_len + comment_len > remaining {
        return Err(DropletError::FormatError);
    }
    let next = off + 46 + name_len + extra_len + comment_len;
    let name_bytes = copy_range(archive, off + 46, off + 46 + name_len);
    let is_dir = name_len > 0 && archive[off + 46 + name_len - 1] == 47;
    proof {
        assert(name_bytes@ == archive@.subrange(off + 46, off + 46 + name_len));
    }
    if contains_traversal(&name_bytes) {
        return Err(DropletError::FormatError);
    }
    let method = read_u16(archive, off + 10);
    let crc = read_u32(archive, off + 16);
    let compressed_size = read_u32(archive, off + 20) as u64;
    let uncompressed_size = read_u32(archive, off + 24) as u64;
    let local_offset = read_u32(archive, off + 42) as u64;
    match bytes_to_string(name_bytes) {
        None => Err(DropletError::FormatError),
        Some(name) => {
            let e = ZipEntry {
                name,
                is_dir,
                method,
                crc,
                compressed_size,
                uncompressed_size,
                local_offset,
            };
            Ok((e, next))
        },
    }
}

fn parse_central_directory(archive: &Vec<u8>, cd_offset: usize, count: u16) -> (r: Result<
    Vec<ZipEntry>,
    DropletError,
>)
    ensures
        match r {
            Ok(v) => spec_parse_cd(archive@, cd_offset as int, count as nat) == Some(
                entry_models(v@),
            ),
            Err(err) => spec_parse_cd(archive@, cd_offset as int, count as nat) is None && err
                == DropletError::FormatError,
        },
{
    let mut entries: Vec<ZipEntry> = Vec::new();
    let mut off: usize = cd_offset;
    let mut i: u16 = 0;
    proof {
        assert(entry_models(entries@) =~= Seq::<ZipEntryModel>::empty());
    }
    while i < count
        invariant
            i <= count,
            match spec_parse_cd(archive@, off as int, (count - i) as nat) {
                Some(rest) => spec_parse_cd(archive@, cd_offset as int, count as nat) == Some(
                    entry_models(entries@) + rest,
                ),
                None => spec_parse_cd(archive@, cd_offset as int, count as nat) is None,
            },
        decreases count - i,
    {
        match parse_entry(archive, off) {
            Err(_) => {
                proof {
                    assert(spec_parse_cd(archive@, off as int, (count - i) as nat) is None);
                }
                return Err(DropletError::FormatError);
            },
            Ok((e, next)) => {
                proof {
                    let rest_n = (count - i) as nat;
                    assert(spec_parse_cd(archive@, off as int, rest_n) == match spec_parse_cd(
                        archive@,
                        next as int,
                        (rest_n - 1) as nat,
                    ) {
                        None => None::<Seq<ZipEntryModel>>,
                        Some(rest) => Some(seq![e@] + rest),
                    });
                }
                let ghost pre = entries@;
                entries.push(e);
                proof {
                    assert(entry_models(entries@) =~= entry_models(pre).push(e@));
                    if spec_parse_cd(archive@, next as int, (count - i - 1) as nat) is Some {
                        let rest = spec_parse_cd(
                            archive@,
                            next as int,
                            (count - i - 1) as nat,
                        )->Some_0;
                        assert(entry_models(pre) + (seq![e@] + rest) =~= entry_models(entries@)
                            + rest);
                    }
                }
                off = next;
                i = i + 1;
            },
        }
    }
    proof {
        assert(spec_parse_cd(archive@, off as int, 0) == Some(Seq::<ZipEntryModel>::empty()));
        assert(entry_models(entries@) + Seq::<ZipEntryModel>::empty() =~= entry_models(entries@));
    }
    Ok(entries)
}

/// An end-of-central-directory record starts at `off` and its comment runs
/// exactly to the end of the archive.
pub open spec fn eocd_at(b: Seq<u8>, off: int) -> bool {
    &&& 0 <= off
    &&& off + 22 <= b.len()
    &&& b[off] == 0x50
    &&& b[off + 1] == 0x4b
    &&& b[off + 2] == 0x05
    &&& b[off + 3] == 0x06
    &&& off + 22 + le16(b, off + 20) == b.len()
}

/// The highest offset at or below `off` where a consistent
/// end-of-central-directory record starts.
pub open spec fn spec_find_eocd_from(b: Seq<u8>, off: int) -> Option<int>
    decreases off + 1,
{
    if off < 0 {
        None
    } else if eocd_at(b, off) {
        Some(off)
    } else {
        spec_find_eocd_from(b, off - 1)
    }
}

pub open spec fn spec_find_eocd(b: Seq<u8>) -> Option<int> {
    spec_find_eocd_from(b, b.len() - 22)
}

fn find_eocd(archive: &Vec<u8>) -> (r: Option<usize>)
    ensures
        match r {
            Some(off) => spec_find_eocd(archive@) == Some(off as int) && off + 22
                <= archive@.len(),
            None => spec_find_eocd(archive@) is None,
        },
{
    let n = archive.len();
    if archive.len() < 22 {
        proof {
            assert(spec_find_eocd_from(archive@, archive@.len() - 22) is None);
        }
        return None;
    }
    let mut i: usize = archive.len() - 22;
    loop
        invariant
            n == archive@.len(),
            archive@.len() >= 22,
            i as int <= archive@.len() - 22,
            spec_find_eocd(archive@) == spec_find_eocd_from(archive@, i as int),
        decreases i,
    {
        let sig_ok = archive[i] == 0x50 && archive[i + 1] == 0x4b && archive[i + 2] == 0x05
            && archive[i + 3] == 0x06;
        if sig_ok {
            let comment_len = read_u16(archive, i + 20);
            if comment_len as u64 == (n as u64) - (i as u64) - 22 {
                proof {
                    assert(eocd_at(archive@, i as int));
                }
                return Some(i);
            }
        }
        proof {
            assert(!eocd_at(archive@, i as int));
        }
        if i == 0 {
            proof {
                assert(spec_find_eocd_from(archive@, -1) is None);
            }
            return None;
        }
        i = i - 1;
    }
}

/// The index that a well-formed archive yields: its central-directory
/// entries, located through the end-of-central-directory record.
pub open spec fn spec_zip_index(b: Seq<u8>) -> Option<Seq<ZipEntryModel>> {
    match spec_find_eocd(b) {
        None => None,
        Some(e) => spec_parse_cd(b, le32(b, e + 16), le16(b, e + 10) as nat),
    }
}

/// The zip backend: the archive's bytes and the index built from its
/// central directory.
pub struct ZipVersionBackend {
    archive: Vec<u8>,
    entries: Vec<ZipEntry>,
}

/// The mathematical view of a zip backend.
pub ghost struct ZipIndex {
    pub archive: Seq<u8>,
    pub entries: Seq<ZipEntryModel>,
}

impl View for ZipVersionBackend {
    type V = ZipIndex;

    closed spec fn view(&self) -> ZipIndex {
        ZipIndex { archive: self.archive@, entries: entry_models(self.entries@) }
    }
}

impl ZipVersionBackend {
    /// Opens an archive: scans for the end-of-central-directory record and
    /// builds the entry index from the central directory.  Fails with
    /// `FormatError` exactly when the archive's structural metadata cannot
    /// be parsed.
    pub fn new(archive: Vec<u8>) -> (r: Result<Self, DropletError>)
        ensures
            match r {
                Ok(z) => z@.archive == archive@ && spec_zip_index(archive@) == Some(z@.entries),
                Err(err) => spec_zip_index(archive@) is None && err == DropletError::FormatError,
            },
    {
        let _n = archive.len();
        let eocd = match find_eocd(&archive) {
            None => {
                return Err(DropletError::FormatError);
            },
            Some(e) => e,
        };
        let count = read_u16(&archive, eocd + 10);
        let cd_offset_32 = read_u32(&archive, eocd + 16);
        let cd_offset = cd_offset_32 as usize;
        let entries = match parse_central_directory(&archive, cd_offset, count) {
            Err(err) => {
                return Err(err);
            },
            Ok(v) => v,
        };
        Ok(ZipVersionBackend { archive, entries })
    }

    /// Whether the backend can only serve whole files.  Ranged reads into a
    /// compressed entry cost time proportional to the skipped prefix, so the
    /// packer treats every entry as atomic.
    pub fn require_whole_files(&self) -> (r: bool)
        ensures
            r == true,
    {
        true
    }

    /// Every non-directory entry of the archive, in central-directory order,
    /// with its declared uncompressed size.
    pub fn list_files(&self) -> (r: Vec<VersionFile>)
        ensures
            file_models(r@) == spec_list(self@.entries),
    {
        let mut r: Vec<VersionFile> = Vec::new();
        let mut i: usize = 0;
        let n = self.entries.len();
        proof {
            assert(file_models(r@) =~= Seq::<VersionFileModel>::empty());
            assert(self@.entries.skip(0) =~= self@.entries);
            assert(file_models(r@) + spec_list(self@.entries) =~= spec_list(self@.entries));
        }
        while i < n
            invariant
                n == self.entries@.len(),
                i <= n,
                self@.entries.len() == n,
                spec_list(self@.entries) == file_models(r@) + spec_list(
                    self@.entries.skip(i as int),
                ),
            decreases n - i,
        {
            let e = &self.entries[i];
            let ghost tail = self@.entries.skip(i as int);
            proof {
                assert(tail.len() > 0);
                assert(tail.first() == self@.entries[i as int]);
                assert(tail.drop_first() =~= self@.entries.skip(i + 1 as int));
            }
            if !e.is_dir {
                let ghost pre = r@;
                r.push(
                    VersionFile {
                        relative_filename: e.name.clone(),
                        permission: 0,
                        size: e.uncompressed_size,
                    },
                );
                proof {
                    assert(file_models(r@) =~= file_models(pre).push(file_of(e@)));
                    assert(file_models(pre) + (seq![file_of(e@)] + spec_list(
                        self@.entries.skip(i + 1 as int),
                    )) =~= file_models(r@) + spec_list(self@.entries.skip(i + 1 as int)));
                }
            } else {
                proof {
                    assert(Seq::<VersionFileModel>::empty() + spec_list(
                        self@.entries.skip(i + 1 as int),
                    ) =~= spec_list(self@.entries.skip(i + 1 as int)));
                }
            }
            i = i + 1;
        }
        proof {
            assert(self@.entries.skip(n as int) =~= Seq::<ZipEntryModel>::empty());
            assert(spec_list(Seq::<ZipEntryModel>::empty()) == Seq::<VersionFileModel>::empty());
            assert(file_models(r@) + Seq::<VersionFileModel>::empty() =~= file_models(r@));
        }
        r
    }

    /// Resolves one file of the archive by its exact name, without listing
    /// the rest.  Fails with `NotFound` exactly when no non-directory entry
    /// bears the name.
    pub fn peek_file(&self, sub_path: &String) -> (r: Result<VersionFile, DropletError>)
        ensures
            match r {
                Ok(f) => spec_lookup(spec_list(self@.entries), sub_path@) == Some(f@),
                Err(err) => spec_lookup(spec_list(self@.entries), sub_path@) is None && err
                    == DropletError::NotFound,
            },
    {
        let n = self.entries.len();
        let mut i: usize = 0;
        proof {
            assert(self@.entries.skip(0) =~= self@.entries);
        }
        while i < n
            invariant
                n == self.entries@.len(),
                i <= n,
                self@.entries.len() == n,
                spec_lookup(spec_list(self@.entries), sub_path@) == spec_lookup(
                    spec_list(self@.entries.skip(i as int)),
                    sub_path@,
                ),
            decreases n - i,
        {
            let e = &self.entries[i];
            let ghost tail = self@.entries.skip(i as int);
            proof {
                assert(tail.len() > 0);
                assert(tail.first() == self@.entries[i as int]);
                assert(tail.drop_first() =~= self@.entries.skip(i + 1 as int));
            }
            if !e.is_dir && e.name == *sub_path {
                let f = VersionFile {
                    relative_filename: e.name.clone(),
                    permission: 0,
                    size: e.uncompressed_size,
                };
                proof {
                    let listed = spec_list(tail);
                    assert(listed == seq![file_of(e@)] + spec_list(tail.drop_first()));
                    assert(listed.first() == file_of(e@));
                    assert(spec_lookup(listed, sub_path@) == Some(file_of(e@)));
                }
                return Ok(f);
            }
            proof {
                let listed = spec_list(tail);
                if e.is_dir {
                    assert(listed =~= Seq::<VersionFileModel>::empty() + spec_list(
                        tail.drop_first(),
                    ));
                    assert(listed =~= spec_list(self@.entries.skip(i + 1 as int)));
                } else {
                    assert(listed == seq![file_of(e@)] + spec_list(tail.drop_first()));
                    assert(listed.first() == file_of(e@));
                    assert(listed.first().name != sub_path@);
                    assert(listed.drop_first() =~= spec_list(self@.entries.skip(i + 1 as int)));
                }
            }
            i = i + 1;
        }
        proof {
            assert(self@.entries.skip(n as int) =~= Seq::<ZipEntryModel>::empty());
        }
        Err(DropletError::NotFound)
    }

    /// Opens a bounded reader over the decompressed bytes `[start, end)` of
    /// one entry; `end == 0` reads to the end of the entry.  The entry's
    /// declared checksum is verified over the whole decompressed entry
    /// before any byte is yielded.
    pub fn reader(&self, file: &VersionFile, start: u64, end: u64) -> (r: Result<
        ZipFileWrapper,
        DropletError,
    >)
        ensures
            match r {
                Ok(w) => spec_reader_outcome(self@, file@.name, start, end) == Ok::<
                    Seq<u8>,
                    DropletError,
                >(w@),
                Err(err) => spec_reader_outcome(self@, file@.name, start, end) == Err::<
                    Seq<u8>,
                    DropletError,
                >(err),
            },
    {
        let n = self.entries.len();
        let mut i: usize = 0;
        while i < n
            invariant
                n == self.entries@.len(),
                i <= n,
                self@.entries.len() == n,
                spec_find_entry(self@.entries, file@.name, 0) == spec_find_entry(
                    self@.entries,
                    file@.name,
                    i as int,
                ),
            decreases n - i,
        {
            let e = &self.entries[i];
            if !e.is_dir && e.name == file.relative_filename {
                return self.reader_at(i, start, end);
            }
            i = i + 1;
        }
        Err(DropletError::NotFound)
    }

    /// The body of `reader` once the entry is found: local-header lookup,
    /// decompression, checksum verification, and range clamping.
    fn reader_at(&self, k: usize, start: u64, end: u64) -> (r: Result<
        ZipFileWrapper,
        DropletError,
    >)
        requires
            k < self@.entries.len(),
        ensures
            match r {
                Ok(w) => spec_entry_outcome(self@, k as int, start, end) == Ok::<
                    Seq<u8>,
                    DropletError,
                >(w@),
                Err(err) => spec_entry_outcome(self@, k as int, start, end) == Err::<
                    Seq<u8>,
                    DropletError,
                >(err),
            },
    {
        let e = &self.entries[k];
        if end != 0 && start > end {
            return Err(DropletError::RangeError);
        }
        if e.method != 0 && e.method != 8 {
            return Err(DropletError::UnsupportedFormat);
        }
        let alen = self.archive.len();
        let lo64 = e.local_offset;
        if lo64 > alen as u64 || 30 > alen as u64 - lo64 {
            return Err(DropletError::FormatError);
        }
        let lo = lo64 as usize;
        if !(self.archive[lo] == 0x50 && self.archive[lo + 1] == 0x4b && self.archive[lo + 2]
            == 0x03 && self.archive[lo + 3] == 0x04) {
            return Err(DropletError::FormatError);
        }
        let nl = read_u16(&self.archive, lo + 26) as usize;
        let el = read_u16(&self.archive, lo + 28) as usize;
        let remaining = alen - (lo + 30);
        if nl + el > remaining {
            return Err(DropletError::FormatError);
        }
        let data_start = lo + 30 + nl + el;
        if e.compressed_size > (alen - data_start) as u64 {
            return Err(DropletError::FormatError);
        }
        let data_end = data_start + e.compressed_size as usize;
        let data = copy_range(&self.archive, data_start, data_end);
        proof {
            assert(entry_data(self@.archive, self@.entries[k as int]) == Some(data@));
        }
        let plain: Vec<u8> = if e.method == 0 {
            if data.len() as u64 != e.uncompressed_size {
                return Err(DropletError::FormatError);
            }
            data
        } else {
            match inflate(data.as_slice()) {
                None => {
                    return Err(DropletError::FormatError);
                },
                Some(p) => {
                    if p.len() as u64 != e.uncompressed_size {
                        return Err(DropletError::FormatError);
                    }
                    p
                },
            }
        };
        proof {
            assert(entry_plaintext(self@.archive, self@.entries[k as int]) == Some(plain@));
        }
        let sum = crc32(plain.as_slice());
        if sum != e.crc {
            return Err(DropletError::IntegrityError);
        }
        let plen = plain.len();
        let clamp_end: usize = if end == 0 || end > plen as u64 {
            plen
        } else {
            end as usize
        };
        let clamp_start: usize = if start > clamp_end as u64 {
            clamp_end
        } else {
            start as usize
        };
        let window = copy_range(&plain, clamp_start, clamp_end);
        let w = ZipFileWrapper { data: window, pos: 0 };
        proof {
            assert(w@ =~= spec_read_window(plain@, start, end));
        }
        Ok(w)
    }
}

/// What one file of the index looks like to a caller.
pub open spec fn file_of(e: ZipEntryModel) -> VersionFileModel {
    VersionFileModel { name: e.name, permission: 0, size: e.uncompressed_size }
}

/// The files of the index: every non-directory entry, in index order.
pub open spec fn spec_list(entries: Seq<ZipEntryModel>) -> Seq<VersionFileModel>
    decreases entries.len(),
{
    if entries.len() == 0 {
        Seq::empty()
    } else {
        (if entries.first().is_dir {
            Seq::empty()
        } else {
            seq![file_of(entries.first())]
        }) + spec_list(entries.drop_first())
    }
}

/// The first non-directory entry named `name`, searching from position `k`.
pub open spec fn spec_find_entry(entries: Seq<ZipEntryModel>, name: Seq<char>, k: int) -> Option<
    int,
>
    decreases entries.len() - k,
{
    if k < 0 || k >= entries.len() {
        None
    } else if !entries[k].is_dir && entries[k].name == name {
        Some(k)
    } else {
        spec_find_entry(entries, name, k + 1)
    }
}

/// The compressed bytes of an entry, located through its local file header.
pub open spec fn entry_data(b: Seq<u8>, e: ZipEntryModel) -> Option<Seq<u8>> {
    let off = e.local_offset as int;
    if !(off + 30 <= b.len() && b[off] == 0x50 && b[off + 1] == 0x4b && b[off + 2] == 0x03 && b[off
        + 3] == 0x04) {
        None
    } else {
        let data_start = off + 30 + le16(b, off + 26) + le16(b, off + 28);
        if data_start + e.compressed_size <= b.len() {
            Some(b.subrange(data_start, data_start + e.compressed_size))
        } else {
            None
        }
    }
}

/// The decompressed bytes of an entry, when its data can be located and
/// decoded and its length matches the declared uncompressed size.
pub open spec fn entry_plaintext(b: Seq<u8>, e: ZipEntryModel) -> Option<Seq<u8>> {
    match entry_data(b, e) {
        None => None,
        Some(data) => if e.method == 0 {
            if data.len() == e.uncompressed_size {
                Some(data)
            } else {
                None
            }
        } else {
            match inflated(data) {
                None => None,
                Some(p) => if p.len() == e.uncompressed_size {
                    Some(p)
                } else {
                    None
                },
            }
        },
    }
}

/// The window `[start, end)` of a decompressed entry, clamped to the entry;
/// `end == 0` stands for the entry's end.
pub open spec fn spec_read_window(p: Seq<u8>, start: u64, end: u64) -> Seq<u8> {
    let e = if end == 0 || end > p.len() {
        p.len() as int
    } else {
        end as int
    };
    let s = if start as int > e {
        e
    } else {
        start as int
    };
    p.subrange(s, e)
}

/// What reading `[start, end)` of the entry at index `k` yields: the exact
/// bytes on success, and the exact error kind on each failure.
pub open spec fn spec_entry_outcome(idx: ZipIndex, k: int, start: u64, end: u64) -> Result<
    Seq<u8>,
    DropletError,
>
    recommends
        0 <= k < idx.entries.len(),
{
    let e = idx.entries[k];
    if end != 0 && start > end {
        Err(DropletError::RangeError)
    } else if e.method != 0 && e.method != 8 {
        Err(DropletError::UnsupportedFormat)
    } else {
        match entry_plaintext(idx.archive, e) {
            None => Err(DropletError::FormatError),
            Some(p) => if crc32_of(p) != e.crc {
                Err(DropletError::IntegrityError)
            } else {
                Ok(spec_read_window(p, start, end))
            },
        }
    }
}

/// What reading `[start, end)` of the file named `name` yields.
pub open spec fn spec_reader_outcome(idx: ZipIndex, name: Seq<char>, start: u64, end: u64) -> Result<
    Seq<u8>,
    DropletError,
> {
    match spec_find_entry(idx.entries, name, 0) {
        None => Err(DropletError::NotFound),
        Some(k) => spec_entry_outcome(idx, k, start, end),
    }
}

/// A sequential, forward-only reader over a bounded window of one logical
/// file.  The view is the bytes still to be read.
pub trait MinimumFileObject: View<V = Seq<u8>> {
    /// Reads up to `count` bytes, advancing past what was returned.  The
    /// result is exactly the next `count` remaining bytes, or all of them
    /// when fewer are left.
    fn read(&mut self, count: usize) -> (r: Vec<u8>)
        ensures
            r@ == if count as int <= old(self)@.len() {
                old(self)@.take(count as int)
            } else {
                old(self)@
            },
            final(self)@ == old(self)@.skip(r@.len() as int),
    ;
}

/// The bounded reader the zip backend yields: the selected window of one
/// entry's decompressed bytes, and how far it has been read.
pub struct ZipFileWrapper {
    data: Vec<u8>,
    pos: usize,
}

impl View for ZipFileWrapper {
    type V = Seq<u8>;

    closed spec fn view(&self) -> Seq<u8> {
        if self.pos as int <= self.data@.len() {
            self.data@.skip(self.pos as int)
        } else {
            Seq::empty()
        }
    }
}

impl ZipFileWrapper {
    /// A reader over the given window of bytes, positioned at its start.
    pub fn new(data: Vec<u8>) -> (r: Self)
        ensures
            r@ == data@,
    {
        ZipFileWrapper { data, pos: 0 }
    }

    /// How many bytes are left to read.
    pub fn remaining(&self) -> (r: usize)
        ensures
            r == self@.len(),
    {
        if self.pos >= self.data.len() {
            0
        } else {
            self.data.len() - self.pos
        }
    }
}

impl MinimumFileObject for ZipFileWrapper {
    fn read(&mut self, count: usize) -> (r: Vec<u8>) {
        if self.pos >= self.data.len() {
            let r: Vec<u8> = Vec::new();
            proof {
                assert(r@ =~= old(self)@);
                assert(self@ =~= old(self)@.skip(0));
            }
            return r;
        }
        let avail = self.data.len() - self.pos;
        let take_n = if count < avail {
            count
        } else {
            avail
        };
        let r = copy_range(&self.data, self.pos, self.pos + take_n);
        self.pos = self.pos + take_n;
        proof {
            if count as int <= old(self)@.len() {
                assert(r@ =~= old(self)@.take(count as int));
            } else {
                assert(r@ =~= old(self)@);
            }
            assert(self@ =~= old(self)@.skip(r@.len() as int));
        }
        r
    }
}

} // verus!
