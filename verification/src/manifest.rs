//! The checksum / manifest builder.  A `ManifestBuilder` turns a file
//! listing and a chunk-size budget into chunk specifications, then consumes
//! the bytes of each specified range — handed to it by whichever driver
//! performs the reads — hashing each chunk and recording its file entries.
//! The finished manifest is a pure value: a format tag, the total size, and
//! one record per chunk.

use vstd::prelude::*;
use vstd::string::StringExecFns;

use crate::checksum::{hex_of, new_chunk_id, sha256_hex, sha256_of};
use crate::coverage::{
    all_slices_wf, covers, file_slices, lemma_chunk_total_nonneg, lemma_pack_budget,
    lemma_pack_covers, lemma_pack_round_trip, lemma_pack_whole_file_atomic,
    lemma_slices_for_witness, replay_slices, slice_wf, slices_for, total_len,
};
use crate::packer::{chunk_total, chunk_views, pack_files, sizes_of, spec_pack, ChunkSpec, FileSlice};
use crate::types::{file_models, DropletError, VersionFile, VersionFileModel};
use crate::zip::{spec_list, spec_reader_outcome, MinimumFileObject, ZipIndex, ZipVersionBackend};

verus! {

/// One file entry of a chunk record: which byte range of which file the
/// chunk covers, and the file's permission bits.
#[derive(Clone, Debug)]
pub struct ManifestFileEntry {
    pub filename: String,
    pub start: u64,
    pub length: u64,
    pub permissions: u32,
}

pub ghost struct ManifestFileEntryModel {
    pub filename: Seq<char>,
    pub start: u64,
    pub length: u64,
    pub permissions: u32,
}

impl View for ManifestFileEntry {
    type V = ManifestFileEntryModel;

    open spec fn view(&self) -> ManifestFileEntryModel {
        ManifestFileEntryModel {
            filename: self.filename@,
            start: self.start,
            length: self.length,
            permissions: self.permissions,
        }
    }
}

/// One chunk of the manifest: its fresh identifier, the hex digest of its
/// bytes, and the file ranges that compose it, in order.
#[derive(Clone, Debug)]
pub struct ChunkRecord {
    pub id: String,
    pub checksum: String,
    pub files: Vec<ManifestFileEntry>,
}

pub ghost struct ChunkRecordModel {
    pub id: Seq<char>,
    pub checksum: Seq<char>,
    pub files: Seq<ManifestFileEntryModel>,
}

impl View for ChunkRecord {
    type V = ChunkRecordModel;

    open spec fn view(&self) -> ChunkRecordModel {
        ChunkRecordModel {
            id: self.id@,
            checksum: self.checksum@,
            files: self.files@.map_values(|e: ManifestFileEntry| e@),
        }
    }
}

/// The finished manifest: a format tag, the total bytes covered, and the
/// chunks in emission order.
#[derive(Clone, Debug)]
pub struct Manifest {
    pub version: String,
    pub size: u64,
    pub chunks: Vec<ChunkRecord>,
}

pub ghost struct ManifestModel {
    pub version: Seq<char>,
    pub size: u64,
    pub chunks: Seq<ChunkRecordModel>,
}

impl View for Manifest {
    type V = ManifestModel;

    open spec fn view(&self) -> ManifestModel {
        ManifestModel {
            version: self.version@,
            size: self.size,
            chunks: self.chunks@.map_values(|c: ChunkRecord| c@),
        }
    }
}

/// The manifest file entry that a slice of the listing turns into.
pub open spec fn spec_entry_of(files: Seq<VersionFileModel>, e: FileSlice) -> ManifestFileEntryModel
    recommends
        (e.file as int) < files.len(),
{
    ManifestFileEntryModel {
        filename: files[e.file as int].name,
        start: e.start,
        length: e.length,
        permissions: files[e.file as int].permission,
    }
}

/// The file entries of one whole chunk.
pub open spec fn spec_entries_of(files: Seq<VersionFileModel>, c: Seq<FileSlice>) -> Seq<
    ManifestFileEntryModel,
> {
    c.map_values(|e: FileSlice| spec_entry_of(files, e))
}

/// The summed length of a record's file entries.
pub open spec fn record_files_total(files: Seq<ManifestFileEntryModel>) -> int
    decreases files.len(),
{
    if files.len() == 0 {
        0
    } else {
        record_files_total(files.drop_last()) + files.last().length
    }
}

/// The summed length over all records of a manifest.
pub open spec fn records_total(chunks: Seq<ChunkRecordModel>) -> int
    decreases chunks.len(),
{
    if chunks.len() == 0 {
        0
    } else {
        records_total(chunks.drop_last()) + record_files_total(chunks.last().files)
    }
}

/// The builder's mathematical state.
pub ghost struct BuilderModel {
    /// The listing being packed.
    pub files: Seq<VersionFileModel>,
    /// The full chunk plan.
    pub chunks: Seq<Seq<FileSlice>>,
    /// The records of completed chunks.
    pub done: Seq<ChunkRecordModel>,
    /// The bytes fed for each completed chunk.
    pub fed: Seq<Seq<u8>>,
    /// How many entries of the open chunk have been supplied.
    pub cur_entry: int,
    /// The entries recorded so far for the open chunk.
    pub cur_files: Seq<ManifestFileEntryModel>,
    /// The bytes fed so far for the open chunk.
    pub cur_bytes: Seq<u8>,
    /// The bytes accounted so far, over all supplied ranges.
    pub recorded: int,
}

/// Every chunk of the plan has been completed.
pub open spec fn builder_finished(m: BuilderModel) -> bool {
    m.done.len() == m.chunks.len()
}

/// The next range the builder needs: the current entry of the open chunk.
pub open spec fn builder_next(m: BuilderModel) -> Option<FileSlice> {
    if builder_finished(m) {
        None
    } else {
        Some(m.chunks[m.done.len() as int][m.cur_entry])
    }
}

/// The manifest builder: the chunk plan, the records completed so far, and
/// the open chunk's partial state.  A driver repeatedly asks `next_request`
/// for the range to read and hands the bytes to `supply`; `finish` yields
/// the manifest once every chunk is complete.
pub struct ManifestBuilder {
    files: Vec<VersionFile>,
    specs: Vec<ChunkSpec>,
    chunk_idx: usize,
    entry_idx: usize,
    cur_files: Vec<ManifestFileEntry>,
    cur_bytes: Vec<u8>,
    done: Vec<ChunkRecord>,
    size_done: u64,
    fed: Ghost<Seq<Seq<u8>>>,
}

impl View for ManifestBuilder {
    type V = BuilderModel;

    closed spec fn view(&self) -> BuilderModel {
        BuilderModel {
            files: file_models(self.files@),
            chunks: chunk_views(self.specs@),
            done: self.done@.map_values(|c: ChunkRecord| c@),
            fed: self.fed@,
            cur_entry: self.entry_idx as int,
            cur_files: self.cur_files@.map_values(|e: ManifestFileEntry| e@),
            cur_bytes: self.cur_bytes@,
            recorded: self.size_done as int,
        }
    }
}

impl ManifestBuilder {
    /// The builder's well-formedness: the completed records mirror the plan
    /// and the fed bytes, and the open chunk's partial state mirrors its
    /// consumed prefix.
    pub closed spec fn wf(&self) -> bool {
        &&& self.chunk_idx == self.done@.len()
        &&& self.fed@.len() == self.done@.len()
        &&& self.chunk_idx <= self.specs@.len()
        &&& (self.chunk_idx < self.specs@.len() ==> self.entry_idx
            < self.specs@[self.chunk_idx as int].entries@.len())
        &&& (self.chunk_idx == self.specs@.len() ==> self.entry_idx == 0 && self.cur_files@.len()
            == 0 && self.cur_bytes@.len() == 0)
        &&& (forall|k: int|
            0 <= k < self.done@.len() ==> (#[trigger] self.done@[k]@.files) == spec_entries_of(
                file_models(self.files@),
                chunk_views(self.specs@)[k],
            ) && self.done@[k]@.checksum == hex_of(sha256_of(self.fed@[k])))
        &&& (self.chunk_idx < self.specs@.len() ==> self.cur_files@.map_values(
            |e: ManifestFileEntry| e@,
        ) == spec_entries_of(
            file_models(self.files@),
            chunk_views(self.specs@)[self.chunk_idx as int].take(self.entry_idx as int),
        ))
        &&& (forall|j: int|
            0 <= j < self.specs@.len() ==> all_slices_wf(
                #[trigger] chunk_views(self.specs@)[j],
                sizes_of(self.files@),
            ) && chunk_views(self.specs@)[j].len() >= 1)
        &&& self.size_done as int == records_total(self.done@.map_values(|c: ChunkRecord| c@))
            + record_files_total(self.cur_files@.map_values(|e: ManifestFileEntry| e@))
    }

    /// Plans the chunks for a listing.  Fails with `RangeError` exactly when
    /// the budget is zero or the budget plus the wiggle margin does not fit.
    pub fn new(files: Vec<VersionFile>, budget: u64, wiggle: u64, whole_files: bool) -> (r: Result<
        ManifestBuilder,
        DropletError,
    >)
        ensures
            match r {
                Ok(b) => {
                    &&& budget >= 1
                    &&& budget as int + wiggle as int <= u64::MAX
                    &&& b.wf()
                    &&& b@.files == file_models(files@)
                    &&& b@.chunks == spec_pack(sizes_of(files@), budget, wiggle, whole_files)
                    &&& b@.done == Seq::<ChunkRecordModel>::empty()
                    &&& b@.fed == Seq::<Seq<u8>>::empty()
                    &&& b@.cur_entry == 0
                    &&& b@.cur_bytes == Seq::<u8>::empty()
                    &&& b@.recorded == 0
                },
                Err(err) => (budget == 0 || budget as int + wiggle as int > u64::MAX) && err
                    == DropletError::RangeError,
            },
    {
        if budget == 0 {
            return Err(DropletError::RangeError);
        }
        if budget.checked_add(wiggle).is_none() {
            return Err(DropletError::RangeError);
        }
        let _n = files.len();
        let specs = pack_files(&files, budget, wiggle, whole_files);
        proof {
            lemma_pack_budget(sizes_of(files@), budget, wiggle, whole_files);
        }
        let b = ManifestBuilder {
            files,
            specs,
            chunk_idx: 0,
            entry_idx: 0,
            cur_files: Vec::new(),
            cur_bytes: Vec::new(),
            done: Vec::new(),
            size_done: 0,
            fed: Ghost(Seq::empty()),
        };
        proof {
            assert(b.done@.map_values(|c: ChunkRecord| c@) =~= Seq::<ChunkRecordModel>::empty());
            assert(b.cur_files@.map_values(|e: ManifestFileEntry| e@) =~= Seq::<
                ManifestFileEntryModel,
            >::empty());
            if b.chunk_idx < b.specs@.len() {
                assert(chunk_views(b.specs@)[0].take(0) =~= Seq::<FileSlice>::empty());
                assert(spec_entries_of(file_models(b.files@), chunk_views(b.specs@)[0].take(0))
                    =~= Seq::<ManifestFileEntryModel>::empty());
            }
        }
        Ok(b)
    }

    /// The range the builder needs next, or nothing once every chunk is
    /// complete.
    pub fn next_request(&self) -> (r: Option<FileSlice>)
        requires
            self.wf(),
        ensures
            r == builder_next(self@),
            r is Some ==> self@.done.len() < self@.chunks.len() && 0 <= self@.cur_entry
                < self@.chunks[self@.done.len() as int].len(),
    {
        if self.chunk_idx >= self.specs.len() {
            None
        } else {
            Some(self.specs[self.chunk_idx].entries[self.entry_idx])
        }
    }

    /// Whether every chunk of the plan has been completed.
    pub fn is_finished(&self) -> (r: bool)
        requires
            self.wf(),
        ensures
            r == builder_finished(self@),
    {
        self.chunk_idx >= self.specs.len()
    }

    /// How many chunks have been completed, for progress reporting.
    pub fn chunks_completed(&self) -> (r: usize)
        ensures
            r == self@.done.len(),
    {
        self.done.len()
    }

    /// How many chunks the plan holds in all.
    pub fn chunk_count(&self) -> (r: usize)
        ensures
            r == self@.chunks.len(),
    {
        self.specs.len()
    }

    /// Consumes the bytes of the requested range: they are hashed into the
    /// open chunk and the file entry is recorded.  When the range closes its
    /// chunk, the chunk's record is emitted with a fresh identifier and the
    /// hex digest of every byte fed for the chunk.  Fails with `RangeError`
    /// exactly when no range is pending, the data's length is not the
    /// requested length, or the total supplied would exceed `u64::MAX`; the
    /// builder is then unchanged.
    pub fn supply(&mut self, data: Vec<u8>) -> (r: Result<(), DropletError>)
        requires
            old(self).wf(),
        ensures
            final(self).wf(),
            match r {
                Ok(()) => {
                    &&& builder_next(old(self)@) matches Some(req) && data@.len() == req.length
                        && old(self)@.recorded + req.length <= u64::MAX
                    &&& final(self)@.files == old(self)@.files
                    &&& final(self)@.chunks == old(self)@.chunks
                    &&& final(self)@.recorded == old(self)@.recorded + data@.len()
                    &&& if old(self)@.cur_entry + 1 < old(self)@.chunks[old(
                        self,
                    )@.done.len() as int].len() {
                        &&& final(self)@.done == old(self)@.done
                        &&& final(self)@.fed == old(self)@.fed
                        &&& final(self)@.cur_entry == old(self)@.cur_entry + 1
                        &&& final(self)@.cur_bytes == old(self)@.cur_bytes + data@
                    } else {
                        &&& final(self)@.done.len() == old(self)@.done.len() + 1
                        &&& final(self)@.done.drop_last() == old(self)@.done
                        &&& final(self)@.done.last().files == spec_entries_of(
                            old(self)@.files,
                            old(self)@.chunks[old(self)@.done.len() as int],
                        )
                        &&& final(self)@.done.last().checksum == hex_of(
                            sha256_of(old(self)@.cur_bytes + data@),
                        )
                        &&& final(self)@.fed == old(self)@.fed.push(old(self)@.cur_bytes + data@)
                        &&& final(self)@.cur_entry == 0
                        &&& final(self)@.cur_bytes == Seq::<u8>::empty()
                    }
                },
                Err(err) => {
                    &&& err == DropletError::RangeError
                    &&& *final(self) == *old(self)
                    &&& (builder_next(old(self)@) is None || (builder_next(old(self)@) matches Some(
                        req,
                    ) && (data@.len() != req.length || old(self)@.recorded + req.length
                        > u64::MAX)))
                },
            },
    {
        if self.chunk_idx >= self.specs.len() {
            return Err(DropletError::RangeError);
        }
        let req = self.specs[self.chunk_idx].entries[self.entry_idx];
        if data.len() as u64 != req.length {
            return Err(DropletError::RangeError);
        }
        let new_size = match self.size_done.checked_add(req.length) {
            None => {
                return Err(DropletError::RangeError);
            },
            Some(s) => s,
        };
        let ghost pre = *self;
        let ghost c = chunk_views(pre.specs@)[pre.chunk_idx as int];
        let f = &self.files[req.file];
        let entry = ManifestFileEntry {
            filename: f.relative_filename.clone(),
            start: req.start,
            length: req.length,
            permissions: f.permission,
        };
        let ghost pre_cur_files = self.cur_files@;
        self.cur_files.push(entry);
        let mut data = data;
        let ghost data_view = data@;
        self.cur_bytes.append(&mut data);
        self.size_done = new_size;
        proof {
            assert(c.take(pre.entry_idx + 1 as int).drop_last() =~= c.take(pre.entry_idx as int));
            assert(c.take(pre.entry_idx + 1 as int).last() == c[pre.entry_idx as int]);
            assert(self.cur_files@.map_values(|e: ManifestFileEntry| e@) =~= pre_cur_files.map_values(
                |e: ManifestFileEntry| e@,
            ).push(entry@));
            assert(spec_entries_of(file_models(self.files@), c.take(pre.entry_idx + 1 as int))
                =~= spec_entries_of(file_models(self.files@), c.take(pre.entry_idx as int)).push(
                spec_entry_of(file_models(self.files@), c[pre.entry_idx as int]),
            ));
            assert(entry@ == spec_entry_of(file_models(self.files@), c[pre.entry_idx as int]));
            assert(record_files_total(
                self.cur_files@.map_values(|e: ManifestFileEntry| e@),
            ) == record_files_total(pre_cur_files.map_values(|e: ManifestFileEntry| e@))
                + req.length) by {
                let mapped = self.cur_files@.map_values(|e: ManifestFileEntry| e@);
                assert(mapped.drop_last() =~= pre_cur_files.map_values(
                    |e: ManifestFileEntry| e@,
                ));
                assert(mapped.last() == entry@);
            }
        }
        let entries_len = self.specs[self.chunk_idx].entries.len();
        let next_entry = self.entry_idx + 1;
        if next_entry < entries_len {
            self.entry_idx = next_entry;
            proof {
                assert(self@.cur_bytes =~= pre@.cur_bytes + data_view);
            }
            Ok(())
        } else {
            let checksum = sha256_hex(&self.cur_bytes);
            let id = new_chunk_id();
            let mut chunk_files: Vec<ManifestFileEntry> = Vec::new();
            core::mem::swap(&mut chunk_files, &mut self.cur_files);
            let ghost full_bytes = self.cur_bytes@;
            let record = ChunkRecord { id, checksum, files: chunk_files };
            let ghost pre_done = self.done@;
            self.done.push(record);
            proof {
                self.fed@ = pre.fed@.push(full_bytes);
            }
            self.cur_bytes = Vec::new();
            self.chunk_idx = self.chunk_idx + 1;
            self.entry_idx = 0;
            proof {
                assert(full_bytes =~= pre@.cur_bytes + data_view);
                assert(c.take(pre.entry_idx + 1 as int) =~= c);
                assert(self.done@.map_values(|r: ChunkRecord| r@) =~= pre_done.map_values(
                    |r: ChunkRecord| r@,
                ).push(self.done@.last()@));
                assert(self.done@.map_values(|r: ChunkRecord| r@).drop_last() =~= pre_done.map_values(
                    |r: ChunkRecord| r@,
                ));
                assert(self.cur_files@.map_values(|e: ManifestFileEntry| e@) =~= Seq::<
                    ManifestFileEntryModel,
                >::empty());
                assert(records_total(self.done@.map_values(|r: ChunkRecord| r@))
                    == records_total(pre_done.map_values(|r: ChunkRecord| r@))
                    + record_files_total(self.done@.last()@.files)) by {
                    let mapped = self.done@.map_values(|r: ChunkRecord| r@);
                    assert(mapped.drop_last() =~= pre_done.map_values(|r: ChunkRecord| r@));
                }
                assert forall|k: int| 0 <= k < self.done@.len() implies (#[trigger] self.done@[k]@.files)
                    == spec_entries_of(file_models(self.files@), chunk_views(self.specs@)[k])
                    && self.done@[k]@.checksum == hex_of(sha256_of(self.fed@[k])) by {
                    assert(file_models(self.files@) == file_models(pre.files@));
                    assert(chunk_views(self.specs@) == chunk_views(pre.specs@));
                    if k < pre_done.len() {
                        assert(self.done@[k] == pre_done[k]);
                        assert(pre.done@[k] == pre_done[k]);
                        assert(pre.done@[k]@.files == spec_entries_of(
                            file_models(pre.files@),
                            chunk_views(pre.specs@)[k],
                        ));
                        assert(pre.done@[k]@.checksum == hex_of(sha256_of(pre.fed@[k])));
                        assert(self.fed@[k] == pre.fed@[k]);
                    } else {
                        assert(self.done@[k] == self.done@.last());
                        assert(self.done@.last()@.files == spec_entries_of(
                            file_models(self.files@),
                            c.take(pre.entry_idx + 1 as int),
                        ));
                        assert(self.fed@[k] == full_bytes);
                    }
                }
                if self.chunk_idx < self.specs@.len() {
                    assert(chunk_views(self.specs@)[self.chunk_idx as int].take(0) =~= Seq::<
                        FileSlice,
                    >::empty());
                    assert(spec_entries_of(
                        file_models(self.files@),
                        chunk_views(self.specs@)[self.chunk_idx as int].take(0),
                    ) =~= Seq::<ManifestFileEntryModel>::empty());
                }
            }
            Ok(())
        }
    }

    /// Assembles the finished manifest: format tag `"2"`, the completed
    /// chunk records in emission order, and the total bytes supplied.
    pub fn finish(self) -> (m: Manifest)
        requires
            self.wf(),
            builder_finished(self@),
        ensures
            m@.version == "2"@,
            m@.chunks == self@.done,
            m@.size as int == records_total(self@.done),
    {
        let m = Manifest {
            version: String::from_str("2"),
            size: self.size_done,
            chunks: self.done,
        };
        proof {
            assert(record_files_total(
                self.cur_files@.map_values(|e: ManifestFileEntry| e@),
            ) == 0);
        }
        m
    }
}

/// The sizes of a listing's mathematical view, in listing order.
pub open spec fn model_sizes(files: Seq<VersionFileModel>) -> Seq<u64> {
    files.map_values(|f: VersionFileModel| f.size)
}

proof fn lemma_chunk_total_take(c: Seq<FileSlice>, j: int)
    requires
        0 <= j <= c.len(),
    ensures
        chunk_total(c.take(j)) <= chunk_total(c),
        j < c.len() ==> chunk_total(c.take(j)) + c[j].length <= chunk_total(c),
    decreases c.len() - j,
{
    if j == c.len() {
        assert(c.take(j) =~= c);
    } else {
        assert(c.take(j + 1).drop_last() =~= c.take(j));
        assert(c.take(j + 1).last() == c[j]);
        lemma_chunk_total_take(c, j + 1);
    }
}

proof fn lemma_total_len_take(chunks: Seq<Seq<FileSlice>>, k: int)
    requires
        0 <= k <= chunks.len(),
    ensures
        total_len(chunks.take(k)) <= total_len(chunks),
        k < chunks.len() ==> total_len(chunks.take(k)) + chunk_total(chunks[k]) <= total_len(
            chunks,
        ),
    decreases chunks.len() - k,
{
    if k == chunks.len() {
        assert(chunks.take(k) =~= chunks);
    } else {
        assert(chunks.take(k + 1).drop_last() =~= chunks.take(k));
        assert(chunks.take(k + 1).last() == chunks[k]);
        lemma_total_len_take(chunks, k + 1);
        lemma_chunk_total_nonneg(chunks[k]);
    }
}

proof fn lemma_record_entries_total(files: Seq<VersionFileModel>, c: Seq<FileSlice>)
    ensures
        record_files_total(spec_entries_of(files, c)) == chunk_total(c),
    decreases c.len(),
{
    if c.len() > 0 {
        let m = spec_entries_of(files, c);
        assert(m.drop_last() =~= spec_entries_of(files, c.drop_last()));
        assert(m.last() == spec_entry_of(files, c.last()));
        lemma_record_entries_total(files, c.drop_last());
    }
}

/// Records whose entries mirror a chunk plan sum to the plan's total length.
proof fn lemma_records_total_matches(
    recs: Seq<ChunkRecordModel>,
    chunks: Seq<Seq<FileSlice>>,
    files: Seq<VersionFileModel>,
)
    requires
        recs.len() == chunks.len(),
        forall|k: int|
            0 <= k < recs.len() ==> (#[trigger] recs[k]).files == spec_entries_of(
                files,
                chunks[k],
            ),
    ensures
        records_total(recs) == total_len(chunks),
    decreases recs.len(),
{
    if recs.len() > 0 {
        assert(recs[recs.len() - 1].files == spec_entries_of(files, chunks[recs.len() - 1]));
        lemma_record_entries_total(files, chunks.last());
        assert forall|k: int| 0 <= k < recs.drop_last().len() implies (#[trigger] recs.drop_last()[k]).files
            == spec_entries_of(files, chunks.drop_last()[k]) by {
            assert(recs.drop_last()[k] == recs[k]);
            assert(chunks.drop_last()[k] == chunks[k]);
        }
        lemma_records_total_matches(recs.drop_last(), chunks.drop_last(), files);
    }
}

/// What reading a whole file of the archive yields: the bounded read from
/// its start with the end sentinel.
pub open spec fn whole_read(idx: ZipIndex, name: Seq<char>) -> Result<Seq<u8>, DropletError> {
    spec_reader_outcome(idx, name, 0, 0)
}

/// The file can be read in full: its whole read succeeds and yields exactly
/// as many bytes as the listing declares.
pub open spec fn file_readable(idx: ZipIndex, f: VersionFileModel) -> bool {
    whole_read(idx, f.name) matches Ok(p) && p.len() == f.size
}

/// The bytes one slice of the plan contributes to its chunk.
pub open spec fn content_of(idx: ZipIndex, files: Seq<VersionFileModel>, e: FileSlice) -> Seq<u8>
    recommends
        (e.file as int) < files.len(),
{
    match whole_read(idx, files[e.file as int].name) {
        Ok(p) => p.subrange(e.start as int, e.start + e.length),
        Err(_) => Seq::empty(),
    }
}

/// The bytes of one whole chunk: its slices' ranges, concatenated in order.
pub open spec fn chunk_content(idx: ZipIndex, files: Seq<VersionFileModel>, c: Seq<FileSlice>) -> Seq<
    u8,
>
    decreases c.len(),
{
    if c.len() == 0 {
        Seq::empty()
    } else {
        chunk_content(idx, files, c.drop_last()) + content_of(idx, files, c.last())
    }
}

/// The manifest a zip archive and a configuration determine, up to the
/// chunk identifiers: the file partitioning follows the packing of the
/// archive's listing, each checksum is the digest of its chunk's bytes, and
/// the size is the total length recorded.
pub open spec fn manifest_matches_zip(
    m: ManifestModel,
    idx: ZipIndex,
    budget: u64,
    wiggle: u64,
) -> bool {
    let files = spec_list(idx.entries);
    let chunks = spec_pack(model_sizes(files), budget, wiggle, true);
    &&& m.version == "2"@
    &&& m.chunks.len() == chunks.len()
    &&& forall|k: int|
        0 <= k < chunks.len() ==> (#[trigger] m.chunks[k]).files == spec_entries_of(
            files,
            chunks[k],
        )
    &&& forall|k: int|
        0 <= k < chunks.len() ==> (#[trigger] m.chunks[k]).checksum == hex_of(
            sha256_of(chunk_content(idx, files, chunks[k])),
        )
    &&& m.size as int == records_total(m.chunks)
    &&& m.size as int == total_len(chunks)
}

/// Builds the manifest of a zip archive: lists its entries, packs them into
/// whole-file chunks under the budget, reads and hashes every chunk, and
/// assembles the records.  On success the manifest is exactly the one the
/// archive and the configuration determine, up to chunk identifiers; and
/// success is owed whenever the budget is valid, every listed file can be
/// read in full, and the total length fits.
pub fn generate_manifest_for_zip(zip: &ZipVersionBackend, budget: u64, wiggle: u64) -> (r: Result<
    Manifest,
    DropletError,
>)
    ensures
        r matches Ok(m) ==> manifest_matches_zip(m@, zip@, budget, wiggle) && (forall|k: int|
            0 <= k < spec_list(zip@.entries).len() ==> file_readable(
                zip@,
                #[trigger] spec_list(zip@.entries)[k],
            )),
        (budget >= 1 && budget as int + wiggle as int <= u64::MAX && (forall|k: int|
            0 <= k < spec_list(zip@.entries).len() ==> file_readable(
                zip@,
                #[trigger] spec_list(zip@.entries)[k],
            )) && total_len(
            spec_pack(model_sizes(spec_list(zip@.entries)), budget, wiggle, true),
        ) <= u64::MAX) ==> r is Ok,
{
    let ghost idx = zip@;
    let ghost fmodels = spec_list(idx.entries);
    let reads = zip.list_files();
    let nfiles = reads.len();
    let ghost sizes = model_sizes(fmodels);
    let listing = zip.list_files();
    proof {
        assert(sizes_of(listing@) =~= sizes);
    }
    let mut b = match ManifestBuilder::new(listing, budget, wiggle, true) {
        Err(err) => {
            return Err(err);
        },
        Ok(b) => b,
    };
    let ghost chunks = spec_pack(sizes, budget, wiggle, true);
    proof {
        assert(chunks.take(0) =~= Seq::<Seq<FileSlice>>::empty());
    }
    loop
        invariant
            b.wf(),
            budget >= 1,
            budget as int + wiggle as int <= u64::MAX,
            nfiles == reads@.len(),
            file_models(reads@) == fmodels,
            idx == zip@,
            fmodels == spec_list(idx.entries),
            sizes == model_sizes(fmodels),
            sizes.len() == nfiles,
            chunks == spec_pack(sizes, budget, wiggle, true),
            b@.files == fmodels,
            b@.chunks == chunks,
            b@.recorded == total_len(chunks.take(b@.done.len() as int)) + chunk_total(
                chunks[b@.done.len() as int].take(b@.cur_entry),
            ),
            forall|k: int|
                0 <= k < b@.done.len() ==> (#[trigger] b@.done[k]).files == spec_entries_of(
                    fmodels,
                    chunks[k],
                ) && b@.done[k].checksum == hex_of(
                    sha256_of(chunk_content(idx, fmodels, chunks[k])),
                ),
            !builder_finished(b@) ==> b@.cur_bytes == chunk_content(
                idx,
                fmodels,
                chunks[b@.done.len() as int].take(b@.cur_entry),
            ),
            forall|k: int, j: int|
                0 <= k < b@.done.len() && 0 <= j < chunks[k].len() ==> file_readable(
                    idx,
                    fmodels[(#[trigger] chunks[k][j]).file as int],
                ),
            forall|j: int|
                !builder_finished(b@) && 0 <= j < b@.cur_entry ==> file_readable(
                    idx,
                    fmodels[(#[trigger] chunks[b@.done.len() as int][j]).file as int],
                ),
        decreases
                chunks.len() - b@.done.len(),
                chunks[b@.done.len() as int].len() - b@.cur_entry,
    {
        let req = match b.next_request() {
            None => {
                let ghost pre = b@;
                let m = b.finish();
                proof {
                    assert(pre.done.len() == chunks.len());
                    assert(m@.chunks == pre.done);
                    lemma_records_total_matches(pre.done, chunks, fmodels);
                    assert forall|k: int| 0 <= k < fmodels.len() implies file_readable(
                        idx,
                        #[trigger] fmodels[k],
                    ) by {
                        lemma_pack_covers(sizes, budget, wiggle, true, k as usize);
                        assert(covers(slices_for(chunks, k as usize), k as usize, sizes[k]));
                        lemma_slices_for_witness(chunks, k as usize);
                        let (kk, jj): (int, int) = choose|kk: int, jj: int|
                            0 <= kk < chunks.len() && 0 <= jj < chunks[kk].len() && (
                            #[trigger] chunks[kk][jj]).file == k as usize;
                        assert(file_readable(idx, fmodels[chunks[kk][jj].file as int]));
                    }
                }
                return Ok(m);
            },
            Some(req) => req,
        };
        let ghost k = b@.done.len() as int;
        let ghost j = b@.cur_entry;
        proof {
            assert(req == chunks[k][j]);
            lemma_pack_whole_file_atomic(sizes, budget, wiggle, k, j);
            assert(req.start == 0);
            assert((req.file as int) < sizes.len());
            assert(req.length == sizes[req.file as int]);
            assert(fmodels[req.file as int].size == sizes[req.file as int]);
            assert(reads@[req.file as int]@ == fmodels[req.file as int]);
        }
        let mut w = match zip.reader(&reads[req.file], 0, 0) {
            Err(err) => {
                proof {
                    assert(whole_read(idx, fmodels[req.file as int].name) == Err::<
                        Seq<u8>,
                        DropletError,
                    >(err));
                    assert(!file_readable(idx, fmodels[req.file as int]));
                }
                return Err(err);
            },
            Ok(w) => w,
        };
        proof {
            assert(whole_read(idx, fmodels[req.file as int].name) == Ok::<Seq<u8>, DropletError>(
                w@,
            ));
        }
        let rem = w.remaining();
        let ghost window = w@;
        let data = w.read(rem);
        proof {
            assert(data@ =~= window);
        }
        if data.len() as u64 != req.length {
            proof {
                assert(!file_readable(idx, fmodels[req.file as int]));
            }
            return Err(DropletError::FormatError);
        }
        let ghost pre = b@;
        let ghost data_view = data@;
        match b.supply(data) {
            Ok(()) => {
                proof {
                    assert(file_readable(idx, fmodels[req.file as int]));
                    assert(content_of(idx, fmodels, req) =~= data_view);
                    let c = chunks[k];
                    assert(c.take(j + 1).drop_last() =~= c.take(j));
                    assert(c.take(j + 1).last() == req);
                    assert(chunk_content(idx, fmodels, c.take(j + 1)) == chunk_content(
                        idx,
                        fmodels,
                        c.take(j),
                    ) + content_of(idx, fmodels, req));
                    lemma_chunk_total_take(c, j);
                    assert(chunk_total(c.take(j + 1)) == chunk_total(c.take(j)) + req.length);
                    if pre.cur_entry + 1 < c.len() {
                        assert(b@.cur_bytes =~= chunk_content(idx, fmodels, c.take(j + 1)));
                    } else {
                        assert(c.take(j + 1) =~= c);
                        assert(b@.done.last().checksum == hex_of(
                            sha256_of(chunk_content(idx, fmodels, c)),
                        ));
                        assert(chunks.take(k + 1).drop_last() =~= chunks.take(k));
                        assert(chunks.take(k + 1).last() == c);
                        assert(total_len(chunks.take(k + 1)) == total_len(chunks.take(k))
                            + chunk_total(c));
                        assert(chunks[b@.done.len() as int].take(0) =~= Seq::<FileSlice>::empty());
                        assert forall|kk: int| 0 <= kk < b@.done.len() implies (
                        #[trigger] b@.done[kk]).files == spec_entries_of(fmodels, chunks[kk])
                            && b@.done[kk].checksum == hex_of(
                            sha256_of(chunk_content(idx, fmodels, chunks[kk])),
                        ) by {
                            if kk < pre.done.len() {
                                assert(b@.done.drop_last()[kk] == b@.done[kk]);
                                assert(b@.done[kk] == pre.done[kk]);
                            } else {
                                assert(b@.done[kk] == b@.done.last());
                            }
                        }
                        assert forall|kk: int, jj: int|
                            0 <= kk < b@.done.len() && 0 <= jj < chunks[kk].len() implies
                            file_readable(idx, fmodels[(#[trigger] chunks[kk][jj]).file as int]) by {
                            if kk < pre.done.len() {
                            } else {
                                assert(kk == k);
                                if jj < pre.cur_entry {
                                } else {
                                    assert(jj == j);
                                    assert(chunks[kk][jj] == req);
                                }
                            }
                        }
                    }
                }
            },
            Err(_) => {
                proof {
                    let c = chunks[k];
                    assert(pre.recorded + req.length > u64::MAX);
                    lemma_chunk_total_take(c, j);
                    lemma_total_len_take(chunks, k);
                    assert(total_len(chunks) >= pre.recorded + req.length);
                }
                return Err(DropletError::RangeError);
            },
        }
    }
}

/// The file entries of one chunk record that bear the given filename, in
/// record order.
pub open spec fn entry_slices(files: Seq<ManifestFileEntryModel>, name: Seq<char>) -> Seq<
    ManifestFileEntryModel,
>
    decreases files.len(),
{
    if files.len() == 0 {
        Seq::empty()
    } else if files.last().filename == name {
        entry_slices(files.drop_last(), name).push(files.last())
    } else {
        entry_slices(files.drop_last(), name)
    }
}

/// Every file entry of the manifest bearing the given filename, in the order
/// the owning chunks appear.
pub open spec fn entries_for(chunks: Seq<ChunkRecordModel>, name: Seq<char>) -> Seq<
    ManifestFileEntryModel,
>
    decreases chunks.len(),
{
    if chunks.len() == 0 {
        Seq::empty()
    } else {
        entries_for(chunks.drop_last(), name) + entry_slices(chunks.last().files, name)
    }
}

/// Replaying a run of manifest file entries against a file's bytes: the
/// concatenation of the referenced ranges, in entry order.
pub open spec fn replay_entries(entries: Seq<ManifestFileEntryModel>, content: Seq<u8>) -> Seq<u8>
    decreases entries.len(),
{
    if entries.len() == 0 {
        Seq::empty()
    } else {
        replay_entries(entries.drop_last(), content) + content.subrange(
            entries.last().start as int,
            entries.last().start + entries.last().length,
        )
    }
}

/// The listing names every file once.
pub open spec fn distinct_names(files: Seq<VersionFileModel>) -> bool {
    forall|g1: int, g2: int|
        0 <= g1 < files.len() && 0 <= g2 < files.len() && (#[trigger] files[g1]).name == (
        #[trigger] files[g2]).name ==> g1 == g2
}

proof fn lemma_entry_slices_chunk(files: Seq<VersionFileModel>, c: Seq<FileSlice>, f: usize)
    requires
        all_slices_wf(c, model_sizes(files)),
        (f as int) < files.len(),
        distinct_names(files),
    ensures
        entry_slices(spec_entries_of(files, c), files[f as int].name) == spec_entries_of(
            files,
            file_slices(c, f),
        ),
    decreases c.len(),
{
    let name = files[f as int].name;
    if c.len() == 0 {
        assert(spec_entries_of(files, c) =~= Seq::<ManifestFileEntryModel>::empty());
        assert(file_slices(c, f) =~= Seq::<FileSlice>::empty());
        assert(spec_entries_of(files, file_slices(c, f)) =~= Seq::<
            ManifestFileEntryModel,
        >::empty());
    } else {
        let mapped = spec_entries_of(files, c);
        assert(mapped.drop_last() =~= spec_entries_of(files, c.drop_last()));
        assert(mapped.last() == spec_entry_of(files, c.last()));
        assert(all_slices_wf(c.drop_last(), model_sizes(files))) by {
            assert forall|k: int| 0 <= k < c.drop_last().len() implies slice_wf(
                #[trigger] c.drop_last()[k],
                model_sizes(files),
            ) by {
                assert(c.drop_last()[k] == c[k]);
            }
        }
        lemma_entry_slices_chunk(files, c.drop_last(), f);
        // the last slice's entry bears the file's name exactly when the
        // slice belongs to the file, since names are distinct
        assert((c.last().file as int) < files.len());
        assert(mapped.last().filename == files[c.last().file as int].name);
        if c.last().file == f {
            assert(mapped.last().filename == name);
            assert(file_slices(c, f) == file_slices(
                c.drop_last(),
                f,
            ).push(c.last()));
            assert(spec_entries_of(files, file_slices(c, f)) =~= spec_entries_of(
                files,
                file_slices(c.drop_last(), f),
            ).push(spec_entry_of(files, c.last())));
        } else {
            assert(mapped.last().filename != name) by {
                if files[c.last().file as int].name == files[f as int].name {
                    assert(c.last().file as int == f as int);
                }
            }
            assert(file_slices(c, f) == file_slices(
                c.drop_last(),
                f,
            ));
        }
    }
}

proof fn lemma_entries_for_matches(
    recs: Seq<ChunkRecordModel>,
    chunks: Seq<Seq<FileSlice>>,
    files: Seq<VersionFileModel>,
    f: usize,
)
    requires
        recs.len() == chunks.len(),
        forall|k: int|
            0 <= k < recs.len() ==> (#[trigger] recs[k]).files == spec_entries_of(
                files,
                chunks[k],
            ),
        forall|k: int|
            0 <= k < chunks.len() ==> all_slices_wf(#[trigger] chunks[k], model_sizes(files)),
        (f as int) < files.len(),
        distinct_names(files),
    ensures
        entries_for(recs, files[f as int].name) == spec_entries_of(
            files,
            slices_for(chunks, f),
        ),
    decreases recs.len(),
{
    let name = files[f as int].name;
    if recs.len() == 0 {
        assert(slices_for(chunks, f) =~= Seq::<FileSlice>::empty());
        assert(spec_entries_of(files, slices_for(chunks, f)) =~= Seq::<
            ManifestFileEntryModel,
        >::empty());
    } else {
        assert forall|k: int| 0 <= k < recs.drop_last().len() implies (#[trigger] recs.drop_last()[k]).files
            == spec_entries_of(files, chunks.drop_last()[k]) by {
            assert(recs.drop_last()[k] == recs[k]);
            assert(chunks.drop_last()[k] == chunks[k]);
        }
        assert forall|k: int| 0 <= k < chunks.drop_last().len() implies all_slices_wf(
            #[trigger] chunks.drop_last()[k],
            model_sizes(files),
        ) by {
            assert(chunks.drop_last()[k] == chunks[k]);
        }
        lemma_entries_for_matches(recs.drop_last(), chunks.drop_last(), files, f);
        assert(recs[recs.len() - 1].files == spec_entries_of(files, chunks[recs.len() - 1]));
        assert(recs.last().files == spec_entries_of(files, chunks.last()));
        lemma_entry_slices_chunk(files, chunks.last(), f);
        assert(spec_entries_of(files, slices_for(chunks.drop_last(), f)) + spec_entries_of(
            files,
            file_slices(chunks.last(), f),
        ) =~= spec_entries_of(
            files,
            slices_for(chunks.drop_last(), f) + file_slices(chunks.last(), f),
        ));
    }
}

proof fn lemma_replay_entries_map(files: Seq<VersionFileModel>, sl: Seq<FileSlice>, content: Seq<
    u8,
>)
    ensures
        replay_entries(spec_entries_of(files, sl), content) == replay_slices(
            sl,
            content,
        ),
    decreases sl.len(),
{
    if sl.len() > 0 {
        let mapped = spec_entries_of(files, sl);
        assert(mapped.drop_last() =~= spec_entries_of(files, sl.drop_last()));
        assert(mapped.last() == spec_entry_of(files, sl.last()));
        lemma_replay_entries_map(files, sl.drop_last(), content);
    }
}

/// Round-trip completeness at the manifest: for any file of a listing with
/// distinct names, replaying the manifest's file entries that bear the
/// file's name, in the order their owning chunks appear, reproduces the
/// file's bytes exactly once, start to end, with no gaps or overlaps.
pub proof fn lemma_manifest_round_trip(
    m: ManifestModel,
    idx: ZipIndex,
    budget: u64,
    wiggle: u64,
    f: usize,
)
    requires
        manifest_matches_zip(m, idx, budget, wiggle),
        budget >= 1,
        budget as int + wiggle as int <= u64::MAX,
        spec_list(idx.entries).len() <= usize::MAX,
        (f as int) < spec_list(idx.entries).len(),
        file_readable(idx, spec_list(idx.entries)[f as int]),
        distinct_names(spec_list(idx.entries)),
    ensures
        ({
            let files = spec_list(idx.entries);
            let content = whole_read(idx, files[f as int].name)->Ok_0;
            replay_entries(entries_for(m.chunks, files[f as int].name), content) == content
        }),
{
    let files = spec_list(idx.entries);
    let sizes = model_sizes(files);
    let chunks = spec_pack(sizes, budget, wiggle, true);
    let content = whole_read(idx, files[f as int].name)->Ok_0;
    lemma_pack_budget(sizes, budget, wiggle, true);
    lemma_entries_for_matches(m.chunks, chunks, files, f);
    lemma_replay_entries_map(files, slices_for(chunks, f), content);
    assert(content.len() == sizes[f as int]);
    lemma_pack_round_trip(sizes, budget, wiggle, true, f, content);
}

/// Determinism of structure: two manifests built from the same archive and
/// configuration agree on the file partitioning of every chunk, on every
/// checksum, and on the total size; only the chunk identifiers may differ
/// between independent runs.
pub proof fn lemma_manifest_deterministic(
    m1: ManifestModel,
    m2: ManifestModel,
    idx: ZipIndex,
    budget: u64,
    wiggle: u64,
)
    requires
        manifest_matches_zip(m1, idx, budget, wiggle),
        manifest_matches_zip(m2, idx, budget, wiggle),
    ensures
        m1.size == m2.size,
        m1.chunks.len() == m2.chunks.len(),
        forall|k: int|
            0 <= k < m1.chunks.len() ==> (#[trigger] m1.chunks[k]).files == m2.chunks[k].files
                && m1.chunks[k].checksum == m2.chunks[k].checksum,
{
    let files = spec_list(idx.entries);
    let chunks = spec_pack(model_sizes(files), budget, wiggle, true);
    assert forall|k: int| 0 <= k < m1.chunks.len() implies (#[trigger] m1.chunks[k]).files
        == m2.chunks[k].files && m1.chunks[k].checksum == m2.chunks[k].checksum by {
        assert(m1.chunks[k].files == spec_entries_of(files, chunks[k]));
        assert(m2.chunks[k].files == spec_entries_of(files, chunks[k]));
    }
    assert(records_total(m1.chunks) == records_total(m2.chunks)) by {
        lemma_records_total_congruent(m1.chunks, m2.chunks);
    }
}

proof fn lemma_records_total_congruent(c1: Seq<ChunkRecordModel>, c2: Seq<ChunkRecordModel>)
    requires
        c1.len() == c2.len(),
        forall|k: int| 0 <= k < c1.len() ==> (#[trigger] c1[k]).files == c2[k].files,
    ensures
        records_total(c1) == records_total(c2),
    decreases c1.len(),
{
    if c1.len() > 0 {
        assert(c1.last().files == c2.last().files);
        lemma_records_total_congruent(c1.drop_last(), c2.drop_last());
    }
}

} // verus!
