//! The chunk packer: groups the files of a listing into fixed-capacity
//! chunks.  Each chunk is an ordered run of `(file, start, length)` slices
//! whose summed length respects the chunk-size budget, except that a file
//! which must be kept whole and exceeds the budget occupies its own chunk.
//!
//! The packing is specified by a pure fold (`state_after`, `spec_pack`) over
//! the file sizes; `pack_files` computes exactly that fold.

use vstd::prelude::*;

use crate::types::VersionFile;

verus! {

/// One slice of a file, destined for a chunk: `length` bytes of the file at
/// index `file` in the listing, starting at byte `start`.
#[derive(Clone, Copy, Debug, PartialEq, Eq, Structural)]
pub struct FileSlice {
    pub file: usize,
    pub start: u64,
    pub length: u64,
}

/// One chunk specification: the ordered slices whose bytes compose the chunk.
#[derive(Clone, Debug)]
pub struct ChunkSpec {
    pub entries: Vec<FileSlice>,
}

/// The packer's running state: the chunks emitted so far, the open chunk,
/// and the open chunk's summed slice length.
pub ghost struct PackState {
    pub chunks: Seq<Seq<FileSlice>>,
    pub cur: Seq<FileSlice>,
    pub total: int,
}

/// The sizes of a listing, in listing order.
pub open spec fn sizes_of(files: Seq<VersionFile>) -> Seq<u64> {
    files.map_values(|f: VersionFile| f.size)
}

/// The mathematical view of a packer result.
pub open spec fn chunk_views(chunks: Seq<ChunkSpec>) -> Seq<Seq<FileSlice>> {
    chunks.map_values(|c: ChunkSpec| c.entries@)
}

/// The summed slice length of a chunk.
pub open spec fn chunk_total(c: Seq<FileSlice>) -> int
    decreases c.len(),
{
    if c.len() == 0 {
        0
    } else {
        chunk_total(c.drop_last()) + c.last().length
    }
}

/// Emits the open chunk if it is non-empty.
pub open spec fn close_chunk(st: PackState) -> PackState {
    if st.cur.len() == 0 {
        st
    } else {
        PackState { chunks: st.chunks.push(st.cur), cur: Seq::empty(), total: 0 }
    }
}

/// The chunks and trailing open slice produced by slicing `rem` bytes of file
/// `f` (starting at offset `off`) into successive full-budget slices: every
/// full slice becomes a one-slice chunk, and the final partial slice seeds
/// the next open chunk.
pub ghost struct SplitResult {
    pub chunks: Seq<Seq<FileSlice>>,
    pub cur: Seq<FileSlice>,
    pub total: int,
}

pub open spec fn split_tail(f: usize, off: u64, rem: u64, b: u64) -> SplitResult
    decreases rem,
{
    if b >= 1 && rem > b {
        let rest = split_tail(f, (off + b) as u64, (rem - b) as u64, b);
        SplitResult {
            chunks: seq![seq![FileSlice { file: f, start: off, length: b }]] + rest.chunks,
            cur: rest.cur,
            total: rest.total,
        }
    } else if rem > 0 {
        SplitResult {
            chunks: Seq::empty(),
            cur: seq![FileSlice { file: f, start: off, length: rem }],
            total: rem as int,
        }
    } else {
        SplitResult { chunks: Seq::empty(), cur: Seq::empty(), total: 0 }
    }
}

/// One packing step in whole-file mode: a file that would push the running
/// total to the budget closes the open chunk and seeds a new one; a file at
/// least as large as the budget is emitted immediately as its own chunk.
pub open spec fn pack_step_whole(st: PackState, f: usize, s: u64, b: u64) -> PackState {
    let st1 = if st.total + s >= b {
        close_chunk(st)
    } else {
        st
    };
    let st2 = PackState {
        chunks: st1.chunks,
        cur: st1.cur.push(FileSlice { file: f, start: 0, length: s }),
        total: st1.total + s,
    };
    if s >= b {
        close_chunk(st2)
    } else {
        st2
    }
}

/// One packing step when partial files are permitted: a file that fits within
/// the budget is taken whole; one that would overflow the budget by no more
/// than the wiggle margin closes the open chunk and seeds a new one whole;
/// one that would overflow by more fills the open chunk to exactly the budget
/// with a leading slice and is then split into full-budget slices.
pub open spec fn pack_step_partial(st: PackState, f: usize, s: u64, b: u64, w: u64) -> PackState {
    if st.total + s <= b {
        PackState {
            chunks: st.chunks,
            cur: st.cur.push(FileSlice { file: f, start: 0, length: s }),
            total: st.total + s,
        }
    } else if st.total + s <= b + w {
        let st1 = close_chunk(st);
        PackState {
            chunks: st1.chunks,
            cur: seq![FileSlice { file: f, start: 0, length: s }],
            total: s as int,
        }
    } else {
        let head: u64 = if st.total < b {
            (b - st.total) as u64
        } else {
            0
        };
        let st1 = if head > 0 {
            PackState {
                chunks: st.chunks,
                cur: st.cur.push(FileSlice { file: f, start: 0, length: head }),
                total: st.total + head,
            }
        } else {
            st
        };
        let st2 = close_chunk(st1);
        let rest = split_tail(f, head, (s - head) as u64, b);
        PackState {
            chunks: st2.chunks + rest.chunks,
            cur: rest.cur,
            total: rest.total,
        }
    }
}

/// One packing step for the file at index `f` of size `s`.
pub open spec fn pack_step(st: PackState, f: usize, s: u64, b: u64, w: u64, whole: bool) -> PackState {
    if whole {
        pack_step_whole(st, f, s, b)
    } else {
        pack_step_partial(st, f, s, b, w)
    }
}

/// The packer's state after the first `i` files of the listing.
pub open spec fn state_after(sizes: Seq<u64>, i: int, b: u64, w: u64, whole: bool) -> PackState
    decreases i,
{
    if i <= 0 {
        PackState { chunks: Seq::empty(), cur: Seq::empty(), total: 0 }
    } else {
        pack_step(state_after(sizes, i - 1, b, w, whole), (i - 1) as usize, sizes[i - 1], b, w, whole)
    }
}

/// The full packing of a listing: every file in order, then the open chunk
/// emitted if non-empty.
pub open spec fn spec_pack(sizes: Seq<u64>, b: u64, w: u64, whole: bool) -> Seq<Seq<FileSlice>> {
    close_chunk(state_after(sizes, sizes.len() as int, b, w, whole)).chunks
}

/// Emits the open chunk if it holds any slice; returns the fresh open chunk.
fn close_current(chunks: &mut Vec<ChunkSpec>, cur: Vec<FileSlice>) -> (r: Vec<FileSlice>)
    ensures
        chunk_views(final(chunks)@) == (if cur@.len() == 0 {
            chunk_views(old(chunks)@)
        } else {
            chunk_views(old(chunks)@).push(cur@)
        }),
        r@ == Seq::<FileSlice>::empty(),
{
    if cur.len() > 0 {
        let ghost pre = chunks@;
        chunks.push(ChunkSpec { entries: cur });
        proof {
            assert(chunk_views(chunks@) =~= chunk_views(pre).push(cur@));
        }
        Vec::new()
    } else {
        cur
    }
}

/// Packs a listing into chunk specifications honoring the budget `b`, with
/// the wiggle margin `w` considered only when partial files are permitted.
/// The result is exactly the packing that `spec_pack` describes on the
/// listing's sizes.
pub fn pack_files(files: &Vec<VersionFile>, budget: u64, wiggle: u64, whole_files: bool) -> (r:
    Vec<ChunkSpec>)
    requires
        budget >= 1,
        budget + wiggle <= u64::MAX,
    ensures
        chunk_views(r@) == spec_pack(sizes_of(files@), budget, wiggle, whole_files),
{
    let ghost sizes = sizes_of(files@);
    let mut chunks: Vec<ChunkSpec> = Vec::new();
    let mut cur: Vec<FileSlice> = Vec::new();
    let mut total: u64 = 0;
    let mut i: usize = 0;
    proof {
        assert(chunk_views(chunks@) =~= state_after(sizes, 0, budget, wiggle, whole_files).chunks);
    }
    while i < files.len()
        invariant
            i <= files.len(),
            sizes == sizes_of(files@),
            sizes.len() == files@.len(),
            budget >= 1,
            budget + wiggle <= u64::MAX,
            chunk_views(chunks@) == state_after(sizes, i as int, budget, wiggle, whole_files).chunks,
            cur@ == state_after(sizes, i as int, budget, wiggle, whole_files).cur,
            total as int == state_after(sizes, i as int, budget, wiggle, whole_files).total,
            whole_files ==> total < budget,
            !whole_files ==> total as int <= budget as int + wiggle as int,
        decreases files.len() - i,
    {
        let ghost st = state_after(sizes, i as int, budget, wiggle, whole_files);
        let s = files[i].size;
        proof {
            assert(sizes[i as int] == s);
            assert(state_after(sizes, i as int + 1, budget, wiggle, whole_files) == pack_step(
                st,
                i,
                s,
                budget,
                wiggle,
                whole_files,
            ));
        }
        if whole_files {
            if s >= budget - total {
                cur = close_current(&mut chunks, cur);
                total = 0;
            }
            cur.push(FileSlice { file: i, start: 0, length: s });
            total = total + s;
            if s >= budget {
                cur = close_current(&mut chunks, cur);
                total = 0;
            }
        } else {
            if total as u128 + s as u128 <= budget as u128 {
                cur.push(FileSlice { file: i, start: 0, length: s });
                total = total + s;
            } else if total as u128 + s as u128 <= budget as u128 + wiggle as u128 {
                cur = close_current(&mut chunks, cur);
                cur.push(FileSlice { file: i, start: 0, length: s });
                total = s;
            } else {
                let head: u64 = if total < budget {
                    budget - total
                } else {
                    0
                };
                if head > 0 {
                    cur.push(FileSlice { file: i, start: 0, length: head });
                    total = total + head;
                }
                cur = close_current(&mut chunks, cur);
                total = 0;
                let ghost st2 = close_chunk(
                    if head > 0 {
                        PackState {
                            chunks: st.chunks,
                            cur: st.cur.push(FileSlice { file: i, start: 0, length: head }),
                            total: st.total + head,
                        }
                    } else {
                        st
                    },
                );
                let ghost target = split_tail(i, head, (s - head) as u64, budget);
                let mut off: u64 = head;
                let mut rem: u64 = s - head;
                proof {
                    assert(st2.chunks + target.chunks =~= chunk_views(chunks@) + split_tail(
                        i,
                        off,
                        rem,
                        budget,
                    ).chunks);
                }
                while rem > budget
                    invariant
                        budget >= 1,
                        off as int + rem as int == s as int,
                        st2.chunks + target.chunks == chunk_views(chunks@) + split_tail(
                            i,
                            off,
                            rem,
                            budget,
                        ).chunks,
                        target.cur == split_tail(i, off, rem, budget).cur,
                        target.total == split_tail(i, off, rem, budget).total,
                        cur@ == Seq::<FileSlice>::empty(),
                        total == 0,
                    decreases rem,
                {
                    let ghost pre = chunks@;
                    let mut one: Vec<FileSlice> = Vec::new();
                    one.push(FileSlice { file: i, start: off, length: budget });
                    chunks.push(ChunkSpec { entries: one });
                    proof {
                        assert(chunk_views(chunks@) =~= chunk_views(pre).push(
                            seq![FileSlice { file: i, start: off, length: budget }],
                        ));
                        assert(split_tail(i, off, rem, budget).chunks =~= seq![
                            seq![FileSlice { file: i, start: off, length: budget }],
                        ] + split_tail(i, (off + budget) as u64, (rem - budget) as u64, budget).chunks);
                        assert(chunk_views(pre).push(
                            seq![FileSlice { file: i, start: off, length: budget }],
                        ) + split_tail(i, (off + budget) as u64, (rem - budget) as u64, budget).chunks
                            =~= chunk_views(pre) + split_tail(i, off, rem, budget).chunks);
                    }
                    off = off + budget;
                    rem = rem - budget;
                }
                if rem > 0 {
                    cur.push(FileSlice { file: i, start: off, length: rem });
                    total = rem;
                }
                proof {
                    assert(chunk_views(chunks@) + split_tail(i, off, rem, budget).chunks
                        =~= chunk_views(chunks@));
                    assert(chunk_views(chunks@) =~= st2.chunks + target.chunks);
                }
            }
        }
        i = i + 1;
    }
    cur = close_current(&mut chunks, cur);
    proof {
        assert(chunk_views(chunks@) == spec_pack(sizes, budget, wiggle, whole_files));
    }
    chunks
}

} // verus!
