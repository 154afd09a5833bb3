//! The laws of the packer: every file of the listing is covered exactly once
//! by the emitted slices, in order, with no gaps or overlaps; every chunk
//! respects the budget unless it holds one required-whole oversized file; and
//! in whole-file mode no file is ever split.

use vstd::prelude::*;

use crate::packer::{
    chunk_total, close_chunk, pack_step, spec_pack, split_tail, state_after, FileSlice, PackState,
};

verus! {

/// The slices of one chunk that belong to file `f`, in chunk order.
pub open spec fn file_slices(c: Seq<FileSlice>, f: usize) -> Seq<FileSlice>
    decreases c.len(),
{
    if c.len() == 0 {
        Seq::empty()
    } else if c.last().file == f {
        file_slices(c.drop_last(), f).push(c.last())
    } else {
        file_slices(c.drop_last(), f)
    }
}

/// The slices of a chunk list that belong to file `f`, in the order their
/// owning chunks appear.
pub open spec fn slices_for(chunks: Seq<Seq<FileSlice>>, f: usize) -> Seq<FileSlice>
    decreases chunks.len(),
{
    if chunks.len() == 0 {
        Seq::empty()
    } else {
        slices_for(chunks.drop_last(), f) + file_slices(chunks.last(), f)
    }
}

/// The slices of file `f` still held by the packer state: those in emitted
/// chunks, then those in the open chunk.
pub open spec fn combined(st: PackState, f: usize) -> Seq<FileSlice> {
    slices_for(st.chunks, f) + file_slices(st.cur, f)
}

/// A run of slices of file `f` whose ranges are contiguous and ascending,
/// starting at byte `from` and ending at byte `to`.
pub open spec fn chain_from(sl: Seq<FileSlice>, f: usize, from: int, to: int) -> bool {
    &&& forall|k: int| 0 <= k < sl.len() ==> (#[trigger] sl[k]).file == f
    &&& forall|k: int|
        0 <= k < sl.len() - 1 ==> (#[trigger] sl[k]).start + sl[k].length == sl[k + 1].start
    &&& if sl.len() == 0 {
        from == to
    } else {
        sl[0].start == from && sl.last().start + sl.last().length == to
    }
}

/// The slices `sl` cover file `f` of the given size exactly once, start to
/// end, with no gaps or overlaps.
pub open spec fn covers(sl: Seq<FileSlice>, f: usize, size: u64) -> bool {
    sl.len() >= 1 && chain_from(sl, f, 0, size as int)
}

/// The slice stays within its file.
pub open spec fn slice_wf(e: FileSlice, sizes: Seq<u64>) -> bool {
    (e.file as int) < sizes.len() && e.start + e.length <= sizes[e.file as int]
}

pub open spec fn all_slices_wf(c: Seq<FileSlice>, sizes: Seq<u64>) -> bool {
    forall|k: int| 0 <= k < c.len() ==> slice_wf(#[trigger] c[k], sizes)
}

/// The chunk is a single slice holding one whole file.
pub open spec fn is_single_whole(c: Seq<FileSlice>, sizes: Seq<u64>) -> bool {
    &&& c.len() == 1
    &&& c[0].start == 0
    &&& (c[0].file as int) < sizes.len()
    &&& c[0].length == sizes[c[0].file as int]
}

/// The chunk budget law for one chunk: its summed length is within the
/// budget, or it holds exactly one required-whole file.
pub open spec fn chunk_ok(c: Seq<FileSlice>, sizes: Seq<u64>, b: u64) -> bool {
    chunk_total(c) <= b || is_single_whole(c, sizes)
}

/// Every slice takes its file whole.
pub open spec fn all_whole(c: Seq<FileSlice>, sizes: Seq<u64>) -> bool {
    forall|k: int|
        0 <= k < c.len() ==> (#[trigger] c[k]).start == 0 && (c[k].file as int) < sizes.len()
            && c[k].length == sizes[c[k].file as int]
}

/// The packer's induction invariant after the first `i` files.
pub open spec fn state_inv(st: PackState, sizes: Seq<u64>, i: int, b: u64, w: u64, whole: bool) -> bool {
    &&& 0 <= st.total
    &&& st.total == chunk_total(st.cur)
    &&& (whole ==> st.total < b)
    &&& (!whole ==> st.total <= b + w)
    &&& forall|k: int|
        0 <= k < st.chunks.len() ==> (#[trigger] st.chunks[k]).len() >= 1 && chunk_ok(
            st.chunks[k],
            sizes,
            b,
        ) && all_slices_wf(st.chunks[k], sizes)
    &&& chunk_ok(st.cur, sizes, b)
    &&& all_slices_wf(st.cur, sizes)
    &&& (whole ==> all_whole(st.cur, sizes) && forall|k: int|
        0 <= k < st.chunks.len() ==> all_whole(#[trigger] st.chunks[k], sizes))
    &&& total_len(st.chunks) + st.total == sum_sizes(sizes.take(i))
    &&& forall|f: usize| (f as int) < i ==> covers(#[trigger] combined(st, f), f, sizes[f as int])
    &&& forall|f: usize| i <= f as int ==> (#[trigger] combined(st, f)).len() == 0
}

proof fn lemma_file_slices_singleton(e: FileSlice, f: usize)
    ensures
        file_slices(seq![e], f) == if e.file == f {
            seq![e]
        } else {
            Seq::<FileSlice>::empty()
        },
{
    let s = seq![e];
    assert(file_slices(Seq::<FileSlice>::empty(), f) == Seq::<FileSlice>::empty());
    assert(s.drop_last() =~= Seq::<FileSlice>::empty());
    assert(s.last() == e);
    if e.file == f {
        assert(file_slices(s, f) =~= seq![e]);
    }
}

proof fn lemma_chunk_total_singleton(e: FileSlice)
    ensures
        chunk_total(seq![e]) == e.length,
{
    let s = seq![e];
    assert(chunk_total(Seq::<FileSlice>::empty()) == 0);
    assert(s.drop_last() =~= Seq::<FileSlice>::empty());
    assert(s.last() == e);
}

proof fn lemma_file_slices_push(c: Seq<FileSlice>, e: FileSlice, f: usize)
    ensures
        file_slices(c.push(e), f) == if e.file == f {
            file_slices(c, f).push(e)
        } else {
            file_slices(c, f)
        },
{
    assert(c.push(e).drop_last() =~= c);
    assert(c.push(e).last() == e);
}

proof fn lemma_slices_for_push(chunks: Seq<Seq<FileSlice>>, c: Seq<FileSlice>, f: usize)
    ensures
        slices_for(chunks.push(c), f) == slices_for(chunks, f) + file_slices(c, f),
{
    assert(chunks.push(c).drop_last() =~= chunks);
    assert(chunks.push(c).last() == c);
}

proof fn lemma_slices_for_concat(a: Seq<Seq<FileSlice>>, b: Seq<Seq<FileSlice>>, f: usize)
    ensures
        slices_for(a + b, f) == slices_for(a, f) + slices_for(b, f),
    decreases b.len(),
{
    if b.len() == 0 {
        assert(a + b =~= a);
        assert(slices_for(b, f) == Seq::<FileSlice>::empty());
        assert(slices_for(a, f) + Seq::<FileSlice>::empty() =~= slices_for(a, f));
    } else {
        assert((a + b).drop_last() =~= a + b.drop_last());
        assert((a + b).len() == a.len() + b.len());
        assert((a + b).last() == b.last());
        lemma_slices_for_concat(a, b.drop_last(), f);
        assert(slices_for(a, f) + (slices_for(b.drop_last(), f) + file_slices(b.last(), f))
            =~= (slices_for(a, f) + slices_for(b.drop_last(), f)) + file_slices(b.last(), f));
    }
}

proof fn lemma_chunk_total_push(c: Seq<FileSlice>, e: FileSlice)
    ensures
        chunk_total(c.push(e)) == chunk_total(c) + e.length,
{
    assert(c.push(e).drop_last() =~= c);
    assert(c.push(e).last() == e);
}

/// The summed size of a listing's first files.
pub open spec fn sum_sizes(sizes: Seq<u64>) -> int
    decreases sizes.len(),
{
    if sizes.len() == 0 {
        0
    } else {
        sum_sizes(sizes.drop_last()) + sizes.last()
    }
}

/// The summed slice length over a whole chunk plan.
pub open spec fn total_len(chunks: Seq<Seq<FileSlice>>) -> int
    decreases chunks.len(),
{
    if chunks.len() == 0 {
        0
    } else {
        total_len(chunks.drop_last()) + chunk_total(chunks.last())
    }
}

proof fn lemma_total_len_push(chunks: Seq<Seq<FileSlice>>, c: Seq<FileSlice>)
    ensures
        total_len(chunks.push(c)) == total_len(chunks) + chunk_total(c),
{
    assert(chunks.push(c).drop_last() =~= chunks);
    assert(chunks.push(c).last() == c);
}

proof fn lemma_total_len_concat(a: Seq<Seq<FileSlice>>, b: Seq<Seq<FileSlice>>)
    ensures
        total_len(a + b) == total_len(a) + total_len(b),
    decreases b.len(),
{
    if b.len() == 0 {
        assert(a + b =~= a);
    } else {
        assert((a + b).drop_last() =~= a + b.drop_last());
        assert((a + b).last() == b.last());
        lemma_total_len_concat(a, b.drop_last());
    }
}

proof fn lemma_chunk_total_ge_element(c: Seq<FileSlice>, k: int)
    requires
        0 <= k < c.len(),
    ensures
        chunk_total(c) >= c[k].length,
    decreases c.len(),
{
    if k == c.len() - 1 {
        lemma_chunk_total_nonneg(c.drop_last());
    } else {
        lemma_chunk_total_ge_element(c.drop_last(), k);
        assert(c.drop_last()[k] == c[k]);
    }
}

/// A chunk's summed slice length is never negative.
pub proof fn lemma_chunk_total_nonneg(c: Seq<FileSlice>)
    ensures
        chunk_total(c) >= 0,
    decreases c.len(),
{
    if c.len() > 0 {
        lemma_chunk_total_nonneg(c.drop_last());
    }
}

proof fn lemma_file_slices_witness(c: Seq<FileSlice>, f: usize)
    requires
        file_slices(c, f).len() > 0,
    ensures
        exists|j: int| 0 <= j < c.len() && (#[trigger] c[j]).file == f,
    decreases c.len(),
{
    if c.len() > 0 {
        if c.last().file == f {
            assert(c[c.len() - 1].file == f);
        } else {
            lemma_file_slices_witness(c.drop_last(), f);
            let j = choose|j: int| 0 <= j < c.drop_last().len() && (#[trigger] c.drop_last()[j]).file == f;
            assert(c[j].file == f);
        }
    }
}

/// A file with at least one slice in the packing appears in some chunk.
pub proof fn lemma_slices_for_witness(chunks: Seq<Seq<FileSlice>>, f: usize)
    requires
        slices_for(chunks, f).len() > 0,
    ensures
        exists|k: int, j: int|
            0 <= k < chunks.len() && 0 <= j < chunks[k].len() && (#[trigger] chunks[k][j]).file
                == f,
    decreases chunks.len(),
{
    if chunks.len() > 0 {
        if file_slices(chunks.last(), f).len() > 0 {
            lemma_file_slices_witness(chunks.last(), f);
            let j = choose|j: int|
                0 <= j < chunks.last().len() && (#[trigger] chunks.last()[j]).file == f;
            assert(chunks[chunks.len() - 1][j].file == f);
        } else {
            lemma_slices_for_witness(chunks.drop_last(), f);
            let (k, j): (int, int) = choose|k: int, j: int|
                0 <= k < chunks.drop_last().len() && 0 <= j < chunks.drop_last()[k].len() && (
                #[trigger] chunks.drop_last()[k][j]).file == f;
            assert(chunks[k][j].file == f);
        }
    }
}

proof fn lemma_chain_concat(a: Seq<FileSlice>, b: Seq<FileSlice>, f: usize, x: int, y: int, z: int)
    requires
        chain_from(a, f, x, y),
        chain_from(b, f, y, z),
    ensures
        chain_from(a + b, f, x, z),
{
    let c = a + b;
    assert forall|k: int| 0 <= k < c.len() implies (#[trigger] c[k]).file == f by {
        if k < a.len() {
            assert(c[k] == a[k]);
        } else {
            assert(c[k] == b[k - a.len()]);
        }
    }
    assert forall|k: int| 0 <= k < c.len() - 1 implies (#[trigger] c[k]).start + c[k].length == c[k
        + 1].start by {
        if k < a.len() - 1 {
            assert(c[k] == a[k]);
            assert(c[k + 1] == a[k + 1]);
        } else if k == a.len() - 1 {
            assert(c[k] == a[k]);
            assert(b.len() > 0);
            assert(c[k + 1] == b[0]);
        } else {
            assert(c[k] == b[k - a.len()]);
            assert(c[k + 1] == b[k + 1 - a.len()]);
        }
    }
    if c.len() == 0 {
    } else {
        if a.len() > 0 {
            assert(c[0] == a[0]);
        } else {
            assert(c[0] == b[0]);
        }
        if b.len() > 0 {
            assert(c.last() == b.last());
        } else {
            assert(c.last() == a.last());
        }
    }
}

/// The split of `rem` bytes of file `f` at offset `off`: every emitted chunk
/// is a one-slice full-budget chunk of `f`, the trailing open slice closes
/// the range, and together they chain from `off` to `off + rem`.
proof fn lemma_split_tail(f: usize, off: u64, rem: u64, b: u64, sizes: Seq<u64>)
    requires
        b >= 1,
        off + rem <= u64::MAX,
        (f as int) < sizes.len(),
        off + rem <= sizes[f as int],
    ensures
        ({
            let r = split_tail(f, off, rem, b);
            &&& forall|k: int|
                0 <= k < r.chunks.len() ==> (#[trigger] r.chunks[k]).len() == 1 && chunk_total(
                    r.chunks[k],
                ) <= b && all_slices_wf(r.chunks[k], sizes)
            &&& r.total == chunk_total(r.cur)
            &&& total_len(r.chunks) + r.total == rem
            &&& 0 <= r.total <= b
            &&& all_slices_wf(r.cur, sizes)
            &&& chain_from(slices_for(r.chunks, f) + file_slices(r.cur, f), f, off as int, off + rem)
            &&& forall|g: usize|
                g != f ==> (#[trigger] slices_for(r.chunks, g)).len() == 0 && file_slices(
                    r.cur,
                    g,
                ).len() == 0
        }),
    decreases rem,
{
    let r = split_tail(f, off, rem, b);
    if rem > b {
        let e = FileSlice { file: f, start: off, length: b };
        let rest = split_tail(f, (off + b) as u64, (rem - b) as u64, b);
        lemma_split_tail(f, (off + b) as u64, (rem - b) as u64, b, sizes);
        let one = seq![seq![e]];
        assert(r.chunks == one + rest.chunks);
        lemma_total_len_concat(one, rest.chunks);
        assert(total_len(one) == chunk_total(seq![e])) by {
            assert(one.drop_last() =~= Seq::<Seq<FileSlice>>::empty());
            assert(total_len(Seq::<Seq<FileSlice>>::empty()) == 0);
            assert(one.last() == seq![e]);
        }
        lemma_chunk_total_singleton(e);
        assert forall|k: int| 0 <= k < r.chunks.len() implies (#[trigger] r.chunks[k]).len() == 1
            && chunk_total(r.chunks[k]) <= b && all_slices_wf(r.chunks[k], sizes) by {
            if k == 0 {
                assert(r.chunks[0] == seq![e]);
                lemma_chunk_total_singleton(e);
                assert(slice_wf(e, sizes));
            } else {
                assert(r.chunks[k] == rest.chunks[k - 1]);
            }
        }
        // the one-slice chunk chains from off to off + b, the rest follows
        lemma_slices_for_concat(one, rest.chunks, f);
        assert(slices_for(one, f) == slices_for(one.drop_last(), f) + file_slices(seq![e], f));
        assert(one.drop_last() =~= Seq::<Seq<FileSlice>>::empty());
        assert(slices_for(Seq::<Seq<FileSlice>>::empty(), f) == Seq::<FileSlice>::empty());
        lemma_file_slices_singleton(e, f);
        assert(slices_for(one, f) =~= seq![e]);
        assert(chain_from(seq![e], f, off as int, off + b));
        lemma_chain_concat(
            seq![e],
            slices_for(rest.chunks, f) + file_slices(rest.cur, f),
            f,
            off as int,
            off + b,
            off + rem,
        );
        assert(seq![e] + (slices_for(rest.chunks, f) + file_slices(rest.cur, f)) =~= (slices_for(
            one,
            f,
        ) + slices_for(rest.chunks, f)) + file_slices(rest.cur, f));
        assert forall|g: usize| g != f implies (#[trigger] slices_for(r.chunks, g)).len() == 0
            && file_slices(r.cur, g).len() == 0 by {
            lemma_slices_for_concat(one, rest.chunks, g);
            assert(slices_for(one, g) == slices_for(one.drop_last(), g) + file_slices(seq![e], g));
            assert(one.drop_last() =~= Seq::<Seq<FileSlice>>::empty());
            assert(slices_for(Seq::<Seq<FileSlice>>::empty(), g) == Seq::<FileSlice>::empty());
            lemma_file_slices_singleton(e, g);
        }
    } else if rem > 0 {
        let e = FileSlice { file: f, start: off, length: rem };
        lemma_file_slices_singleton(e, f);
        lemma_chunk_total_singleton(e);
        assert(total_len(r.chunks) == 0);
        assert(slice_wf(e, sizes));
        assert(slices_for(r.chunks, f) =~= Seq::<FileSlice>::empty());
        assert(slices_for(r.chunks, f) + file_slices(r.cur, f) =~= seq![e]);
        assert(chain_from(seq![e], f, off as int, off + rem));
        assert forall|g: usize| g != f implies (#[trigger] slices_for(r.chunks, g)).len() == 0
            && file_slices(r.cur, g).len() == 0 by {
            lemma_file_slices_singleton(e, g);
        }
    } else {
        assert(total_len(r.chunks) == 0);
        assert(slices_for(r.chunks, f) + file_slices(r.cur, f) =~= Seq::<FileSlice>::empty());
    }
}

/// Closing the open chunk moves its length into the emitted chunks.
proof fn lemma_close_total(st: PackState)
    requires
        st.total == chunk_total(st.cur),
    ensures
        total_len(close_chunk(st).chunks) + close_chunk(st).total == total_len(st.chunks)
            + st.total,
{
    if st.cur.len() != 0 {
        lemma_total_len_push(st.chunks, st.cur);
    }
}

/// Closing the open chunk moves its slices into the emitted chunks without
/// reordering or loss.
proof fn lemma_close_combined(st: PackState, f: usize)
    ensures
        combined(close_chunk(st), f) == combined(st, f),
{
    if st.cur.len() != 0 {
        lemma_slices_for_push(st.chunks, st.cur, f);
        assert(file_slices(Seq::<FileSlice>::empty(), f) =~= Seq::<FileSlice>::empty());
        assert((slices_for(st.chunks, f) + file_slices(st.cur, f)) + Seq::<FileSlice>::empty()
            =~= slices_for(st.chunks, f) + file_slices(st.cur, f));
    }
}

/// One packing step preserves the packer invariant, completing coverage of
/// the file it consumes.
proof fn lemma_step_inv(st: PackState, sizes: Seq<u64>, i: int, b: u64, w: u64, whole: bool)
    requires
        state_inv(st, sizes, i, b, w, whole),
        0 <= i < sizes.len(),
        sizes.len() <= usize::MAX,
        b >= 1,
        b + w <= u64::MAX,
    ensures
        state_inv(pack_step(st, i as usize, sizes[i], b, w, whole), sizes, i + 1, b, w, whole),
{
    let f = i as usize;
    let s = sizes[i];
    let e_whole = FileSlice { file: f, start: 0, length: s };
    assert(f as int == i);
    assert(sum_sizes(sizes.take(i + 1)) == sum_sizes(sizes.take(i)) + s) by {
        assert(sizes.take(i + 1).drop_last() =~= sizes.take(i));
        assert(sizes.take(i + 1).last() == sizes[i]);
    }
    assert(combined(st, f).len() == 0);
    assert(slices_for(st.chunks, f).len() == 0);
    assert(file_slices(st.cur, f).len() == 0);
    lemma_chunk_total_nonneg(st.cur);
    if whole {
        let st1 = if st.total + s >= b {
            close_chunk(st)
        } else {
            st
        };
        let st2 = PackState {
            chunks: st1.chunks,
            cur: st1.cur.push(e_whole),
            total: st1.total + s,
        };
        let stf = pack_step(st, f, s, b, w, whole);
        lemma_chunk_total_push(st1.cur, e_whole);
        if st.total + s >= b {
            lemma_close_total(st);
            lemma_close_combined(st, f);
            assert(st1.cur =~= Seq::<FileSlice>::empty());
            assert(st1.cur.push(e_whole) =~= seq![e_whole]);
        }
        assert(total_len(st2.chunks) + st2.total == sum_sizes(sizes.take(i)) + s);
        if s >= b {
            lemma_close_total(st2);
        }
        // invariant parts for st2's open chunk
        assert(chunk_ok(st2.cur, sizes, b)) by {
            if st.total + s >= b {
                assert(st2.cur == seq![e_whole]);
                if s >= b {
                    assert(is_single_whole(st2.cur, sizes));
                } else {
                    assert(chunk_total(st2.cur) == s);
                }
            } else {
                assert(chunk_total(st2.cur) == st.total + s < b);
            }
        }
        // coverage
        assert forall|g: usize| (g as int) < i + 1 implies covers(
            #[trigger] combined(st2, g),
            g,
            sizes[g as int],
        ) by {
            lemma_file_slices_push(st1.cur, e_whole, g);
            if (g as int) < i {
                lemma_close_combined(st, g);
                assert(combined(st2, g) == combined(st1, g));
                assert(combined(st1, g) == combined(st, g));
            } else {
                lemma_close_combined(st, g);
                assert(combined(st1, g).len() == 0);
                assert(slices_for(st1.chunks, g).len() == 0);
                assert(file_slices(st1.cur, g).len() == 0);
                assert(file_slices(st1.cur.push(e_whole), g) =~= seq![e_whole]);
                assert(combined(st2, g) =~= seq![e_whole]);
                assert(chain_from(seq![e_whole], g, 0, s as int));
            }
        }
        assert forall|g: usize| i + 1 <= g as int implies (#[trigger] combined(st2, g)).len()
            == 0 by {
            lemma_close_combined(st, g);
            lemma_file_slices_push(st1.cur, e_whole, g);
            assert(combined(st2, g) =~= combined(st, g));
        }
        assert(all_slices_wf(st2.cur, sizes)) by {
            assert forall|k: int| 0 <= k < st2.cur.len() implies slice_wf(
                #[trigger] st2.cur[k],
                sizes,
            ) by {
                if k < st1.cur.len() {
                    assert(st2.cur[k] == st1.cur[k]);
                } else {
                    assert(st2.cur[k] == e_whole);
                }
            }
        }
        assert(all_whole(st2.cur, sizes)) by {
            assert forall|k: int| 0 <= k < st2.cur.len() implies (#[trigger] st2.cur[k]).start == 0
                && (st2.cur[k].file as int) < sizes.len() && st2.cur[k].length
                == sizes[st2.cur[k].file as int] by {
                if k < st1.cur.len() {
                    assert(st2.cur[k] == st1.cur[k]);
                } else {
                    assert(st2.cur[k] == e_whole);
                }
            }
        }
        if s >= b {
            // the oversized or exactly-budget file is emitted alone at once
            assert(st.total + s >= b);
            assert(st2.cur == seq![e_whole]);
            assert(is_single_whole(st2.cur, sizes));
            assert(stf == close_chunk(st2));
            assert forall|g: usize| (g as int) < i + 1 implies covers(
                #[trigger] combined(stf, g),
                g,
                sizes[g as int],
            ) by {
                lemma_close_combined(st2, g);
            }
            assert forall|g: usize| i + 1 <= g as int implies (#[trigger] combined(stf, g)).len()
                == 0 by {
                lemma_close_combined(st2, g);
            }
        } else {
            assert(stf == st2);
        }
    } else {
        if st.total + s <= b {
            let stf = PackState {
                chunks: st.chunks,
                cur: st.cur.push(e_whole),
                total: st.total + s,
            };
            lemma_chunk_total_push(st.cur, e_whole);
            assert forall|g: usize| (g as int) < i + 1 implies covers(
                #[trigger] combined(stf, g),
                g,
                sizes[g as int],
            ) by {
                lemma_file_slices_push(st.cur, e_whole, g);
                if (g as int) < i {
                    assert(combined(stf, g) == combined(st, g));
                } else {
                    assert(file_slices(st.cur.push(e_whole), g) =~= seq![e_whole]);
                    assert(combined(stf, g) =~= seq![e_whole]);
                    assert(chain_from(seq![e_whole], g, 0, s as int));
                }
            }
            assert forall|g: usize| i + 1 <= g as int implies (#[trigger] combined(stf, g)).len()
                == 0 by {
                lemma_file_slices_push(st.cur, e_whole, g);
                assert(combined(stf, g) =~= combined(st, g));
            }
            assert(all_slices_wf(stf.cur, sizes)) by {
                assert forall|k: int| 0 <= k < stf.cur.len() implies slice_wf(
                    #[trigger] stf.cur[k],
                    sizes,
                ) by {
                    if k < st.cur.len() {
                        assert(stf.cur[k] == st.cur[k]);
                    } else {
                        assert(stf.cur[k] == e_whole);
                    }
                }
            }
        } else if st.total + s <= b + w {
            let st1 = close_chunk(st);
            let stf = PackState { chunks: st1.chunks, cur: seq![e_whole], total: s as int };
            lemma_close_total(st);
            assert(st1.cur =~= Seq::<FileSlice>::empty());
            lemma_chunk_total_singleton(e_whole);
            assert(chunk_ok(stf.cur, sizes, b)) by {
                if s > b {
                    assert(is_single_whole(stf.cur, sizes));
                }
            }
            assert forall|g: usize| (g as int) < i + 1 implies covers(
                #[trigger] combined(stf, g),
                g,
                sizes[g as int],
            ) by {
                lemma_close_combined(st, g);
                lemma_file_slices_singleton(e_whole, g);
                assert(file_slices(Seq::<FileSlice>::empty(), g) == Seq::<FileSlice>::empty());
                if (g as int) < i {
                    assert(combined(stf, g) =~= combined(st1, g));
                } else {
                    assert(slices_for(st1.chunks, g).len() == 0) by {
                        assert(combined(st1, g).len() == 0);
                    }
                    assert(combined(stf, g) =~= seq![e_whole]);
                    assert(chain_from(seq![e_whole], g, 0, s as int));
                }
            }
            assert forall|g: usize| i + 1 <= g as int implies (#[trigger] combined(stf, g)).len()
                == 0 by {
                lemma_close_combined(st, g);
                lemma_file_slices_singleton(e_whole, g);
                assert(file_slices(Seq::<FileSlice>::empty(), g) == Seq::<FileSlice>::empty());
                assert(combined(stf, g) =~= combined(st1, g));
            }
        } else {
            // split: fill the open chunk to the budget, then full-budget
            // slices, the final partial slice seeding the next open chunk
            let head: u64 = if st.total < b {
                (b - st.total) as u64
            } else {
                0
            };
            let e_head = FileSlice { file: f, start: 0, length: head };
            let st1 = if head > 0 {
                PackState {
                    chunks: st.chunks,
                    cur: st.cur.push(e_head),
                    total: st.total + head,
                }
            } else {
                st
            };
            let st2 = close_chunk(st1);
            let rest = split_tail(f, head, (s - head) as u64, b);
            let stf = PackState {
                chunks: st2.chunks + rest.chunks,
                cur: rest.cur,
                total: rest.total,
            };
            assert(s > head);
            lemma_split_tail(f, head, (s - head) as u64, b, sizes);
            lemma_total_len_concat(st2.chunks, rest.chunks);
            if head > 0 {
                lemma_chunk_total_push(st.cur, e_head);
                assert(chunk_total(st1.cur) == b);
                assert(all_slices_wf(st1.cur, sizes)) by {
                    assert forall|k: int| 0 <= k < st1.cur.len() implies slice_wf(
                        #[trigger] st1.cur[k],
                        sizes,
                    ) by {
                        if k < st.cur.len() {
                            assert(st1.cur[k] == st.cur[k]);
                        } else {
                            assert(st1.cur[k] == e_head);
                        }
                    }
                }
            }
            lemma_close_total(st1);
            assert(total_len(stf.chunks) + stf.total == sum_sizes(sizes.take(i)) + s);
            assert forall|k: int| 0 <= k < st2.chunks.len() implies (#[trigger] st2.chunks[k]).len()
                >= 1 && chunk_ok(st2.chunks[k], sizes, b) && all_slices_wf(st2.chunks[k], sizes) by {
                if k < st.chunks.len() {
                    assert(st2.chunks[k] == st.chunks[k]);
                } else {
                    assert(st2.chunks[k] == st1.cur);
                }
            }
            assert forall|k: int| 0 <= k < stf.chunks.len() implies (#[trigger] stf.chunks[k]).len()
                >= 1 && chunk_ok(stf.chunks[k], sizes, b) && all_slices_wf(stf.chunks[k], sizes) by {
                if k < st2.chunks.len() {
                    assert(stf.chunks[k] == st2.chunks[k]);
                } else {
                    assert(stf.chunks[k] == rest.chunks[k - st2.chunks.len()]);
                }
            }
            // coverage: files before i are untouched, file i chains head + tail
            assert forall|g: usize| (g as int) < i + 1 implies covers(
                #[trigger] combined(stf, g),
                g,
                sizes[g as int],
            ) by {
                lemma_slices_for_concat(st2.chunks, rest.chunks, g);
                lemma_close_combined(st1, g);
                if (g as int) < i {
                    if head > 0 {
                        lemma_file_slices_push(st.cur, e_head, g);
                    }
                    assert(combined(st1, g) =~= combined(st, g));
                    assert(slices_for(rest.chunks, g).len() == 0);
                    assert(file_slices(rest.cur, g).len() == 0);
                    assert(combined(stf, g) =~= combined(st2, g));
                    assert(file_slices(st2.cur, g) =~= Seq::<FileSlice>::empty());
                    assert(combined(st2, g) =~= slices_for(st2.chunks, g));
                    assert(slices_for(st2.chunks, g) + Seq::<FileSlice>::empty() =~= slices_for(
                        st2.chunks,
                        g,
                    ));
                    assert(combined(st2, g) =~= combined(st1, g));
                    assert(combined(stf, g) == combined(st, g));
                } else {
                    // g == f
                    let head_part = if head > 0 {
                        seq![e_head]
                    } else {
                        Seq::<FileSlice>::empty()
                    };
                    if head > 0 {
                        lemma_file_slices_push(st.cur, e_head, g);
                        assert(file_slices(st1.cur, g) =~= seq![e_head]);
                    }
                    assert(combined(st1, g) =~= head_part);
                    assert(file_slices(st2.cur, g) =~= Seq::<FileSlice>::empty());
                    assert(slices_for(st2.chunks, g) =~= head_part);
                    assert(combined(stf, g) =~= head_part + (slices_for(rest.chunks, g)
                        + file_slices(rest.cur, g)));
                    assert(chain_from(head_part, g, 0, head as int)) by {
                        if head > 0 {
                            assert(chain_from(seq![e_head], g, 0, head as int));
                        }
                    }
                    lemma_chain_concat(
                        head_part,
                        slices_for(rest.chunks, g) + file_slices(rest.cur, g),
                        g,
                        0,
                        head as int,
                        s as int,
                    );
                    assert(combined(stf, g).len() >= 1) by {
                        assert((slices_for(rest.chunks, g) + file_slices(rest.cur, g)).len() >= 1);
                    }
                }
            }
            assert forall|g: usize| i + 1 <= g as int implies (#[trigger] combined(stf, g)).len()
                == 0 by {
                lemma_slices_for_concat(st2.chunks, rest.chunks, g);
                lemma_close_combined(st1, g);
                if head > 0 {
                    lemma_file_slices_push(st.cur, e_head, g);
                }
                assert(combined(st1, g) =~= combined(st, g));
                assert(file_slices(st2.cur, g) =~= Seq::<FileSlice>::empty());
                assert(combined(st2, g) =~= combined(st1, g));
                assert(combined(stf, g) =~= combined(st2, g) + (slices_for(rest.chunks, g)
                    + file_slices(rest.cur, g)));
            }
        }
    }
}

/// The packer invariant holds after any prefix of the listing.
proof fn lemma_state_after_inv(sizes: Seq<u64>, i: int, b: u64, w: u64, whole: bool)
    requires
        b >= 1,
        b + w <= u64::MAX,
        0 <= i <= sizes.len(),
        sizes.len() <= usize::MAX,
    ensures
        state_inv(state_after(sizes, i, b, w, whole), sizes, i, b, w, whole),
    decreases i,
{
    if i <= 0 {
        let st = state_after(sizes, 0, b, w, whole);
        assert(st.cur =~= Seq::<FileSlice>::empty());
        assert(total_len(st.chunks) == 0);
        assert(sizes.take(0) =~= Seq::<u64>::empty());
        assert(sum_sizes(Seq::<u64>::empty()) == 0);
        assert forall|f: usize| 0 <= f as int implies (#[trigger] combined(st, f)).len() == 0 by {
            assert(slices_for(st.chunks, f) =~= Seq::<FileSlice>::empty());
            assert(file_slices(st.cur, f) =~= Seq::<FileSlice>::empty());
        }
    } else {
        lemma_state_after_inv(sizes, i - 1, b, w, whole);
        lemma_step_inv(state_after(sizes, i - 1, b, w, whole), sizes, i - 1, b, w, whole);
    }
}

/// The invariant carried to the final, fully-closed packing.
proof fn lemma_pack_inv(sizes: Seq<u64>, b: u64, w: u64, whole: bool)
    requires
        b >= 1,
        b + w <= u64::MAX,
        sizes.len() <= usize::MAX,
    ensures
        ({
            let chunks = spec_pack(sizes, b, w, whole);
            &&& forall|k: int|
                0 <= k < chunks.len() ==> (#[trigger] chunks[k]).len() >= 1 && chunk_ok(
                    chunks[k],
                    sizes,
                    b,
                ) && all_slices_wf(chunks[k], sizes)
            &&& (whole ==> forall|k: int|
                0 <= k < chunks.len() ==> all_whole(#[trigger] chunks[k], sizes))
            &&& forall|f: usize|
                (f as int) < sizes.len() ==> covers(
                    #[trigger] slices_for(chunks, f),
                    f,
                    sizes[f as int],
                )
            &&& total_len(chunks) == sum_sizes(sizes)
        }),
{
    let n = sizes.len() as int;
    lemma_state_after_inv(sizes, n, b, w, whole);
    let st = state_after(sizes, n, b, w, whole);
    let stc = close_chunk(st);
    let chunks = spec_pack(sizes, b, w, whole);
    assert(chunks == stc.chunks);
    lemma_close_total(st);
    assert(sizes.take(n) =~= sizes);
    assert(stc.total == 0) by {
        if st.cur.len() == 0 {
            assert(chunk_total(st.cur) == 0);
        }
    }
    assert(total_len(chunks) == sum_sizes(sizes));
    assert forall|k: int| 0 <= k < chunks.len() implies (#[trigger] chunks[k]).len() >= 1
        && chunk_ok(chunks[k], sizes, b) && all_slices_wf(chunks[k], sizes) by {
        if st.cur.len() != 0 && k == st.chunks.len() {
            assert(chunks[k] == st.cur);
        } else {
            assert(chunks[k] == st.chunks[k]);
        }
    }
    if whole {
        assert forall|k: int| 0 <= k < chunks.len() implies all_whole(
            #[trigger] chunks[k],
            sizes,
        ) by {
            if st.cur.len() != 0 && k == st.chunks.len() {
                assert(chunks[k] == st.cur);
            } else {
                assert(chunks[k] == st.chunks[k]);
            }
        }
    }
    assert forall|f: usize| (f as int) < sizes.len() implies covers(
        #[trigger] slices_for(chunks, f),
        f,
        sizes[f as int],
    ) by {
        lemma_close_combined(st, f);
        assert(combined(stc, f) == combined(st, f));
        assert(file_slices(stc.cur, f) =~= Seq::<FileSlice>::empty());
        assert(slices_for(stc.chunks, f) + Seq::<FileSlice>::empty() =~= slices_for(
            stc.chunks,
            f,
        ));
        assert(slices_for(chunks, f) == combined(stc, f));
    }
}

/// Round-trip completeness: the slices of any file of the listing, taken in
/// the order their owning chunks were emitted, cover the file exactly once,
/// start to end, with no gaps or overlaps.
pub proof fn lemma_pack_covers(sizes: Seq<u64>, b: u64, w: u64, whole: bool, f: usize)
    requires
        b >= 1,
        b + w <= u64::MAX,
        sizes.len() <= usize::MAX,
        (f as int) < sizes.len(),
    ensures
        covers(slices_for(spec_pack(sizes, b, w, whole), f), f, sizes[f as int]),
{
    lemma_pack_inv(sizes, b, w, whole);
}

/// Chunk budget: every emitted chunk is non-empty and its summed slice
/// length is within the budget, except exactly a chunk holding one
/// required-whole file; and every slice stays within its file.
pub proof fn lemma_pack_budget(sizes: Seq<u64>, b: u64, w: u64, whole: bool)
    requires
        b >= 1,
        b + w <= u64::MAX,
        sizes.len() <= usize::MAX,
    ensures
        forall|k: int|
            0 <= k < spec_pack(sizes, b, w, whole).len() ==> (#[trigger] spec_pack(
                sizes,
                b,
                w,
                whole,
            )[k]).len() >= 1 && chunk_ok(spec_pack(sizes, b, w, whole)[k], sizes, b)
                && all_slices_wf(spec_pack(sizes, b, w, whole)[k], sizes),
{
    lemma_pack_inv(sizes, b, w, whole);
}

/// Whole-file atomicity: in whole-file mode no file is ever split, and a
/// file whose size exceeds the budget occupies a chunk of its own.
pub proof fn lemma_pack_whole_file_atomic(
    sizes: Seq<u64>,
    b: u64,
    w: u64,
    k: int,
    j: int,
)
    requires
        b >= 1,
        b + w <= u64::MAX,
        sizes.len() <= usize::MAX,
        0 <= k < spec_pack(sizes, b, w, true).len(),
        0 <= j < spec_pack(sizes, b, w, true)[k].len(),
    ensures
        ({
            let e = spec_pack(sizes, b, w, true)[k][j];
            &&& e.start == 0
            &&& (e.file as int) < sizes.len()
            &&& e.length == sizes[e.file as int]
            &&& sizes[e.file as int] > b ==> spec_pack(sizes, b, w, true)[k] == seq![e]
        }),
{
    lemma_pack_inv(sizes, b, w, true);
    let chunks = spec_pack(sizes, b, w, true);
    let c = chunks[k];
    let e = c[j];
    assert(all_whole(c, sizes));
    assert(e.start == 0 && (e.file as int) < sizes.len() && e.length == sizes[e.file as int]);
    if sizes[e.file as int] > b {
        lemma_chunk_total_ge_element(c, j);
        assert(chunk_total(c) > b);
        assert(chunk_ok(c, sizes, b));
        assert(is_single_whole(c, sizes));
        assert(c =~= seq![e]);
    }
}

/// Size preservation: the summed slice length over all emitted chunks is
/// exactly the summed size of the listing; the packing neither drops nor
/// duplicates a byte.
pub proof fn lemma_pack_total(sizes: Seq<u64>, b: u64, w: u64, whole: bool)
    requires
        b >= 1,
        b + w <= u64::MAX,
        sizes.len() <= usize::MAX,
    ensures
        total_len(spec_pack(sizes, b, w, whole)) == sum_sizes(sizes),
{
    lemma_pack_inv(sizes, b, w, whole);
}

/// Replaying a run of slices against a file's content: the concatenation of
/// the referenced byte ranges, in slice order.
pub open spec fn replay_slices(sl: Seq<FileSlice>, content: Seq<u8>) -> Seq<u8>
    decreases sl.len(),
{
    if sl.len() == 0 {
        Seq::empty()
    } else {
        replay_slices(sl.drop_last(), content) + content.subrange(
            sl.last().start as int,
            sl.last().start + sl.last().length,
        )
    }
}

/// Replaying every slice of file `f`, in the order the owning chunks appear.
pub open spec fn replay_file(chunks: Seq<Seq<FileSlice>>, f: usize, content: Seq<u8>) -> Seq<u8> {
    replay_slices(slices_for(chunks, f), content)
}

proof fn lemma_chain_bounds(sl: Seq<FileSlice>, f: usize, from: int, to: int)
    requires
        chain_from(sl, f, from, to),
    ensures
        from <= to,
        sl.len() > 0 ==> from <= sl.last().start,
    decreases sl.len(),
{
    if sl.len() > 0 {
        let last = sl.last();
        let pre = sl.drop_last();
        assert(chain_from(pre, f, from, last.start as int)) by {
            if pre.len() > 0 {
                assert(pre[0] == sl[0]);
                assert(pre.last() == sl[sl.len() - 2]);
                assert(sl[sl.len() - 2].start + sl[sl.len() - 2].length == last.start);
            } else {
                assert(sl[0] == last);
            }
        }
        lemma_chain_bounds(pre, f, from, last.start as int);
    }
}

proof fn lemma_chain_replay(sl: Seq<FileSlice>, f: usize, content: Seq<u8>, from: int, to: int)
    requires
        chain_from(sl, f, from, to),
        0 <= from <= to <= content.len(),
    ensures
        replay_slices(sl, content) == content.subrange(from, to),
    decreases sl.len(),
{
    if sl.len() == 0 {
        assert(replay_slices(sl, content) =~= content.subrange(from, to));
    } else {
        let last = sl.last();
        let pre = sl.drop_last();
        assert(chain_from(pre, f, from, last.start as int)) by {
            if pre.len() > 0 {
                assert(pre[0] == sl[0]);
                assert(pre.last() == sl[sl.len() - 2]);
                assert(sl[sl.len() - 2].start + sl[sl.len() - 2].length == last.start);
            } else {
                assert(sl[0] == last);
            }
        }
        assert(last.start + last.length == to);
        lemma_chain_bounds(pre, f, from, last.start as int);
        lemma_chain_replay(pre, f, content, from, last.start as int);
        assert(content.subrange(from, last.start as int) + content.subrange(last.start as int, to)
            =~= content.subrange(from, to));
    }
}

/// Round-trip completeness over content: concatenating the byte ranges that
/// the packing assigns to file `f`, in order, reproduces the file's bytes
/// exactly.
pub proof fn lemma_pack_round_trip(
    sizes: Seq<u64>,
    b: u64,
    w: u64,
    whole: bool,
    f: usize,
    content: Seq<u8>,
)
    requires
        b >= 1,
        b + w <= u64::MAX,
        sizes.len() <= usize::MAX,
        (f as int) < sizes.len(),
        content.len() == sizes[f as int],
    ensures
        replay_file(spec_pack(sizes, b, w, whole), f, content) == content,
{
    lemma_pack_covers(sizes, b, w, whole, f);
    let sl = slices_for(spec_pack(sizes, b, w, whole), f);
    lemma_chain_replay(sl, f, content, 0, sizes[f as int] as int);
    assert(content.subrange(0, content.len() as int) =~= content);
}

} // verus!
