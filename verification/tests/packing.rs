use droplet::packer::{pack_files, ChunkSpec, FileSlice};
use droplet::types::VersionFile;

fn listing(sizes: &[u64]) -> Vec<VersionFile> {
    sizes
        .iter()
        .enumerate()
        .map(|(i, s)| VersionFile {
            relative_filename: format!("file{}", i),
            permission: 0o644,
            size: *s,
        })
        .collect()
}

fn shapes(chunks: &[ChunkSpec]) -> Vec<Vec<(usize, u64, u64)>> {
    chunks
        .iter()
        .map(|c| c.entries.iter().map(|e| (e.file, e.start, e.length)).collect())
        .collect()
}

#[test]
fn small_files_share_one_chunk() {
    let files = listing(&[10, 20, 30]);
    let chunks = pack_files(&files, 100, 0, true);
    assert_eq!(
        shapes(&chunks),
        vec![vec![(0, 0, 10), (1, 0, 20), (2, 0, 30)]]
    );
}

#[test]
fn whole_mode_closes_at_budget() {
    let files = listing(&[60, 60]);
    let chunks = pack_files(&files, 100, 0, true);
    assert_eq!(shapes(&chunks), vec![vec![(0, 0, 60)], vec![(1, 0, 60)]]);
}

#[test]
fn oversized_whole_file_sits_alone() {
    let files = listing(&[10, 250, 20]);
    let chunks = pack_files(&files, 100, 0, true);
    assert_eq!(
        shapes(&chunks),
        vec![vec![(0, 0, 10)], vec![(1, 0, 250)], vec![(2, 0, 20)]]
    );
}

#[test]
fn partial_mode_splits_into_full_budget_slices() {
    let files = listing(&[250]);
    let chunks = pack_files(&files, 100, 10, false);
    assert_eq!(
        shapes(&chunks),
        vec![
            vec![(0, 0, 100)],
            vec![(0, 100, 100)],
            vec![(0, 200, 50)]
        ]
    );
}

#[test]
fn split_fills_open_chunk_to_exactly_the_budget() {
    let files = listing(&[95, 10]);
    let chunks = pack_files(&files, 100, 0, false);
    assert_eq!(
        shapes(&chunks),
        vec![vec![(0, 0, 95), (1, 0, 5)], vec![(1, 5, 5)]]
    );
}

#[test]
fn wiggle_margin_avoids_splitting_a_near_fit() {
    let files = listing(&[95, 10]);
    let chunks = pack_files(&files, 100, 10, false);
    assert_eq!(shapes(&chunks), vec![vec![(0, 0, 95)], vec![(1, 0, 10)]]);
}

#[test]
fn empty_file_gets_one_empty_slice() {
    let files = listing(&[0, 5]);
    let chunks = pack_files(&files, 10, 0, true);
    assert_eq!(shapes(&chunks), vec![vec![(0, 0, 0), (1, 0, 5)]]);
}

#[test]
fn empty_listing_packs_to_no_chunks() {
    let files = listing(&[]);
    let chunks = pack_files(&files, 10, 0, true);
    assert!(chunks.is_empty());
}

#[test]
fn budget_holds_for_every_multi_file_chunk() {
    let files = listing(&[40, 40, 40, 130, 7, 90, 3]);
    let budget = 100u64;
    let chunks = pack_files(&files, budget, 0, true);
    for c in &chunks {
        let total: u64 = c.entries.iter().map(|e| e.length).sum();
        if total > budget {
            // only a single required-whole oversized file may exceed it
            assert_eq!(c.entries.len(), 1);
            let e: FileSlice = c.entries[0];
            assert_eq!(e.start, 0);
            assert_eq!(e.length, files[e.file].size);
        }
    }
}

#[test]
fn slices_of_each_file_are_contiguous_and_complete() {
    let files = listing(&[250, 0, 99, 101, 1]);
    let budget = 100u64;
    let chunks = pack_files(&files, budget, 5, false);
    for (i, f) in files.iter().enumerate() {
        let mut next_start = 0u64;
        for c in &chunks {
            for e in &c.entries {
                if e.file == i {
                    assert_eq!(e.start, next_start);
                    next_start += e.length;
                }
            }
        }
        assert_eq!(next_start, f.size);
    }
}
