use rva_core::diff_engine::{chunked_hash, sliding_window, ChangeType, DefaultDiffEngine, DiffEngine, DiffEntry, DiffStrategy};
use rva_core::hashing::xxh;
use rva_core::file_loader::DefaultFileLoader;

fn lcg(seed: u64) -> impl FnMut() -> u8 {
    let mut seed = seed;
    move || {
        seed = seed.wrapping_mul(6364136223846793005).wrapping_add(1442695040888963407);
        (seed >> 33) as u8
    }
}

fn of_kind(d: &[DiffEntry], c: ChangeType) -> Vec<&DiffEntry> {
    d.iter().filter(|e| e.change == c).collect()
}

fn total(d: &[DiffEntry], c: ChangeType) -> u64 {
    d.iter().filter(|e| e.change == c).map(|e| e.length).sum()
}

#[test]
fn chunked_same_is_empty() {
    let a = vec![1u8, 2, 3, 4, 5, 6, 7, 8];
    assert!(chunked_hash(&a, &a, 4).is_empty());
}

#[test]
fn chunked_modify_one_chunk() {
    let a = vec![0u8; 16];
    let mut b = a.clone();
    b[5] = 9;
    let d = chunked_hash(&a, &b, 4);
    assert_eq!(d.len(), 1);
    assert_eq!(d[0].change, ChangeType::Modified);
    assert_eq!(d[0].old, Some(4..8));
    assert_eq!(d[0].new, Some(4..8));
}

#[test]
fn chunked_insert_tail() {
    let a = vec![0u8; 8];
    let mut b = a.clone();
    b.extend_from_slice(&[1, 2, 3]);
    let d = chunked_hash(&a, &b, 4);
    let added = of_kind(&d, ChangeType::Added);
    assert_eq!(added.len(), 1);
    assert_eq!(added[0].new, Some(8..11));
}

#[test]
fn chunked_insert_middle_is_added_not_modified() {
    let a: Vec<u8> = (0..32u8).collect();
    let mut b: Vec<u8> = a[..8].to_vec();
    b.extend_from_slice(&[200, 201, 202, 203]);
    b.extend_from_slice(&a[8..]);
    let d = chunked_hash(&a, &b, 4);
    let modified = of_kind(&d, ChangeType::Modified);
    let added = of_kind(&d, ChangeType::Added);
    assert!(modified.is_empty(), "insertion must not produce in-place modified: {d:?}");
    assert_eq!(added.len(), 1, "must be exactly one added segment: {d:?}");
    assert_eq!(added[0].new, Some(8..12));
}

#[test]
fn chunked_delete_middle_is_removed() {
    let a: Vec<u8> = (0..32u8).collect();
    let mut b: Vec<u8> = a[..8].to_vec();
    b.extend_from_slice(&a[12..]);
    let d = chunked_hash(&a, &b, 4);
    let modified = of_kind(&d, ChangeType::Modified);
    let removed = of_kind(&d, ChangeType::Removed);
    assert!(modified.is_empty(), "deletion must not produce in-place modified: {d:?}");
    assert_eq!(removed.len(), 1, "must be exactly one removed segment: {d:?}");
    assert_eq!(removed[0].old, Some(8..12));
}

#[test]
fn chunked_non_aligned_insert_reanchors() {
    let mut next = lcg(0x1234_5678);
    let a: Vec<u8> = (0..90_000).map(|_| next()).collect();
    let mut b: Vec<u8> = a[..45_312].to_vec();
    b.extend_from_slice(&[0xA5; 100]);
    b.extend_from_slice(&a[45_312..]);
    let d = chunked_hash(&a, &b, 4096);
    let added = of_kind(&d, ChangeType::Added);
    let modified = of_kind(&d, ChangeType::Modified);
    assert_eq!(added.len(), 1, "must be exactly one added segment: {d:?}");
    assert_eq!(added[0].new, Some(45_312..45_412), "wrong insertion range: {d:?}");
    assert!(modified.is_empty(), "non-aligned insertion must not produce in-place modified: {d:?}");
}

#[test]
fn chunked_non_aligned_delete_reanchors() {
    let mut next = lcg(0x89AB_CDEF);
    let a: Vec<u8> = (0..90_000).map(|_| next()).collect();
    let mut b: Vec<u8> = a[..45_312].to_vec();
    b.extend_from_slice(&a[45_412..]);
    let d = chunked_hash(&a, &b, 4096);
    let removed = of_kind(&d, ChangeType::Removed);
    let modified = of_kind(&d, ChangeType::Modified);
    assert_eq!(removed.len(), 1, "must be exactly one removed segment: {d:?}");
    assert_eq!(removed[0].old, Some(45_312..45_412), "wrong deletion range: {d:?}");
    assert!(modified.is_empty(), "non-aligned deletion must not produce in-place modified: {d:?}");
}

#[test]
fn chunked_large_tail_after_non_aligned_insert_reanchors() {
    let mut next = lcg(0xCAFE_BABE);
    let tail = 66 << 20;
    let a: Vec<u8> = (0..(1 << 20) + tail).map(|_| next()).collect();
    let mut b: Vec<u8> = a[..45_312].to_vec();
    b.extend_from_slice(&[0x5A; 100]);
    b.extend_from_slice(&a[45_312..]);
    let d = chunked_hash(&a, &b, 4096);
    let added = of_kind(&d, ChangeType::Added);
    let modified = of_kind(&d, ChangeType::Modified);
    assert_eq!(added.len(), 1, "must be exactly one added segment: {d:?}");
    assert_eq!(added[0].new, Some(45_312..45_412), "wrong insertion range: {d:?}");
    assert!(modified.is_empty(), "large-tail non-aligned insertion must not produce in-place modified: {d:?}");
}

#[test]
fn chunked_single_byte_change_with_dupes_stays_modified() {
    let a = vec![0u8; 16];
    let mut b = a.clone();
    b[5] = 9;
    let d = chunked_hash(&a, &b, 4);
    assert_eq!(d.len(), 1);
    assert_eq!(d[0].change, ChangeType::Modified);
    assert_eq!(d[0].old, Some(4..8));
    assert_eq!(d[0].new, Some(4..8));
}

#[test]
fn sliding_finds_shifted_block() {
    let base: Vec<u8> = (0..64).collect();
    let mut b = base.clone();
    b.splice(0..0, vec![200, 201, 202, 203]);
    let d = sliding_window(&base, &b, 8, 8);
    assert_eq!(total(&d, ChangeType::Added), 4);
    assert_eq!(total(&d, ChangeType::Removed), 0);
}

#[test]
fn sliding_modification() {
    let a: Vec<u8> = (0..100).collect();
    let mut b = a.clone();
    b[40] = 255;
    let d = sliding_window(&a, &b, 8, 8);
    assert!(!d.is_empty());
}

#[test]
fn chunked_truncation_no_false_modified() {
    let a = vec![0u8; 10];
    let b = vec![0u8; 7];
    let d = chunked_hash(&a, &b, 4);
    assert!(d.iter().all(|e| e.change != ChangeType::Modified), "truncation must not be reported as Modified");
    assert_eq!(total(&d, ChangeType::Removed), 3);
}

#[test]
fn sliding_all_zero_does_not_panic() {
    let a: Vec<u8> = vec![0u8; 4096];
    let mut b = a.clone();
    b[2048] = 1;
    let d = sliding_window(&a, &b, 16, 16);
    assert!(!d.is_empty());
}

#[test]
fn sliding_reanchors_on_shifted_large_content() {
    let mut next = lcg(0x2468_ACEF);
    let a: Vec<u8> = (0..(1 << 20)).map(|_| next()).collect();
    let at = 500_000;
    let mut b: Vec<u8> = a[..at].to_vec();
    b.extend_from_slice(&[0x3C; 50]);
    b.extend_from_slice(&a[at..]);
    let d = sliding_window(&a, &b, 64, 32);
    let removed = total(&d, ChangeType::Removed);
    let added = total(&d, ChangeType::Added);
    assert!(removed + added < (1 << 20), "shifted content must not be judged as diff across the whole window: removed={removed}, added={added}");
    assert!(added >= 50 && added < (1 << 16), "insertion should be reported as added: added={added}");
}

#[test]
fn sliding_disjoint_data_is_fast() {
    let mut next = lcg(0x1234_5678);
    let a: Vec<u8> = (0..(1 << 20)).map(|_| next()).collect();
    let b: Vec<u8> = (0..(1 << 20)).map(|_| next()).collect();
    let t0 = std::time::Instant::now();
    let d = sliding_window(&a, &b, 64, 32);
    let elapsed = t0.elapsed();
    let _ = d;
    assert!(elapsed.as_secs() < 10, "disjoint data degraded: {elapsed:?}");
}

#[test]
fn chunked_no_cascade_on_shifted_large_file() {
    let mut next = lcg(0x1357_9BDF);
    let a: Vec<u8> = (0..(5 << 20)).map(|_| next()).collect();
    let at = 2_000_000;
    let mut b: Vec<u8> = a[..at].to_vec();
    b.extend_from_slice(&[0x5A; 100]);
    b.extend_from_slice(&a[at..]);
    let d = chunked_hash(&a, &b, 4096);
    let added = total(&d, ChangeType::Added);
    let removed = total(&d, ChangeType::Removed);
    let t = added + removed;
    assert!(t < (1 << 20), "must not avalanche to EOF: total_change={t}, a.len={}", a.len());
    assert!(added >= 100 && added < (1 << 20), "inserted region should be reported as added: added={added}");
}

/// Reference: a full xxh per position for indexing and scanning.
fn xxh_sliding(a: &[u8], b: &[u8], window: usize, min_match: usize) -> Vec<DiffEntry> {
    let min_len = a.len().min(b.len()).max(1);
    let w = window.max(1).min(min_len);
    let min_m = min_match.min(w).min(min_len).max(1);
    let mut index: Vec<(u64, u32)> = Vec::with_capacity(a.len().saturating_sub(w) + 1);
    if a.len() >= w {
        for i in 0..=a.len() - w {
            index.push((xxh(&a[i..i + w]), i as u32));
        }
    }
    index.sort_unstable();
    let mut matches: Vec<(usize, usize, usize)> = Vec::new();
    let mut i = 0;
    while i + w <= b.len() {
        let h = xxh(&b[i..i + w]);
        let lo = index.partition_point(|e| e.0 < h);
        let hi = index.partition_point(|e| e.0 <= h);
        if lo < hi {
            let mut best: Option<(usize, usize)> = None;
            for k in lo..hi.min(lo + 128) {
                let op = index[k].1 as usize;
                let mut len = w;
                while i + len < b.len() && op + len < a.len() && b[i + len] == a[op + len] {
                    len += 1;
                }
                if len >= min_m && best.map_or(true, |(_, bl)| len > bl) {
                    best = Some((op, len));
                }
            }
            if let Some((op, len)) = best {
                let mut op = op;
                let mut np = i;
                let mut len = len;
                while op > 0 && np > 0 && a[op - 1] == b[np - 1] {
                    op -= 1;
                    np -= 1;
                    len += 1;
                }
                matches.push((op, np, len));
                i = np + len;
                continue;
            }
        }
        i += 1;
    }
    // Greedily select non-overlapping matches (same logic as the main implementation)
    matches.sort_by_key(|m| m.1 + m.2);
    let mut selected: Vec<(usize, usize, usize)> = Vec::new();
    let mut last_o = 0usize;
    let mut last_n = 0usize;
    for m in matches {
        if m.1 >= last_n && m.0 >= last_o {
            selected.push(m);
            last_n = m.1 + m.2;
            last_o = m.0 + m.2;
        }
    }
    let mut out = Vec::new();
    let mut o_cur = 0usize;
    let mut n_cur = 0usize;
    for (op, np, len) in selected {
        if o_cur < op {
            out.push(DiffEntry {
                offset: o_cur as u64,
                length: (op - o_cur) as u64,
                change: ChangeType::Removed,
                old: Some(o_cur as u64..op as u64),
                new: None,
            });
        }
        if n_cur < np {
            out.push(DiffEntry {
                offset: n_cur as u64,
                length: (np - n_cur) as u64,
                change: ChangeType::Added,
                old: Some(op as u64..op as u64),
                new: Some(n_cur as u64..np as u64),
            });
        }
        o_cur = op + len;
        n_cur = np + len;
    }
    if o_cur < a.len() {
        out.push(DiffEntry {
            offset: o_cur as u64,
            length: (a.len() - o_cur) as u64,
            change: ChangeType::Removed,
            old: Some(o_cur as u64..a.len() as u64),
            new: None,
        });
    }
    if n_cur < b.len() {
        out.push(DiffEntry {
            offset: n_cur as u64,
            length: (b.len() - n_cur) as u64,
            change: ChangeType::Added,
            old: Some(a.len() as u64..a.len() as u64),
            new: Some(n_cur as u64..b.len() as u64),
        });
    }
    out
}

#[test]
fn sliding_rolling_hash_equivalent_to_xxh() {
    let mut seed = 0xDEAD_BEEFu64;
    let mut next = move || {
        seed = seed.wrapping_mul(6364136223846793005).wrapping_add(1442695040888963407);
        (seed >> 33) as u8
    };
    // Build mixed data containing shifts/modifications/insertions/highly repetitive segments
    let a: Vec<u8> = (0..(1 << 16)).map(|_| next()).collect();
    let mut b: Vec<u8> = a[..40_000].to_vec();
    b.extend_from_slice(&[0xAA; 200]); // insert a highly repetitive segment
    b.extend_from_slice(&a[40_000..60_000]); // identical segment
    b.extend_from_slice(&[0x11; 4096]); // highly repetitive segment (candidate-cap path)
    b.extend_from_slice(&a[60_000..]); // identical segment
    let new = sliding_window(&a, &b, 64, 32);
    let old = xxh_sliding(&a, &b, 64, 32);
    assert_eq!(new.len(), old.len(), "entry count mismatch");
    for (n, o) in new.iter().zip(old.iter()) {
        assert_eq!(n.offset, o.offset, "offset mismatch");
        assert_eq!(n.length, o.length, "length mismatch");
        assert_eq!(n.change, o.change, "change mismatch");
        assert_eq!(n.old, o.old, "old mismatch");
        assert_eq!(n.new, o.new, "new mismatch");
    }
}

// Further tests.

#[test]
fn identical_inputs_give_no_entries_for_every_byte_strategy() {
    let a: Vec<u8> = (0..200u8).collect();
    assert!(chunked_hash(&a, &a, 16).is_empty());
    assert!(sliding_window(&a, &a, 8, 8).is_empty());
}

#[test]
fn engine_dispatches_on_strategy() {
    let fa = DefaultFileLoader::load_from_bytes("a.bin".to_string(), vec![0u8; 16]).unwrap();
    let fb = DefaultFileLoader::load_from_bytes("b.bin".to_string(), {
        let mut v = vec![0u8; 16];
        v[5] = 9;
        v
    })
    .unwrap();
    let d = DefaultDiffEngine.diff(&fa, &fb, DiffStrategy::ChunkedHash { chunk_size: 4 }).unwrap();
    assert_eq!(d.len(), 1);
    assert_eq!(d[0].change, ChangeType::Modified);
    // Structural matching needs x86 code on both sides; raw files have no architecture.
    assert!(DefaultDiffEngine.diff(&fa, &fb, DiffStrategy::StructureMatch { min_run: 4 }).is_err());
}

#[test]
fn entries_lie_inside_files() {
    let mut next = lcg(7);
    let a: Vec<u8> = (0..5000).map(|_| next()).collect();
    let mut b = a.clone();
    b.truncate(3000);
    b.extend((0..777).map(|_| next()));
    for d in [chunked_hash(&a, &b, 256), sliding_window(&a, &b, 16, 16)] {
        for e in &d {
            if let Some(r) = &e.old {
                assert!(r.start <= r.end && r.end <= a.len() as u64);
            }
            if let Some(r) = &e.new {
                assert!(r.start < r.end && r.end <= b.len() as u64);
            }
        }
    }
}

#[test]
fn sliding_empty_old_side_is_one_added() {
    let d = sliding_window(&[], &[1, 2, 3], 64, 32);
    assert_eq!(d.len(), 1);
    assert_eq!(d[0].change, ChangeType::Added);
    assert_eq!((d[0].offset, d[0].length), (0, 3));
    assert_eq!(d[0].old, Some(0..0));
    assert_eq!(d[0].new, Some(0..3));
}

#[test]
fn chunked_empty_new_side_is_one_removed() {
    let d = chunked_hash(&[7u8; 10], &[], 4);
    assert_eq!(d.len(), 1);
    assert_eq!(d[0].change, ChangeType::Removed);
    assert_eq!((d[0].offset, d[0].length), (0, 10));
    assert_eq!(d[0].old, Some(0..10));
    assert_eq!(d[0].new, None);
}

#[test]
fn sliding_reports_only_between_common_prefix_and_suffix() {
    let a = [1u8, 2, 3, 9, 4, 5];
    let b = [1u8, 2, 3, 8, 8, 4, 5];
    let d = sliding_window(&a, &b, 64, 32);
    assert_eq!(d.len(), 2);
    assert_eq!(d[0].change, ChangeType::Added);
    assert_eq!((d[0].offset, d[0].length), (3, 2));
    assert_eq!(d[0].old, Some(4..4));
    assert_eq!(d[0].new, Some(3..5));
    assert_eq!(d[1].change, ChangeType::Removed);
    assert_eq!((d[1].offset, d[1].length), (3, 1));
    assert_eq!(d[1].old, Some(3..4));
    assert_eq!(d[1].new, None);
}

#[test]
fn chunked_unequal_last_blocks_reanchor() {
    let a = vec![1u8, 2, 3, 4, 5, 6, 7, 8];
    let b = vec![9u8, 9, 9, 9, 1, 2, 3, 4, 5, 6];
    let d = rva_core::diff_engine::chunked_hash_inner(&a, &b, 4, true);
    assert_eq!(d.len(), 2);
    assert_eq!(d[0].change, ChangeType::Added);
    assert_eq!((d[0].offset, d[0].length), (0, 4));
    assert_eq!(d[0].old, Some(0..0));
    assert_eq!(d[0].new, Some(0..4));
    // The A block [5, 6, 7, 8] meets B's short last block [5, 6]: they agree over the
    // shorter length, so only the two bytes past it are Removed.
    assert_eq!(d[1].change, ChangeType::Removed);
    assert_eq!((d[1].offset, d[1].length), (6, 2));
    assert_eq!(d[1].old, Some(6..8));
    assert_eq!(d[1].new, None);
}

#[test]
fn chunked_equal_length_blocks_get_no_length_entry() {
    let a: Vec<u8> = (0u8..32).collect();
    let b = [&a[..8], &[200u8, 201, 202, 203][..], &a[8..20], &[20u8, 99, 22, 23][..], &a[24..]].concat();
    let d = rva_core::diff_engine::chunked_hash_inner(&a, &b, 4, true);
    let got: Vec<(u64, u64, ChangeType, Option<std::ops::Range<u64>>, Option<std::ops::Range<u64>>)> =
        d.iter().map(|e| (e.offset, e.length, e.change, e.old.clone(), e.new.clone())).collect();
    assert_eq!(
        got,
        vec![
            (8, 4, ChangeType::Added, Some(8..8), Some(8..12)),
            (20, 4, ChangeType::Modified, Some(20..24), Some(24..28)),
        ]
    );
}

#[test]
fn chunked_short_tail_difference_is_reported() {
    // The last block differs but is shorter than a block: the re-anchoring window is
    // empty on both sides, so the block pair itself is reported.
    let a = vec![0u8; 5];
    let b = vec![0u8, 0, 0, 0, 1];
    let d = chunked_hash(&a, &b, 4);
    let got: Vec<(ChangeType, Option<std::ops::Range<u64>>, Option<std::ops::Range<u64>>)> =
        d.iter().map(|e| (e.change, e.old.clone(), e.new.clone())).collect();
    assert_eq!(got, vec![(ChangeType::Removed, Some(4..5), None), (ChangeType::Added, Some(5..5), Some(4..5))]);
}
