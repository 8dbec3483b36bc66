use rva_core::bench_eval::eval;
use rva_core::bench_gen::{gen_firmware, t_delete, t_insert, t_point, Truth};
use rva_core::diff_engine::{ChangeType, DiffEntry, DiffStrategy};
use rva_core::viewer::{needs_fallback, read_window, search_pattern, shown_entries, MAX_SHOWN, MODIFIED_BUDGET};
use std::collections::HashSet;

fn md(change: ChangeType, offset: u64, length: u64, old: Option<std::ops::Range<u64>>, new: Option<std::ops::Range<u64>>) -> DiffEntry {
    DiffEntry { offset, length, change, old, new }
}

#[test]
fn search_finds_overlapping_matches_in_order() {
    let buf = b"aaab aaa";
    assert_eq!(search_pattern(buf, b"aa", 0), vec![0, 1, 5, 6]);
    assert_eq!(search_pattern(&[1u8, 1], &[1u8], 0), vec![0, 1]);
    assert_eq!(search_pattern(buf, b"aa", 10), vec![0, 1, 5, 6]);
    assert_eq!(search_pattern(buf, b"aa", 3), vec![0, 1, 5]);
    assert!(search_pattern(buf, b"", 10).is_empty());
    assert!(search_pattern(buf, b"zzz", 10).is_empty());
    assert_eq!(search_pattern(buf, b"aaab aaa", 5), vec![0]);
    assert!(search_pattern(buf, b"aaab aaaa", 5).is_empty());
}

#[test]
fn shown_entries_keeps_room_for_insertions_and_deletions() {
    let mut ds = Vec::new();
    for i in 0..(MODIFIED_BUDGET as u64 + 10) {
        ds.push(md(ChangeType::Modified, i, 1, Some(i..i + 1), Some(i..i + 1)));
    }
    ds.push(md(ChangeType::Added, 7, 1, None, Some(7..8)));
    let kept = shown_entries(&ds);
    assert_eq!(kept.len(), MODIFIED_BUDGET + 1);
    assert_eq!(kept.last().unwrap().change, ChangeType::Added);
}

#[test]
fn shown_entries_is_capped() {
    let ds: Vec<DiffEntry> = (0..(MAX_SHOWN as u64 + 5)).map(|i| md(ChangeType::Removed, i, 1, Some(i..i + 1), None)).collect();
    let kept = shown_entries(&ds);
    assert_eq!(kept.len(), MAX_SHOWN);
    assert_eq!(kept[0].offset, 0);
}

#[test]
fn read_window_clips() {
    assert_eq!(read_window(100, 10, 20), (10, 30));
    assert_eq!(read_window(100, 90, 20), (90, 100));
    assert_eq!(read_window(100, 200, 20), (100, 100));
    assert_eq!(read_window(5 << 20, 0, u64::MAX), (0, 1 << 20));
}

#[test]
fn fallback_only_for_diverged_sliding() {
    let sliding = DiffStrategy::SlidingWindow { window: 8, min_match: 8 };
    assert!(needs_fallback(sliding, 101, 100, 100));
    assert!(!needs_fallback(sliding, 100, 100, 100));
    assert!(!needs_fallback(DiffStrategy::ChunkedHash { chunk_size: 4096 }, 1000, 100, 100));
}

#[test]
fn eval_counts_each_offset_once() {
    let mut at = HashSet::new();
    at.insert(10u64);
    at.insert(11);
    let mut bt = HashSet::new();
    bt.insert(20u64);
    let truth = Truth { a_truth: at, b_truth: bt, b: Vec::new() };
    let diffs = vec![
        md(ChangeType::Removed, 10, 3, Some(10..13), None),
        md(ChangeType::Modified, 11, 1, Some(11..12), Some(20..22)),
        md(ChangeType::Added, 21, 2, Some(0..0), Some(21..23)),
    ];
    let m = eval(&truth, &diffs);
    // A side: {10,11,12}; B side: {20,21,22}.
    assert_eq!(m.reported, 6);
    assert_eq!(m.truth, 3);
    assert_eq!(m.inter, 3);
    assert_eq!(m.b_fp, 2);
    assert_eq!(m.fp(), 3);
    assert_eq!(m.fneg(), 0);
}

#[test]
fn eval_of_exact_answer_is_perfect() {
    let a = gen_firmware(5, 4096);
    let t = t_insert(&a, 1, 100, 50);
    let diffs = vec![md(ChangeType::Added, 100, 50, Some(100..100), Some(100..150))];
    let m = eval(&t, &diffs);
    assert_eq!(m.fp(), 0);
    assert_eq!(m.fneg(), 0);
    let d = t_delete(&a, 10, 5);
    let m2 = eval(&d, &[md(ChangeType::Removed, 10, 5, Some(10..15), None)]);
    assert_eq!((m2.reported, m2.truth, m2.inter), (5, 5, 5));
    let p = t_point(&a, 2, 3, 4);
    let m3 = eval(&p, &[]);
    assert_eq!(m3.reported, 0);
    assert_eq!(m3.fneg(), m3.truth);
}
