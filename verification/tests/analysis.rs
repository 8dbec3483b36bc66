use rva_core::aligner::{AlignMode, Aligner, DefaultAligner};
use rva_core::batch_comparator::{BatchComparator, BatchFile, BatchStatus, DefaultBatchComparator};
use rva_core::bench_gen::{gen_firmware, mark, t_delete, t_insert, t_multi_insert, t_point, Rng};
use rva_core::byte_refine::{refine_byte_level, refine_progress};
use rva_core::diff_engine::{ChangeType, DefaultDiffEngine, DiffEngine, DiffEntry, DiffStrategy};
use rva_core::disasm::disassemble;
use rva_core::file_loader::{Arch, DefaultFileLoader, FileFormat, LoadedFile};
use rva_core::presentation::{hex_decode, parse_align_mode, parse_strategy};
use rva_core::report_generator::{summarize, to_html, to_txt, DefaultReportGenerator, DiffReport, ReportFormat, ReportGenerator};
use rva_core::structural_matcher::{match_insns, structural_diff, win_hash};
use rva_core::disasm::Insn;
use rva_core::symbol_resolver::{DefaultSymbolResolver, Symbol, SymbolMap, SymbolResolver};
use std::collections::HashSet;
use std::ops::Range;

fn md(change: ChangeType, offset: u64, length: u64, old: Option<Range<u64>>, new: Option<Range<u64>>) -> DiffEntry {
    DiffEntry { offset, length, change, old, new }
}

fn dummy() -> LoadedFile {
    DefaultFileLoader::load_from_bytes("dummy.bin".to_string(), vec![0u8; 4]).unwrap()
}

fn dummy_a(b: &[u8]) -> LoadedFile {
    DefaultFileLoader::load_from_bytes(format!("align_dummy_a_{}.bin", b.len()), b.to_vec()).unwrap()
}

#[test]
fn merges_adjacent_removed_added_into_modified() {
    let diffs = vec![md(ChangeType::Removed, 30, 1, Some(30..31), None), md(ChangeType::Added, 34, 1, None, Some(34..35))];
    let r = DefaultAligner::default().align(&dummy(), &dummy(), diffs, AlignMode::Byte).unwrap();
    assert_eq!(r.len(), 1);
    assert_eq!(r[0].change, ChangeType::Modified);
    assert_eq!(r[0].old, Some(30..31));
    assert_eq!(r[0].new, Some(34..35));
}

#[test]
fn head_insert_stays_added() {
    let diffs = vec![md(ChangeType::Added, 0, 4, None, Some(0..4))];
    let r = DefaultAligner::default().align(&dummy(), &dummy(), diffs, AlignMode::Byte).unwrap();
    assert_eq!(r.len(), 1);
    assert_eq!(r[0].change, ChangeType::Added);
}

#[test]
fn tail_delete_stays_removed() {
    let diffs = vec![md(ChangeType::Removed, 60, 4, Some(60..64), None)];
    let r = DefaultAligner::default().align(&dummy(), &dummy(), diffs, AlignMode::Byte).unwrap();
    assert_eq!(r.len(), 1);
    assert_eq!(r[0].change, ChangeType::Removed);
}

#[test]
fn two_far_modifications_stay_separate() {
    let diffs = vec![
        md(ChangeType::Removed, 10, 1, Some(10..11), None),
        md(ChangeType::Added, 10, 1, None, Some(10..11)),
        md(ChangeType::Removed, 200, 1, Some(200..201), None),
        md(ChangeType::Added, 200, 1, None, Some(200..201)),
    ];
    let r = DefaultAligner::default().align(&dummy(), &dummy(), diffs, AlignMode::Byte).unwrap();
    let mods: Vec<_> = r.iter().filter(|e| e.change == ChangeType::Modified).collect();
    assert_eq!(mods.len(), 2);
}

#[test]
fn close_alternating_pairs_collapse_into_one_modified() {
    let diffs = vec![
        md(ChangeType::Removed, 10, 1, Some(10..11), None),
        md(ChangeType::Added, 10, 1, None, Some(10..11)),
        md(ChangeType::Removed, 12, 1, Some(12..13), None),
        md(ChangeType::Added, 12, 1, None, Some(12..13)),
    ];
    let r = DefaultAligner::default().align(&dummy(), &dummy(), diffs, AlignMode::Byte).unwrap();
    assert_eq!(r.len(), 1);
    assert_eq!(r[0].change, ChangeType::Modified);
    assert_eq!(r[0].old, Some(10..13));
    assert_eq!(r[0].new, Some(10..13));
    assert_eq!(r[0].offset, 10);
    assert_eq!(r[0].length, 3);
}

#[test]
fn identical_files_no_diff() {
    let a: Vec<u8> = (0..50).collect();
    let b = a.clone();
    let d = DefaultDiffEngine.diff(&dummy_a(&a), &dummy_a(&b), DiffStrategy::SlidingWindow { window: 8, min_match: 8 }).unwrap();
    let r = DefaultAligner::default().align(&dummy(), &dummy(), d, AlignMode::Byte).unwrap();
    assert!(r.is_empty());
}

#[test]
fn aligner_gap_depends_on_mode() {
    // Removed ending at 11, Added starting at 40: 29 bytes apart.
    let diffs = || vec![md(ChangeType::Removed, 10, 1, Some(10..11), None), md(ChangeType::Added, 40, 1, None, Some(40..41))];
    let byte = DefaultAligner::default().align(&dummy(), &dummy(), diffs(), AlignMode::Byte).unwrap();
    assert_eq!(byte.len(), 2);
    let func = DefaultAligner::default().align(&dummy(), &dummy(), diffs(), AlignMode::Function).unwrap();
    assert_eq!(func.len(), 1);
    assert_eq!(func[0].change, ChangeType::Modified);
    assert_eq!(func[0].offset, 10);
    assert_eq!(func[0].length, 1);
    let wide = DefaultAligner::new(64).align(&dummy(), &dummy(), diffs(), AlignMode::Byte).unwrap();
    assert_eq!(wide.len(), 1);
}

#[test]
fn aligner_sorts_by_coordinate() {
    let diffs = vec![md(ChangeType::Modified, 50, 2, Some(50..52), Some(50..52)), md(ChangeType::Added, 3, 1, Some(3..3), Some(3..4))];
    let r = DefaultAligner::default().align(&dummy(), &dummy(), diffs, AlignMode::Byte).unwrap();
    assert_eq!(r[0].offset, 3);
    assert_eq!(r[1].offset, 50);
}

#[test]
fn detect_pe() {
    let mut d = vec![0u8; 64];
    d[0] = b'M';
    d[1] = b'Z';
    assert_eq!(DefaultFileLoader::detect_format_bytes(&d).unwrap(), FileFormat::PE);
}

#[test]
fn detect_elf() {
    let mut d = vec![0u8; 64];
    d[0] = 0x7f;
    d[1] = b'E';
    d[2] = b'L';
    d[3] = b'F';
    assert_eq!(DefaultFileLoader::detect_format_bytes(&d).unwrap(), FileFormat::ELF);
}

#[test]
fn detect_macho() {
    let mut d = vec![0u8; 64];
    d[0..4].copy_from_slice(&0xfeedfacfu32.to_le_bytes());
    assert_eq!(DefaultFileLoader::detect_format_bytes(&d).unwrap(), FileFormat::MachO);
}

#[test]
fn detect_bin_fallback() {
    let d = vec![0u8; 64];
    assert_eq!(DefaultFileLoader::detect_format_bytes(&d).unwrap(), FileFormat::Bin);
}

#[test]
fn detect_too_short_is_unsupported() {
    assert!(DefaultFileLoader::detect_format_bytes(&[1, 2, 3]).is_err());
    assert_eq!(DefaultFileLoader::detect_format_bytes(b"MZ").unwrap(), FileFormat::PE);
}

#[test]
fn machine_codes_map_to_arch() {
    assert_eq!(Arch::from_pe_machine(0x8664), Arch::X86_64);
    assert_eq!(Arch::from_pe_machine(0x01c4), Arch::Arm);
    assert_eq!(Arch::from_pe_machine(0x1234), Arch::Unknown);
    assert_eq!(Arch::from_elf_machine(0x08), Arch::Mips);
    assert_eq!(Arch::from_elf_machine(0xb7), Arch::Aarch64);
}

#[test]
fn raw_file_gets_one_raw_segment() {
    let f = dummy_a(&[7u8; 100]);
    assert_eq!(f.meta.format, FileFormat::Bin);
    assert_eq!(f.meta.arch, Arch::Unknown);
    assert_eq!(f.meta.size, 100);
    assert_eq!(f.meta.segments.len(), 1);
    assert_eq!(f.meta.segments[0].size, 100);
}

#[test]
fn broken_pe_header_falls_back_to_raw_segment() {
    let mut d = vec![0u8; 64];
    d[0] = b'M';
    d[1] = b'Z';
    let f = dummy_a(&d);
    assert_eq!(f.meta.format, FileFormat::PE);
    assert_eq!(f.meta.arch, Arch::Unknown);
    assert_eq!(f.meta.segments.len(), 1);
}

#[test]
fn win_hash_stable() {
    let sigs = [1u64, 2, 3, 4, 5];
    assert_eq!(win_hash(&sigs, 0, 4), win_hash(&sigs, 0, 4));
    assert_eq!(win_hash(&sigs, 0, 4), win_hash(&[1, 2, 3, 4], 0, 4));
}

#[test]
fn win_hash_equal_windows_at_other_positions() {
    let s1 = [9u64, 9, 1, 2, 3, 4, 5, 6, 7, 8, 10];
    let s2 = [1u64, 2, 3, 4, 5, 6, 7, 8, 11, 12];
    assert_eq!(win_hash(&s1, 2, 8), win_hash(&s2, 0, 8));
    assert_eq!(win_hash(&s1, 2, 20), win_hash(&s2, 0, 20));
}

#[test]
fn win_hash_depends_on_window() {
    let sigs = [1u64, 2, 3, 4, 5];
    assert_ne!(win_hash(&sigs, 0, 4), win_hash(&sigs, 1, 4));
}

#[test]
fn match_insns_identical() {
    let mk = |off: usize| Insn { offset: off, len: 2, sig: 7 };
    let a: Vec<Insn> = (0..8).map(|i| mk(i * 2)).collect();
    let b: Vec<Insn> = (0..8).map(|i| mk(i * 2)).collect();
    let m = match_insns(&a, &b, 4);
    assert_eq!(m.len(), 1);
    assert_eq!(m[0], (0, 0, 8));
}

#[test]
fn match_insns_insertion() {
    let mk = |off: usize, sig: u64| Insn { offset: off, len: 2, sig };
    let a: Vec<Insn> = (0..8).map(|i| mk(i * 2, i as u64)).collect();
    let mut b: Vec<Insn> = Vec::new();
    for i in 0..4 {
        b.push(mk(i * 2, i as u64));
    }
    b.push(mk(8, 100));
    b.push(mk(10, 101));
    for i in 4..8 {
        b.push(mk(12 + (i - 4) * 2, i as u64));
    }
    let m = match_insns(&a, &b, 2);
    assert!(!m.is_empty());
}

#[test]
fn structural_needs_x86_on_both_sides() {
    let r = structural_diff(&dummy_a(&[1u8; 32]), &dummy_a(&[2u8; 32]), 8);
    assert!(r.is_err());
}

#[test]
fn disassemble_nops_and_ret() {
    let code = [0x90u8, 0x90, 0xC3];
    let insns = disassemble(&code, 0x1000, 0, 64);
    assert_eq!(insns.len(), 3);
    assert_eq!(insns[0].offset, 0);
    assert_eq!(insns[2].offset, 2);
    assert!(insns.iter().all(|i| i.len == 1));
    assert_eq!(insns[0].sig, insns[1].sig);
    assert_ne!(insns[0].sig, insns[2].sig);
    let shifted = disassemble(&code, 0x1000, 100, 64);
    assert_eq!(shifted[1].offset, 101);
}

#[test]
fn disassemble_ignores_immediate_values() {
    // mov eax, 1 / mov eax, 2: same normalized signature
    let a = disassemble(&[0xB8, 1, 0, 0, 0], 0, 0, 64);
    let b = disassemble(&[0xB8, 2, 0, 0, 0], 0, 0, 64);
    assert_eq!(a.len(), 1);
    assert_eq!(a[0].len, 5);
    assert_eq!(a[0].sig, b[0].sig);
}

fn sample_report() -> DiffReport {
    let entries = vec![
        md(ChangeType::Added, 0, 4, None, Some(0..4)),
        md(ChangeType::Modified, 10, 1, Some(10..11), Some(10..11)),
        md(ChangeType::Removed, 20, 2, Some(20..22), None),
    ];
    let summary = summarize(&entries);
    DiffReport { entries, symbols: None, summary }
}

#[test]
fn html_contains_root_and_labels() {
    let s = to_html(&sample_report());
    assert!(s.contains("<html") || s.contains("<!DOCTYPE html"));
    assert!(s.contains("Added"));
    assert!(s.contains("Modified"));
    assert!(s.contains("Removed"));
}

#[test]
fn txt_contains_summary_and_added() {
    let s = to_txt(&sample_report());
    assert!(s.contains("Summary"));
    assert!(s.contains("Added"));
    assert!(s.contains("Modified @ off=10"));
}

#[test]
fn summary_counts_per_kind() {
    let s = summarize(&sample_report().entries);
    assert_eq!(s.added, 4);
    assert_eq!(s.modified, 1);
    assert_eq!(s.removed, 2);
    assert_eq!(s.total_bytes, 7);
}

#[test]
fn report_format_parses_case_insensitively() {
    assert_eq!(ReportFormat::from_str_checked("TXT"), ReportFormat::Txt);
    assert_eq!(ReportFormat::from_str_checked("json"), ReportFormat::Json);
    assert_eq!(ReportFormat::from_str_checked("anything"), ReportFormat::Html);
}

#[test]
fn bare_bin_returns_empty_map() {
    let m = DefaultSymbolResolver::resolve_bytes(&[0u8; 16]).unwrap();
    assert!(m.0.is_empty());
}

#[test]
fn refine_splits_modified_into_runs() {
    let a = vec![0u8; 64];
    let mut b = a.clone();
    b[2] = 1;
    b[40] = 1;
    b.extend_from_slice(&[9, 9]);
    let d = vec![md(ChangeType::Modified, 0, 64, Some(0..64), Some(0..66))];
    let r = refine_byte_level(&a, &b, d, None::<&fn(u32)>);
    assert_eq!(r.len(), 3);
    assert_eq!(r[0].old, Some(2..3));
    assert_eq!(r[1].old, Some(40..41));
    assert_eq!(r[2].change, ChangeType::Added);
    assert_eq!(r[2].new, Some(64..66));
}

#[test]
fn refine_reports_progress_from_70_to_90() {
    let a = vec![0u8; 16];
    let b = a.clone();
    let d = vec![
        md(ChangeType::Modified, 0, 4, Some(0..4), Some(0..4)),
        md(ChangeType::Added, 4, 1, None, Some(4..5)),
        md(ChangeType::Modified, 8, 4, Some(8..12), Some(8..12)),
        md(ChangeType::Modified, 12, 4, Some(12..16), Some(12..16)),
    ];
    let seen = std::cell::RefCell::new(Vec::new());
    let report = |p: u32| seen.borrow_mut().push(p);
    let r = refine_byte_level(&a, &b, d, Some(&report));
    assert_eq!(r.len(), 1);
    assert_eq!(*seen.borrow(), vec![70, 75, 80, 85]);
    assert_eq!(refine_progress(0, 3), 70);
    assert_eq!(refine_progress(2, 3), 83);
}

#[test]
fn refine_joins_close_runs_and_keeps_others() {
    let a = vec![0u8; 64];
    let mut b = a.clone();
    b[2] = 1;
    b[10] = 1;
    let d = vec![
        md(ChangeType::Added, 0, 1, None, Some(0..1)),
        md(ChangeType::Modified, 0, 64, Some(0..64), Some(0..64)),
    ];
    let r = refine_byte_level(&a, &b, d, None::<&fn(u32)>);
    assert_eq!(r.len(), 2);
    assert_eq!(r[0].change, ChangeType::Added);
    assert_eq!(r[1].old, Some(2..11));
    assert_eq!(r[1].length, 9);
}

#[test]
fn presentation_parsers() {
    assert!(matches!(parse_strategy(Some("sliding"), Some(100)), DiffStrategy::SlidingWindow { window: 64, min_match: 8 }));
    assert!(matches!(parse_strategy(Some("sliding"), None), DiffStrategy::SlidingWindow { window: 8, .. }));
    assert!(matches!(parse_strategy(Some("structural"), None), DiffStrategy::StructureMatch { min_run: 8 }));
    assert!(matches!(parse_strategy(None, None), DiffStrategy::ChunkedHash { chunk_size: 4096 }));
    assert_eq!(parse_align_mode(Some("function")), AlignMode::Function);
    assert_eq!(parse_align_mode(None), AlignMode::Byte);
    assert_eq!(hex_decode("0aFF 10").unwrap(), vec![0x0a, 0xff, 0x10]);
    assert!(hex_decode("abc").is_err());
    assert!(hex_decode("zz").is_err());
}

#[test]
fn rng_is_xorshift64() {
    let mut r = Rng::new(0);
    assert_eq!(r.0, 1);
    let mut x: u64 = 1;
    x ^= x << 13;
    x ^= x >> 7;
    x ^= x << 17;
    assert_eq!(r.next(), x);
    let mut r2 = Rng::new(42);
    let v = r2.range(10);
    assert!(v < 10);
}

#[test]
fn firmware_generation_is_deterministic() {
    let a = gen_firmware(7, 5000);
    let b = gen_firmware(7, 5000);
    assert_eq!(a.len(), 5000);
    assert_eq!(a, b);
    assert_eq!(&a[0..4], &[0x55, 0x55, 0x55, 0x55]);
}

#[test]
fn transforms_record_truth() {
    let a = gen_firmware(3, 4096);
    let ins = t_insert(&a, 9, 100, 20);
    assert_eq!(ins.b.len(), 4116);
    assert_eq!(&ins.b[..100], &a[..100]);
    assert_eq!(&ins.b[120..], &a[100..]);
    assert_eq!(ins.b_truth.len(), 20);
    let del = t_delete(&a, 10, 5);
    assert_eq!(del.b.len(), 4091);
    assert!(del.a_truth.contains(&10) && del.a_truth.contains(&14) && !del.a_truth.contains(&15));
    let pt = t_point(&a, 5, 10, 8);
    assert_eq!(pt.b.len(), a.len());
    for i in 0..a.len() {
        if a[i] != pt.b[i] {
            assert!(pt.b_truth.contains(&(i as u64)));
        }
    }
    let mut s = HashSet::new();
    mark(&mut s, 5..8);
    assert_eq!(s.len(), 3);
}

fn bf(rel: &str, data: Option<Vec<u8>>) -> BatchFile {
    let file = data.map(|d| DefaultFileLoader::load_from_bytes(rel.to_string(), d).unwrap());
    BatchFile { rel: rel.split('/').map(|s| s.to_string()).collect(), abs: format!("/root/{rel}"), file }
}

fn setup() -> Vec<BatchFile> {
    vec![bf("same.bin", Some(vec![0u8; 16])), bf("sub/changed.bin", Some(vec![1u8, 2, 3, 4]))]
}

fn cmp(a: &[BatchFile], b: &[BatchFile]) -> rva_core::batch_comparator::BatchNode {
    DefaultBatchComparator::compare_trees("a".to_string(), "b".to_string(), a, b, DiffStrategy::ChunkedHash { chunk_size: 4096 })
}

#[test]
fn compare_identical_dirs() {
    let node = cmp(&setup(), &setup());
    assert_eq!(node.status, BatchStatus::Identical);
}

#[test]
fn compare_different_dirs() {
    let a = setup();
    let mut b = setup();
    b[1] = bf("sub/changed.bin", Some(vec![9u8, 9, 9, 9]));
    let node = cmp(&a, &b);
    assert_eq!(node.status, BatchStatus::Different);
}

#[test]
fn only_in_one_side() {
    let mut a = setup();
    a.push(bf("only_a.bin", Some(vec![7u8; 8])));
    let node = cmp(&a, &setup());
    assert!(node.children.iter().any(|c| c.status == BatchStatus::OnlyInA));
}

#[test]
fn multi_file_subdir_recurses() {
    let mut a = setup();
    let mut b = setup();
    a.push(bf("sub/extra.bin", Some(vec![5u8; 4])));
    b.push(bf("sub/extra.bin", Some(vec![5u8; 4])));
    let node = cmp(&a, &b);
    assert_eq!(node.status, BatchStatus::Identical);
}

#[test]
fn batch_tree_shape() {
    let mut a = setup();
    a.push(bf("x/y.bin", None));
    let mut b = setup();
    b[1] = bf("sub/changed.bin", Some(vec![1u8, 2, 3, 5]));
    b.push(bf("x/y.bin", Some(vec![1u8; 4])));
    b.push(bf("same.bin/inner.bin", Some(vec![1u8; 4])));
    let node = cmp(&a, &b);
    assert_eq!(node.status, BatchStatus::Different);
    assert_eq!(node.path_a.as_deref(), Some("a"));
    let st: Vec<BatchStatus> = node.children.iter().map(|c| c.status.clone()).collect();
    // same.bin on both sides is a file, but B also has a directory of that name: only the
    // file pair is compared; sub differs; x holds a file that could not be loaded.
    assert_eq!(st, vec![BatchStatus::Identical, BatchStatus::Different, BatchStatus::Different]);
    assert_eq!(node.children[0].path_a.as_deref(), Some("/root/same.bin"));
    assert_eq!(node.children[1].path_a.as_deref(), Some("sub"));
    let sub = &node.children[1];
    assert_eq!(sub.children.len(), 1);
    assert_eq!(sub.children[0].status, BatchStatus::Different);
    assert!(sub.children[0].diffs.is_some());
    assert_eq!(node.children[2].children[0].status, BatchStatus::Error);
}

#[test]
fn file_against_directory_gives_only_and_dir_nodes() {
    let a = vec![bf("k", Some(vec![0u8; 8]))];
    let b = vec![bf("k/z.bin", Some(vec![0u8; 8]))];
    let node = cmp(&a, &b);
    let st: Vec<BatchStatus> = node.children.iter().map(|c| c.status.clone()).collect();
    assert_eq!(st, vec![BatchStatus::OnlyInA, BatchStatus::Different]);
    assert_eq!(node.children[1].children.len(), 1);
    assert_eq!(node.children[1].children[0].status, BatchStatus::OnlyInB);
}

#[test]
fn empty_trees_are_identical() {
    let node = cmp(&[], &[]);
    assert_eq!(node.status, BatchStatus::Identical);
    assert!(node.children.is_empty());
}

#[test]
fn match_insns_runs_are_equal_throughout() {
    let a: Vec<Insn> = (0..9).map(|i| Insn { offset: 2 * i, len: 2, sig: i as u64 }).collect();
    let mut b = a.clone();
    b[8].sig = 99;
    assert!(match_insns(&a, &b, 9).is_empty());
    let m = match_insns(&a, &a, 9);
    assert_eq!(m, vec![(0, 0, 9)]);
}

#[test]
fn firmware_is_a_prefix_of_a_longer_one() {
    let short = gen_firmware(11, 300);
    let long = gen_firmware(11, 1000);
    assert_eq!(short.len(), 300);
    assert_eq!(&long[..300], &short[..]);
    assert_eq!(&short[..4], &[0x55u8, 0x55, 0x55, 0x55]);
    assert_eq!(gen_firmware(11, 300), short);
    assert!(gen_firmware(11, 0).is_empty());
}

#[test]
fn point_edits_mark_something() {
    let a = gen_firmware(9, 512);
    let t = t_point(&a, 4, 3, 4);
    assert!(!t.b_truth.is_empty());
    assert_eq!(t.a_truth, t.b_truth);
    assert_eq!(t.b.len(), a.len());
}

#[test]
fn multi_insert_lengths() {
    let a = gen_firmware(13, 2048);
    let t = t_multi_insert(&a, 5, 6, 8, 64);
    assert_eq!(t.b.len(), a.len() + t.b_truth.len());
    assert!(t.b.len() >= a.len() + 6 * 8);
    assert!(t.b.len() <= a.len() + 6 * 64);
    assert!(t.a_truth.is_empty());
}

#[test]
fn multi_insert_follows_the_seed() {
    let a: Vec<u8> = (0u8..64).collect();
    let t = t_multi_insert(&a, 7, 3, 2, 5);
    // Draw (length, position) per spot, then insert in ascending position order.
    let mut rng = Rng::new(7);
    let mut draws: Vec<(u64, usize)> = Vec::new();
    for _ in 0..3 {
        let len = 2 + rng.range(4) as usize;
        let pos = rng.range(63);
        draws.push((pos, len));
    }
    let mut idx: Vec<usize> = (0..3).collect();
    idx.sort_by_key(|&k| draws[k].0);
    let mut b = a.clone();
    let mut marked: Vec<u64> = Vec::new();
    let mut shift = 0u64;
    for &k in &idx {
        let (pos, len) = draws[k];
        let p = (pos + shift) as usize;
        let ins: Vec<u8> = (0..len).map(|_| rng.byte()).collect();
        b.splice(p..p, ins);
        marked.extend(p as u64..(p + len) as u64);
        shift += len as u64;
    }
    assert_eq!(t.b, b);
    let mut got: Vec<u64> = t.b_truth.iter().copied().collect();
    got.sort();
    marked.sort();
    assert_eq!(got, marked);
}

#[test]
fn lookup_containing_picks_the_nearest_symbol() {
    let mut m = SymbolMap::new();
    m.0.insert(0x1000, Symbol { addr: 0x1000, name: "outer".to_string(), size: Some(0x100) });
    m.0.insert(0x1040, Symbol { addr: 0x1040, name: "inner".to_string(), size: Some(0x20) });
    m.0.insert(0x2000, Symbol { addr: 0x2000, name: "far".to_string(), size: None });
    assert_eq!(m.lookup_containing(0x1050).map(|s| s.name.clone()), Some("inner".to_string()));
    assert_eq!(m.lookup_containing(0x1010).map(|s| s.name.clone()), Some("outer".to_string()));
    assert!(m.lookup_containing(0x2000).is_none());
}

#[test]
fn generate_dispatch_all_formats() {
    let r = sample_report();
    assert!(DefaultReportGenerator::generate(&r, ReportFormat::Html, "").is_ok());
    assert!(DefaultReportGenerator::generate(&r, ReportFormat::Txt, "").is_ok());
    assert!(DefaultReportGenerator::generate(&r, ReportFormat::Json, "{}").is_ok());
    assert_eq!(DefaultReportGenerator::generate(&r, ReportFormat::Txt, "").unwrap(), to_txt(&r));
    assert_eq!(DefaultReportGenerator::generate(&r, ReportFormat::Json, "{\"a\":1}").unwrap(), "{\"a\":1}");
}
