//! Byte-level refinement of Modified entries: the chunked strategy reports whole blocks,
//! this narrows each one to the byte runs that really differ.

use std::ops::Range;
use vstd::prelude::*;
use crate::diff_engine::{ChangeType, DiffEntry};

verus! {

/// Runs closer than this (in bytes) are merged into one.
pub const MIN_GAP: usize = 16;

/// End of the run of differing bytes that starts at `i`.
pub open spec fn mismatch_end(a: Seq<u8>, b: Seq<u8>, os: int, ns: int, common: int, i: int) -> int
    decreases common - i,
{
    if 0 <= i < common && a[os + i] != b[ns + i] { mismatch_end(a, b, os, ns, common, i + 1) } else { i }
}

/// The differing runs of `a[os..os+common]` against `b[ns..ns+common]` from `i` on, each run
/// merged into the previous one when the gap between them is at most `MIN_GAP`.
pub open spec fn scan_runs(a: Seq<u8>, b: Seq<u8>, os: int, ns: int, common: int, i: int, runs: Seq<(int, int)>) -> Seq<(int, int)>
    decreases common - i,
{
    if i < 0 || i >= common {
        runs
    } else if a[os + i] != b[ns + i] {
        let e = mismatch_end(a, b, os, ns, common, i);
        let runs2 = if runs.len() > 0 && i - runs.last().1 <= MIN_GAP {
            runs.update(runs.len() - 1, (runs.last().0, e))
        } else {
            runs.push((i, e))
        };
        proof {
            lemma_mismatch_end(a, b, os, ns, common, i);
        }
        scan_runs(a, b, os, ns, common, e, runs2)
    } else {
        scan_runs(a, b, os, ns, common, i + 1, runs)
    }
}

pub proof fn lemma_mismatch_end(a: Seq<u8>, b: Seq<u8>, os: int, ns: int, common: int, i: int)
    requires
        0 <= i < common,
        a[os + i] != b[ns + i],
    ensures
        i < mismatch_end(a, b, os, ns, common, i) <= common,
        a[os + mismatch_end(a, b, os, ns, common, i) - 1] != b[ns + mismatch_end(a, b, os, ns, common, i) - 1],
    decreases common - i,
{
    reveal_with_fuel(mismatch_end, 2);
    if i + 1 < common && a[os + i + 1] != b[ns + i + 1] {
        lemma_mismatch_end(a, b, os, ns, common, i + 1);
    }
}

pub open spec fn modified_run(os: int, ns: int, r: (int, int)) -> DiffEntry {
    DiffEntry {
        offset: (os + r.0) as u64,
        length: (r.1 - r.0) as u64,
        change: ChangeType::Modified,
        old: Some(Range { start: (os + r.0) as u64, end: (os + r.1) as u64 }),
        new: Some(Range { start: (ns + r.0) as u64, end: (ns + r.1) as u64 }),
    }
}

pub open spec fn run_entries(os: int, ns: int, runs: Seq<(int, int)>) -> Seq<DiffEntry> {
    runs.map_values(|r: (int, int)| modified_run(os, ns, r))
}

/// A Modified entry with both ranges, which refinement replaces.
pub open spec fn refinable(d: DiffEntry) -> bool {
    d.change == ChangeType::Modified && d.old is Some && d.new is Some
}

/// The entries that replace one entry: unchanged unless refinable; otherwise the differing
/// runs of the common length as Modified, then the excess of the longer side as Removed
/// (A) or Added (B, without an old range).
pub open spec fn refine_one(a: Seq<u8>, b: Seq<u8>, d: DiffEntry) -> Seq<DiffEntry> {
    if !refinable(d) {
        seq![d]
    } else {
        let os = d.old->0.start as int;
        let oe = d.old->0.end as int;
        let ns = d.new->0.start as int;
        let ne = d.new->0.end as int;
        let alen = oe - os;
        let blen = ne - ns;
        let common = if alen < blen { alen } else { blen };
        let runs = run_entries(os, ns, scan_runs(a, b, os, ns, common, 0, Seq::empty()));
        let tail = if alen > blen {
            seq![DiffEntry { offset: (os + blen) as u64, length: (alen - blen) as u64, change: ChangeType::Removed,
                old: Some(Range { start: (os + blen) as u64, end: oe as u64 }), new: None }]
        } else if blen > alen {
            seq![DiffEntry { offset: (ns + alen) as u64, length: (blen - alen) as u64, change: ChangeType::Added,
                old: None, new: Some(Range { start: (ns + alen) as u64, end: ne as u64 }) }]
        } else {
            Seq::empty()
        };
        runs + tail
    }
}

pub open spec fn refine_all(a: Seq<u8>, b: Seq<u8>, ds: Seq<DiffEntry>) -> Seq<DiffEntry>
    decreases ds.len(),
{
    if ds.len() == 0 { Seq::empty() } else { refine_all(a, b, ds.drop_last()) + refine_one(a, b, ds.last()) }
}

/// The ranges of a refinable entry are ordered and lie inside the files.
pub open spec fn refine_input_ok(d: DiffEntry, la: int, lb: int) -> bool {
    refinable(d) ==> d.old->0.start <= d.old->0.end <= la && d.new->0.start <= d.new->0.end <= lb
}

/// Offset `j` lies in one of the runs.
pub open spec fn in_some_run(runs: Seq<(int, int)>, j: int) -> bool {
    exists|t: int| 0 <= t < runs.len() && (#[trigger] runs[t]).0 <= j < runs[t].1
}

/// The run `r` is non-empty and its first and last offsets are differing bytes.
pub open spec fn run_edges_differ(a: Seq<u8>, b: Seq<u8>, os: int, ns: int, r: (int, int)) -> bool {
    r.0 < r.1 && a[os + r.0] != b[ns + r.0] && a[os + r.1 - 1] != b[ns + r.1 - 1]
}

proof fn lemma_scan_cover(a: Seq<u8>, b: Seq<u8>, os: int, ns: int, common: int, i: int, runs: Seq<(int, int)>)
    requires
        0 <= i,
        forall|t: int| 0 <= t < runs.len() ==> 0 <= (#[trigger] runs[t]).0 <= runs[t].1 <= common,
        forall|t: int| 0 <= t < runs.len() ==> run_edges_differ(a, b, os, ns, #[trigger] runs[t]),
        runs.len() > 0 ==> runs.last().1 <= i,
    ensures
        forall|t: int| 0 <= t < scan_runs(a, b, os, ns, common, i, runs).len()
            ==> run_edges_differ(a, b, os, ns, #[trigger] scan_runs(a, b, os, ns, common, i, runs)[t]),
        forall|t: int| 0 <= t < scan_runs(a, b, os, ns, common, i, runs).len()
            ==> 0 <= (#[trigger] scan_runs(a, b, os, ns, common, i, runs)[t]).0 <= scan_runs(a, b, os, ns, common, i, runs)[t].1 <= common,
        forall|j: int| in_some_run(runs, j) ==> in_some_run(scan_runs(a, b, os, ns, common, i, runs), j),
        forall|j: int| i <= j < common && a[os + j] != b[ns + j] ==> in_some_run(scan_runs(a, b, os, ns, common, i, runs), j),
    decreases common - i,
{
    let res = scan_runs(a, b, os, ns, common, i, runs);
    if i < 0 || i >= common {
    } else if a[os + i] != b[ns + i] {
        lemma_mismatch_end(a, b, os, ns, common, i);
        let e = mismatch_end(a, b, os, ns, common, i);
        let merge = runs.len() > 0 && i - runs.last().1 <= MIN_GAP;
        let runs2 = if merge {
            runs.update(runs.len() - 1, (runs.last().0, e))
        } else {
            runs.push((i, e))
        };
        assert(res == scan_runs(a, b, os, ns, common, e, runs2));
        assert forall|t: int| 0 <= t < runs2.len() implies 0 <= (#[trigger] runs2[t]).0 <= runs2[t].1 <= common by {
            if t < runs.len() {
                assert(runs[runs.len() - 1] == runs.last());
            }
        }
        assert forall|t: int| 0 <= t < runs2.len() implies run_edges_differ(a, b, os, ns, #[trigger] runs2[t]) by {
            if t < runs.len() {
                assert(runs[runs.len() - 1] == runs.last());
                assert(run_edges_differ(a, b, os, ns, runs[t]));
            }
        }
        assert(runs2.last().1 == e);
        lemma_scan_cover(a, b, os, ns, common, e, runs2);
        assert forall|j: int| in_some_run(runs, j) implies in_some_run(runs2, j) by {
            let t = choose|t: int| 0 <= t < runs.len() && (#[trigger] runs[t]).0 <= j < runs[t].1;
            if merge && t == runs.len() - 1 {
                assert(runs2[t] == (runs.last().0, e));
            } else {
                assert(runs2[t] == runs[t]);
            }
        }
        assert forall|j: int| i <= j < common && a[os + j] != b[ns + j] implies in_some_run(res, j) by {
            if j < e {
                let t = runs2.len() - 1;
                if merge {
                    assert(runs[runs.len() - 1] == runs.last());
                    assert(runs2[t] == (runs.last().0, e));
                } else {
                    assert(runs2[t] == (i, e));
                }
                assert(in_some_run(runs2, j));
            }
        }
        assert forall|j: int| i <= j < e implies in_some_run(runs2, j) by {
            let t = runs2.len() - 1;
            if merge {
                assert(runs[runs.len() - 1] == runs.last());
                assert(runs2[t] == (runs.last().0, e));
            } else {
                assert(runs2[t] == (i, e));
            }
        }
    } else {
        assert(res == scan_runs(a, b, os, ns, common, i + 1, runs));
        lemma_scan_cover(a, b, os, ns, common, i + 1, runs);
    }
}

/// Byte-level refinement loses no difference. For a refinable Modified entry `d` of A
/// range `a[os..oe]` against B range `b[ns..ne]`: when A's range is longer, the output holds
/// a Removed entry for exactly `a[os+blen..oe]`; when B's is longer, an Added entry for
/// exactly `b[ns+alen..ne]`; and every byte of either range that has no equal partner at the
/// same distance in the other range (or lies past the shorter length) lies in the old
/// (resp. new) range of some output entry.
pub proof fn law_refine_covers(a: Seq<u8>, b: Seq<u8>, d: DiffEntry)
    requires
        refinable(d),
        refine_input_ok(d, a.len() as int, b.len() as int),
    ensures
        ({
            let os = d.old->0.start as int;
            let oe = d.old->0.end as int;
            let ns = d.new->0.start as int;
            let ne = d.new->0.end as int;
            let out = refine_one(a, b, d);
            &&& (oe - os > ne - ns ==> out.contains(DiffEntry { offset: (os + (ne - ns)) as u64, length: ((oe - os) - (ne - ns)) as u64,
                    change: ChangeType::Removed, old: Some(Range { start: (os + (ne - ns)) as u64, end: oe as u64 }), new: None }))
            &&& (ne - ns > oe - os ==> out.contains(DiffEntry { offset: (ns + (oe - os)) as u64, length: ((ne - ns) - (oe - os)) as u64,
                    change: ChangeType::Added, old: None, new: Some(Range { start: (ns + (oe - os)) as u64, end: ne as u64 }) }))
            &&& forall|p: int| os <= p < oe && (p - os >= ne - ns || a[p] != b[ns + (p - os)])
                    ==> exists|k: int| 0 <= k < out.len() && crate::structural_matcher::holds_old(#[trigger] out[k], p)
            &&& forall|q: int| ns <= q < ne && (q - ns >= oe - os || b[q] != a[os + (q - ns)])
                    ==> exists|k: int| 0 <= k < out.len() && crate::structural_matcher::holds_new(#[trigger] out[k], q)
        }),
{
    let os = d.old->0.start as int;
    let oe = d.old->0.end as int;
    let ns = d.new->0.start as int;
    let ne = d.new->0.end as int;
    let alen = oe - os;
    let blen = ne - ns;
    let common = if alen < blen { alen } else { blen };
    let sr = scan_runs(a, b, os, ns, common, 0, Seq::empty());
    lemma_scan_cover(a, b, os, ns, common, 0, Seq::empty());
    let runs = run_entries(os, ns, sr);
    let tail = if alen > blen {
        seq![DiffEntry { offset: (os + blen) as u64, length: (alen - blen) as u64, change: ChangeType::Removed,
            old: Some(Range { start: (os + blen) as u64, end: oe as u64 }), new: None }]
    } else if blen > alen {
        seq![DiffEntry { offset: (ns + alen) as u64, length: (blen - alen) as u64, change: ChangeType::Added,
            old: None, new: Some(Range { start: (ns + alen) as u64, end: ne as u64 }) }]
    } else {
        Seq::<DiffEntry>::empty()
    };
    let out = refine_one(a, b, d);
    assert(out == runs + tail);
    if tail.len() > 0 {
        assert(out[runs.len() as int] == tail[0]);
    }
    assert forall|p: int| os <= p < oe && (p - os >= blen || a[p] != b[ns + (p - os)])
        implies exists|k: int| 0 <= k < out.len() && crate::structural_matcher::holds_old(#[trigger] out[k], p) by {
        if p - os >= blen {
            assert(out[runs.len() as int] == tail[0]);
            assert(crate::structural_matcher::holds_old(out[runs.len() as int], p));
        } else {
            let j = p - os;
            assert(a[os + j] != b[ns + j]);
            assert(in_some_run(sr, j));
            let t = choose|t: int| 0 <= t < sr.len() && (#[trigger] sr[t]).0 <= j < sr[t].1;
            assert(out[t] == runs[t]);
            assert(runs[t] == modified_run(os, ns, sr[t]));
            assert(crate::structural_matcher::holds_old(out[t], p));
        }
    }
    assert forall|q: int| ns <= q < ne && (q - ns >= alen || b[q] != a[os + (q - ns)])
        implies exists|k: int| 0 <= k < out.len() && crate::structural_matcher::holds_new(#[trigger] out[k], q) by {
        if q - ns >= alen {
            assert(out[runs.len() as int] == tail[0]);
            assert(crate::structural_matcher::holds_new(out[runs.len() as int], q));
        } else {
            let j = q - ns;
            assert(a[os + j] != b[ns + j]);
            assert(in_some_run(sr, j));
            let t = choose|t: int| 0 <= t < sr.len() && (#[trigger] sr[t]).0 <= j < sr[t].1;
            assert(out[t] == runs[t]);
            assert(runs[t] == modified_run(os, ns, sr[t]));
            assert(crate::structural_matcher::holds_new(out[t], q));
        }
    }
}

/// Byte-level refinement reports nothing spurious: for a refinable entry `d`, each Modified
/// entry of the output lies inside the compared part of `d` (its old range inside
/// `a[os..os+common]`, its new range the same distance into `b[ns..]`, `common` the shorter
/// length), is non-empty, and starts and ends at bytes that differ between A and B.
pub proof fn law_refine_runs_sound(a: Seq<u8>, b: Seq<u8>, d: DiffEntry)
    requires
        refinable(d),
        refine_input_ok(d, a.len() as int, b.len() as int),
    ensures
        ({
            let os = d.old->0.start as int;
            let oe = d.old->0.end as int;
            let ns = d.new->0.start as int;
            let ne = d.new->0.end as int;
            let common = if oe - os < ne - ns { oe - os } else { ne - ns };
            let out = refine_one(a, b, d);
            forall|k: int| 0 <= k < out.len() && (#[trigger] out[k]).change == ChangeType::Modified ==> {
                let o = out[k].old->0;
                let n = out[k].new->0;
                &&& out[k].old is Some && out[k].new is Some
                &&& os <= o.start < o.end <= os + common
                &&& n.start == ns + (o.start - os) && n.end == ns + (o.end - os)
                &&& out[k].length == o.end - o.start
                &&& a[o.start as int] != b[n.start as int]
                &&& a[o.end - 1] != b[n.end - 1]
            }
        }),
{
    let os = d.old->0.start as int;
    let oe = d.old->0.end as int;
    let ns = d.new->0.start as int;
    let ne = d.new->0.end as int;
    let alen = oe - os;
    let blen = ne - ns;
    let common = if alen < blen { alen } else { blen };
    let sr = scan_runs(a, b, os, ns, common, 0, Seq::empty());
    lemma_scan_cover(a, b, os, ns, common, 0, Seq::empty());
    let runs = run_entries(os, ns, sr);
    let tail = if alen > blen {
        seq![DiffEntry { offset: (os + blen) as u64, length: (alen - blen) as u64, change: ChangeType::Removed,
            old: Some(Range { start: (os + blen) as u64, end: oe as u64 }), new: None }]
    } else if blen > alen {
        seq![DiffEntry { offset: (ns + alen) as u64, length: (blen - alen) as u64, change: ChangeType::Added,
            old: None, new: Some(Range { start: (ns + alen) as u64, end: ne as u64 }) }]
    } else {
        Seq::<DiffEntry>::empty()
    };
    let out = refine_one(a, b, d);
    assert(out == runs + tail);
    assert forall|k: int| 0 <= k < out.len() && (#[trigger] out[k]).change == ChangeType::Modified implies {
        let o = out[k].old->0;
        let n = out[k].new->0;
        &&& out[k].old is Some && out[k].new is Some
        &&& os <= o.start < o.end <= os + common
        &&& n.start == ns + (o.start - os) && n.end == ns + (o.end - os)
        &&& out[k].length == o.end - o.start
        &&& a[o.start as int] != b[n.start as int]
        &&& a[o.end - 1] != b[n.end - 1]
    } by {
        if k >= runs.len() {
            assert(out[k] == tail[k - runs.len()]);
        } else {
            assert(out[k] == runs[k]);
            assert(runs[k] == modified_run(os, ns, sr[k]));
            assert(run_edges_differ(a, b, os, ns, sr[k]));
        }
    }
}

fn differing_runs(a: &[u8], b: &[u8], os: usize, ns: usize, common: usize) -> (runs: Vec<(usize, usize)>)
    requires
        os + common <= a@.len(),
        ns + common <= b@.len(),
    ensures
        runs@.map_values(|r: (usize, usize)| (r.0 as int, r.1 as int)) == scan_runs(a@, b@, os as int, ns as int, common as int, 0, Seq::empty()),
        forall|k: int| 0 <= k < runs@.len() ==> (#[trigger] runs@[k]).0 <= runs@[k].1 <= common,
{
    let ghost tgt = scan_runs(a@, b@, os as int, ns as int, common as int, 0, Seq::empty());
    let mut runs: Vec<(usize, usize)> = Vec::new();
    let mut i: usize = 0;
    assert(runs@.map_values(|r: (usize, usize)| (r.0 as int, r.1 as int)) =~= Seq::<(int, int)>::empty());
    while i < common
        invariant
            os + common <= a.len(),
            ns + common <= b.len(),
            i <= common,
            tgt == scan_runs(a@, b@, os as int, ns as int, common as int, i as int, runs@.map_values(|r: (usize, usize)| (r.0 as int, r.1 as int))),
            forall|k: int| 0 <= k < runs@.len() ==> (#[trigger] runs@[k]).0 <= runs@[k].1 <= i,
        decreases common - i,
    {
        if a[os + i] != b[ns + i] {
            let start = i;
            let ghost rv = runs@.map_values(|r: (usize, usize)| (r.0 as int, r.1 as int));
            proof {
                lemma_mismatch_end(a@, b@, os as int, ns as int, common as int, i as int);
            }
            while i < common && a[os + i] != b[ns + i]
                invariant
                    os + common <= a.len(),
                    ns + common <= b.len(),
                    start <= i <= common,
                    mismatch_end(a@, b@, os as int, ns as int, common as int, start as int) == mismatch_end(a@, b@, os as int, ns as int, common as int, i as int),
                decreases common - i,
            {
                i = i + 1;
            }
            let n = runs.len();
            if n > 0 && start - runs[n - 1].1 <= MIN_GAP {
                let first = runs[n - 1].0;
                runs.set(n - 1, (first, i));
                proof {
                    assert(runs@.map_values(|r: (usize, usize)| (r.0 as int, r.1 as int)) =~= rv.update(rv.len() - 1, (rv.last().0, i as int)));
                }
            } else {
                runs.push((start, i));
                proof {
                    assert(runs@.map_values(|r: (usize, usize)| (r.0 as int, r.1 as int)) =~= rv.push((start as int, i as int)));
                }
            }
        } else {
            i = i + 1;
        }
    }
    runs
}

/// The progress value reported before refining entry `idx` of `total`: the refinement
/// covers 70 to 90 percent of the whole comparison.
pub open spec fn progress_spec(idx: int, total: int) -> int {
    70 + (20 * idx) / total
}

/// The progress value before refining entry `idx` of `total`.
pub fn refine_progress(idx: usize, total: usize) -> (p: u32)
    requires
        idx < total,
        20 * idx <= usize::MAX,
    ensures
        p == progress_spec(idx as int, total as int),
        70 <= p < 90,
{
    let q = 20 * idx / total;
    assert(q < 20) by (nonlinear_arith)
        requires
            idx < total,
            q as int == (20 * idx) as int / (total as int),
    ;
    70 + q as u32
}

/// Refines every Modified entry that has both ranges to the byte runs that differ
/// (neighbouring runs at most `MIN_GAP` apart merged) plus the excess bytes of the longer
/// side; other entries are kept as they are. Before each entry `progress`, when given,
/// receives the progress value of that entry (`refine_progress`).
pub fn refine_byte_level<F: Fn(u32)>(a: &[u8], b: &[u8], diffs: Vec<DiffEntry>, progress: Option<&F>) -> (out: Vec<DiffEntry>)
    requires
        forall|k: int| 0 <= k < diffs@.len() ==> refine_input_ok(#[trigger] diffs@[k], a@.len() as int, b@.len() as int),
        20 * diffs@.len() <= usize::MAX,
        progress matches Some(f) ==> forall|v: u32| call_requires(f, (v,)),
    ensures
        out@ == refine_all(a@, b@, diffs@),
{
    let mut out: Vec<DiffEntry> = Vec::new();
    let total = diffs.len();
    let la = a.len();
    let lb = b.len();
    let mut idx: usize = 0;
    while idx < total
        invariant
            la == a@.len(),
            lb == b@.len(),
            total == diffs@.len(),
            idx <= total,
            forall|k: int| 0 <= k < diffs@.len() ==> refine_input_ok(#[trigger] diffs@[k], a@.len() as int, b@.len() as int),
            out@ == refine_all(a@, b@, diffs@.subrange(0, idx as int)),
            20 * total <= usize::MAX,
            progress matches Some(f) ==> forall|v: u32| call_requires(f, (v,)),
        decreases total - idx,
    {
        if let Some(f) = progress {
            f(refine_progress(idx, total));
        }
        let d = &diffs[idx];
        proof {
            assert(diffs@.subrange(0, idx + 1).drop_last() =~= diffs@.subrange(0, idx as int));
            assert(refine_input_ok(diffs@[idx as int], a@.len() as int, b@.len() as int));
        }
        let ghost before = out@;
        if d.change == ChangeType::Modified && d.old.is_some() && d.new.is_some() {
            let (os, oe) = match &d.old {
                Some(r) => (r.start as usize, r.end as usize),
                None => (0, 0),
            };
            let (ns, ne) = match &d.new {
                Some(r) => (r.start as usize, r.end as usize),
                None => (0, 0),
            };
            let alen = oe - os;
            let blen = ne - ns;
            let common = if alen < blen { alen } else { blen };
            let runs = differing_runs(a, b, os, ns, common);
            let nr = runs.len();
            let mut k: usize = 0;
            while k < nr
                invariant
                    nr == runs@.len(),
                    k <= nr,
                    os + alen <= la,
                    ns + blen <= lb,
                    la == a@.len(),
                    lb == b@.len(),
                    common <= alen,
                    common <= blen,
                    forall|t: int| 0 <= t < runs@.len() ==> (#[trigger] runs@[t]).0 <= runs@[t].1 <= common,
                    out@ == before + run_entries(os as int, ns as int, runs@.map_values(|r: (usize, usize)| (r.0 as int, r.1 as int)).subrange(0, k as int)),
                decreases nr - k,
            {
                let (s, e) = runs[k];
                proof {
                    assert(runs@[k as int].0 <= runs@[k as int].1 <= common);
                }
                let m = DiffEntry {
                    offset: (os + s) as u64,
                    length: (e - s) as u64,
                    change: ChangeType::Modified,
                    old: Some(Range { start: (os + s) as u64, end: (os + e) as u64 }),
                    new: Some(Range { start: (ns + s) as u64, end: (ns + e) as u64 }),
                };
                out.push(m);
                proof {
                    let rv = runs@.map_values(|r: (usize, usize)| (r.0 as int, r.1 as int));
                    assert(run_entries(os as int, ns as int, rv.subrange(0, k + 1)) =~= run_entries(os as int, ns as int, rv.subrange(0, k as int)).push(m));
                }
                k = k + 1;
            }
            proof {
                let rv = runs@.map_values(|r: (usize, usize)| (r.0 as int, r.1 as int));
                assert(rv.subrange(0, nr as int) =~= rv);
            }
            let ghost mid = out@;
            if alen > blen {
                out.push(DiffEntry { offset: (os + blen) as u64, length: (alen - blen) as u64, change: ChangeType::Removed,
                    old: Some(Range { start: (os + blen) as u64, end: oe as u64 }), new: None });
            } else if blen > alen {
                out.push(DiffEntry { offset: (ns + alen) as u64, length: (blen - alen) as u64, change: ChangeType::Added,
                    old: None, new: Some(Range { start: (ns + alen) as u64, end: ne as u64 }) });
            }
            proof {
                assert(out@ =~= before + refine_one(a@, b@, diffs@[idx as int]));
            }
        } else {
            out.push(crate::aligner::dup_entry(d));
            proof {
                assert(out@ =~= before + refine_one(a@, b@, diffs@[idx as int]));
            }
        }
        idx = idx + 1;
    }
    assert(diffs@.subrange(0, total as int) =~= diffs@);
    out
}

} // verus!
