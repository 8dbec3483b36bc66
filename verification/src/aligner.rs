//! Aligner: merges a Removed entry and the Added entry right after it (within a gap that
//! depends on the alignment mode) into one Modified entry; a close run of such pairs
//! collapses into one Modified entry covering the whole run.

use std::ops::Range;
use vstd::prelude::*;
use crate::RvaError;
use crate::diff_engine::{ChangeType, DiffEntry};
use crate::file_loader::LoadedFile;
use crate::util::{is_stable_order, stable_order};

verus! {

#[derive(Debug, Clone, Copy, PartialEq, Eq, Structural)]
pub enum AlignMode {
    /// Bytes are the unit.
    Byte,
    /// Disassembled instruction boundaries.
    Instruction,
    /// Function granularity.
    Function,
}

/// Default aligner; `merge_gap` is the largest distance (bytes) between the end of a
/// Removed range and the start of the next Added range that still merges them (byte mode).
pub struct DefaultAligner {
    pub merge_gap: usize,
}

impl Default for DefaultAligner {
    fn default() -> (a: Self)
        ensures
            a.merge_gap == 16,
    {
        DefaultAligner { merge_gap: 16 }
    }
}

/// Sort key: the old start of a Removed entry, the new start of an Added one, the offset of
/// a Modified one (the offset when the range is missing).
pub open spec fn coord_key_spec(e: DiffEntry) -> u64 {
    match e.change {
        ChangeType::Removed => match e.old { Some(r) => r.start, None => e.offset },
        ChangeType::Added => match e.new { Some(r) => r.start, None => e.offset },
        ChangeType::Modified => e.offset,
    }
}

pub open spec fn coord_keys(v: Seq<DiffEntry>) -> Seq<u64> {
    v.map_values(|e: DiffEntry| coord_key_spec(e))
}

fn coord_key(e: &DiffEntry) -> (k: u64)
    ensures
        k == coord_key_spec(*e),
{
    match e.change {
        ChangeType::Removed => match &e.old {
            Some(r) => r.start,
            None => e.offset,
        },
        ChangeType::Added => match &e.new {
            Some(r) => r.start,
            None => e.offset,
        },
        ChangeType::Modified => e.offset,
    }
}

/// The entries that the aligner accepts: a Removed entry carries its old range and an Added
/// entry its new range, not reversed and within i64 (Modified entries are taken as they are).
pub open spec fn align_input_ok(e: DiffEntry) -> bool {
    &&& (e.change == ChangeType::Removed ==> (e.old matches Some(r) && r.start <= r.end <= i64::MAX))
    &&& (e.change == ChangeType::Added ==> (e.new matches Some(r) && r.start <= r.end <= i64::MAX))
}

pub open spec fn rem_end(e: DiffEntry) -> int {
    match e.old {
        Some(r) => r.end as int,
        None => e.offset as int,
    }
}

pub open spec fn add_start(e: DiffEntry) -> int {
    match e.new {
        Some(r) => r.start as int,
        None => e.offset as int,
    }
}

pub open spec fn abs_int(x: int) -> int {
    if x < 0 { -x } else { x }
}

/// `r` is a Removed entry and `a` an Added entry that starts within `gap` of its end.
pub open spec fn mergeable(r: DiffEntry, a: DiffEntry, gap: int) -> bool {
    r.change == ChangeType::Removed && a.change == ChangeType::Added && abs_int(add_start(a) - rem_end(r)) <= gap
}

/// The Modified entry that spans the old range `o` and the new range `n`.
pub open spec fn span_entry(o: Range<u64>, n: Range<u64>) -> DiffEntry {
    DiffEntry {
        offset: if o.start <= n.start { o.start } else { n.start },
        length: if o.end - o.start >= n.end - n.start { (o.end - o.start) as u64 } else { (n.end - n.start) as u64 },
        change: ChangeType::Modified,
        old: Some(o),
        new: Some(n),
    }
}

/// The Modified entry that replaces a Removed / Added pair.
pub open spec fn merged_spec(r: DiffEntry, a: DiffEntry) -> DiffEntry {
    span_entry(r.old->0, a.new->0)
}

/// The smallest range that covers both `x` and `y`.
pub open spec fn hull(x: Range<u64>, y: Range<u64>) -> Range<u64> {
    Range { start: if x.start <= y.start { x.start } else { y.start }, end: if x.end >= y.end { x.end } else { y.end } }
}

/// The start of the old range of `e` (its offset when the range is missing).
pub open spec fn rem_start(e: DiffEntry) -> int {
    match e.old {
        Some(r) => r.start as int,
        None => e.offset as int,
    }
}

/// The Modified entry `m` of a run, grown to cover the pair `r`, `a` too.
pub open spec fn widen_spec(m: DiffEntry, r: DiffEntry, a: DiffEntry) -> DiffEntry {
    span_entry(hull(m.old->0, r.old->0), hull(m.new->0, a.new->0))
}

/// The pair `r`, `a` continues the run `m`: it is a mergeable pair and `r` starts within
/// `gap` of the end of the old range of `m`.
pub open spec fn continues(m: DiffEntry, r: DiffEntry, a: DiffEntry, gap: int) -> bool {
    mergeable(r, a, gap) && abs_int(rem_start(r) - rem_end(m)) <= gap
}

/// The aligned list of the sorted entries `v`, where `cur` is the Modified entry of a run
/// of alternating Removed / Added pairs that is still open.
pub open spec fn align_run(cur: Option<DiffEntry>, v: Seq<DiffEntry>, gap: int) -> Seq<DiffEntry>
    decreases v.len(), (if cur is Some { 1int } else { 0int }),
{
    match cur {
        Some(m) => {
            if v.len() >= 2 && continues(m, v[0], v[1], gap) {
                align_run(Some(widen_spec(m, v[0], v[1])), v.subrange(2, v.len() as int), gap)
            } else {
                seq![m] + align_run(None, v, gap)
            }
        },
        None => {
            if v.len() == 0 {
                Seq::empty()
            } else if v.len() >= 2 && mergeable(v[0], v[1], gap) {
                align_run(Some(merged_spec(v[0], v[1])), v.subrange(2, v.len() as int), gap)
            } else {
                seq![v[0]] + align_run(None, v.drop_first(), gap)
            }
        },
    }
}

/// The aligned list of the sorted entries `v`: each Removed entry followed by an Added entry
/// within `gap` becomes one Modified entry, and a run of such pairs, each starting within
/// `gap` of the old end of the run, collapses into one Modified entry covering the run.
pub open spec fn align_fold(v: Seq<DiffEntry>, gap: int) -> Seq<DiffEntry> {
    align_run(None, v, gap)
}

/// A Modified entry spans both of its ranges: it carries an old and a new range, neither
/// reversed, starts at the smaller of their starts, and its length is the larger of their
/// lengths (so at least each of them).
pub open spec fn spans_both(e: DiffEntry) -> bool {
    e.change == ChangeType::Modified ==> (e.old matches Some(o) && e.new matches Some(n)
        && o.start <= o.end && n.start <= n.end
        && e.length >= o.end - o.start && e.length >= n.end - n.start
        && (e.length == o.end - o.start || e.length == n.end - n.start)
        && e.offset <= o.start && e.offset <= n.start && (e.offset == o.start || e.offset == n.start))
}

proof fn lemma_run_spans(cur: Option<DiffEntry>, v: Seq<DiffEntry>, gap: int)
    requires
        forall|k: int| 0 <= k < v.len() ==> align_input_ok(#[trigger] v[k]) && spans_both(v[k]),
        cur matches Some(m) ==> m.change == ChangeType::Modified && spans_both(m),
    ensures
        forall|k: int| 0 <= k < align_run(cur, v, gap).len() ==> spans_both(#[trigger] align_run(cur, v, gap)[k]),
    decreases v.len(), (if cur is Some { 1int } else { 0int }),
{
    let out = align_run(cur, v, gap);
    match cur {
        Some(m) => {
            if v.len() >= 2 && continues(m, v[0], v[1], gap) {
                let rest = v.subrange(2, v.len() as int);
                assert(align_input_ok(v[0]) && align_input_ok(v[1]));
                assert forall|k: int| 0 <= k < rest.len() implies align_input_ok(#[trigger] rest[k]) && spans_both(rest[k]) by {
                    assert(rest[k] == v[k + 2]);
                }
                let w = widen_spec(m, v[0], v[1]);
                let o1 = hull(m.old->0, v[0].old->0);
                let n1 = hull(m.new->0, v[1].new->0);
                assert(o1.start <= o1.end && n1.start <= n1.end);
                assert(w == span_entry(o1, n1));
                assert(spans_both(w));
                lemma_run_spans(Some(w), rest, gap);
                assert(out == align_run(Some(w), rest, gap));
            } else {
                lemma_run_spans(None, v, gap);
                let tail = align_run(None, v, gap);
                assert(out == seq![m] + tail);
                assert forall|k: int| 0 <= k < out.len() implies spans_both(#[trigger] out[k]) by {
                    if k > 0 {
                        assert(out[k] == tail[k - 1]);
                    }
                }
            }
        },
        None => {
            if v.len() == 0 {
            } else if v.len() >= 2 && mergeable(v[0], v[1], gap) {
                let rest = v.subrange(2, v.len() as int);
                assert(align_input_ok(v[0]) && align_input_ok(v[1]));
                assert forall|k: int| 0 <= k < rest.len() implies align_input_ok(#[trigger] rest[k]) && spans_both(rest[k]) by {
                    assert(rest[k] == v[k + 2]);
                }
                let w = merged_spec(v[0], v[1]);
                assert(spans_both(w));
                lemma_run_spans(Some(w), rest, gap);
                assert(out == align_run(Some(w), rest, gap));
            } else {
                let rest = v.drop_first();
                assert forall|k: int| 0 <= k < rest.len() implies align_input_ok(#[trigger] rest[k]) && spans_both(rest[k]) by {
                    assert(rest[k] == v[k + 1]);
                }
                lemma_run_spans(None, rest, gap);
                let tail = align_run(None, rest, gap);
                assert(spans_both(v[0]));
                assert forall|k: int| 0 <= k < out.len() implies spans_both(#[trigger] out[k]) by {
                    if k > 0 {
                        assert(out[k] == tail[k - 1]);
                    }
                }
            }
        },
    }
}

/// Every Modified entry that alignment produces spans both of its ranges (`spans_both`):
/// a Removed / Added pair, or a run of them, merges into an entry whose length is the
/// larger of its old and new range lengths and whose offset is the smaller start; entries
/// kept as they are keep the property they had.
pub proof fn law_align_spans_both(v: Seq<DiffEntry>, gap: int)
    requires
        forall|k: int| 0 <= k < v.len() ==> align_input_ok(#[trigger] v[k]) && spans_both(v[k]),
    ensures
        forall|k: int| 0 <= k < align_fold(v, gap).len() ==> spans_both(#[trigger] align_fold(v, gap)[k]),
{
    lemma_run_spans(None, v, gap);
}

/// A Removed entry followed by an Added entry whose new range starts within `gap` of the
/// Removed range's end becomes exactly one Modified entry that keeps the Removed entry's
/// old range and the Added entry's new range, and spans both (`spans_both`).
pub proof fn law_align_merges_pair(r: DiffEntry, a: DiffEntry, gap: int)
    requires
        align_input_ok(r),
        align_input_ok(a),
        r.change == ChangeType::Removed,
        a.change == ChangeType::Added,
        abs_int(a.new->0.start - r.old->0.end) <= gap,
    ensures
        align_fold(seq![r, a], gap).len() == 1,
        align_fold(seq![r, a], gap)[0].change == ChangeType::Modified,
        align_fold(seq![r, a], gap)[0].old == r.old,
        align_fold(seq![r, a], gap)[0].new == a.new,
        spans_both(align_fold(seq![r, a], gap)[0]),
{
    let v = seq![r, a];
    let rest = v.subrange(2, 2);
    assert(rest =~= Seq::<DiffEntry>::empty());
    assert(mergeable(v[0], v[1], gap));
    let m = merged_spec(r, a);
    assert(align_run(Some(m), rest, gap) == seq![m] + align_run(None, rest, gap));
    assert(align_run(None, rest, gap) =~= Seq::<DiffEntry>::empty());
    assert(align_fold(v, gap) =~= seq![m]);
}

/// The Modified entry of a run carries both ranges, not reversed, within i64.
pub open spec fn run_ok(m: DiffEntry) -> bool {
    &&& m.old matches Some(o) && o.start <= o.end <= i64::MAX
    &&& m.new matches Some(n) && n.start <= n.end <= i64::MAX
}

fn span_of(o: Range<u64>, n: Range<u64>) -> (m: DiffEntry)
    requires
        o.start <= o.end,
        n.start <= n.end,
    ensures
        m == span_entry(o, n),
{
    let offset = if o.start <= n.start { o.start } else { n.start };
    let length = if o.end - o.start >= n.end - n.start { o.end - o.start } else { n.end - n.start };
    DiffEntry { offset, length, change: ChangeType::Modified, old: Some(o), new: Some(n) }
}

fn old_range(e: &DiffEntry) -> (r: Range<u64>)
    requires
        e.old is Some,
    ensures
        r == e.old->0,
{
    match &e.old {
        Some(r) => Range { start: r.start, end: r.end },
        None => Range { start: 0, end: 0 },
    }
}

fn new_range(e: &DiffEntry) -> (r: Range<u64>)
    requires
        e.new is Some,
    ensures
        r == e.new->0,
{
    match &e.new {
        Some(r) => Range { start: r.start, end: r.end },
        None => Range { start: 0, end: 0 },
    }
}

fn hull_of(x: Range<u64>, y: Range<u64>) -> (h: Range<u64>)
    ensures
        h == hull(x, y),
{
    Range { start: if x.start <= y.start { x.start } else { y.start }, end: if x.end >= y.end { x.end } else { y.end } }
}

/// Distance between two coordinates that fit in an i64.
fn dist(x: u64, y: u64) -> (d: i64)
    requires
        x <= i64::MAX,
        y <= i64::MAX,
    ensures
        d == abs_int(x - y),
{
    let d: i64 = x as i64 - y as i64;
    if d < 0 { -d } else { d }
}

/// A copy of `e`.
pub fn dup_entry(e: &DiffEntry) -> (c: DiffEntry)
    ensures
        c == *e,
{
    DiffEntry {
        offset: e.offset,
        length: e.length,
        change: e.change,
        old: match &e.old {
            Some(r) => Some(Range { start: r.start, end: r.end }),
            None => None,
        },
        new: match &e.new {
            Some(r) => Some(Range { start: r.start, end: r.end }),
            None => None,
        },
    }
}

impl DefaultAligner {
    pub fn new(merge_gap: usize) -> (a: Self)
        ensures
            a.merge_gap == merge_gap,
    {
        DefaultAligner { merge_gap }
    }

    /// The merge gap of a mode: the configured one for bytes, 16 for instructions, 256 for functions.
    pub open spec fn gap_spec(&self, mode: AlignMode) -> i64 {
        match mode {
            AlignMode::Byte => self.merge_gap as i64,
            AlignMode::Instruction => 16,
            AlignMode::Function => 256,
        }
    }

    pub fn gap_threshold(&self, mode: AlignMode) -> (g: i64)
        ensures
            g == self.gap_spec(mode),
    {
        match mode {
            AlignMode::Byte => self.merge_gap as i64,
            AlignMode::Instruction => 16,
            AlignMode::Function => 256,
        }
    }
}

/// Aligns diff entries.
pub trait Aligner {
    /// Aligns the entries of a diff of `a` and `b` at the granularity of `mode`.
    fn align(&self, a: &LoadedFile, b: &LoadedFile, diffs: Vec<DiffEntry>, mode: AlignMode) -> (r: Result<Vec<DiffEntry>, RvaError>)
        requires
            forall|k: int| 0 <= k < diffs@.len() ==> align_input_ok(#[trigger] diffs@[k]),
    ;
}

impl Aligner for DefaultAligner {
    /// Orders the entries by file coordinate (stable) and merges each Removed entry with an
    /// Added entry right behind it that starts within the mode's gap of its end into one
    /// Modified entry spanning both ranges; further pairs whose Removed entry starts within the
    /// gap of the run's old end join the same Modified entry; other entries are kept.
    fn align(&self, a: &LoadedFile, b: &LoadedFile, diffs: Vec<DiffEntry>, mode: AlignMode) -> (r: Result<Vec<DiffEntry>, RvaError>)
        ensures
            r matches Ok(out) && exists|order: Seq<usize>| is_stable_order(coord_keys(diffs@), order)
                && out@ == align_fold(order.map_values(|k: usize| diffs@[k as int]), self.gap_spec(mode) as int),
    {
        let n = diffs.len();
        let mut keys: Vec<u64> = Vec::new();
        let mut i: usize = 0;
        while i < n
            invariant
                n == diffs@.len(),
                i <= n,
                keys@ == coord_keys(diffs@).subrange(0, i as int),
            decreases n - i,
        {
            keys.push(coord_key(&diffs[i]));
            i = i + 1;
        }
        assert(keys@ =~= coord_keys(diffs@));
        let order = stable_order(&keys);
        let mut v: Vec<DiffEntry> = Vec::new();
        let mut j: usize = 0;
        while j < n
            invariant
                n == diffs@.len(),
                is_stable_order(coord_keys(diffs@), order@),
                j <= n,
                v@ == order@.subrange(0, j as int).map_values(|k: usize| diffs@[k as int]),
            decreases n - j,
        {
            proof {
                assert(order@[j as int] < coord_keys(diffs@).len());
            }
            let e = dup_entry(&diffs[order[j]]);
            v.push(e);
            proof {
                assert(v@ =~= order@.subrange(0, j + 1).map_values(|k: usize| diffs@[k as int]));
            }
            j = j + 1;
        }
        let ghost sorted = order@.map_values(|k: usize| diffs@[k as int]);
        assert(order@.subrange(0, n as int) =~= order@);
        assert forall|k: int| 0 <= k < v@.len() implies align_input_ok(#[trigger] v@[k]) by {
            assert(order@[k] < coord_keys(diffs@).len());
        }
        let gap = self.gap_threshold(mode);
        let mut out: Vec<DiffEntry> = Vec::new();
        let mut i: usize = 0;
        let mut open = false;
        let mut run = DiffEntry { offset: 0, length: 0, change: ChangeType::Modified, old: None, new: None };
        assert(v@.subrange(0, n as int) =~= v@);
        assert(out@ + align_fold(v@, gap as int) =~= align_fold(v@, gap as int));
        while i < n
            invariant
                v@.len() == n,
                v@ == sorted,
                i <= n,
                forall|k: int| 0 <= k < v@.len() ==> align_input_ok(#[trigger] v@[k]),
                open ==> run_ok(run),
                out@ + align_run(if open { Some(run) } else { None }, v@.subrange(i as int, n as int), gap as int)
                    == align_fold(v@, gap as int),
            decreases 2 * (n - i) + (if open { 1int } else { 0int }),
        {
            let ghost rest = v@.subrange(i as int, n as int);
            let e = &v[i];
            let mut pair = false;
            if e.change == ChangeType::Removed && i + 1 < n && v[i + 1].change == ChangeType::Added {
                proof {
                    assert(align_input_ok(v@[i as int]));
                    assert(align_input_ok(v@[i + 1]));
                }
                let re = old_range(e).end;
                let ad = new_range(&v[i + 1]).start;
                pair = dist(ad, re) <= gap;
            }
            proof {
                if i + 1 < n {
                    assert(rest[0] == v@[i as int] && rest[1] == v@[i + 1]);
                    assert(rest.subrange(2, rest.len() as int) =~= v@.subrange(i + 2, n as int));
                }
                assert(rest.drop_first() =~= v@.subrange(i + 1, n as int));
            }
            if open {
                let mut grow = false;
                if pair {
                    let rs = old_range(e).start;
                    let me = old_range(&run).end;
                    grow = dist(rs, me) <= gap;
                }
                if grow {
                    let w = span_of(hull_of(old_range(&run), old_range(e)), hull_of(new_range(&run), new_range(&v[i + 1])));
                    proof {
                        assert(w == widen_spec(run, v@[i as int], v@[i + 1]));
                    }
                    run = w;
                    i = i + 2;
                } else {
                    proof {
                        assert(out@.push(run) + align_run(None, rest, gap as int) =~= out@ + align_run(Some(run), rest, gap as int));
                    }
                    out.push(run);
                    open = false;
                    run = DiffEntry { offset: 0, length: 0, change: ChangeType::Modified, old: None, new: None };
                }
            } else if pair {
                let m = span_of(old_range(e), new_range(&v[i + 1]));
                proof {
                    assert(m == merged_spec(v@[i as int], v@[i + 1]));
                }
                run = m;
                open = true;
                i = i + 2;
            } else {
                let c = dup_entry(e);
                proof {
                    assert(out@.push(c) + align_run(None, v@.subrange(i + 1, n as int), gap as int) =~= out@ + align_run(None, rest, gap as int));
                }
                out.push(c);
                i = i + 1;
            }
        }
        proof {
            assert(v@.subrange(n as int, n as int) =~= Seq::<DiffEntry>::empty());
        }
        if open {
            proof {
                assert(align_run(None, Seq::<DiffEntry>::empty(), gap as int) =~= Seq::<DiffEntry>::empty());
                assert(out@.push(run) =~= out@ + align_run(Some(run), Seq::<DiffEntry>::empty(), gap as int));
            }
            out.push(run);
        } else {
            proof {
                assert(out@ + Seq::<DiffEntry>::empty() =~= out@);
            }
        }
        Ok(out)
    }
}

} // verus!
