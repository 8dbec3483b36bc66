//! Diff detection engine: chunked-hash and sliding-window strategies producing a
//! normalized list of diff entries.

use std::ops::Range;
use vstd::prelude::*;
use crate::util::{pairs_sorted, pair_le, sort_pairs, ranges_equal};
use crate::hashing::{xxh, spec_xxh64, XXH_SEED};

verus! {

/// Kind of one difference between an old file A and a new file B.
#[derive(Debug, Clone, Copy, PartialEq, Eq, Structural)]
pub enum ChangeType {
    /// Absent in A, present in B.
    Added,
    /// Present in A, absent in B.
    Removed,
    /// Present in both but different.
    Modified,
}

/// One difference between A and B.
#[derive(Debug, Clone)]
pub struct DiffEntry {
    pub offset: u64,
    pub length: u64,
    pub change: ChangeType,
    /// Byte range in A (zero-length at the insertion point for Added; the removed range for Removed).
    pub old: Option<Range<u64>>,
    /// Byte range in B (None for Removed; the added or replaced range for Added/Modified).
    pub new: Option<Range<u64>>,
}

/// Diff strategy and its parameters.
#[derive(Debug, Clone, Copy)]
pub enum DiffStrategy {
    /// Fixed-size chunk hashing.
    ChunkedHash { chunk_size: usize },
    /// Rolling-hash sliding window.
    SlidingWindow { window: usize, min_match: usize },
    /// Function-level structural matching of normalized disassembly.
    StructureMatch { min_run: usize },
}

pub open spec fn span(s: int, e: int) -> Option<Range<u64>> {
    Some(Range { start: s as u64, end: e as u64 })
}

/// A Removed entry for `a[s..e]`.
pub open spec fn removed_spec(s: int, e: int) -> DiffEntry {
    DiffEntry { offset: s as u64, length: (e - s) as u64, change: ChangeType::Removed, old: span(s, e), new: None }
}

/// An Added entry for `b[s..e]` inserted at position `at` of A.
pub open spec fn added_spec(at: int, s: int, e: int) -> DiffEntry {
    DiffEntry { offset: s as u64, length: (e - s) as u64, change: ChangeType::Added, old: span(at, at), new: span(s, e) }
}

/// A Modified entry replacing `a[s..s+n]` by `b[t..t+n]`.
pub open spec fn modified_spec(s: int, t: int, n: int) -> DiffEntry {
    DiffEntry { offset: s as u64, length: n as u64, change: ChangeType::Modified, old: span(s, s + n), new: span(t, t + n) }
}

/// `e` is a well-formed engine entry for an old file of `la` bytes and a new file of `lb`
/// bytes: its ranges are non-empty, lie inside the files, and its offset and length are
/// those of the range it reports.
pub open spec fn entry_wf(e: DiffEntry, la: int, lb: int) -> bool {
    match e.change {
        ChangeType::Removed => exists|s: int, t: int| 0 <= s < t <= la && e == removed_spec(s, t),
        ChangeType::Added => exists|p: int, s: int, t: int|
            0 <= p <= la && 0 <= s < t <= lb && e == added_spec(p, s, t),
        ChangeType::Modified => exists|s: int, t: int, n: int|
            0 < n && 0 <= s && s + n <= la && 0 <= t && t + n <= lb && e == modified_spec(s, t, n),
    }
}

pub open spec fn entries_wf(es: Seq<DiffEntry>, la: int, lb: int) -> bool {
    forall|i: int| 0 <= i < es.len() ==> entry_wf(#[trigger] es[i], la, lb)
}

pub(crate) fn mk_removed(s: usize, e: usize) -> (r: DiffEntry)
    requires
        s < e,
    ensures
        r == removed_spec(s as int, e as int),
{
    DiffEntry {
        offset: s as u64,
        length: (e - s) as u64,
        change: ChangeType::Removed,
        old: Some(Range { start: s as u64, end: e as u64 }),
        new: None,
    }
}

pub(crate) fn mk_added(at: usize, s: usize, e: usize) -> (r: DiffEntry)
    requires
        s < e,
    ensures
        r == added_spec(at as int, s as int, e as int),
{
    DiffEntry {
        offset: s as u64,
        length: (e - s) as u64,
        change: ChangeType::Added,
        old: Some(Range { start: at as u64, end: at as u64 }),
        new: Some(Range { start: s as u64, end: e as u64 }),
    }
}

pub(crate) fn mk_modified(s: usize, t: usize, n: usize) -> (r: DiffEntry)
    requires
        s + n <= usize::MAX,
        t + n <= usize::MAX,
    ensures
        r == modified_spec(s as int, t as int, n as int),
{
    DiffEntry {
        offset: s as u64,
        length: n as u64,
        change: ChangeType::Modified,
        old: Some(Range { start: s as u64, end: (s + n) as u64 }),
        new: Some(Range { start: t as u64, end: (t + n) as u64 }),
    }
}

/// `e` translated by `o_off` in A and `n_off` in B.
pub open spec fn shift_entry(e: DiffEntry, o_off: int, n_off: int) -> DiffEntry {
    DiffEntry {
        offset: (e.offset + if e.change == ChangeType::Added { n_off } else { o_off }) as u64,
        length: e.length,
        change: e.change,
        old: match e.old {
            Some(r) => span(r.start + o_off, r.end + o_off),
            None => None,
        },
        new: match e.new {
            Some(r) => span(r.start + n_off, r.end + n_off),
            None => None,
        },
    }
}

pub proof fn lemma_shift_wf(e: DiffEntry, la: int, lb: int, o_off: int, n_off: int)
    requires
        entry_wf(e, la, lb),
        0 <= o_off,
        0 <= n_off,
        o_off + la <= u64::MAX,
        n_off + lb <= u64::MAX,
    ensures
        entry_wf(shift_entry(e, o_off, n_off), la + o_off, lb + n_off),
{
    match e.change {
        ChangeType::Removed => {
            let (s, t) = choose|s: int, t: int| 0 <= s < t <= la && e == removed_spec(s, t);
            assert(shift_entry(e, o_off, n_off) == removed_spec(s + o_off, t + o_off));
        },
        ChangeType::Added => {
            let (p, s, t) = choose|p: int, s: int, t: int|
                0 <= p <= la && 0 <= s < t <= lb && e == added_spec(p, s, t);
            assert(shift_entry(e, o_off, n_off) == added_spec(p + o_off, s + n_off, t + n_off));
        },
        ChangeType::Modified => {
            let (s, t, n) = choose|s: int, t: int, n: int|
                0 < n && 0 <= s && s + n <= la && 0 <= t && t + n <= lb && e == modified_spec(s, t, n);
            assert(shift_entry(e, o_off, n_off) == modified_spec(s + o_off, t + n_off, n));
        },
    }
}

/// Translates entries found inside a window back to file coordinates: A ranges by
/// `o_off`, B ranges by `n_off`; the offset follows the range it reports.
pub fn shift_entries(es: Vec<DiffEntry>, o_off: u64, n_off: u64) -> (r: Vec<DiffEntry>)
    requires
        forall|i: int| 0 <= i < es@.len() ==> {
            &&& (#[trigger] es@[i]).offset + if es@[i].change == ChangeType::Added { n_off as int } else { o_off as int } <= u64::MAX
            &&& (es@[i].old matches Some(r) ==> r.start + o_off <= u64::MAX && r.end + o_off <= u64::MAX)
            &&& (es@[i].new matches Some(r) ==> r.start + n_off <= u64::MAX && r.end + n_off <= u64::MAX)
        },
    ensures
        r@.len() == es@.len(),
        forall|i: int| 0 <= i < r@.len() ==> #[trigger] r@[i] == shift_entry(es@[i], o_off as int, n_off as int),
{
    let mut out: Vec<DiffEntry> = Vec::new();
    let mut i: usize = 0;
    let n = es.len();
    while i < n
        invariant
            n == es@.len(),
            i <= n,
            out@.len() == i,
            forall|j: int| 0 <= j < i ==> #[trigger] out@[j] == shift_entry(es@[j], o_off as int, n_off as int),
            forall|i: int| 0 <= i < es@.len() ==> {
                &&& (#[trigger] es@[i]).offset + if es@[i].change == ChangeType::Added { n_off as int } else { o_off as int } <= u64::MAX
                &&& (es@[i].old matches Some(r) ==> r.start + o_off <= u64::MAX && r.end + o_off <= u64::MAX)
                &&& (es@[i].new matches Some(r) ==> r.start + n_off <= u64::MAX && r.end + n_off <= u64::MAX)
            },
        decreases n - i,
    {
        let e = &es[i];
        let old = match &e.old {
            Some(r) => Some(Range { start: r.start + o_off, end: r.end + o_off }),
            None => None,
        };
        let new = match &e.new {
            Some(r) => Some(Range { start: r.start + n_off, end: r.end + n_off }),
            None => None,
        };
        let off = match e.change {
            ChangeType::Added => e.offset + n_off,
            _ => e.offset + o_off,
        };
        out.push(DiffEntry { offset: off, length: e.length, change: e.change, old, new });
        i = i + 1;
    }
    out
}

/// `e` is a Removed entry that carries an old range.
pub open spec fn is_rem(e: DiffEntry) -> bool {
    e.change == ChangeType::Removed && e.old is Some
}

pub open spec fn rs(e: DiffEntry) -> int {
    e.old->0.start as int
}

pub open spec fn re(e: DiffEntry) -> int {
    e.old->0.end as int
}

/// `x` lies inside the old range of some Removed entry of `sub`.
pub open spec fn removed_covers(sub: Seq<DiffEntry>, x: int) -> bool {
    exists|k: int| 0 <= k < sub.len() && is_rem(#[trigger] sub[k]) && rs(sub[k]) <= x < re(sub[k])
}

/// Some Removed entry of `sub` starts after `x`.
pub open spec fn removed_starts_after(sub: Seq<DiffEntry>, x: int) -> bool {
    exists|k: int| 0 <= k < sub.len() && is_rem(#[trigger] sub[k]) && rs(sub[k]) > x
}

/// Whether the A window `[0, wa)` holds a byte that no Removed entry of `sub` covers: an
/// uncovered position before `wa` or before the start of some Removed range.
pub open spec fn has_reanchor_spec(sub: Seq<DiffEntry>, wa: int) -> bool {
    exists|x: int| 0 <= x && !removed_covers(sub, x) && (x < wa || removed_starts_after(sub, x))
}

pub open spec fn span_in(sub: Seq<DiffEntry>, n: int, p: (u64, u64)) -> bool {
    exists|k: int| 0 <= k < n && is_rem(#[trigger] sub[k]) && rs(sub[k]) == p.0 && re(sub[k]) == p.1
}

/// Decides whether a sliding-window result inside the A window `[0, wa)` contains a real
/// matching segment: whether some byte is left uncovered by the Removed ranges.
pub fn window_has_reanchor(sub: &[DiffEntry], wa: usize) -> (r: bool)
    ensures
        r == has_reanchor_spec(sub@, wa as int),
{
    let mut covered: Vec<(u64, u64)> = Vec::new();
    let n = sub.len();
    let mut i: usize = 0;
    while i < n
        invariant
            n == sub@.len(),
            i <= n,
            forall|p: (u64, u64)| #[trigger] covered@.contains(p) <==> span_in(sub@, i as int, p),
        decreases n - i,
    {
        let ghost prev = covered@;
        let e = &sub[i];
        if e.change == ChangeType::Removed {
            match &e.old {
                Some(r) => {
                    covered.push((r.start, r.end));
                },
                None => {},
            }
        }
        proof {
            assert forall|p: (u64, u64)| #[trigger] covered@.contains(p) <==> span_in(sub@, i + 1, p) by {
                if covered@.contains(p) {
                    let j = choose|j: int| 0 <= j < covered@.len() && covered@[j] == p;
                    if j < prev.len() {
                        assert(prev.contains(p));
                    } else {
                        assert(is_rem(sub@[i as int]));
                    }
                }
                if span_in(sub@, i + 1, p) {
                    let k = choose|k: int| 0 <= k < i + 1 && is_rem(#[trigger] sub@[k]) && rs(sub@[k]) == p.0 && re(sub@[k]) == p.1;
                    if k == i {
                        assert(covered@[covered@.len() - 1] == p);
                    } else {
                        assert(span_in(sub@, i as int, p));
                        assert(prev.contains(p));
                        let j = choose|j: int| 0 <= j < prev.len() && prev[j] == p;
                        assert(covered@[j] == p);
                    }
                }
            }
        }
        i = i + 1;
    }
    let ghost before = covered@;
    sort_pairs(&mut covered);
    proof {
        assert forall|p: (u64, u64)| #[trigger] covered@.contains(p) <==> span_in(sub@, sub@.len() as int, p) by {
            vstd::seq_lib::to_multiset_contains(covered@, p);
            vstd::seq_lib::to_multiset_contains(before, p);
        }
    }
    let m = covered.len();
    let mut cur: u64 = 0;
    let mut j: usize = 0;
    while j < m
        invariant
            m == covered@.len(),
            j <= m,
            pairs_sorted(covered@),
            forall|p: (u64, u64)| #[trigger] covered@.contains(p) <==> span_in(sub@, sub@.len() as int, p),
            forall|x: int| 0 <= x < cur ==> removed_covers(sub@, x),
            forall|t: int| 0 <= t < j ==> (#[trigger] covered@[t]).1 <= cur && covered@[t].0 <= cur,
        decreases m - j,
    {
        let (s, e) = covered[j];
        proof {
            assert(covered@.contains(covered@[j as int]));
        }
        if s > cur {
            proof {
                assert(!removed_covers(sub@, cur as int)) by {
                    if removed_covers(sub@, cur as int) {
                        let k = choose|k: int| 0 <= k < sub@.len() && is_rem(#[trigger] sub@[k]) && rs(sub@[k]) <= cur < re(sub@[k]);
                        let p = (sub@[k].old->0.start, sub@[k].old->0.end);
                        assert(span_in(sub@, sub@.len() as int, p));
                        assert(covered@.contains(p));
                        let t = choose|t: int| 0 <= t < covered@.len() && covered@[t] == p;
                        if t < j {
                        } else {
                            assert(pair_le(covered@[j as int], covered@[t]));
                        }
                    }
                }
                let k = choose|k: int| 0 <= k < sub@.len() && is_rem(#[trigger] sub@[k]) && rs(sub@[k]) == s && re(sub@[k]) == e;
                assert(removed_starts_after(sub@, cur as int));
            }
            return true;
        }
        proof {
            let k = choose|k: int| 0 <= k < sub@.len() && is_rem(#[trigger] sub@[k]) && rs(sub@[k]) == s && re(sub@[k]) == e;
            assert forall|x: int| 0 <= x < (if e > cur { e } else { cur }) implies removed_covers(sub@, x) by {
                if x >= cur {
                    assert(rs(sub@[k]) <= x < re(sub@[k]));
                }
            }
        }
        if e > cur {
            cur = e;
        }
        j = j + 1;
    }
    proof {
        assert forall|x: int| cur <= x implies !removed_starts_after(sub@, x) && !removed_covers(sub@, x) by {
            if removed_starts_after(sub@, x) {
                let k = choose|k: int| 0 <= k < sub@.len() && is_rem(#[trigger] sub@[k]) && rs(sub@[k]) > x;
                let p = (sub@[k].old->0.start, sub@[k].old->0.end);
                assert(span_in(sub@, sub@.len() as int, p));
                assert(covered@.contains(p));
            }
            if removed_covers(sub@, x) {
                let k = choose|k: int| 0 <= k < sub@.len() && is_rem(#[trigger] sub@[k]) && rs(sub@[k]) <= x < re(sub@[k]);
                let p = (sub@[k].old->0.start, sub@[k].old->0.end);
                assert(span_in(sub@, sub@.len() as int, p));
                assert(covered@.contains(p));
            }
        }
        if cur < wa {
            assert(!removed_covers(sub@, cur as int));
        }
    }
    cur < wa as u64
}

} // verus!

verus! {

/// Number of `cs`-byte blocks that cover `len` bytes (the last one may be short).
pub open spec fn n_blocks(len: int, cs: int) -> int {
    len / cs + if len % cs != 0 { 1int } else { 0int }
}

pub proof fn lemma_block_start(i: int, cs: int, len: int)
    requires
        cs >= 1,
        len >= 0,
        0 <= i < n_blocks(len, cs),
    ensures
        0 <= i * cs < len,
        i * cs + cs <= len || len - i * cs < cs,
{
    assert(0 <= i * cs) by (nonlinear_arith)
        requires
            0 <= i,
            cs >= 1,
    ;
    let q = len / cs;
    let r = len % cs;
    assert(len == q * cs + r && 0 <= r < cs) by (nonlinear_arith)
        requires
            cs >= 1,
            q == len / cs,
            r == len % cs,
    ;
    if i < q {
        assert(i * cs + cs <= q * cs) by (nonlinear_arith)
            requires
                i < q,
                cs >= 1,
        ;
    } else {
        assert(i == q && r != 0);
        assert(i * cs == q * cs);
    }
}

pub proof fn lemma_blocks_mono(i: int, j: int, cs: int)
    requires
        cs >= 1,
        0 <= i <= j,
    ensures
        i * cs <= j * cs,
        i < j ==> i * cs + cs <= j * cs,
{
    assert(i * cs <= j * cs) by (nonlinear_arith)
        requires
            cs >= 1,
            0 <= i <= j,
    ;
    if i < j {
        assert(i * cs + cs <= j * cs) by (nonlinear_arith)
            requires
                cs >= 1,
                0 <= i < j,
        ;
    }
}

pub proof fn lemma_div_mul_le(x: int, cs: int)
    requires
        cs >= 1,
        x >= 0,
    ensures
        (x / cs) * cs <= x,
        x / cs >= 0,
        x < cs ==> x / cs == 0,
        x >= cs ==> (x / cs) * cs >= cs,
{
    let q = x / cs;
    let r = x % cs;
    assert(x == q * cs + r && 0 <= r < cs && q >= 0) by (nonlinear_arith)
        requires
            cs >= 1,
            x >= 0,
            q == x / cs,
            r == x % cs,
    ;
    if x < cs {
        assert(q == 0) by (nonlinear_arith)
            requires
                x == q * cs + r,
                0 <= r < cs,
                x < cs,
                x >= 0,
                q >= 0,
        ;
    }
    if x >= cs {
        assert(q >= 1) by (nonlinear_arith)
            requires
                x == q * cs + r,
                0 <= r < cs,
                x >= cs,
        ;
        assert(q * cs >= cs) by (nonlinear_arith)
            requires
                q >= 1,
                cs >= 1,
        ;
    }
}

pub proof fn lemma_mul_div_cancel(k: int, cs: int, x: int)
    requires
        cs >= 1,
        k >= 0,
        x >= 0,
    ensures
        (k * cs + x) / cs == k + x / cs,
{
    assert((k * cs + x) / cs == k + x / cs) by (nonlinear_arith)
        requires
            cs >= 1,
            k >= 0,
            x >= 0,
    ;
}

pub proof fn lemma_wf_mono(e: DiffEntry, la: int, lb: int, la2: int, lb2: int)
    requires
        entry_wf(e, la, lb),
        la <= la2,
        lb <= lb2,
    ensures
        entry_wf(e, la2, lb2),
{
}

/// End of the block that starts at `start`: `min(start + cs, len)`.
fn block_end(start: usize, cs: usize, len: usize) -> (e: usize)
    requires
        start <= len,
    ensures
        e == if start + cs <= len { start + cs } else { len as int },
{
    if len - start <= cs {
        len
    } else {
        start + cs
    }
}

/// `a[i-th block] == b[j-th block]`, both blocks non-empty.
pub open spec fn blocks_eq_spec(a: Seq<u8>, b: Seq<u8>, cs: int, i: int, j: int) -> bool {
    let as_ = i * cs;
    let ae = if as_ + cs <= a.len() { as_ + cs } else { a.len() as int };
    let bs_ = j * cs;
    let be = if bs_ + cs <= b.len() { bs_ + cs } else { b.len() as int };
    as_ < ae && bs_ < be && a.subrange(as_, ae) == b.subrange(bs_, be)
}

fn blocks_eq(a: &[u8], b: &[u8], cs: usize, i: usize, j: usize) -> (r: bool)
    requires
        cs >= 1,
        i < n_blocks(a@.len() as int, cs as int),
        j < n_blocks(b@.len() as int, cs as int),
    ensures
        r == blocks_eq_spec(a@, b@, cs as int, i as int, j as int),
{
    let la = a.len();
    let lb = b.len();
    proof {
        lemma_block_start(i as int, cs as int, la as int);
        lemma_block_start(j as int, cs as int, lb as int);
    }
    let as_ = i * cs;
    let ae = block_end(as_, cs, a.len());
    let bs_ = j * cs;
    let be = block_end(bs_, cs, b.len());
    if !(as_ < ae && bs_ < be) {
        return false;
    }
    if ae - as_ != be - bs_ {
        assert(a@.subrange(as_ as int, ae as int).len() != b@.subrange(bs_ as int, be as int).len());
        return false;
    }
    ranges_equal(a, as_, b, bs_, ae - as_)
}

/// First position from `k` on of `v` whose key is `>= h` (`> h` when `inclusive`), or the
/// length of `v` when there is none.
pub open spec fn key_point(v: Seq<(u64, u64)>, h: u64, inclusive: bool, k: int) -> int
    decreases v.len() - k,
{
    if k < 0 || k >= v.len() {
        v.len() as int
    } else if (if inclusive { v[k].0 > h } else { v[k].0 >= h }) {
        k
    } else {
        key_point(v, h, inclusive, k + 1)
    }
}

pub proof fn lemma_key_point(v: Seq<(u64, u64)>, h: u64, inclusive: bool, k: int, r: int)
    requires
        0 <= k <= r <= v.len(),
        forall|t: int| 0 <= t < r ==> if inclusive { (#[trigger] v[t]).0 <= h } else { v[t].0 < h },
        forall|t: int| r <= t < v.len() ==> if inclusive { (#[trigger] v[t]).0 > h } else { v[t].0 >= h },
    ensures
        key_point(v, h, inclusive, k) == r,
    decreases r - k,
{
    if k < r {
        lemma_key_point(v, h, inclusive, k + 1, r);
    } else if r < v.len() {
        assert(if inclusive { v[r].0 > h } else { v[r].0 >= h });
    }
}

/// First position `k` of the sorted `v` whose key is `>= h` (`> h` when `inclusive`).
pub(crate) fn partition_point(v: &Vec<(u64, u64)>, h: u64, inclusive: bool) -> (r: usize)
    requires
        pairs_sorted(v@),
    ensures
        r <= v@.len(),
        forall|k: int| 0 <= k < r ==> if inclusive { (#[trigger] v@[k]).0 <= h } else { v@[k].0 < h },
        forall|k: int| r <= k < v@.len() ==> if inclusive { (#[trigger] v@[k]).0 > h } else { v@[k].0 >= h },
        r == key_point(v@, h, inclusive, 0),
{
    let mut lo: usize = 0;
    let mut hi: usize = v.len();
    while lo < hi
        invariant
            lo <= hi <= v@.len(),
            pairs_sorted(v@),
            forall|k: int| 0 <= k < lo ==> if inclusive { (#[trigger] v@[k]).0 <= h } else { v@[k].0 < h },
            forall|k: int| hi <= k < v@.len() ==> if inclusive { (#[trigger] v@[k]).0 > h } else { v@[k].0 >= h },
        decreases hi - lo,
    {
        let mid = lo + (hi - lo) / 2;
        let below = if inclusive { v[mid].0 <= h } else { v[mid].0 < h };
        if below {
            proof {
                assert forall|k: int| 0 <= k < mid + 1 implies if inclusive { (#[trigger] v@[k]).0 <= h } else { v@[k].0 < h } by {
                    if k < mid {
                        assert(pair_le(v@[k], v@[mid as int]));
                    }
                }
            }
            lo = mid + 1;
        } else {
            proof {
                assert forall|k: int| mid <= k < v@.len() implies if inclusive { (#[trigger] v@[k]).0 > h } else { v@[k].0 >= h } by {
                    if k > mid {
                        assert(pair_le(v@[mid as int], v@[k]));
                    }
                }
            }
            hi = mid;
        }
    }
    proof {
        lemma_key_point(v@, h, inclusive, 0, lo as int);
    }
    lo
}

} // verus!

verus! {

/// `(op, np, len)` is a run of `len >= 1` identical bytes at `a[op..]` and `b[np..]`.
pub open spec fn match_ok(a: Seq<u8>, b: Seq<u8>, m: (usize, usize, usize)) -> bool {
    &&& m.2 >= 1
    &&& m.0 + m.2 <= a.len()
    &&& m.1 + m.2 <= b.len()
    &&& a.subrange(m.0 as int, m.0 + m.2) == b.subrange(m.1 as int, m.1 + m.2)
}

/// `ms` is a chain of identical runs that advance in both files without overlapping.
pub open spec fn chain_ok(a: Seq<u8>, b: Seq<u8>, ms: Seq<(usize, usize, usize)>) -> bool {
    &&& forall|k: int| 0 <= k < ms.len() ==> match_ok(a, b, #[trigger] ms[k])
    &&& chained(ms)
}

/// Multiplier of the Rabin-Karp rolling hash.
pub const RBASE: u64 = 0x9E37_79B9_7F4A_7C15;

/// `b^e` in wrapping 64-bit arithmetic.
pub open spec fn wpow(b: u64, e: nat) -> u64
    decreases e,
{
    if e == 0 {
        1
    } else {
        wpow(b, (e - 1) as nat).wrapping_mul(b)
    }
}

/// Polynomial hash of the `k` bytes `s[start..start+k]`, in wrapping 64-bit arithmetic:
/// `h = h * RBASE + byte` for each byte in order, starting from 0.
pub open spec fn window_hash(s: Seq<u8>, start: int, k: nat) -> u64
    decreases k,
{
    if k == 0 {
        0
    } else {
        window_hash(s, start, (k - 1) as nat).wrapping_mul(RBASE).wrapping_add(s[start + k - 1] as u64)
    }
}

/// One rolling step of the window hash: removes `out_byte` (weighted by `pw`), shifts,
/// and appends `in_byte`.
pub open spec fn roll_spec(h: u64, out_byte: u8, in_byte: u8, pw: u64) -> u64 {
    h.wrapping_sub((out_byte as u64).wrapping_mul(pw)).wrapping_mul(RBASE).wrapping_add(in_byte as u64)
}

/// `base^e` with wrapping multiplication.
fn rpow(base: u64, e: usize) -> (r: u64)
    ensures
        r == wpow(base, e as nat),
{
    let mut r: u64 = 1;
    let mut k: usize = 0;
    while k < e
        invariant
            k <= e,
            r == wpow(base, k as nat),
        decreases e - k,
    {
        r = r.wrapping_mul(base);
        k = k + 1;
    }
    r
}

/// Polynomial hash of `s[start..start+w]`.
fn hash_window(s: &[u8], start: usize, w: usize) -> (h: u64)
    requires
        start + w <= s@.len(),
    ensures
        h == window_hash(s@, start as int, w as nat),
{
    let mut h: u64 = 0;
    let mut k: usize = 0;
    let n = s.len();
    while k < w
        invariant
            start + w <= n,
            n == s@.len(),
            k <= w,
            h == window_hash(s@, start as int, k as nat),
        decreases w - k,
    {
        h = h.wrapping_mul(RBASE).wrapping_add(s[start + k] as u64);
        k = k + 1;
    }
    h
}

/// One rolling step: drop `out_byte`, append `in_byte`.
fn roll(h: u64, out_byte: u8, in_byte: u8, pw: u64) -> (r: u64)
    ensures
        r == roll_spec(h, out_byte, in_byte, pw),
{
    h.wrapping_sub((out_byte as u64).wrapping_mul(pw)).wrapping_mul(RBASE).wrapping_add(in_byte as u64)
}

/// Hash of the window `a[p..p+w]` as the rolling scan computes it: the first window's
/// hash, rolled forward one byte at a time.
pub open spec fn rolled_hash(a: Seq<u8>, w: nat, p: nat) -> u64
    decreases p,
{
    if p == 0 {
        window_hash(a, 0, w)
    } else {
        roll_spec(rolled_hash(a, w, (p - 1) as nat), a[p - 1], a[p - 1 + w], wpow(RBASE, (w - 1) as nat))
    }
}

/// The entries of the window index over `a`: `(rolled hash at p, p)` for
/// `p = 0, stride, 2*stride, ...` as long as the window `a[p..p+w]` fits.
pub open spec fn window_index_seq(a: Seq<u8>, w: nat, stride: nat) -> Seq<(u64, u64)> {
    if a.len() < w {
        Seq::empty()
    } else {
        Seq::new(((a.len() - w) / (stride as int) + 1) as nat, |j: int| (rolled_hash(a, w, (j * stride) as nat), (j * stride) as u64))
    }
}

/// Index over `a`: `(hash of a[p..p+w], p)` for `p = 0, stride, 2*stride, ...`, sorted.
#[verifier::rlimit(100)]
#[verifier::spinoff_prover]
fn build_index(a: &[u8], w: usize, stride: usize) -> (index: Vec<(u64, u64)>)
    requires
        w >= 1,
        stride >= 1,
        stride <= w,
        a@.len() <= u32::MAX,
        a@.len() <= usize::MAX / 8,
    ensures
        pairs_sorted(index@),
        index@.to_multiset() == window_index_seq(a@, w as nat, stride as nat).to_multiset(),
        forall|k: int| 0 <= k < index@.len() ==> (#[trigger] index@[k]).1 + w <= a@.len(),
{
    let mut index: Vec<(u64, u64)> = Vec::new();
    let la = a.len();
    let ghost f = |j: int| (rolled_hash(a@, w as nat, (j * stride) as nat), (j * stride) as u64);
    if la >= w {
        let pw = rpow(RBASE, w - 1);
        let mut cur: usize = 0;
        let mut h = hash_window(a, 0, w);
        let ghost mut cnt: int = 1;
        index.push((h, 0u64));
        proof {
            assert(index@ =~= Seq::new(cnt as nat, f));
        }
        while cur + stride <= la - w
            invariant
                la == a@.len(),
                la <= u32::MAX,
                la <= usize::MAX / 8,
                w >= 1,
                stride >= 1,
                stride <= w,
                la >= w,
                cur + w <= la,
                cnt >= 1,
                cur == (cnt - 1) * stride,
                pw == wpow(RBASE, (w - 1) as nat),
                h == rolled_hash(a@, w as nat, cur as nat),
                f == (|j: int| (rolled_hash(a@, w as nat, (j * stride) as nat), (j * stride) as u64)),
                index@ =~= Seq::new(cnt as nat, f),
            decreases la - cur,
        {
            let mut t: usize = 0;
            let ghost cur0 = cur;
            while t < stride
                invariant
                    la == a@.len(),
                    cur + stride - t + w <= la,
                    t <= stride,
                    cur == cur0 + t,
                    pw == wpow(RBASE, (w - 1) as nat),
                    h == rolled_hash(a@, w as nat, cur as nat),
                decreases stride - t,
            {
                h = roll(h, a[cur], a[cur + w], pw);
                cur = cur + 1;
                t = t + 1;
            }
            proof {
                assert(cur == cnt * stride) by (nonlinear_arith)
                    requires
                        cur == cur0 + stride,
                        cur0 == (cnt - 1) * stride,
                ;
            }
            index.push((h, cur as u64));
            proof {
                cnt = cnt + 1;
                assert(index@ =~= Seq::new(cnt as nat, f));
            }
        }
        proof {
            vstd::arithmetic::div_mod::lemma_fundamental_div_mod_converse(
                (la - w) as int, stride as int, cnt - 1, (la - w - cur) as int);
            assert(Seq::new(cnt as nat, f) =~= window_index_seq(a@, w as nat, stride as nat));
        }
    } else {
        proof {
            assert(index@ =~= window_index_seq(a@, w as nat, stride as nat));
        }
    }
    let ghost before = index@;
    sort_pairs(&mut index);
    proof {
        assert forall|k: int| 0 <= k < index@.len() implies (#[trigger] index@[k]).1 + w <= a@.len() by {
            let p = index@[k];
            assert(index@.contains(p));
            vstd::seq_lib::to_multiset_contains(index@, p);
            vstd::seq_lib::to_multiset_contains(before, p);
            let j = choose|j: int| 0 <= j < before.len() && before[j] == p;
            if la >= w {
                let q = (la - w) as int / (stride as int);
                assert(j * stride <= q * stride) by (nonlinear_arith)
                    requires
                        0 <= j <= q,
                        stride >= 1,
                ;
                assert(q * stride <= la - w) by (nonlinear_arith)
                    requires
                        q == (la - w) as int / (stride as int),
                        stride >= 1,
                        la >= w,
                ;
            }
        }
    }
    index
}

/// The run `(op, np, len)` cannot be extended: neither backwards (it starts at the start of
/// a file or after differing bytes) nor forwards (it ends at the end of a file or before
/// differing bytes).
pub open spec fn run_maximal(a: Seq<u8>, b: Seq<u8>, m: (usize, usize, usize)) -> bool {
    &&& (m.0 == 0 || m.1 == 0 || a[m.0 - 1] != b[m.1 - 1])
    &&& (m.0 + m.2 == a.len() || m.1 + m.2 == b.len() || a[m.0 + m.2] != b[m.1 + m.2])
}

/// Length of the identical run at `a[op..]` / `b[i..]` once extended forwards from `len`
/// bytes, as far as the next bytes agree.
pub open spec fn fwd_len(a: Seq<u8>, b: Seq<u8>, op: int, i: int, len: int) -> int
    decreases b.len() - i - len,
{
    if 0 <= i + len < b.len() && 0 <= op + len < a.len() && b[i + len] == a[op + len] {
        fwd_len(a, b, op, i, len + 1)
    } else {
        len
    }
}

/// The candidate search of one scan position over the index entries `k..lim`, given the
/// best run so far: an entry whose window equals `b[i..i+w]` gives a run extended
/// forwards; the first longest run of at least `min_m` bytes is kept, and the search stops
/// at one of at least `max(min_m, 2w)` bytes. Returns whether one was kept, its start in
/// `a` and its length.
pub open spec fn cand_scan(a: Seq<u8>, b: Seq<u8>, w: int, min_m: int, index: Seq<(u64, u64)>, i: int, k: int, lim: int,
    found: bool, bop: int, blen: int) -> (bool, int, int)
    decreases lim - k,
{
    if k >= lim {
        (found, bop, blen)
    } else {
        let op = index[k].1 as int;
        if a[op] == b[i] && a.subrange(op, op + w) == b.subrange(i, i + w) {
            let len = fwd_len(a, b, op, i, w);
            let goal = if min_m > w * 2 { min_m } else { w * 2 };
            if len >= min_m && (!found || len > blen) {
                if len >= goal {
                    (true, op, len)
                } else {
                    cand_scan(a, b, w, min_m, index, i, k + 1, lim, true, op, len)
                }
            } else {
                cand_scan(a, b, w, min_m, index, i, k + 1, lim, found, bop, blen)
            }
        } else {
            cand_scan(a, b, w, min_m, index, i, k + 1, lim, found, bop, blen)
        }
    }
}

/// The run `a[op..op+len] / b[np..np+len]` extended backwards as far as the bytes before it
/// agree.
pub open spec fn back_ext(a: Seq<u8>, b: Seq<u8>, op: int, np: int, len: int) -> (int, int, int)
    decreases op,
{
    if op > 0 && np > 0 && a[op - 1] == b[np - 1] {
        back_ext(a, b, op - 1, np - 1, len + 1)
    } else {
        (op, np, len)
    }
}

/// The runs that the scan of `b` finds from position `i` on, `h` being the rolling hash of
/// the window `b[i..i+w]`: the index entries with key `h` are looked up (at most 128), the
/// kept candidate is extended backwards and reported, and the scan resumes after it with a
/// fresh window hash; without one the window rolls on by one byte.
pub open spec fn match_scan(a: Seq<u8>, b: Seq<u8>, w: int, min_m: int, index: Seq<(u64, u64)>, i: int, h: u64) -> Seq<(usize, usize, usize)>
    decreases b.len() - i,
{
    if i < 0 || w < 1 || i + w > b.len() {
        Seq::empty()
    } else {
        let lo = key_point(index, h, false, 0);
        let hi = key_point(index, h, true, 0);
        let c = if lo < hi {
            cand_scan(a, b, w, min_m, index, i, lo, if hi - lo > 128 { lo + 128 } else { hi }, false, 0, 0)
        } else {
            (false, 0int, 0int)
        };
        if c.0 {
            let m = back_ext(a, b, c.1, i, c.2);
            let i2 = m.1 + m.2;
            seq![(m.0 as usize, m.1 as usize, m.2 as usize)]
                + (if i < i2 && i2 + w <= b.len() { match_scan(a, b, w, min_m, index, i2, window_hash(b, i2, w as nat)) } else { Seq::empty() })
        } else if i + w == b.len() {
            Seq::empty()
        } else {
            match_scan(a, b, w, min_m, index, i + 1, roll_spec(h, b[i], b[i + w], wpow(RBASE, (w - 1) as nat)))
        }
    }
}

/// The candidates of one scan position: for the indexed positions `index[lo..lim]` of `a`
/// whose window equals `b[i..i+w]`, the run of identical bytes is extended forwards; the
/// first longest run of at least `min_m` bytes is kept, and the search stops early at a run
/// of `max(min_m, 2w)` bytes. Returns whether one was kept, its start in `a` and its length.
fn best_candidate(a: &[u8], b: &[u8], w: usize, min_m: usize, index: &Vec<(u64, u64)>, i: usize, lo: usize, lim: usize) -> (r: (bool, usize, usize))
    requires
        w >= 1,
        w <= a@.len(),
        i + w <= b@.len(),
        lo < lim <= index@.len(),
        forall|k: int| 0 <= k < index@.len() ==> (#[trigger] index@[k]).1 + w <= a@.len(),
        a@.len() <= usize::MAX / 8,
        b@.len() <= usize::MAX / 8,
    ensures
        r.0 ==> r.2 >= w && r.1 + r.2 <= a@.len() && i + r.2 <= b@.len()
            && (forall|t: int| 0 <= t < r.2 ==> #[trigger] a@[r.1 + t] == b@[i + t]),
        r.0 ==> r.2 >= min_m
            && (r.1 + r.2 == a@.len() || i + r.2 == b@.len() || a@[r.1 + r.2] != b@[i + r.2]),
        a@ == b@ && i == 0 && index@[lo as int].1 == 0 && min_m <= a@.len() ==> r.0,
        (r.0, r.1 as int, r.2 as int) == cand_scan(a@, b@, w as int, min_m as int, index@, i as int, lo as int, lim as int, false, 0, 0),
{
    let la = a.len();
    let lb = b.len();
    let ghost first = a@ == b@ && i == 0 && index@[lo as int].1 == 0 && min_m <= la;
    let mut found = false;
    let mut best_op: usize = 0;
    let mut best_len: usize = 0;
    let mut k = lo;
    while k < lim
        invariant_except_break
            cand_scan(a@, b@, w as int, min_m as int, index@, i as int, k as int, lim as int, found, best_op as int, best_len as int)
                == cand_scan(a@, b@, w as int, min_m as int, index@, i as int, lo as int, lim as int, false, 0, 0),
        invariant
            la == a@.len(),
            lb == b@.len(),
            w >= 1,
            i + w <= lb,
            w <= la,
            la <= usize::MAX / 8,
            lb <= usize::MAX / 8,
            lim <= index@.len(),
            lo <= k,
            lo < lim,
            forall|k: int| 0 <= k < index@.len() ==> (#[trigger] index@[k]).1 + w <= la,
            found ==> best_len >= w && best_op + best_len <= la && i + best_len <= lb
                && (forall|t: int| 0 <= t < best_len ==> #[trigger] a@[best_op + t] == b@[i + t]),
            found ==> best_len >= min_m
                && (best_op + best_len == la || i + best_len == lb || a@[best_op + best_len] != b@[i + best_len]),
            first == (a@ == b@ && i == 0 && index@[lo as int].1 == 0 && min_m <= la),
            first && k > lo ==> found,
        ensures
            (found, best_op as int, best_len as int) == cand_scan(a@, b@, w as int, min_m as int, index@, i as int, lo as int, lim as int, false, 0, 0),
            first ==> found,
            found ==> best_len >= w && best_op + best_len <= la && i + best_len <= lb
                && (forall|t: int| 0 <= t < best_len ==> #[trigger] a@[best_op + t] == b@[i + t]),
            found ==> best_len >= min_m
                && (best_op + best_len == la || i + best_len == lb || a@[best_op + best_len] != b@[i + best_len]),
        decreases lim - k,
    {
        let ghost st = (found, best_op as int, best_len as int);
        let op = index[k].1 as usize;
        proof {
            assert(index@[k as int].1 + w <= la);
        }
        if a[op] == b[i] && ranges_equal(a, op, b, i, w) {
            let mut len = w;
            proof {
                assert forall|t: int| 0 <= t < len implies #[trigger] a@[op + t] == b@[i + t] by {
                    assert(a@.subrange(op as int, op + w)[t] == b@.subrange(i as int, i + w)[t]);
                }
            }
            while i + len < lb && op + len < la && b[i + len] == a[op + len]
                invariant
                    la == a@.len(),
                    lb == b@.len(),
                    len >= w,
                    i + len <= lb,
                    op + len <= la,
                    forall|t: int| 0 <= t < len ==> #[trigger] a@[op + t] == b@[i + t],
                    fwd_len(a@, b@, op as int, i as int, len as int) == fwd_len(a@, b@, op as int, i as int, w as int),
                decreases lb - i - len,
            {
                len = len + 1;
            }
            proof {
                assert(len == fwd_len(a@, b@, op as int, i as int, w as int));
                if first && k == lo {
                    assert(op == 0);
                    assert(len == la);
                }
            }
            let goal = if min_m > w * 2 { min_m } else { w * 2 };
            if len >= min_m && (!found || len > best_len) {
                found = true;
                best_op = op;
                best_len = len;
                if len >= goal {
                    break;
                }
            }
        } else {
            proof {
                if first && k == lo {
                    assert(op == 0);
                    assert(a@.subrange(op as int, op + w) =~= b@.subrange(i as int, i + w));
                }
            }
        }
        k = k + 1;
    }
    (found, best_op, best_len)
}

/// Extends the identical run `a[op..op+len] == b[np..np+len]` backwards as far as the
/// bytes before it agree.
fn extend_back(a: &[u8], b: &[u8], op0: usize, np0: usize, len: usize) -> (r: (usize, usize, usize))
    requires
        len >= 1,
        op0 + len <= a@.len(),
        np0 + len <= b@.len(),
        forall|t: int| 0 <= t < len ==> #[trigger] a@[op0 + t] == b@[np0 + t],
    ensures
        r.0 + r.2 == op0 + len,
        r.1 + r.2 == np0 + len,
        r.2 >= len,
        match_ok(a@, b@, r),
        r.0 == 0 || r.1 == 0 || a@[r.0 - 1] != b@[r.1 - 1],
        (r.0 as int, r.1 as int, r.2 as int) == back_ext(a@, b@, op0 as int, np0 as int, len as int),
{
    let mut op = op0;
    let mut np = np0;
    let mut l = len;
    while op > 0 && np > 0 && a[op - 1] == b[np - 1]
        invariant
            l >= len,
            op + l <= a@.len(),
            np + l <= b@.len(),
            op + l == op0 + len,
            np + l == np0 + len,
            back_ext(a@, b@, op as int, np as int, l as int) == back_ext(a@, b@, op0 as int, np0 as int, len as int),
            forall|t: int| 0 <= t < l ==> #[trigger] a@[op + t] == b@[np + t],
        decreases op,
    {
        proof {
            assert forall|t: int| 0 <= t < l + 1 implies #[trigger] a@[op - 1 + t] == b@[np - 1 + t] by {
                if t >= 1 {
                    assert(a@[op + (t - 1)] == b@[np + (t - 1)]);
                }
            }
        }
        op = op - 1;
        np = np - 1;
        l = l + 1;
    }
    proof {
        assert(a@.subrange(op as int, op + l) =~= b@.subrange(np as int, np + l)) by {
            assert forall|t: int| 0 <= t < l implies #[trigger] a@.subrange(op as int, op + l)[t] == b@.subrange(np as int, np + l)[t] by {
                assert(a@[op + t] == b@[np + t]);
            }
        }
    }
    (op, np, l)
}

/// Scans `b` for windows that also occur at indexed positions of `a` and extends each hit
/// forwards and backwards into a maximal run of identical bytes.
fn find_matches(a: &[u8], b: &[u8], w: usize, min_m: usize, index: &Vec<(u64, u64)>) -> (ms: Vec<(usize, usize, usize)>)
    requires
        w >= 1,
        w <= a@.len(),
        pairs_sorted(index@),
        forall|k: int| 0 <= k < index@.len() ==> (#[trigger] index@[k]).1 + w <= a@.len(),
        a@.len() <= u32::MAX,
        a@.len() <= usize::MAX / 8,
        b@.len() <= usize::MAX / 8,
    ensures
        forall|k: int| 0 <= k < ms@.len() ==> match_ok(a@, b@, #[trigger] ms@[k]),
        forall|k: int| 0 <= k < ms@.len() ==> run_maximal(a@, b@, #[trigger] ms@[k]) && ms@[k].2 >= w && ms@[k].2 >= min_m,
        b@.len() < w ==> ms@.len() == 0,
        a@ == b@ && min_m <= a@.len() && index@.contains((window_hash(a@, 0, w as nat), 0u64)) ==> ms@.len() >= 1,
        b@.len() >= w ==> ms@ == match_scan(a@, b@, w as int, min_m as int, index@, 0, window_hash(b@, 0, w as nat)),
{
    let mut ms: Vec<(usize, usize, usize)> = Vec::new();
    let la = a.len();
    let lb = b.len();
    if lb < w {
        return ms;
    }
    let ghost hit0 = a@ == b@ && min_m <= a@.len() && index@.contains((window_hash(a@, 0, w as nat), 0u64));
    let pw = rpow(RBASE, w - 1);
    let mut h = hash_window(b, 0, w);
    let mut i: usize = 0;
    let ghost total = match_scan(a@, b@, w as int, min_m as int, index@, 0, h);
    proof {
        assert(ms@ + total =~= total);
    }
    while i + w <= lb
        invariant_except_break
            hit0 && i == 0 ==> h == window_hash(b@, 0, w as nat),
            ms@ + match_scan(a@, b@, w as int, min_m as int, index@, i as int, h) == total,
        invariant
            pw == wpow(RBASE, (w - 1) as nat),
            total == match_scan(a@, b@, w as int, min_m as int, index@, 0, window_hash(b@, 0, w as nat)),
            la == a@.len(),
            lb == b@.len(),
            w >= 1,
            w <= la,
            w <= lb,
            i <= lb,
            la <= u32::MAX,
            la <= usize::MAX / 8,
            lb <= usize::MAX / 8,
            pairs_sorted(index@),
            forall|k: int| 0 <= k < index@.len() ==> (#[trigger] index@[k]).1 + w <= la,
            forall|k: int| 0 <= k < ms@.len() ==> match_ok(a@, b@, #[trigger] ms@[k]),
            forall|k: int| 0 <= k < ms@.len() ==> run_maximal(a@, b@, #[trigger] ms@[k]) && ms@[k].2 >= w && ms@[k].2 >= min_m,
            hit0 == (a@ == b@ && min_m <= a@.len() && index@.contains((window_hash(a@, 0, w as nat), 0u64))),
            hit0 ==> i == 0 || ms@.len() >= 1,
        ensures
            hit0 ==> ms@.len() >= 1,
            ms@ == total,
        decreases lb - i,
    {
        let ghost ms0 = ms@;
        let ghost rest = match_scan(a@, b@, w as int, min_m as int, index@, i as int, h);
        let lo = partition_point(index, h, false);
        let hi = partition_point(index, h, true);
        proof {
            if hit0 && i == 0 {
                let p = choose|p: int| 0 <= p < index@.len() && index@[p] == (h, 0u64);
                assert(lo <= p < hi);
                assert(pair_le(index@[lo as int], index@[p]));
                assert(index@[lo as int].1 == 0);
            }
        }
        if lo < hi {
            let lim = if hi - lo > 128 { lo + 128 } else { hi };
            let (found, best_op, best_len) = best_candidate(a, b, w, min_m, index, i, lo, lim);
            if found {
                let (op, np, len) = extend_back(a, b, best_op, i, best_len);
                proof {
                    assert(run_maximal(a@, b@, (op, np, len)));
                    let i2 = np + len;
                    assert(rest == seq![(op, np, len)]
                        + (if i < i2 && i2 + w <= lb { match_scan(a@, b@, w as int, min_m as int, index@, i2 as int, window_hash(b@, i2 as int, w as nat)) } else { Seq::empty() }));
                }
                ms.push((op, np, len));
                let ghost i0 = i;
                i = np + len;
                if i + w <= lb {
                    h = hash_window(b, i, w);
                    proof {
                        assert(ms@ + match_scan(a@, b@, w as int, min_m as int, index@, i as int, h) =~= ms0 + rest);
                    }
                } else {
                    proof {
                        assert(ms@ =~= ms0 + rest);
                    }
                    break;
                }
                continue;
            }
        }
        if i + w == lb {
            proof {
                assert(rest == Seq::<(usize, usize, usize)>::empty());
                assert(ms@ =~= ms0 + rest);
            }
            break;
        }
        proof {
            assert(rest == match_scan(a@, b@, w as int, min_m as int, index@, i + 1, roll_spec(h, b@[i as int], b@[i + w], wpow(RBASE, (w - 1) as nat))));
        }
        h = roll(h, b[i], b[i + w], pw);
        i = i + 1;
    }
    ms
}

/// The runs advance in both sequences without overlapping.
pub open spec fn chained(ms: Seq<(usize, usize, usize)>) -> bool {
    forall|i: int, j: int| 0 <= i < j < ms.len() ==>
        (#[trigger] ms[i]).0 + ms[i].2 <= (#[trigger] ms[j]).0 && ms[i].1 + ms[i].2 <= ms[j].1
}

/// The end in the second sequence of each candidate run, the key by which runs are ordered.
pub open spec fn chain_end_keys(ms: Seq<(usize, usize, usize)>) -> Seq<u64> {
    ms.map_values(|m: (usize, usize, usize)| (m.1 + m.2) as u64)
}

/// Greedy pass over the runs `ms[order[0]], ..., ms[order[j-1]]`: a run is kept when it
/// starts at or after the end of the last kept run in both sequences. Returns the kept runs
/// and the end of the last kept run in the first and in the second sequence (0 when none).
pub open spec fn greedy_chain(ms: Seq<(usize, usize, usize)>, order: Seq<usize>, j: int) -> (Seq<(usize, usize, usize)>, int, int)
    decreases j,
{
    if j <= 0 {
        (Seq::empty(), 0, 0)
    } else {
        let (sel, lo, ln) = greedy_chain(ms, order, j - 1);
        let m = ms[order[j - 1] as int];
        if m.1 >= ln && m.0 >= lo {
            (sel.push(m), m.0 + m.2, m.1 + m.2)
        } else {
            (sel, lo, ln)
        }
    }
}

/// A greedy pass over at least one run keeps at least one: the first run it looks at is
/// always kept.
pub proof fn lemma_greedy_nonempty(ms: Seq<(usize, usize, usize)>, order: Seq<usize>, j: int)
    requires
        j >= 1,
    ensures
        greedy_chain(ms, order, j).0.len() >= 1,
    decreases j,
{
    let prev = greedy_chain(ms, order, j - 1);
    let m = ms[order[j - 1] as int];
    if j > 1 {
        lemma_greedy_nonempty(ms, order, j - 1);
    } else {
        assert(prev == (Seq::<(usize, usize, usize)>::empty(), 0int, 0int));
        assert(m.1 >= prev.2 && m.0 >= prev.1);
    }
    if m.1 >= prev.2 && m.0 >= prev.1 {
        assert(greedy_chain(ms, order, j).0 == prev.0.push(m));
    } else {
        assert(greedy_chain(ms, order, j).0 == prev.0);
    }
}

/// Orders candidate runs by their end in the second sequence (keeping the found order
/// among equal ends) and keeps, greedily, each run that starts after the previously kept
/// one in both sequences. Every kept run is one of the candidates.
pub fn select_chain(Ghost(ok): Ghost<spec_fn((usize, usize, usize)) -> bool>, ms: &Vec<(usize, usize, usize)>) -> (sel: Vec<(usize, usize, usize)>)
    requires
        forall|k: int| 0 <= k < ms@.len() ==> ok(#[trigger] ms@[k]),
        forall|k: int| 0 <= k < ms@.len() ==> (#[trigger] ms@[k]).0 + ms@[k].2 <= usize::MAX && ms@[k].1 + ms@[k].2 <= usize::MAX,
    ensures
        exists|order: Seq<usize>| crate::util::is_stable_order(chain_end_keys(ms@), order)
            && sel@ == (#[trigger] greedy_chain(ms@, order, ms@.len() as int)).0,
        chained(sel@),
        forall|k: int| 0 <= k < sel@.len() ==> ok(#[trigger] sel@[k]),
{
    let n = ms.len();
    let mut keys: Vec<u64> = Vec::new();
    let mut i: usize = 0;
    while i < n
        invariant
            n == ms@.len(),
            i <= n,
            keys@ =~= chain_end_keys(ms@).subrange(0, i as int),
            forall|k: int| 0 <= k < ms@.len() ==> (#[trigger] ms@[k]).0 + ms@[k].2 <= usize::MAX && ms@[k].1 + ms@[k].2 <= usize::MAX,
        decreases n - i,
    {
        let m = ms[i];
        proof {
            assert(ms@[i as int].1 + ms@[i as int].2 <= usize::MAX);
        }
        keys.push(m.1 as u64 + m.2 as u64);
        i = i + 1;
    }
    proof {
        assert(keys@ =~= chain_end_keys(ms@));
    }
    let order = crate::util::stable_order(&keys);
    let mut sel: Vec<(usize, usize, usize)> = Vec::new();
    let mut last_o: usize = 0;
    let mut last_n: usize = 0;
    let mut j: usize = 0;
    while j < n
        invariant
            n == ms@.len(),
            keys@.len() == n,
            j <= n,
            crate::util::is_stable_order(keys@, order@),
            forall|k: int| 0 <= k < ms@.len() ==> ok(#[trigger] ms@[k]),
            forall|k: int| 0 <= k < ms@.len() ==> (#[trigger] ms@[k]).0 + ms@[k].2 <= usize::MAX && ms@[k].1 + ms@[k].2 <= usize::MAX,
            chained(sel@),
            forall|k: int| 0 <= k < sel@.len() ==> ok(#[trigger] sel@[k]),
            forall|k: int| 0 <= k < sel@.len() ==> (#[trigger] sel@[k]).0 + sel@[k].2 <= last_o && sel@[k].1 + sel@[k].2 <= last_n,
            greedy_chain(ms@, order@, j as int) == (sel@, last_o as int, last_n as int),
        decreases n - j,
    {
        proof {
            assert(order@[j as int] < keys@.len());
        }
        let idx = order[j];
        let m = ms[idx];
        proof {
            assert(ok(ms@[idx as int]));
            assert(ms@[idx as int].0 + ms@[idx as int].2 <= usize::MAX);
            assert(ms@[idx as int].1 + ms@[idx as int].2 <= usize::MAX);
        }
        if m.1 >= last_n && m.0 >= last_o {
            sel.push(m);
            last_n = m.1 + m.2;
            last_o = m.0 + m.2;
        }
        j = j + 1;
    }
    proof {
        assert(crate::util::is_stable_order(chain_end_keys(ms@), order@)
            && sel@ == greedy_chain(ms@, order@, ms@.len() as int).0);
    }
    sel
}

} // verus!

verus! {

pub proof fn lemma_entries_wf_append(x: Seq<DiffEntry>, y: Seq<DiffEntry>, la: int, lb: int)
    requires
        entries_wf(x, la, lb),
        entries_wf(y, la, lb),
    ensures
        entries_wf(x + y, la, lb),
{
    assert forall|i: int| 0 <= i < (x + y).len() implies entry_wf(#[trigger] (x + y)[i], la, lb) by {
        if i < x.len() {
            assert((x + y)[i] == x[i]);
        } else {
            assert((x + y)[i] == y[i - x.len()]);
        }
    }
}

/// Translates entries that are well formed inside a window of `sla` x `slb` bytes by
/// `(o_off, n_off)`; the result is well formed for the enclosing files.
fn shift_wf(es: Vec<DiffEntry>, Ghost(sla): Ghost<int>, Ghost(slb): Ghost<int>, o_off: usize, n_off: usize) -> (r: Vec<DiffEntry>)
    requires
        entries_wf(es@, sla, slb),
        0 <= sla,
        0 <= slb,
        o_off + sla <= u64::MAX,
        n_off + slb <= u64::MAX,
    ensures
        entries_wf(r@, sla + o_off, slb + n_off),
        r@.len() == es@.len(),
        forall|i: int| 0 <= i < r@.len() ==> #[trigger] r@[i] == shift_entry(es@[i], o_off as int, n_off as int),
{
    proof {
        assert forall|i: int| 0 <= i < es@.len() implies {
            &&& (#[trigger] es@[i]).offset + if es@[i].change == ChangeType::Added { n_off as int } else { o_off as int } <= u64::MAX
            &&& (es@[i].old matches Some(r) ==> r.start + o_off <= u64::MAX && r.end + o_off <= u64::MAX)
            &&& (es@[i].new matches Some(r) ==> r.start + n_off <= u64::MAX && r.end + n_off <= u64::MAX)
        } by {
            assert(entry_wf(es@[i], sla, slb));
        }
    }
    let r = shift_entries(es, o_off as u64, n_off as u64);
    proof {
        assert forall|i: int| 0 <= i < r@.len() implies entry_wf(#[trigger] r@[i], sla + o_off, slb + n_off) by {
            assert(entry_wf(es@[i], sla, slb));
            lemma_shift_wf(es@[i], sla, slb, o_off as int, n_off as int);
        }
    }
    r
}

/// Gaps larger than this (on either side, both sides non-empty) are diffed again with
/// 4096-byte chunked hashing instead of being reported as one large Added/Removed pair.
pub const GAP_REFINE: usize = 65536;

/// Whether a gap of `og` bytes in A and `ng` bytes in B is diffed again by chunked hashing.
pub open spec fn gap_refined(og: int, ng: int) -> bool {
    og > 0 && ng > 0 && (og > GAP_REFINE || ng > GAP_REFINE)
}

/// Where the gap before run `k` of the chain starts, in A and in B: the end of run `k - 1`,
/// or the start of both files for the first run.
pub open spec fn chain_cursor(sel: Seq<(usize, usize, usize)>, k: int) -> (int, int) {
    if k <= 0 {
        (0, 0)
    } else {
        (sel[k - 1].0 + sel[k - 1].2, sel[k - 1].1 + sel[k - 1].2)
    }
}

/// A gap `a[o0..o1]` / `b[n0..n1]` diffed again by 4096-byte chunked hashing (without the
/// re-anchoring), the entries translated back to file positions.
pub open spec fn refined_gap(a: Seq<u8>, b: Seq<u8>, o0: int, o1: int, n0: int, n1: int) -> Seq<DiffEntry> {
    chunk_walk(a.subrange(o0, o1), b.subrange(n0, n1), 4096, 0, 0, false, Seq::empty()).0.map_values(|e: DiffEntry| shift_entry(e, o0, n0))
}

/// What the gap `a[oc..op]` / `b[nc..np]` before a run at `(op, np)` is reported as: refined
/// when it is large on either side and non-empty on both, otherwise a Removed entry for its
/// A side (if non-empty) followed by an Added entry for its B side (if non-empty), inserted
/// at the start of the run in A.
pub open spec fn gap_entries(a: Seq<u8>, b: Seq<u8>, oc: int, nc: int, op: int, np: int) -> Seq<DiffEntry> {
    if gap_refined(op - oc, np - nc) {
        refined_gap(a, b, oc, op, nc, np)
    } else {
        (if oc < op { seq![removed_spec(oc, op)] } else { Seq::empty() })
            + (if nc < np { seq![added_spec(op, nc, np)] } else { Seq::empty() })
    }
}

/// The reports of the gaps before runs `0..k` of the chain, in order.
pub open spec fn gaps_report(a: Seq<u8>, b: Seq<u8>, sel: Seq<(usize, usize, usize)>, k: int) -> Seq<DiffEntry>
    decreases k,
{
    if k <= 0 {
        Seq::empty()
    } else {
        let (oc, nc) = chain_cursor(sel, k - 1);
        gaps_report(a, b, sel, k - 1) + gap_entries(a, b, oc, nc, sel[k - 1].0 as int, sel[k - 1].1 as int)
    }
}

/// The report of the gap after the last run: refined like the others, or else the B side
/// as Added at the end of A, then the A side as Removed.
pub open spec fn tail_report(a: Seq<u8>, b: Seq<u8>, sel: Seq<(usize, usize, usize)>) -> Seq<DiffEntry> {
    let (oc, nc) = chain_cursor(sel, sel.len() as int);
    let la = a.len() as int;
    let lb = b.len() as int;
    if gap_refined(la - oc, lb - nc) {
        refined_gap(a, b, oc, la, nc, lb)
    } else {
        (if nc < lb { seq![added_spec(la, nc, lb)] } else { Seq::empty() })
            + (if oc < la { seq![removed_spec(oc, la)] } else { Seq::empty() })
    }
}

/// Emits the gaps between the chained identical runs as Removed (A side) and Added
/// (B side, inserted after the removal) entries; large two-sided gaps are refined.
fn emit_gaps(a: &[u8], b: &[u8], sel: &Vec<(usize, usize, usize)>) -> (out: Vec<DiffEntry>)
    requires
        chain_ok(a@, b@, sel@),
        a@.len() <= u32::MAX,
        b@.len() <= u32::MAX,
        a@.len() <= usize::MAX / 8,
        b@.len() <= usize::MAX / 8,
    ensures
        entries_wf(out@, a@.len() as int, b@.len() as int),
        out@ == gaps_report(a@, b@, sel@, sel@.len() as int) + tail_report(a@, b@, sel@),
    decreases 1int,
{
    let la = a.len();
    let lb = b.len();
    let mut out: Vec<DiffEntry> = Vec::new();
    let mut o_cur: usize = 0;
    let mut n_cur: usize = 0;
    let ns = sel.len();
    proof {
        if la == 0 && ns > 0 {
            assert(match_ok(a@, b@, sel@[0]));
        }
    }
    let mut k: usize = 0;
    while k < ns
        invariant
            la == a@.len(),
            lb == b@.len(),
            la <= u32::MAX,
            lb <= u32::MAX,
            la <= usize::MAX / 8,
            lb <= usize::MAX / 8,
            ns == sel@.len(),
            chain_ok(a@, b@, sel@),
            k <= ns,
            o_cur <= la,
            n_cur <= lb,
            k == 0 ==> o_cur == 0 && n_cur == 0,
            k > 0 ==> o_cur == sel@[k - 1].0 + sel@[k - 1].2 && n_cur == sel@[k - 1].1 + sel@[k - 1].2,
            entries_wf(out@, la as int, lb as int),
            (o_cur as int, n_cur as int) == chain_cursor(sel@, k as int),
            out@ == gaps_report(a@, b@, sel@, k as int),
        decreases ns - k,
    {
        let (op, np, len) = sel[k];
        proof {
            assert(match_ok(a@, b@, sel@[k as int]));
            if k > 0 {
                assert(sel@[k - 1].0 + sel@[k - 1].2 <= sel@[k as int].0);
            }
        }
        let old_gap = op - o_cur;
        let new_gap = np - n_cur;
        let refine = old_gap > 0 && new_gap > 0 && (old_gap > GAP_REFINE || new_gap > GAP_REFINE);
        let ghost out0 = out@;
        if refine {
            let ga = &a[o_cur..op];
            let gb = &b[n_cur..np];
            let sub = chunked_hash_inner(ga, gb, 4096, false);
            let ghost subv = sub@;
            let mut sh = shift_wf(sub, Ghost(old_gap as int), Ghost(new_gap as int), o_cur, n_cur);
            proof {
                assert forall|i: int| 0 <= i < sh@.len() implies entry_wf(#[trigger] sh@[i], la as int, lb as int) by {
                    lemma_wf_mono(sh@[i], (old_gap + o_cur) as int, (new_gap + n_cur) as int, la as int, lb as int);
                }
                lemma_entries_wf_append(out@, sh@, la as int, lb as int);
                assert(ga@ =~= a@.subrange(o_cur as int, op as int));
                assert(gb@ =~= b@.subrange(n_cur as int, np as int));
                assert(sh@ =~= refined_gap(a@, b@, o_cur as int, op as int, n_cur as int, np as int));
            }
            out.append(&mut sh);
        } else {
            if o_cur < op {
                let e = mk_removed(o_cur, op);
                proof {
                    lemma_entries_wf_append(out@, seq![e], la as int, lb as int);
                }
                out.push(e);
            }
            if n_cur < np {
                let e = mk_added(op, n_cur, np);
                proof {
                    lemma_entries_wf_append(out@, seq![e], la as int, lb as int);
                }
                out.push(e);
            }
        }
        proof {
            assert(out@ =~= out0 + gap_entries(a@, b@, o_cur as int, n_cur as int, op as int, np as int));
            assert(out@ == gaps_report(a@, b@, sel@, k + 1));
        }
        o_cur = op + len;
        n_cur = np + len;
        k = k + 1;
    }
    let old_tail = la - o_cur;
    let new_tail = lb - n_cur;
    let refine_tail = old_tail > 0 && new_tail > 0 && (old_tail > GAP_REFINE || new_tail > GAP_REFINE);
    let ghost out1 = out@;
    if refine_tail {
        let ga = &a[o_cur..la];
        let gb = &b[n_cur..lb];
        let sub = chunked_hash_inner(ga, gb, 4096, false);
        let mut sh = shift_wf(sub, Ghost(old_tail as int), Ghost(new_tail as int), o_cur, n_cur);
        proof {
            lemma_entries_wf_append(out@, sh@, la as int, lb as int);
            assert(ga@ =~= a@.subrange(o_cur as int, la as int));
            assert(gb@ =~= b@.subrange(n_cur as int, lb as int));
            assert(sh@ =~= refined_gap(a@, b@, o_cur as int, la as int, n_cur as int, lb as int));
        }
        out.append(&mut sh);
    } else {
        if n_cur < lb {
            let e = mk_added(la, n_cur, lb);
            proof {
                lemma_entries_wf_append(out@, seq![e], la as int, lb as int);
            }
            out.push(e);
        }
        if o_cur < la {
            let e = mk_removed(o_cur, la);
            proof {
                lemma_entries_wf_append(out@, seq![e], la as int, lb as int);
            }
            out.push(e);
        }
    }
    proof {
        assert(out@ =~= out1 + tail_report(a@, b@, sel@));
    }
    out
}

/// `p` is the length of the common prefix of `a` and `b`, and `q` the length of their
/// common suffix within what follows the prefix.
pub open spec fn trim_ok(a: Seq<u8>, b: Seq<u8>, p: int, q: int) -> bool {
    &&& 0 <= p && 0 <= q && p + q <= a.len() && p + q <= b.len()
    &&& a.subrange(0, p) == b.subrange(0, p)
    &&& (p == a.len() || p == b.len() || a[p] != b[p])
    &&& a.subrange(a.len() - q, a.len() as int) == b.subrange(b.len() - q, b.len() as int)
    &&& (p + q == a.len() || p + q == b.len() || a[a.len() - 1 - q] != b[b.len() - 1 - q])
}

/// `out` is `core`, entries well formed for the parts of `a` and `b` between their common
/// prefix (`p` bytes) and common suffix (`q` bytes), translated by `p` in both files.
pub open spec fn trimmed_core(a: Seq<u8>, b: Seq<u8>, out: Seq<DiffEntry>, p: int, q: int, core: Seq<DiffEntry>) -> bool {
    &&& trim_ok(a, b, p, q)
    &&& entries_wf(core, a.len() - p - q, b.len() - p - q)
    &&& out.len() == core.len()
    &&& forall|i: int| 0 <= i < out.len() ==> #[trigger] out[i] == shift_entry(core[i], p, p)
}

/// The window and minimal match lengths that the sliding-window scan uses for cores of
/// `cla` and `clb` bytes: the window is `window` (at least 1) capped at the shorter core
/// (at least 1), the minimal match is `min_match` capped at the window and the shorter core,
/// and at least 1.
pub open spec fn sw_params(cla: int, clb: int, window: int, min_match: int) -> (int, int) {
    let min_len0 = if cla < clb { cla } else { clb };
    let min_len = if min_len0 > 1 { min_len0 } else { 1 };
    let w0 = if window > 1 { window } else { 1 };
    let w = if w0 < min_len { w0 } else { min_len };
    let mm0 = if min_match < w { min_match } else { w };
    let mm1 = if mm0 < min_len { mm0 } else { min_len };
    (w, if mm1 > 1 { mm1 } else { 1 })
}

/// The runs that the scan of the core `cb` finds against the window index `index` of the
/// core `ca`, with the parameters of `sw_params`.
pub open spec fn core_matches(ca: Seq<u8>, cb: Seq<u8>, window: int, min_match: int, index: Seq<(u64, u64)>) -> Seq<(usize, usize, usize)> {
    let (w, min_m) = sw_params(ca.len() as int, cb.len() as int, window, min_match);
    if ca.len() >= w { match_scan(ca, cb, w, min_m, index, 0, window_hash(cb, 0, w as nat)) } else { Seq::empty() }
}

/// `index` is the sorted window index of the core `ca` (every `min_m` bytes), and `order` the
/// stable order of the ends of the runs found with it.
pub open spec fn core_order_ok(ca: Seq<u8>, cb: Seq<u8>, window: int, min_match: int, index: Seq<(u64, u64)>, order: Seq<usize>) -> bool {
    let (w, min_m) = sw_params(ca.len() as int, cb.len() as int, window, min_match);
    &&& pairs_sorted(index)
    &&& index.to_multiset() == window_index_seq(ca, w as nat, min_m as nat).to_multiset()
    &&& crate::util::is_stable_order(chain_end_keys(core_matches(ca, cb, window, min_match, index)), order)
}

/// What the sliding-window diff reports for the cores: the runs found are chained greedily
/// in the order `order`, and the gaps of the chain are reported.
pub open spec fn core_entries(ca: Seq<u8>, cb: Seq<u8>, window: int, min_match: int, index: Seq<(u64, u64)>, order: Seq<usize>) -> Seq<DiffEntry> {
    let ms = core_matches(ca, cb, window, min_match, index);
    let sel = greedy_chain(ms, order, ms.len() as int).0;
    gaps_report(ca, cb, sel, sel.len() as int) + tail_report(ca, cb, sel)
}

/// `out` is what the sliding-window diff reports for `a` and `b`: with the common prefix
/// (`p` bytes) and suffix (`q` bytes) trimmed, the cores are scanned with their window
/// index `index`, the runs are chained in the stable order `order` of their ends, and the
/// gaps are reported and translated by `p`.
#[verifier::opaque]
pub open spec fn sliding_report(a: Seq<u8>, b: Seq<u8>, window: int, min_match: int, p: int, q: int,
    index: Seq<(u64, u64)>, order: Seq<usize>, out: Seq<DiffEntry>) -> bool {
    let ca = a.subrange(p, a.len() - q);
    let cb = b.subrange(p, b.len() - q);
    &&& trim_ok(a, b, p, q)
    &&& core_order_ok(ca, cb, window, min_match, index, order)
    &&& out == core_entries(ca, cb, window, min_match, index, order).map_values(|e: DiffEntry| shift_entry(e, p, p))
}

/// The sliding-window diff of two cores (what is left of both files once their common
/// prefix and suffix are trimmed).
#[verifier::rlimit(40)]
fn sliding_core(ca: &[u8], cb: &[u8], window: usize, min_match: usize) -> (core: Vec<DiffEntry>)
    requires
        ca@.len() <= u32::MAX,
        cb@.len() <= u32::MAX,
        ca@.len() <= usize::MAX / 8,
        cb@.len() <= usize::MAX / 8,
    ensures
        entries_wf(core@, ca@.len() as int, cb@.len() as int),
        exists|index: Seq<(u64, u64)>, order: Seq<usize>| #[trigger] core_order_ok(ca@, cb@, window as int, min_match as int, index, order)
            && core@ == core_entries(ca@, cb@, window as int, min_match as int, index, order),
        ca@.len() == 0 && cb@.len() > 0 ==> core@ == seq![added_spec(0, 0, cb@.len() as int)],
        cb@.len() == 0 && ca@.len() > 0 ==> core@ == seq![removed_spec(0, ca@.len() as int)],
    decreases 2int,
{
    let cla = ca.len();
    let clb = cb.len();
    let min_len0 = if cla < clb { cla } else { clb };
    let min_len = if min_len0 > 1 { min_len0 } else { 1 };
    let w0 = if window > 1 { window } else { 1 };
    let w = if w0 < min_len { w0 } else { min_len };
    let mm0 = if min_match < w { min_match } else { w };
    let mm1 = if mm0 < min_len { mm0 } else { min_len };
    let min_m = if mm1 > 1 { mm1 } else { 1 };
    let stride = min_m;
    let index = build_index(ca, w, stride);
    let ms = if cla >= w {
        find_matches(ca, cb, w, min_m, &index)
    } else {
        Vec::new()
    };
    let ghost okf = |m: (usize, usize, usize)| match_ok(ca@, cb@, m);
    proof {
        assert forall|k: int| 0 <= k < ms@.len() implies okf(#[trigger] ms@[k]) by {
            assert(match_ok(ca@, cb@, ms@[k]));
        }
    }
    let sel = select_chain(Ghost(okf), &ms);
    proof {
        assert forall|k: int| 0 <= k < sel@.len() implies match_ok(ca@, cb@, #[trigger] sel@[k]) by {
            assert(okf(sel@[k]));
        }
    }
    let core = emit_gaps(ca, cb, &sel);
    proof {
        assert(sw_params(cla as int, clb as int, window as int, min_match as int) == (w as int, min_m as int));
        assert(ms@ == core_matches(ca@, cb@, window as int, min_match as int, index@));
        let order = choose|order: Seq<usize>| crate::util::is_stable_order(chain_end_keys(ms@), order)
            && sel@ == (#[trigger] greedy_chain(ms@, order, ms@.len() as int)).0;
        assert(core_order_ok(ca@, cb@, window as int, min_match as int, index@, order));
        assert(core@ == core_entries(ca@, cb@, window as int, min_match as int, index@, order));
        if cla == 0 && clb > 0 {
            assert(sel@.len() == 0);
            assert(core@ =~= seq![added_spec(0, 0, clb as int)]);
        }
        if clb == 0 && cla > 0 {
            assert(sel@.len() == 0);
            assert(core@ =~= seq![removed_spec(0, cla as int)]);
        }
    }
    core
}

/// Sliding-window diff: trims the common prefix and suffix, indexes A's core with a
/// rolling hash, scans B's core for the longest identical runs, chains them greedily and
/// reports the gaps between them.
#[verifier::rlimit(40)]
pub fn sliding_window(a: &[u8], b: &[u8], window: usize, min_match: usize) -> (out: Vec<DiffEntry>)
    requires
        a@.len() <= u32::MAX,
        b@.len() <= u32::MAX,
        a@.len() <= usize::MAX / 8,
        b@.len() <= usize::MAX / 8,
    ensures
        entries_wf(out@, a@.len() as int, b@.len() as int),
        a@ == b@ ==> out@.len() == 0,
        exists|p: int, q: int, core: Seq<DiffEntry>| #[trigger] trimmed_core(a@, b@, out@, p, q, core),
        a@.len() == 0 && b@.len() > 0 ==> out@ == seq![added_spec(0, 0, b@.len() as int)],
        b@.len() == 0 && a@.len() > 0 ==> out@ == seq![removed_spec(0, a@.len() as int)],
        exists|p: int, q: int, index: Seq<(u64, u64)>, order: Seq<usize>|
            #[trigger] sliding_report(a@, b@, window as int, min_match as int, p, q, index, order, out@),
    decreases 3int,
{
    let la = a.len();
    let lb = b.len();
    let m = if la < lb { la } else { lb };
    let mut lcp: usize = 0;
    while lcp < m && a[lcp] == b[lcp]
        invariant
            m <= la,
            m <= lb,
            la == a@.len(),
            lb == b@.len(),
            m == if la < lb { la } else { lb },
            lcp <= m,
            forall|t: int| 0 <= t < lcp ==> #[trigger] a@[t] == b@[t],
        decreases m - lcp,
    {
        lcp = lcp + 1;
    }
    proof {
        if a@ == b@ {
            assert(lcp == m) by {
                if lcp < m {
                    assert(a@[lcp as int] == b@[lcp as int]);
                }
            }
        }
    }
    let mut lcs: usize = 0;
    while lcs < la - lcp && lcs < lb - lcp && a[la - 1 - lcs] == b[lb - 1 - lcs]
        invariant
            la == a@.len(),
            lb == b@.len(),
            lcp <= la,
            lcp <= lb,
            lcs <= la - lcp,
            lcs <= lb - lcp,
            forall|t: int| la - lcs <= t < la ==> #[trigger] a@[t] == b@[t - la + lb],
        decreases la - lcs,
    {
        lcs = lcs + 1;
    }
    proof {
        assert(a@.subrange(0, lcp as int) =~= b@.subrange(0, lcp as int));
        assert(a@.subrange(la - lcs, la as int) =~= b@.subrange(lb - lcs, lb as int)) by {
            assert forall|t: int| 0 <= t < lcs implies #[trigger] a@.subrange(la - lcs, la as int)[t] == b@.subrange(lb - lcs, lb as int)[t] by {
                assert(a@[la - lcs + t] == b@[la - lcs + t - la + lb]);
            }
        }
        assert(trim_ok(a@, b@, lcp as int, lcs as int));
    }
    let ca = &a[lcp..la - lcs];
    let cb = &b[lcp..lb - lcs];
    let cla = la - lcs - lcp;
    let clb = lb - lcs - lcp;
    let core = sliding_core(ca, cb, window, min_match);
    let ghost core_v = core@;
    let out = shift_wf(core, Ghost(cla as int), Ghost(clb as int), lcp, lcp);
    proof {
        assert(trimmed_core(a@, b@, out@, lcp as int, lcs as int, core_v));
        if la == 0 && lb > 0 {
            assert(core_v =~= seq![added_spec(0, 0, lb as int)]);
            assert(out@[0] == added_spec(0, 0, lb as int));
            assert(out@ =~= seq![added_spec(0, 0, lb as int)]);
        }
        if lb == 0 && la > 0 {
            assert(core_v =~= seq![removed_spec(0, la as int)]);
            assert(out@[0] == removed_spec(0, la as int));
            assert(out@ =~= seq![removed_spec(0, la as int)]);
        }
        assert forall|i: int| 0 <= i < out@.len() implies entry_wf(#[trigger] out@[i], la as int, lb as int) by {
            lemma_wf_mono(out@[i], (cla + lcp) as int, (clb + lcp) as int, la as int, lb as int);
        }
        assert(ca@ =~= a@.subrange(lcp as int, la - lcs));
        assert(cb@ =~= b@.subrange(lcp as int, lb - lcs));
        let (index, order) = choose|index: Seq<(u64, u64)>, order: Seq<usize>| #[trigger] core_order_ok(ca@, cb@, window as int, min_match as int, index, order)
            && core_v == core_entries(ca@, cb@, window as int, min_match as int, index, order);
        assert(out@ =~= core_v.map_values(|e: DiffEntry| shift_entry(e, lcp as int, lcp as int)));
        assert(sliding_report(a@, b@, window as int, min_match as int, lcp as int, lcs as int, index, order, out@)) by {
            reveal(sliding_report);
        }
    }
    out
}

/// Chunked hash with the sliding-window fallback enabled.
pub fn chunked_hash(a: &[u8], b: &[u8], chunk_size: usize) -> (out: Vec<DiffEntry>)
    requires
        a@.len() <= usize::MAX / 8,
        b@.len() <= usize::MAX / 8,
    ensures
        entries_wf(out@, a@.len() as int, b@.len() as int),
        a@ == b@ ==> out@.len() == 0,
        a@.len() == 0 && b@.len() > 0 ==> out@ == seq![added_spec(0, 0, b@.len() as int)],
        b@.len() == 0 && a@.len() > 0 ==> out@ == seq![removed_spec(0, a@.len() as int)],
        exists|rs: Seq<(Seq<DiffEntry>, bool, int, int)>| #[trigger] chunk_result(a@, b@, chunk_block(chunk_size), true, rs, out@),
        a@ != b@ ==> out@.len() > 0,
{
    let out = chunked_hash_inner(a, b, chunk_size, true);
    proof {
        let cb = chunk_block(chunk_size);
        if a@ != b@ {
            let rs = choose|rs: Seq<(Seq<DiffEntry>, bool, int, int)>| #[trigger] chunk_result(a@, b@, cb, true, rs, out@);
            law_chunk_walk_reports(a@, b@, cb, rs);
        }
    }
    out
}

/// The largest window that the sliding-window fallback of the chunked strategy examines.
pub const WIN_MAX: usize = 4194304;

} // verus!

verus! {

/// Block `j` of `s` in `cs`-byte blocks: `s[j*cs .. min(j*cs + cs, len)]`.
pub open spec fn block_of(s: Seq<u8>, cs: int, j: int) -> Seq<u8> {
    let st = j * cs;
    let en = if st + cs <= s.len() { st + cs } else { s.len() as int };
    s.subrange(st, en)
}

/// `(xxh64 of block j, j)` for every block `j` of `b`, in block order.
pub open spec fn block_index_seq(b: Seq<u8>, cs: int) -> Seq<(u64, u64)> {
    Seq::new(n_blocks(b.len() as int, cs) as nat, |j: int| (spec_xxh64(block_of(b, cs, j), XXH_SEED), j as u64))
}

/// `(xxh(block j of b), j)` for every block `j`, sorted.
fn build_block_index(b: &[u8], cs: usize) -> (index: Vec<(u64, u64)>)
    requires
        cs >= 1,
        b@.len() <= usize::MAX / 8,
    ensures
        pairs_sorted(index@),
        index@.to_multiset() == block_index_seq(b@, cs as int).to_multiset(),
        forall|k: int| 0 <= k < index@.len() ==> (#[trigger] index@[k]).1 < n_blocks(b@.len() as int, cs as int),
{
    let lb = b.len();
    let n_b = lb / cs + if lb % cs != 0 { 1 } else { 0 };
    let mut index: Vec<(u64, u64)> = Vec::new();
    let mut j: usize = 0;
    while j < n_b
        invariant
            lb == b@.len(),
            cs >= 1,
            n_b == n_blocks(lb as int, cs as int),
            j <= n_b,
            index@ =~= block_index_seq(b@, cs as int).subrange(0, j as int),
        decreases n_b - j,
    {
        proof {
            lemma_block_start(j as int, cs as int, lb as int);
        }
        let bs = j * cs;
        let be = block_end(bs, cs, lb);
        let h = xxh(&b[bs..be]);
        proof {
            assert(b@.subrange(bs as int, be as int) =~= block_of(b@, cs as int, j as int));
        }
        index.push((h, j as u64));
        j = j + 1;
    }
    let ghost before = index@;
    proof {
        assert(before =~= block_index_seq(b@, cs as int));
    }
    sort_pairs(&mut index);
    proof {
        assert forall|k: int| 0 <= k < index@.len() implies (#[trigger] index@[k]).1 < n_b by {
            let p = index@[k];
            assert(index@.contains(p));
            vstd::seq_lib::to_multiset_contains(index@, p);
            vstd::seq_lib::to_multiset_contains(before, p);
            let t = choose|t: int| 0 <= t < before.len() && before[t] == p;
        }
    }
    index
}

/// Number of positions `t < n` with `a[s + t] == b[t0 + t]`.
pub open spec fn count_equal(a: Seq<u8>, s: int, b: Seq<u8>, t0: int, n: nat) -> nat
    decreases n,
{
    if n == 0 {
        0
    } else {
        count_equal(a, s, b, t0, (n - 1) as nat) + if a[s + n - 1] == b[t0 + n - 1] { 1nat } else { 0nat }
    }
}

/// Number of positions `t < n` with `a[s + t] == b[t0 + t]`.
fn overlap_count(a: &[u8], s: usize, b: &[u8], t0: usize, n: usize) -> (c: usize)
    requires
        s + n <= a@.len(),
        t0 + n <= b@.len(),
    ensures
        c == count_equal(a@, s as int, b@, t0 as int, n as nat),
        c <= n,
{
    let mut c: usize = 0;
    let mut k: usize = 0;
    while k < n
        invariant
            s + n <= a.len(),
            t0 + n <= b.len(),
            k <= n,
            c <= k,
            c == count_equal(a@, s as int, b@, t0 as int, k as nat),
        decreases n - k,
    {
        if a[s + k] == b[t0 + k] {
            c = c + 1;
        }
        k = k + 1;
    }
    c
}

/// The first block `j >= from` of `b` whose bytes equal block `ia` of `a`.
pub open spec fn first_equal_block(a: Seq<u8>, b: Seq<u8>, cs: int, ia: int, from: int) -> Option<usize>
    decreases n_blocks(b.len() as int, cs) - from,
{
    if from < 0 || from >= n_blocks(b.len() as int, cs) {
        None
    } else if blocks_eq_spec(a, b, cs, ia, from) {
        Some(from as usize)
    } else {
        first_equal_block(a, b, cs, ia, from + 1)
    }
}

pub proof fn lemma_first_equal_some(a: Seq<u8>, b: Seq<u8>, cs: int, ia: int, from: int, j: int)
    requires
        0 <= from <= j < n_blocks(b.len() as int, cs),
        blocks_eq_spec(a, b, cs, ia, j),
        forall|t: int| from <= t < j ==> !#[trigger] blocks_eq_spec(a, b, cs, ia, t),
    ensures
        first_equal_block(a, b, cs, ia, from) == Some(j as usize),
    decreases j - from,
{
    if from < j {
        lemma_first_equal_some(a, b, cs, ia, from + 1, j);
    }
}

pub proof fn lemma_first_equal_none(a: Seq<u8>, b: Seq<u8>, cs: int, ia: int, from: int)
    requires
        0 <= from,
        forall|t: int| from <= t < n_blocks(b.len() as int, cs) ==> !#[trigger] blocks_eq_spec(a, b, cs, ia, t),
    ensures
        first_equal_block(a, b, cs, ia, from) is None,
    decreases n_blocks(b.len() as int, cs) - from,
{
    if from < n_blocks(b.len() as int, cs) {
        lemma_first_equal_none(a, b, cs, ia, from + 1);
    }
}

/// A block of `b` equal to block `ia` of `a` has an entry, under the A block's hash, in any
/// index that holds the entries of `block_index_seq(b, cs)`.
pub proof fn lemma_equal_block_indexed(a: Seq<u8>, b: Seq<u8>, cs: int, index: Seq<(u64, u64)>, ia: int, j: int)
    requires
        index.to_multiset() == block_index_seq(b, cs).to_multiset(),
        0 <= j < n_blocks(b.len() as int, cs),
        blocks_eq_spec(a, b, cs, ia, j),
    ensures
        exists|k: int| 0 <= k < index.len() && #[trigger] index[k] == (spec_xxh64(block_of(a, cs, ia), XXH_SEED), j as u64),
{
    let e = (spec_xxh64(block_of(a, cs, ia), XXH_SEED), j as u64);
    assert(block_of(b, cs, j) == block_of(a, cs, ia));
    assert(block_index_seq(b, cs)[j] == e);
    assert(block_index_seq(b, cs).contains(e));
    vstd::seq_lib::to_multiset_contains(block_index_seq(b, cs), e);
    vstd::seq_lib::to_multiset_contains(index, e);
}

/// Entry `k` of the block index is the first one, in index order, whose hash is `h`, whose
/// block is at or after `ib`, and whose bytes equal block `ia` of `a`.
pub open spec fn first_block_hit(a: Seq<u8>, b: Seq<u8>, cs: int, index: Seq<(u64, u64)>, ia: int, ib: int, h: u64, k: int) -> bool {
    &&& 0 <= k < index.len()
    &&& index[k].0 == h
    &&& index[k].1 >= ib
    &&& blocks_eq_spec(a, b, cs, ia, index[k].1 as int)
    &&& forall|k2: int| 0 <= k2 < k && (#[trigger] index[k2]).0 == h && index[k2].1 >= ib
        ==> !blocks_eq_spec(a, b, cs, ia, index[k2].1 as int)
}

/// Looks up block `ia` of `a` among the blocks of `b` from `ib` on, through the hash index:
/// the first index entry (in index order) whose hash is that of the A block, whose block is
/// at or after `ib`, and whose bytes equal the A block.
fn find_block(a: &[u8], b: &[u8], cs: usize, index: &Vec<(u64, u64)>, ia: usize, ib: usize) -> (r: Option<usize>)
    requires
        cs >= 1,
        pairs_sorted(index@),
        forall|k: int| 0 <= k < index@.len() ==> (#[trigger] index@[k]).1 < n_blocks(b@.len() as int, cs as int),
        ia < n_blocks(a@.len() as int, cs as int),
    ensures
        ({
            let h = spec_xxh64(block_of(a@, cs as int, ia as int), XXH_SEED);
            match r {
                Some(j) => {
                    &&& ib <= j < n_blocks(b@.len() as int, cs as int)
                    &&& blocks_eq_spec(a@, b@, cs as int, ia as int, j as int)
                    &&& exists|k: int| #[trigger] first_block_hit(a@, b@, cs as int, index@, ia as int, ib as int, h, k)
                        && index@[k].1 == j
                },
                None => forall|k: int| 0 <= k < index@.len() && (#[trigger] index@[k]).0 == h && index@[k].1 >= ib
                    ==> !blocks_eq_spec(a@, b@, cs as int, ia as int, index@[k].1 as int),
            }
        }),
        index@.to_multiset() == block_index_seq(b@, cs as int).to_multiset()
            ==> r == first_equal_block(a@, b@, cs as int, ia as int, ib as int),
{
    let la = a.len();
    proof {
        lemma_block_start(ia as int, cs as int, la as int);
    }
    let as_ = ia * cs;
    let ae = block_end(as_, cs, la);
    let h = xxh(&a[as_..ae]);
    let ghost hs = spec_xxh64(block_of(a@, cs as int, ia as int), XXH_SEED);
    proof {
        assert(a@.subrange(as_ as int, ae as int) =~= block_of(a@, cs as int, ia as int));
    }
    let lo = partition_point(index, h, false);
    let hi = partition_point(index, h, true);
    let lb = b.len();
    let mut k = lo;
    while k < hi
        invariant
            cs >= 1,
            lb == b@.len(),
            h == hs,
            hs == spec_xxh64(block_of(a@, cs as int, ia as int), XXH_SEED),
            pairs_sorted(index@),
            lo <= k,
            hi <= index@.len(),
            forall|k2: int| 0 <= k2 < lo ==> (#[trigger] index@[k2]).0 < h,
            forall|k2: int| hi <= k2 < index@.len() ==> (#[trigger] index@[k2]).0 > h,
            forall|k2: int| lo <= k2 < hi ==> (#[trigger] index@[k2]).0 == h,
            forall|k2: int| lo <= k2 < k && (#[trigger] index@[k2]).1 >= ib
                ==> !blocks_eq_spec(a@, b@, cs as int, ia as int, index@[k2].1 as int),
            ia < n_blocks(a@.len() as int, cs as int),
            forall|k: int| 0 <= k < index@.len() ==> (#[trigger] index@[k]).1 < n_blocks(b@.len() as int, cs as int),
        decreases hi - k,
    {
        proof {
            assert(index@[k as int].1 < n_blocks(b@.len() as int, cs as int));
            lemma_block_start(index@[k as int].1 as int, cs as int, b@.len() as int);
            let x = index@[k as int].1 as int;
            assert(x <= x * cs) by (nonlinear_arith)
                requires
                    x >= 0,
                    cs >= 1,
            ;
            assert(x < lb);
        }
        let j = index[k].1 as usize;
        proof {
            assert(j as u64 == index@[k as int].1);
        }
        if j >= ib && blocks_eq(a, b, cs, ia, j) {
            proof {
                assert(index@[k as int] == (h, j as u64));
                assert forall|k2: int| 0 <= k2 < k && (#[trigger] index@[k2]).0 == h && index@[k2].1 >= ib
                    implies !blocks_eq_spec(a@, b@, cs as int, ia as int, index@[k2].1 as int) by {
                    if k2 < lo {
                        assert(index@[k2].0 < h);
                    }
                }
                assert(first_block_hit(a@, b@, cs as int, index@, ia as int, ib as int, hs, k as int));
                if index@.to_multiset() == block_index_seq(b@, cs as int).to_multiset() {
                    assert forall|t: int| ib <= t < j implies !#[trigger] blocks_eq_spec(a@, b@, cs as int, ia as int, t) by {
                        if blocks_eq_spec(a@, b@, cs as int, ia as int, t) {
                            lemma_equal_block_indexed(a@, b@, cs as int, index@, ia as int, t);
                            let k2 = choose|k2: int| 0 <= k2 < index@.len() && #[trigger] index@[k2] == (hs, t as u64);
                            if k2 > k {
                                assert(pair_le(index@[k as int], index@[k2]));
                            }
                            assert(k2 < k);
                        }
                    }
                    lemma_first_equal_some(a@, b@, cs as int, ia as int, ib as int, j as int);
                }
            }
            return Some(j);
        }
        k = k + 1;
    }
    proof {
        if index@.to_multiset() == block_index_seq(b@, cs as int).to_multiset() {
            assert forall|t: int| ib <= t < n_blocks(b@.len() as int, cs as int) implies !#[trigger] blocks_eq_spec(a@, b@, cs as int, ia as int, t) by {
                if blocks_eq_spec(a@, b@, cs as int, ia as int, t) {
                    lemma_equal_block_indexed(a@, b@, cs as int, index@, ia as int, t);
                    let k2 = choose|k2: int| 0 <= k2 < index@.len() && #[trigger] index@[k2] == (hs, t as u64);
                    assert(lo <= k2 < hi);
                }
            }
            lemma_first_equal_none(a@, b@, cs as int, ia as int, ib as int);
        }
    }
    None
}

/// Appends the block pair `a[as_..ae]` (Removed) and `b[bs_..be]` (Added at `ae`).
fn push_pair(out: &mut Vec<DiffEntry>, as_: usize, ae: usize, bs_: usize, be: usize, Ghost(la): Ghost<int>, Ghost(lb): Ghost<int>)
    requires
        entries_wf(old(out)@, la, lb),
        as_ < ae <= la,
        bs_ < be <= lb,
    ensures
        entries_wf(final(out)@, la, lb),
        final(out)@ == old(out)@ + seq![removed_spec(as_ as int, ae as int), added_spec(ae as int, bs_ as int, be as int)],
{
    let e1 = mk_removed(as_, ae);
    proof {
        lemma_entries_wf_append(out@, seq![e1], la, lb);
    }
    out.push(e1);
    let e2 = mk_added(ae, bs_, be);
    proof {
        lemma_entries_wf_append(out@, seq![e2], la, lb);
    }
    out.push(e2);
}

/// Appends `len_diff(as_, ae, bs_, be)`.
fn push_len_diff(out: &mut Vec<DiffEntry>, as_: usize, ae: usize, bs_: usize, be: usize, Ghost(la): Ghost<int>, Ghost(lb): Ghost<int>)
    requires
        entries_wf(old(out)@, la, lb),
        as_ <= ae <= la,
        bs_ <= be <= lb,
    ensures
        entries_wf(final(out)@, la, lb),
        final(out)@ == old(out)@ + len_diff(as_ as int, ae as int, bs_ as int, be as int),
{
    let na = ae - as_;
    let nb = be - bs_;
    if na > nb {
        let e = mk_removed(as_ + nb, ae);
        proof {
            lemma_entries_wf_append(out@, seq![e], la, lb);
        }
        out.push(e);
    } else if nb > na {
        let e = mk_added(ae, bs_ + na, be);
        proof {
            lemma_entries_wf_append(out@, seq![e], la, lb);
        }
        out.push(e);
    } else {
        assert(out@ + Seq::<DiffEntry>::empty() =~= out@);
    }
}

/// The re-anchoring search over remainders of `rem_a` and `rem_b` bytes stopped at the
/// window of `win` bytes (64 KiB, 512 KiB or 4 MiB), whose sizes in blocks are `qa` and
/// `qb`: the window re-anchored, was the largest, or covered both remainders; no smaller
/// window covered both remainders.
pub open spec fn reanchor_stop(rem_a: int, rem_b: int, cs: int, win: int, reanchor: bool, qa: int, qb: int) -> bool {
    &&& (win == 65536 || win == 524288 || win == 4194304)
    &&& qa == (if rem_a < win { rem_a } else { win }) / cs
    &&& qb == (if rem_b < win { rem_b } else { win }) / cs
    &&& (reanchor || win == WIN_MAX || (rem_a <= win && rem_b <= win))
    &&& (win > 65536 ==> !(rem_a <= 65536 && rem_b <= 65536))
    &&& (win > 524288 ==> !(rem_a <= 524288 && rem_b <= 524288))
}

/// `sub` is what the sliding-window diff (window 64, minimal match 32) reports for the
/// windows `a[as_..as_+wa]` and `b[bs_..bs_+wb]`.
pub open spec fn window_report(a: Seq<u8>, b: Seq<u8>, as_: int, wa: int, bs_: int, wb: int, sub: Seq<DiffEntry>) -> bool {
    exists|p: int, q: int, index: Seq<(u64, u64)>, order: Seq<usize>|
        #[trigger] sliding_report(a.subrange(as_, as_ + wa), b.subrange(bs_, bs_ + wb), 64, 32, p, q, index, order, sub)
}

/// The window of `win` bytes (on each side at most the remainder, rounded down to whole
/// blocks) was diffed and its report holds no matching segment.
pub open spec fn window_failed(a: Seq<u8>, b: Seq<u8>, cs: int, as_: int, bs_: int, win: int) -> bool {
    let wa = win_bytes_of(a.len() - as_, win, cs);
    let wb = win_bytes_of(b.len() - bs_, win, cs);
    exists|sub: Seq<DiffEntry>| #[trigger] window_report(a, b, as_, wa, bs_, wb, sub) && !has_reanchor_spec(sub, wa)
}

/// The bytes of a remainder of `rem` bytes that a window of `win` bytes covers: at most
/// `win`, rounded down to whole blocks of `cs` bytes.
pub open spec fn win_bytes_of(rem: int, win: int, cs: int) -> int {
    ((if rem < win { rem } else { win }) / cs) * cs
}

/// The re-anchoring search stopped at one of its windows (see `reanchor_stop`), every
/// smaller window having been tried without a matching segment.
pub open spec fn reanchor_stopped(a: Seq<u8>, b: Seq<u8>, cs: int, as_: int, bs_: int, reanchor: bool, qa: int, qb: int) -> bool {
    exists|win: int| #[trigger] reanchor_stop(a.len() - as_, b.len() - bs_, cs, win, reanchor, qa, qb)
        && (win > 65536 ==> window_failed(a, b, cs, as_, bs_, 65536))
        && (win > 524288 ==> window_failed(a, b, cs, as_, bs_, 524288))
}

/// The bounded sliding-window re-anchoring of the chunked strategy: slides windows of
/// 64 KiB, 512 KiB and 4 MiB (each rounded down to whole blocks) over `a[as_..]` and
/// `b[bs_..]` until one holds a matching segment, the largest has been tried, or both
/// remainders fit in the window. Returns the window's entries, whether it re-anchored,
/// and the window sizes in blocks.
fn reanchor_window(a: &[u8], b: &[u8], cs: usize, as_: usize, bs_: usize) -> (r: (Vec<DiffEntry>, bool, usize, usize))
    requires
        cs >= 1,
        as_ <= a@.len(),
        bs_ <= b@.len(),
        a@.len() <= usize::MAX / 8,
        b@.len() <= usize::MAX / 8,
    ensures
        as_ + r.2 * cs <= a@.len(),
        bs_ + r.3 * cs <= b@.len(),
        entries_wf(r.0@, r.2 * cs, r.3 * cs),
        r.1 == has_reanchor_spec(r.0@, r.2 * cs),
        a@.subrange(as_ as int, as_ + r.2 * cs) == b@.subrange(bs_ as int, bs_ + r.3 * cs) ==> r.0@.len() == 0,
        reanchor_stopped(a@, b@, cs as int, as_ as int, bs_ as int, r.1, r.2 as int, r.3 as int),
        window_report(a@, b@, as_ as int, r.2 * cs, bs_ as int, r.3 * cs, r.0@),
    decreases 4int,
{
    let la = a.len();
    let lb = b.len();
    let rem_a = la - as_;
    let rem_b = lb - bs_;
    let mut sub: Vec<DiffEntry> = Vec::new();
    let mut reanchor = false;
    let mut qa: usize = 0;
    let mut qb: usize = 0;
    let mut win: usize = 65536;
    let mut searching = true;
    while searching
        invariant
            win == 65536 || win == 524288 || win == 4194304,
            cs >= 1,
            qa * cs <= rem_a,
            qb * cs <= rem_b,
            as_ + rem_a == la,
            bs_ + rem_b == lb,
            la == a@.len(),
            lb == b@.len(),
            la <= usize::MAX / 8,
            lb <= usize::MAX / 8,
            entries_wf(sub@, qa * cs, qb * cs),
            win > 65536 ==> !(rem_a <= 65536 && rem_b <= 65536),
            win > 524288 ==> !(rem_a <= 524288 && rem_b <= 524288),
            win > 65536 ==> window_failed(a@, b@, cs as int, as_ as int, bs_ as int, 65536),
            win > 524288 ==> window_failed(a@, b@, cs as int, as_ as int, bs_ as int, 524288),
            !searching ==> window_report(a@, b@, as_ as int, qa * cs, bs_ as int, qb * cs, sub@),
            !searching ==> reanchor_stop(rem_a as int, rem_b as int, cs as int, win as int, reanchor, qa as int, qb as int),
            !searching ==> reanchor == has_reanchor_spec(sub@, qa * cs),
            !searching ==> (a@.subrange(as_ as int, as_ + qa * cs) == b@.subrange(bs_ as int, bs_ + qb * cs) ==> sub@.len() == 0),
        decreases if searching { 2 * WIN_MAX - win } else { 0 },
    {
        let ma = if rem_a < win { rem_a } else { win };
        let mb = if rem_b < win { rem_b } else { win };
        proof {
            lemma_div_mul_le(ma as int, cs as int);
            lemma_div_mul_le(mb as int, cs as int);
        }
        qa = ma / cs;
        qb = mb / cs;
        let wa = qa * cs;
        let wb = qb * cs;
        let wina = &a[as_..as_ + wa];
        let winb = &b[bs_..bs_ + wb];
        proof {
            assert(a@.subrange(as_ as int, as_ + wa) =~= wina@);
            assert(b@.subrange(bs_ as int, bs_ + wb) =~= winb@);
        }
        sub = sliding_window(wina, winb, 64, 32);
        proof {
            let (p, q, index, order) = choose|p: int, q: int, index: Seq<(u64, u64)>, order: Seq<usize>|
                #[trigger] sliding_report(wina@, winb@, 64, 32, p, q, index, order, sub@);
            assert(sliding_report(a@.subrange(as_ as int, as_ + wa), b@.subrange(bs_ as int, bs_ + wb), 64, 32, p, q, index, order, sub@));
            assert(window_report(a@, b@, as_ as int, wa as int, bs_ as int, wb as int, sub@));
        }
        reanchor = window_has_reanchor(&sub, wa);
        if reanchor || win >= WIN_MAX || (rem_a <= win && rem_b <= win) {
            searching = false;
        } else {
            proof {
                let xa = win_bytes_of(a@.len() - as_, win as int, cs as int);
                let xb = win_bytes_of(b@.len() - bs_, win as int, cs as int);
                assert(xa == wa);
                assert(xb == wb);
                assert(window_report(a@, b@, as_ as int, xa, bs_ as int, xb, sub@));
                assert(!has_reanchor_spec(sub@, xa));
                assert(window_failed(a@, b@, cs as int, as_ as int, bs_ as int, win as int));
            }
            win = win * 8;
        }
    }
    proof {
        assert(reanchor_stop(rem_a as int, rem_b as int, cs as int, win as int, reanchor, qa as int, qb as int));
        assert(reanchor_stop(a@.len() - as_, b@.len() - bs_, cs as int, win as int, reanchor, qa as int, qb as int));
        assert(reanchor_stopped(a@, b@, cs as int, as_ as int, bs_ as int, reanchor, qa as int, qb as int));
    }
    (sub, reanchor, qa, qb)
}

/// What the chunked walk reports for the blocks left over once either file is exhausted:
/// the rest of A as Removed, then the rest of B as Added at the end of A.
pub open spec fn chunk_tail(la: int, lb: int, cs: int, ia: int, ib: int) -> Seq<DiffEntry> {
    (if ia < n_blocks(la, cs) { seq![removed_spec(ia * cs, la)] } else { Seq::empty() })
        + (if ib < n_blocks(lb, cs) { seq![added_spec(la, ib * cs, lb)] } else { Seq::empty() })
}

/// The length difference of the block `a[as_..ae]` and the block `b[bs_..be]`: the bytes of
/// the longer block past the length of the shorter one, Removed (in A) or Added (in B, at
/// the end of the A block); nothing for blocks of equal length.
pub open spec fn len_diff(as_: int, ae: int, bs_: int, be: int) -> Seq<DiffEntry> {
    if ae - as_ > be - bs_ {
        seq![removed_spec(as_ + (be - bs_), ae)]
    } else if be - bs_ > ae - as_ {
        seq![added_spec(ae, bs_ + (ae - as_), be)]
    } else {
        Seq::empty()
    }
}

/// End of block `i` of a file of `len` bytes: `min(i*cs + cs, len)`.
pub open spec fn blk_end(len: int, cs: int, i: int) -> int {
    if i * cs + cs <= len { i * cs + cs } else { len }
}

/// The number of bytes that the in-place comparison of block `ia` of A with block `ib` of
/// B looks at: the length of the shorter block (0 when either block is empty).
pub open spec fn inplace_len(la: int, lb: int, cs: int, ia: int, ib: int) -> int {
    let na = blk_end(la, cs, ia) - ia * cs;
    let nb = blk_end(lb, cs, ib) - ib * cs;
    let n = if na < nb { na } else { nb };
    if n > 0 { n } else { 0 }
}

/// The in-place comparison of the pair finds at least half of the compared bytes equal.
pub open spec fn inplace_match(a: Seq<u8>, b: Seq<u8>, cs: int, ia: int, ib: int) -> bool {
    let n = inplace_len(a.len() as int, b.len() as int, cs, ia, ib);
    n > 0 && count_equal(a, ia * cs, b, ib * cs, n as nat) * 2 >= n
}

/// What the in-place report of the pair says: Modified over the compared bytes unless they
/// all agree, then the length difference of the two blocks.
pub open spec fn inplace_entries(a: Seq<u8>, b: Seq<u8>, cs: int, ia: int, ib: int) -> Seq<DiffEntry> {
    let n = inplace_len(a.len() as int, b.len() as int, cs, ia, ib);
    (if count_equal(a, ia * cs, b, ib * cs, n as nat) != n { seq![modified_spec(ia * cs, ib * cs, n)] } else { Seq::empty() })
        + len_diff(ia * cs, blk_end(a.len() as int, cs, ia), ib * cs, blk_end(b.len() as int, cs, ib))
}

/// `r = (entries, re-anchored, qa, qb)` is what the re-anchoring at `a[as_..]` / `b[bs_..]`
/// returns: the sliding-window report of the window it stopped at (`qa` and `qb` blocks),
/// whether that report holds a matching segment, and the window sizes (see
/// `reanchor_window`).
pub open spec fn reanchor_ok(a: Seq<u8>, b: Seq<u8>, cs: int, as_: int, bs_: int, r: (Seq<DiffEntry>, bool, int, int)) -> bool {
    &&& r.2 >= 0
    &&& r.3 >= 0
    &&& as_ + r.2 * cs <= a.len()
    &&& bs_ + r.3 * cs <= b.len()
    &&& entries_wf(r.0, r.2 * cs, r.3 * cs)
    &&& r.1 == has_reanchor_spec(r.0, r.2 * cs)
    &&& reanchor_stopped(a, b, cs, as_, bs_, r.1, r.2, r.3)
    &&& window_report(a, b, as_, r.2 * cs, bs_, r.3 * cs, r.0)
}

/// What a re-anchoring at block `ia` of A and block `ib` of B reports when its window
/// report is `sub`: the window's entries in file positions, or, when the window reports
/// nothing, the block pair itself (the A block Removed, the B block Added at its end).
pub open spec fn reanchor_entries(a: Seq<u8>, b: Seq<u8>, cs: int, ia: int, ib: int, sub: Seq<DiffEntry>) -> Seq<DiffEntry> {
    if sub.len() == 0 {
        seq![removed_spec(ia * cs, blk_end(a.len() as int, cs, ia)),
            added_spec(blk_end(a.len() as int, cs, ia), ib * cs, blk_end(b.len() as int, cs, ib))]
    } else {
        sub.map_values(|e: DiffEntry| shift_entry(e, ia * cs, ib * cs))
    }
}

/// The chunked walk from block `ia` of A and block `ib` of B (blocks of `cs` bytes), the
/// re-anchorings it reaches taking their results from `rs` in order: the entries it
/// reports, whether `rs` had a result for each re-anchoring reached, and the positions
/// (in A, in B) of those re-anchorings, in order.
/// Equal blocks are skipped. A pair whose compared bytes agree at least half-way is
/// reported in place (`inplace_entries`). Otherwise the first equal block of B at or after
/// `ib` re-synchronizes the walk, the blocks of B skipped on the way being Added. Without
/// one, with `fallback` on, the pair goes to the re-anchoring: when it found no matching
/// segment, a remainder exceeds `WIN_MAX` and its window is empty on one side, the A block
/// is Removed and the B block Added; otherwise the window's entries are reported in
/// file positions (the block pair as Removed / Added when there are none), and the walk goes on after the window when it found no matching segment
/// and a remainder exceeds `WIN_MAX`, and stops otherwise. With `fallback` off, the A block
/// is Removed and the B block Added when either remainder exceeds `WIN_MAX`, and the
/// walk stops otherwise.
#[verifier::opaque]
pub open spec fn chunk_walk(a: Seq<u8>, b: Seq<u8>, cs: int, ia: int, ib: int, fallback: bool,
    rs: Seq<(Seq<DiffEntry>, bool, int, int)>) -> (Seq<DiffEntry>, bool, Seq<(int, int)>)
    decreases n_blocks(a.len() as int, cs) - ia,
{
    let la = a.len() as int;
    let lb = b.len() as int;
    if cs < 1 || ia < 0 || ib < 0 || ia >= n_blocks(la, cs) || ib >= n_blocks(lb, cs) {
        (chunk_tail(la, lb, cs, ia, ib), true, Seq::empty())
    } else if blocks_eq_spec(a, b, cs, ia, ib) {
        chunk_walk(a, b, cs, ia + 1, ib + 1, fallback, rs)
    } else if inplace_match(a, b, cs, ia, ib) {
        let rest = chunk_walk(a, b, cs, ia + 1, ib + 1, fallback, rs);
        (inplace_entries(a, b, cs, ia, ib) + rest.0, rest.1, rest.2)
    } else {
        match first_equal_block(a, b, cs, ia, ib) {
            Some(j) => {
                let rest = chunk_walk(a, b, cs, ia + 1, j + 1, fallback, rs);
                ((if j > ib { seq![added_spec(ia * cs, ib * cs, j * cs)] } else { Seq::empty() }) + rest.0, rest.1, rest.2)
            },
            None => {
                let big = la - ia * cs > WIN_MAX || lb - ib * cs > WIN_MAX;
                let lost = seq![removed_spec(ia * cs, blk_end(la, cs, ia)), added_spec(blk_end(la, cs, ia), ib * cs, blk_end(lb, cs, ib))];
                if fallback {
                    if rs.len() == 0 {
                        (Seq::empty(), false, Seq::empty())
                    } else {
                        let r = rs[0];
                        let at = seq![(ia * cs, ib * cs)];
                        if !r.1 && big && (r.2 * cs == 0 || r.3 * cs == 0) {
                            let rest = chunk_walk(a, b, cs, ia + 1, ib + 1, fallback, rs.drop_first());
                            (lost + rest.0, rest.1, at + rest.2)
                        } else {
                            let sub = reanchor_entries(a, b, cs, ia, ib, r.0);
                            if !r.1 && big {
                                if r.2 >= 1 && ia + r.2 <= n_blocks(la, cs) {
                                    let rest = chunk_walk(a, b, cs, ia + r.2, ib + r.3, fallback, rs.drop_first());
                                    (sub + rest.0, rest.1, at + rest.2)
                                } else {
                                    (sub, false, at)
                                }
                            } else {
                                (sub, true, at)
                            }
                        }
                    }
                } else if big {
                    let rest = chunk_walk(a, b, cs, ia + 1, ib + 1, fallback, rs);
                    (lost + rest.0, rest.1, rest.2)
                } else {
                    (Seq::empty(), true, Seq::empty())
                }
            },
        }
    }
}

/// The walk from `(ia, ib)` continues the walk from the start: for any results `rest` of
/// the re-anchorings still to come, the walk from the start with `rs_acc` then `rest`
/// reports `out` followed by what the walk from `(ia, ib)` reports with `rest`, and its
/// re-anchorings are those at `pos_acc` followed by those of the walk from `(ia, ib)`.
pub open spec fn walk_cont(a: Seq<u8>, b: Seq<u8>, cs: int, fb: bool, rs_acc: Seq<(Seq<DiffEntry>, bool, int, int)>, pos_acc: Seq<(int, int)>,
    out: Seq<DiffEntry>, ia: int, ib: int) -> bool {
    forall|rest: Seq<(Seq<DiffEntry>, bool, int, int)>| #![trigger chunk_walk(a, b, cs, ia, ib, fb, rest)]
        chunk_walk(a, b, cs, 0, 0, fb, rs_acc + rest)
            == (out + chunk_walk(a, b, cs, ia, ib, fb, rest).0, chunk_walk(a, b, cs, ia, ib, fb, rest).1,
                pos_acc + chunk_walk(a, b, cs, ia, ib, fb, rest).2)
}

/// `out` is what the chunked walk of `a` and `b` reports when the re-anchorings it reaches
/// return `rs`: `rs` has a result for each of them, and each is what the re-anchoring at
/// that position returns (`reanchor_ok`).
pub open spec fn chunk_result(a: Seq<u8>, b: Seq<u8>, cs: int, fb: bool, rs: Seq<(Seq<DiffEntry>, bool, int, int)>, out: Seq<DiffEntry>) -> bool {
    let w = chunk_walk(a, b, cs, 0, 0, fb, rs);
    &&& w.0 == out
    &&& w.1
    &&& w.2.len() <= rs.len()
    &&& forall|k: int| 0 <= k < w.2.len() ==> #[trigger] reanchor_ok(a, b, cs, w.2[k].0, w.2[k].1, rs[k])
}

proof fn lemma_cont_start(a: Seq<u8>, b: Seq<u8>, cs: int, fb: bool)
    ensures
        walk_cont(a, b, cs, fb, Seq::empty(), Seq::empty(), Seq::empty(), 0, 0),
{
    assert forall|rest: Seq<(Seq<DiffEntry>, bool, int, int)>| #![trigger chunk_walk(a, b, cs, 0, 0, fb, rest)]
        chunk_walk(a, b, cs, 0, 0, fb, Seq::empty() + rest)
            == (Seq::<DiffEntry>::empty() + chunk_walk(a, b, cs, 0, 0, fb, rest).0, chunk_walk(a, b, cs, 0, 0, fb, rest).1,
                Seq::<(int, int)>::empty() + chunk_walk(a, b, cs, 0, 0, fb, rest).2) by {
        assert(Seq::<(Seq<DiffEntry>, bool, int, int)>::empty() + rest =~= rest);
        assert(Seq::<DiffEntry>::empty() + chunk_walk(a, b, cs, 0, 0, fb, rest).0 =~= chunk_walk(a, b, cs, 0, 0, fb, rest).0);
        assert(Seq::<(int, int)>::empty() + chunk_walk(a, b, cs, 0, 0, fb, rest).2 =~= chunk_walk(a, b, cs, 0, 0, fb, rest).2);
    }
}

/// A step of the walk that takes no re-anchoring result.
proof fn lemma_cont_step(a: Seq<u8>, b: Seq<u8>, cs: int, fb: bool, rs_acc: Seq<(Seq<DiffEntry>, bool, int, int)>, pos_acc: Seq<(int, int)>,
    out: Seq<DiffEntry>, ia: int, ib: int, piece: Seq<DiffEntry>, ia2: int, ib2: int)
    requires
        walk_cont(a, b, cs, fb, rs_acc, pos_acc, out, ia, ib),
        forall|rest: Seq<(Seq<DiffEntry>, bool, int, int)>| #![trigger chunk_walk(a, b, cs, ia2, ib2, fb, rest)]
            chunk_walk(a, b, cs, ia, ib, fb, rest)
                == (piece + chunk_walk(a, b, cs, ia2, ib2, fb, rest).0, chunk_walk(a, b, cs, ia2, ib2, fb, rest).1,
                    chunk_walk(a, b, cs, ia2, ib2, fb, rest).2),
    ensures
        walk_cont(a, b, cs, fb, rs_acc, pos_acc, out + piece, ia2, ib2),
{
    assert forall|rest: Seq<(Seq<DiffEntry>, bool, int, int)>| #![trigger chunk_walk(a, b, cs, ia2, ib2, fb, rest)]
        chunk_walk(a, b, cs, 0, 0, fb, rs_acc + rest)
            == ((out + piece) + chunk_walk(a, b, cs, ia2, ib2, fb, rest).0, chunk_walk(a, b, cs, ia2, ib2, fb, rest).1,
                pos_acc + chunk_walk(a, b, cs, ia2, ib2, fb, rest).2) by {
        let w = chunk_walk(a, b, cs, ia, ib, fb, rest);
        assert(out + (piece + chunk_walk(a, b, cs, ia2, ib2, fb, rest).0) =~= (out + piece) + chunk_walk(a, b, cs, ia2, ib2, fb, rest).0);
    }
}

/// A step of the walk that takes the re-anchoring result `r`, at position `at`.
proof fn lemma_cont_consume(a: Seq<u8>, b: Seq<u8>, cs: int, fb: bool, rs_acc: Seq<(Seq<DiffEntry>, bool, int, int)>, pos_acc: Seq<(int, int)>,
    out: Seq<DiffEntry>, ia: int, ib: int, r: (Seq<DiffEntry>, bool, int, int), at: (int, int), piece: Seq<DiffEntry>, ia2: int, ib2: int)
    requires
        walk_cont(a, b, cs, fb, rs_acc, pos_acc, out, ia, ib),
        forall|rest: Seq<(Seq<DiffEntry>, bool, int, int)>| #![trigger chunk_walk(a, b, cs, ia2, ib2, fb, rest)]
            chunk_walk(a, b, cs, ia, ib, fb, seq![r] + rest)
                == (piece + chunk_walk(a, b, cs, ia2, ib2, fb, rest).0, chunk_walk(a, b, cs, ia2, ib2, fb, rest).1,
                    seq![at] + chunk_walk(a, b, cs, ia2, ib2, fb, rest).2),
    ensures
        walk_cont(a, b, cs, fb, rs_acc.push(r), pos_acc.push(at), out + piece, ia2, ib2),
{
    assert forall|rest: Seq<(Seq<DiffEntry>, bool, int, int)>| #![trigger chunk_walk(a, b, cs, ia2, ib2, fb, rest)]
        chunk_walk(a, b, cs, 0, 0, fb, rs_acc.push(r) + rest)
            == ((out + piece) + chunk_walk(a, b, cs, ia2, ib2, fb, rest).0, chunk_walk(a, b, cs, ia2, ib2, fb, rest).1,
                pos_acc.push(at) + chunk_walk(a, b, cs, ia2, ib2, fb, rest).2) by {
        let x = seq![r] + rest;
        assert(rs_acc.push(r) + rest =~= rs_acc + x);
        let w = chunk_walk(a, b, cs, ia, ib, fb, x);
        assert(out + (piece + chunk_walk(a, b, cs, ia2, ib2, fb, rest).0) =~= (out + piece) + chunk_walk(a, b, cs, ia2, ib2, fb, rest).0);
        assert(pos_acc + (seq![at] + chunk_walk(a, b, cs, ia2, ib2, fb, rest).2) =~= pos_acc.push(at) + chunk_walk(a, b, cs, ia2, ib2, fb, rest).2);
    }
}

/// The walk from a pair past the end of either file reports the leftover blocks.
proof fn lemma_walk_tail(a: Seq<u8>, b: Seq<u8>, cs: int, fb: bool, ia: int, ib: int, rest: Seq<(Seq<DiffEntry>, bool, int, int)>)
    requires
        cs >= 1,
        ia >= 0,
        ib >= 0,
        ia >= n_blocks(a.len() as int, cs) || ib >= n_blocks(b.len() as int, cs),
    ensures
        chunk_walk(a, b, cs, ia, ib, fb, rest) == (chunk_tail(a.len() as int, b.len() as int, cs, ia, ib), true, Seq::<(int, int)>::empty()),
{
    reveal(chunk_walk);
}

/// `(ia, ib)` is a pair of existing blocks.
pub open spec fn walk_pair(a: Seq<u8>, b: Seq<u8>, cs: int, ia: int, ib: int) -> bool {
    cs >= 1 && 0 <= ia < n_blocks(a.len() as int, cs) && 0 <= ib < n_blocks(b.len() as int, cs)
}

proof fn lemma_walk_equal(a: Seq<u8>, b: Seq<u8>, cs: int, fb: bool, ia: int, ib: int)
    requires
        walk_pair(a, b, cs, ia, ib),
        blocks_eq_spec(a, b, cs, ia, ib),
    ensures
        forall|rest: Seq<(Seq<DiffEntry>, bool, int, int)>| #![trigger chunk_walk(a, b, cs, ia + 1, ib + 1, fb, rest)]
            chunk_walk(a, b, cs, ia, ib, fb, rest)
                == (Seq::<DiffEntry>::empty() + chunk_walk(a, b, cs, ia + 1, ib + 1, fb, rest).0, chunk_walk(a, b, cs, ia + 1, ib + 1, fb, rest).1,
                    chunk_walk(a, b, cs, ia + 1, ib + 1, fb, rest).2),
{
    reveal(chunk_walk);
    assert forall|rest: Seq<(Seq<DiffEntry>, bool, int, int)>| #![trigger chunk_walk(a, b, cs, ia + 1, ib + 1, fb, rest)]
        chunk_walk(a, b, cs, ia, ib, fb, rest)
            == (Seq::<DiffEntry>::empty() + chunk_walk(a, b, cs, ia + 1, ib + 1, fb, rest).0, chunk_walk(a, b, cs, ia + 1, ib + 1, fb, rest).1,
                chunk_walk(a, b, cs, ia + 1, ib + 1, fb, rest).2) by {
        assert(Seq::<DiffEntry>::empty() + chunk_walk(a, b, cs, ia + 1, ib + 1, fb, rest).0 =~= chunk_walk(a, b, cs, ia + 1, ib + 1, fb, rest).0);
    }
}

proof fn lemma_walk_inplace(a: Seq<u8>, b: Seq<u8>, cs: int, fb: bool, ia: int, ib: int)
    requires
        walk_pair(a, b, cs, ia, ib),
        !blocks_eq_spec(a, b, cs, ia, ib),
        inplace_match(a, b, cs, ia, ib),
    ensures
        forall|rest: Seq<(Seq<DiffEntry>, bool, int, int)>| #![trigger chunk_walk(a, b, cs, ia + 1, ib + 1, fb, rest)]
            chunk_walk(a, b, cs, ia, ib, fb, rest)
                == (inplace_entries(a, b, cs, ia, ib) + chunk_walk(a, b, cs, ia + 1, ib + 1, fb, rest).0, chunk_walk(a, b, cs, ia + 1, ib + 1, fb, rest).1,
                    chunk_walk(a, b, cs, ia + 1, ib + 1, fb, rest).2),
{
    reveal(chunk_walk);
}

proof fn lemma_walk_resync(a: Seq<u8>, b: Seq<u8>, cs: int, fb: bool, ia: int, ib: int, j: int)
    requires
        walk_pair(a, b, cs, ia, ib),
        !blocks_eq_spec(a, b, cs, ia, ib),
        !inplace_match(a, b, cs, ia, ib),
        first_equal_block(a, b, cs, ia, ib) == Some(j as usize),
        0 <= j <= usize::MAX,
    ensures
        forall|rest: Seq<(Seq<DiffEntry>, bool, int, int)>| #![trigger chunk_walk(a, b, cs, ia + 1, j + 1, fb, rest)]
            chunk_walk(a, b, cs, ia, ib, fb, rest)
                == ((if j > ib { seq![added_spec(ia * cs, ib * cs, j * cs)] } else { Seq::<DiffEntry>::empty() })
                    + chunk_walk(a, b, cs, ia + 1, j + 1, fb, rest).0, chunk_walk(a, b, cs, ia + 1, j + 1, fb, rest).1,
                    chunk_walk(a, b, cs, ia + 1, j + 1, fb, rest).2),
{
    reveal(chunk_walk);
}

/// The entries of a pair that no block re-synchronizes and that is not re-anchored: both
/// blocks reported, the A block Removed and the B block Added at its end.
pub open spec fn lost_entries(a: Seq<u8>, b: Seq<u8>, cs: int, ia: int, ib: int) -> Seq<DiffEntry> {
    seq![removed_spec(ia * cs, blk_end(a.len() as int, cs, ia)),
        added_spec(blk_end(a.len() as int, cs, ia), ib * cs, blk_end(b.len() as int, cs, ib))]
}

/// Either remainder from the pair exceeds the largest re-anchoring window.
pub open spec fn past_window(a: Seq<u8>, b: Seq<u8>, cs: int, ia: int, ib: int) -> bool {
    a.len() - ia * cs > WIN_MAX || b.len() - ib * cs > WIN_MAX
}

proof fn lemma_walk_lost(a: Seq<u8>, b: Seq<u8>, cs: int, ia: int, ib: int)
    requires
        walk_pair(a, b, cs, ia, ib),
        !blocks_eq_spec(a, b, cs, ia, ib),
        !inplace_match(a, b, cs, ia, ib),
        first_equal_block(a, b, cs, ia, ib) is None,
    ensures
        past_window(a, b, cs, ia, ib) ==> forall|rest: Seq<(Seq<DiffEntry>, bool, int, int)>| #![trigger chunk_walk(a, b, cs, ia + 1, ib + 1, false, rest)]
            chunk_walk(a, b, cs, ia, ib, false, rest)
                == (lost_entries(a, b, cs, ia, ib) + chunk_walk(a, b, cs, ia + 1, ib + 1, false, rest).0, chunk_walk(a, b, cs, ia + 1, ib + 1, false, rest).1,
                    chunk_walk(a, b, cs, ia + 1, ib + 1, false, rest).2),
        !past_window(a, b, cs, ia, ib) ==> forall|rest: Seq<(Seq<DiffEntry>, bool, int, int)>|
            #![trigger chunk_walk(a, b, cs, n_blocks(a.len() as int, cs), n_blocks(b.len() as int, cs), false, rest)]
            chunk_walk(a, b, cs, ia, ib, false, rest)
                == (Seq::<DiffEntry>::empty() + chunk_walk(a, b, cs, n_blocks(a.len() as int, cs), n_blocks(b.len() as int, cs), false, rest).0,
                    chunk_walk(a, b, cs, n_blocks(a.len() as int, cs), n_blocks(b.len() as int, cs), false, rest).1,
                    chunk_walk(a, b, cs, n_blocks(a.len() as int, cs), n_blocks(b.len() as int, cs), false, rest).2),
{
    reveal(chunk_walk);
    if !past_window(a, b, cs, ia, ib) {
        let na = n_blocks(a.len() as int, cs);
        let nb = n_blocks(b.len() as int, cs);
        assert forall|rest: Seq<(Seq<DiffEntry>, bool, int, int)>| #![trigger chunk_walk(a, b, cs, na, nb, false, rest)]
            chunk_walk(a, b, cs, ia, ib, false, rest)
                == (Seq::<DiffEntry>::empty() + chunk_walk(a, b, cs, na, nb, false, rest).0, chunk_walk(a, b, cs, na, nb, false, rest).1,
                    chunk_walk(a, b, cs, na, nb, false, rest).2) by {
            lemma_walk_tail(a, b, cs, false, na, nb, rest);
            assert(chunk_tail(a.len() as int, b.len() as int, cs, na, nb) =~= Seq::<DiffEntry>::empty());
            assert(Seq::<DiffEntry>::empty() + Seq::<DiffEntry>::empty() =~= Seq::<DiffEntry>::empty());
        }
    }
}

/// A pair handed to the re-anchoring, whose result is `r`.
proof fn lemma_walk_reanchor(a: Seq<u8>, b: Seq<u8>, cs: int, ia: int, ib: int, r: (Seq<DiffEntry>, bool, int, int))
    requires
        walk_pair(a, b, cs, ia, ib),
        !blocks_eq_spec(a, b, cs, ia, ib),
        !inplace_match(a, b, cs, ia, ib),
        first_equal_block(a, b, cs, ia, ib) is None,
        r.2 >= 0,
    ensures
        !r.1 && past_window(a, b, cs, ia, ib) && (r.2 * cs == 0 || r.3 * cs == 0) ==>
            forall|rest: Seq<(Seq<DiffEntry>, bool, int, int)>| #![trigger chunk_walk(a, b, cs, ia + 1, ib + 1, true, rest)]
                chunk_walk(a, b, cs, ia, ib, true, seq![r] + rest)
                    == (lost_entries(a, b, cs, ia, ib) + chunk_walk(a, b, cs, ia + 1, ib + 1, true, rest).0, chunk_walk(a, b, cs, ia + 1, ib + 1, true, rest).1,
                        seq![(ia * cs, ib * cs)] + chunk_walk(a, b, cs, ia + 1, ib + 1, true, rest).2),
        !r.1 && past_window(a, b, cs, ia, ib) && !(r.2 * cs == 0 || r.3 * cs == 0) && ia + r.2 <= n_blocks(a.len() as int, cs) ==>
            forall|rest: Seq<(Seq<DiffEntry>, bool, int, int)>| #![trigger chunk_walk(a, b, cs, ia + r.2, ib + r.3, true, rest)]
                chunk_walk(a, b, cs, ia, ib, true, seq![r] + rest)
                    == (reanchor_entries(a, b, cs, ia, ib, r.0) + chunk_walk(a, b, cs, ia + r.2, ib + r.3, true, rest).0,
                        chunk_walk(a, b, cs, ia + r.2, ib + r.3, true, rest).1,
                        seq![(ia * cs, ib * cs)] + chunk_walk(a, b, cs, ia + r.2, ib + r.3, true, rest).2),
        !(!r.1 && past_window(a, b, cs, ia, ib)) ==>
            forall|rest: Seq<(Seq<DiffEntry>, bool, int, int)>|
                #![trigger chunk_walk(a, b, cs, n_blocks(a.len() as int, cs), n_blocks(b.len() as int, cs), true, rest)]
                chunk_walk(a, b, cs, ia, ib, true, seq![r] + rest)
                    == (reanchor_entries(a, b, cs, ia, ib, r.0)
                        + chunk_walk(a, b, cs, n_blocks(a.len() as int, cs), n_blocks(b.len() as int, cs), true, rest).0,
                        chunk_walk(a, b, cs, n_blocks(a.len() as int, cs), n_blocks(b.len() as int, cs), true, rest).1,
                        seq![(ia * cs, ib * cs)] + chunk_walk(a, b, cs, n_blocks(a.len() as int, cs), n_blocks(b.len() as int, cs), true, rest).2),
{
    reveal(chunk_walk);
    let na = n_blocks(a.len() as int, cs);
    let nb = n_blocks(b.len() as int, cs);
    assert forall|rest: Seq<(Seq<DiffEntry>, bool, int, int)>| (seq![r] + rest)[0] == r && (seq![r] + rest).drop_first() == rest
        && (seq![r] + rest).len() > 0 by {
        assert((seq![r] + rest).drop_first() =~= rest);
    }
    if !r.1 && past_window(a, b, cs, ia, ib) && !(r.2 * cs == 0 || r.3 * cs == 0) {
        assert(r.2 >= 1) by (nonlinear_arith)
            requires
                r.2 >= 0,
                r.2 * cs != 0,
        ;
    }
    if !(!r.1 && past_window(a, b, cs, ia, ib)) {
        let sub = reanchor_entries(a, b, cs, ia, ib, r.0);
        assert forall|rest: Seq<(Seq<DiffEntry>, bool, int, int)>| #![trigger chunk_walk(a, b, cs, na, nb, true, rest)]
            chunk_walk(a, b, cs, ia, ib, true, seq![r] + rest)
                == (sub + chunk_walk(a, b, cs, na, nb, true, rest).0, chunk_walk(a, b, cs, na, nb, true, rest).1,
                    seq![(ia * cs, ib * cs)] + chunk_walk(a, b, cs, na, nb, true, rest).2) by {
            lemma_walk_tail(a, b, cs, true, na, nb, rest);
            assert(chunk_tail(a.len() as int, b.len() as int, cs, na, nb) =~= Seq::<DiffEntry>::empty());
            assert(sub + Seq::<DiffEntry>::empty() =~= sub);
            assert(seq![(ia * cs, ib * cs)] + Seq::<(int, int)>::empty() =~= seq![(ia * cs, ib * cs)]);
        }
    }
}

proof fn lemma_cont_final(a: Seq<u8>, b: Seq<u8>, cs: int, fb: bool, rs_acc: Seq<(Seq<DiffEntry>, bool, int, int)>, pos_acc: Seq<(int, int)>,
    out: Seq<DiffEntry>, ia: int, ib: int)
    requires
        walk_cont(a, b, cs, fb, rs_acc, pos_acc, out, ia, ib),
        cs >= 1,
        ia >= 0,
        ib >= 0,
        ia >= n_blocks(a.len() as int, cs) || ib >= n_blocks(b.len() as int, cs),
    ensures
        chunk_walk(a, b, cs, 0, 0, fb, rs_acc) == (out + chunk_tail(a.len() as int, b.len() as int, cs, ia, ib), true, pos_acc),
{
    let e = Seq::<(Seq<DiffEntry>, bool, int, int)>::empty();
    lemma_walk_tail(a, b, cs, fb, ia, ib, e);
    assert(rs_acc + e =~= rs_acc);
    assert(pos_acc + Seq::<(int, int)>::empty() =~= pos_acc);
}

proof fn lemma_count_le(a: Seq<u8>, s: int, b: Seq<u8>, t: int, n: nat)
    ensures
        count_equal(a, s, b, t, n) <= n,
    decreases n,
{
    if n > 0 {
        lemma_count_le(a, s, b, t, (n - 1) as nat);
    }
}

proof fn lemma_count_full(a: Seq<u8>, s: int, b: Seq<u8>, t: int, n: nat)
    requires
        count_equal(a, s, b, t, n) == n,
    ensures
        forall|i: int| 0 <= i < n ==> #[trigger] a[s + i] == b[t + i],
    decreases n,
{
    if n > 0 {
        lemma_count_le(a, s, b, t, (n - 1) as nat);
        lemma_count_full(a, s, b, t, (n - 1) as nat);
    }
}

proof fn lemma_first_equal_found(a: Seq<u8>, b: Seq<u8>, cs: int, ia: int, from: int)
    requires
        first_equal_block(a, b, cs, ia, from) is Some,
        n_blocks(b.len() as int, cs) <= usize::MAX + 1,
    ensures
        from <= first_equal_block(a, b, cs, ia, from)->0,
        blocks_eq_spec(a, b, cs, ia, first_equal_block(a, b, cs, ia, from)->0 as int),
    decreases n_blocks(b.len() as int, cs) - from,
{
    if from >= 0 && from < n_blocks(b.len() as int, cs) && !blocks_eq_spec(a, b, cs, ia, from) {
        lemma_first_equal_found(a, b, cs, ia, from + 1);
    }
}

/// A pair reported in place whose blocks differ reports at least one entry.
proof fn lemma_inplace_nonempty(a: Seq<u8>, b: Seq<u8>, cs: int, ia: int, ib: int)
    requires
        walk_pair(a, b, cs, ia, ib),
        !blocks_eq_spec(a, b, cs, ia, ib),
        inplace_match(a, b, cs, ia, ib),
    ensures
        inplace_entries(a, b, cs, ia, ib).len() > 0,
{
    let la = a.len() as int;
    let lb = b.len() as int;
    lemma_block_start(ia, cs, la);
    lemma_block_start(ib, cs, lb);
    let as_ = ia * cs;
    let bs_ = ib * cs;
    let ae = blk_end(la, cs, ia);
    let be = blk_end(lb, cs, ib);
    let n = inplace_len(la, lb, cs, ia, ib);
    if inplace_entries(a, b, cs, ia, ib).len() == 0 {
        assert(count_equal(a, as_, b, bs_, n as nat) == n);
        assert(ae - as_ == be - bs_);
        assert(n == ae - as_);
        lemma_count_full(a, as_, b, bs_, n as nat);
        assert(a.subrange(as_, ae) =~= b.subrange(bs_, be)) by {
            assert forall|i: int| 0 <= i < ae - as_ implies #[trigger] a.subrange(as_, ae)[i] == b.subrange(bs_, be)[i] by {
                assert(a[as_ + i] == b[bs_ + i]);
            }
        }
        assert(blocks_eq_spec(a, b, cs, ia, ib));
    }
}

proof fn lemma_n_blocks_exact(len: int, cs: int, i: int)
    requires
        cs >= 1,
        len >= 0,
        i >= n_blocks(len, cs),
        i * cs <= len,
    ensures
        i * cs == len,
{
    let q = len / cs;
    let r = len % cs;
    assert(len == q * cs + r && 0 <= r < cs) by (nonlinear_arith)
        requires
            cs >= 1,
            q == len / cs,
            r == len % cs,
    ;
    assert(i <= q) by (nonlinear_arith)
        requires
            i * cs <= q * cs + r,
            r < cs,
            cs >= 1,
    ;
    assert(i * cs == q * cs) by (nonlinear_arith)
        requires
            i == q,
    ;
}

/// A walk from the same block in both files that has a result for every re-anchoring it
/// reaches and reports nothing means that the files agree from that block on.
proof fn lemma_walk_silent(a: Seq<u8>, b: Seq<u8>, cs: int, i: int, rs: Seq<(Seq<DiffEntry>, bool, int, int)>)
    requires
        cs >= 1,
        0 <= i,
        i * cs <= a.len(),
        i * cs <= b.len(),
        b.len() <= usize::MAX,
        chunk_walk(a, b, cs, i, i, true, rs).1,
        chunk_walk(a, b, cs, i, i, true, rs).0.len() == 0,
    ensures
        a.subrange(i * cs, a.len() as int) == b.subrange(i * cs, b.len() as int),
    decreases n_blocks(a.len() as int, cs) - i,
{
    reveal(chunk_walk);
    let la = a.len() as int;
    let lb = b.len() as int;
    let na = n_blocks(la, cs);
    let nb = n_blocks(lb, cs);
    let e = Seq::<(Seq<DiffEntry>, bool, int, int)>::empty();
    if i >= na || i >= nb {
        assert(chunk_tail(la, lb, cs, i, i).len() == 0);
        assert(i >= na && i >= nb);
        lemma_n_blocks_exact(la, cs, i);
        lemma_n_blocks_exact(lb, cs, i);
        assert(a.subrange(i * cs, la) =~= b.subrange(i * cs, lb));
    } else if blocks_eq_spec(a, b, cs, i, i) {
        let s0 = i * cs;
        let ae = if s0 + cs <= la { s0 + cs } else { la };
        let be = if s0 + cs <= lb { s0 + cs } else { lb };
        assert(a.subrange(s0, ae) == b.subrange(s0, be));
        assert(ae == be);
        assert((i + 1) * cs == s0 + cs) by (nonlinear_arith)
            requires
                s0 == i * cs,
        ;
        if s0 + cs <= la && s0 + cs <= lb {
            lemma_walk_silent(a, b, cs, i + 1, rs);
            assert(a.subrange(s0, la) =~= a.subrange(s0, ae) + a.subrange(ae, la));
            assert(b.subrange(s0, lb) =~= b.subrange(s0, be) + b.subrange(be, lb));
        } else {
            assert(ae == la && be == lb);
        }
    } else if inplace_match(a, b, cs, i, i) {
        lemma_inplace_nonempty(a, b, cs, i, i);
    } else {
        match first_equal_block(a, b, cs, i, i) {
            Some(j) => {
                assert(lb / cs <= lb) by (nonlinear_arith)
                    requires
                        cs >= 1,
                        lb >= 0,
                ;
                lemma_first_equal_found(a, b, cs, i, i);
            },
            None => {},
        }
    }
}

/// Differing inputs are reported: when `a` and `b` differ, the chunked walk with the
/// re-anchoring on reports at least one entry, whatever the re-anchorings return, as long as
/// it has a result for each of them.
pub proof fn law_chunk_walk_reports(a: Seq<u8>, b: Seq<u8>, cs: int, rs: Seq<(Seq<DiffEntry>, bool, int, int)>)
    requires
        cs >= 1,
        a != b,
        b.len() <= usize::MAX,
        chunk_walk(a, b, cs, 0, 0, true, rs).1,
    ensures
        chunk_walk(a, b, cs, 0, 0, true, rs).0.len() > 0,
{
    if chunk_walk(a, b, cs, 0, 0, true, rs).0.len() == 0 {
        assert(0 * cs == 0);
        lemma_walk_silent(a, b, cs, 0, rs);
        assert(a =~= a.subrange(0, a.len() as int));
        assert(b =~= b.subrange(0, b.len() as int));
    }
}

/// The block size that the chunked strategy uses for a requested `chunk_size`.
pub open spec fn chunk_block(chunk_size: usize) -> int {
    if chunk_size > 1 { chunk_size as int } else { 1 }
}

/// Chunked hash: two cursors advance block by block. Equal blocks are skipped; a pair
/// that mostly agrees is reported in place (Modified plus the length difference);
/// otherwise the A block is looked up further on in B (the blocks skipped in B are
/// Added). When no block matches, a bounded sliding window (64 KiB, 512 KiB, 4 MiB)
/// re-anchors the two files, if `allow_sliding_fallback`. Blocks left over at the end
/// of either file are Removed / Added.
#[verifier::rlimit(100)]
pub fn chunked_hash_inner(a: &[u8], b: &[u8], chunk_size: usize, allow_sliding_fallback: bool) -> (out: Vec<DiffEntry>)
    requires
        a@.len() <= usize::MAX / 8,
        b@.len() <= usize::MAX / 8,
    ensures
        entries_wf(out@, a@.len() as int, b@.len() as int),
        a@ == b@ ==> out@.len() == 0,
        a@.len() == 0 && b@.len() > 0 ==> out@ == seq![added_spec(0, 0, b@.len() as int)],
        b@.len() == 0 && a@.len() > 0 ==> out@ == seq![removed_spec(0, a@.len() as int)],
        exists|rs: Seq<(Seq<DiffEntry>, bool, int, int)>| #[trigger] chunk_result(a@, b@, chunk_block(chunk_size), allow_sliding_fallback, rs, out@),
        !allow_sliding_fallback ==> out@ == chunk_walk(a@, b@, chunk_block(chunk_size), 0, 0, false, Seq::empty()).0,
        allow_sliding_fallback && a@ != b@ ==> out@.len() > 0,
    decreases if allow_sliding_fallback { 5int } else { 0int },
{
    let cs = if chunk_size > 1 { chunk_size } else { 1 };
    let la = a.len();
    let lb = b.len();
    let n_a = la / cs + if la % cs != 0 { 1 } else { 0 };
    let n_b = lb / cs + if lb % cs != 0 { 1 } else { 0 };
    let bindex = build_block_index(b, cs);
    let mut out: Vec<DiffEntry> = Vec::new();
    let mut ia: usize = 0;
    let mut ib: usize = 0;
    let ghost fb = allow_sliding_fallback;
    let ghost mut rs_acc: Seq<(Seq<DiffEntry>, bool, int, int)> = Seq::empty();
    let ghost mut pos_acc: Seq<(int, int)> = Seq::empty();
    proof {
        lemma_cont_start(a@, b@, cs as int, fb);
        assert(0int / (cs as int) == 0 && 0int % (cs as int) == 0) by (nonlinear_arith)
            requires
                cs >= 1,
        ;
        assert(la > 0 ==> la as int / (cs as int) + (if la as int % (cs as int) != 0 { 1int } else { 0int }) >= 1) by (nonlinear_arith)
            requires
                cs >= 1,
        ;
        assert(lb > 0 ==> lb as int / (cs as int) + (if lb as int % (cs as int) != 0 { 1int } else { 0int }) >= 1) by (nonlinear_arith)
            requires
                cs >= 1,
        ;
    }
    while ia < n_a && ib < n_b
        invariant
            la == a@.len(),
            lb == b@.len(),
            la <= usize::MAX / 8,
            lb <= usize::MAX / 8,
            cs >= 1,
            n_a == n_blocks(la as int, cs as int),
            n_b == n_blocks(lb as int, cs as int),
            ia <= n_a,
            ib <= n_b,
            pairs_sorted(bindex@),
            forall|k: int| 0 <= k < bindex@.len() ==> (#[trigger] bindex@[k]).1 < n_blocks(b@.len() as int, cs as int),
            entries_wf(out@, la as int, lb as int),
            a@ == b@ ==> ia == ib && out@.len() == 0 && n_a == n_b,
            la == 0 ==> n_a == 0,
            lb == 0 ==> n_b == 0,
            la == 0 || lb == 0 ==> ia == 0 && ib == 0 && out@.len() == 0,
            bindex@.to_multiset() == block_index_seq(b@, cs as int).to_multiset(),
            fb == allow_sliding_fallback,
            walk_cont(a@, b@, cs as int, fb, rs_acc, pos_acc, out@, ia as int, ib as int),
            !fb ==> rs_acc.len() == 0,
            rs_acc.len() == pos_acc.len(),
            forall|k: int| 0 <= k < pos_acc.len() ==> #[trigger] reanchor_ok(a@, b@, cs as int, pos_acc[k].0, pos_acc[k].1, rs_acc[k]),
        decreases n_a - ia,
    {
        proof {
            lemma_block_start(ia as int, cs as int, la as int);
            lemma_block_start(ib as int, cs as int, lb as int);
        }
        let ghost out_in = out@;
        if blocks_eq(a, b, cs, ia, ib) {
            proof {
                lemma_walk_equal(a@, b@, cs as int, fb, ia as int, ib as int);
                lemma_cont_step(a@, b@, cs as int, fb, rs_acc, pos_acc, out@, ia as int, ib as int, Seq::empty(), ia + 1, ib + 1);
                assert(out@ + Seq::<DiffEntry>::empty() =~= out@);
            }
            ia = ia + 1;
            ib = ib + 1;
            continue;
        }
        proof {
            if a@ == b@ {
                let as_ = ia * cs;
                let ae = if as_ + cs <= la { as_ + cs } else { la as int };
                assert(a@.subrange(as_, ae) == b@.subrange(as_, ae));
                assert(blocks_eq_spec(a@, b@, cs as int, ia as int, ib as int));
            }
        }
        let as_ = ia * cs;
        let ae = block_end(as_, cs, la);
        let bs_ = ib * cs;
        let be = block_end(bs_, cs, lb);
        let span_len = if ae - as_ < be - bs_ { ae - as_ } else { be - bs_ };
        let comparable = span_len > 0;
        let overlap = if comparable { overlap_count(a, as_, b, bs_, span_len) } else { 0 };
        let high_overlap = comparable && overlap * 2 >= span_len;
        proof {
            assert(ae == blk_end(la as int, cs as int, ia as int));
            assert(be == blk_end(lb as int, cs as int, ib as int));
            assert(inplace_len(la as int, lb as int, cs as int, ia as int, ib as int) == span_len);
            assert(high_overlap == inplace_match(a@, b@, cs as int, ia as int, ib as int));
        }
        if high_overlap {
            let ghost mp = if overlap != span_len { seq![modified_spec(as_ as int, bs_ as int, span_len as int)] } else { Seq::<DiffEntry>::empty() };
            if overlap != span_len {
                let e = mk_modified(as_, bs_, span_len);
                proof {
                    lemma_entries_wf_append(out@, seq![e], la as int, lb as int);
                }
                out.push(e);
            }
            proof {
                assert(out@ =~= out_in + mp);
            }
            push_len_diff(&mut out, as_, ae, bs_, be, Ghost(la as int), Ghost(lb as int));
            proof {
                assert(inplace_entries(a@, b@, cs as int, ia as int, ib as int) == mp + len_diff(as_ as int, ae as int, bs_ as int, be as int));
                lemma_walk_inplace(a@, b@, cs as int, fb, ia as int, ib as int);
                lemma_cont_step(a@, b@, cs as int, fb, rs_acc, pos_acc, out_in, ia as int, ib as int,
                    inplace_entries(a@, b@, cs as int, ia as int, ib as int), ia + 1, ib + 1);
                assert(out@ =~= out_in + inplace_entries(a@, b@, cs as int, ia as int, ib as int));
            }
            ia = ia + 1;
            ib = ib + 1;
            continue;
        }
        let found = find_block(a, b, cs, &bindex, ia, ib);
        proof {
            assert(found == first_equal_block(a@, b@, cs as int, ia as int, ib as int));
        }
        if let Some(j) = found {
            let ghost ap = if j > ib { seq![added_spec(as_ as int, ib * cs, j * cs)] } else { Seq::<DiffEntry>::empty() };
            if j > ib {
                proof {
                    lemma_block_start(j as int, cs as int, lb as int);
                    lemma_blocks_mono(ib as int, j as int, cs as int);
                }
                let e = mk_added(as_, ib * cs, j * cs);
                proof {
                    lemma_entries_wf_append(out@, seq![e], la as int, lb as int);
                }
                out.push(e);
            }
            proof {
                lemma_walk_resync(a@, b@, cs as int, fb, ia as int, ib as int, j as int);
                lemma_cont_step(a@, b@, cs as int, fb, rs_acc, pos_acc, out_in, ia as int, ib as int, ap, ia + 1, j + 1);
                assert(out@ =~= out_in + ap);
            }
            ia = ia + 1;
            ib = j + 1;
            continue;
        }
        let rem_a = la - as_;
        let rem_b = lb - bs_;
        let (sub, reanchor, qa, qb) = if allow_sliding_fallback {
            reanchor_window(a, b, cs, as_, bs_)
        } else {
            (Vec::new(), false, 0, 0)
        };
        let ghost r = (sub@, reanchor, qa as int, qb as int);
        let wa = qa * cs;
        let wb = qb * cs;
        proof {
            assert(past_window(a@, b@, cs as int, ia as int, ib as int) == (rem_a > WIN_MAX || rem_b > WIN_MAX));
            if fb {
                assert(reanchor_ok(a@, b@, cs as int, ia * cs, ib * cs, r));
                lemma_walk_reanchor(a@, b@, cs as int, ia as int, ib as int, r);
            } else {
                lemma_walk_lost(a@, b@, cs as int, ia as int, ib as int);
            }
        }
        if !reanchor && (rem_a > WIN_MAX || rem_b > WIN_MAX) && (wa == 0 || wb == 0) {
            push_pair(&mut out, as_, ae, bs_, be, Ghost(la as int), Ghost(lb as int));
            proof {
                assert(out@ =~= out_in + lost_entries(a@, b@, cs as int, ia as int, ib as int));
                if fb {
                    lemma_cont_consume(a@, b@, cs as int, fb, rs_acc, pos_acc, out_in, ia as int, ib as int, r, (ia * cs, ib * cs),
                        lost_entries(a@, b@, cs as int, ia as int, ib as int), ia + 1, ib + 1);
                    rs_acc = rs_acc.push(r);
                    pos_acc = pos_acc.push((ia * cs, ib * cs));
                } else {
                    lemma_cont_step(a@, b@, cs as int, fb, rs_acc, pos_acc, out_in, ia as int, ib as int,
                        lost_entries(a@, b@, cs as int, ia as int, ib as int), ia + 1, ib + 1);
                }
            }
            ia = ia + 1;
            ib = ib + 1;
            continue;
        }
        let ghost subv = sub@;
        let mut sh = shift_wf(sub, Ghost(wa as int), Ghost(wb as int), as_, bs_);
        proof {
            assert forall|i: int| 0 <= i < sh@.len() implies entry_wf(#[trigger] sh@[i], la as int, lb as int) by {
                lemma_wf_mono(sh@[i], (wa + as_) as int, (wb + bs_) as int, la as int, lb as int);
            }
            lemma_entries_wf_append(out@, sh@, la as int, lb as int);
            assert(sh@ =~= subv.map_values(|e: DiffEntry| shift_entry(e, ia * cs, ib * cs)));
        }
        let ghost shv0 = sh@;
        let nsh = sh.len();
        out.append(&mut sh);
        if allow_sliding_fallback && nsh == 0 {
            push_pair(&mut out, as_, ae, bs_, be, Ghost(la as int), Ghost(lb as int));
        }
        let ghost shv = if fb { reanchor_entries(a@, b@, cs as int, ia as int, ib as int, subv) } else { shv0 };
        proof {
            assert(out@ =~= out_in + shv);
        }
        if !reanchor && (rem_a > WIN_MAX || rem_b > WIN_MAX) {
            proof {
                lemma_mul_div_cancel(ia as int, cs as int, wa as int);
                lemma_mul_div_cancel(qa as int, cs as int, 0);
                lemma_mul_div_cancel(ib as int, cs as int, wb as int);
                lemma_mul_div_cancel(qb as int, cs as int, 0);
                assert(qa >= 1) by (nonlinear_arith)
                    requires
                        wa == qa * cs,
                        wa != 0,
                ;
                assert(ia + qa <= n_a) by (nonlinear_arith)
                    requires
                        ia * cs + qa * cs <= la,
                        cs >= 1,
                        n_a == la / cs + if la % cs != 0 { 1int } else { 0int },
                ;
                assert(ib + qb <= n_b) by (nonlinear_arith)
                    requires
                        ib * cs + qb * cs <= lb,
                        cs >= 1,
                        n_b == lb / cs + if lb % cs != 0 { 1int } else { 0int },
                ;
                lemma_cont_consume(a@, b@, cs as int, fb, rs_acc, pos_acc, out_in, ia as int, ib as int, r, (ia * cs, ib * cs), shv, ia + qa, ib + qb);
                rs_acc = rs_acc.push(r);
                pos_acc = pos_acc.push((ia * cs, ib * cs));
            }
            ia = (as_ + wa) / cs;
            ib = (bs_ + wb) / cs;
        } else {
            proof {
                if fb {
                    lemma_cont_consume(a@, b@, cs as int, fb, rs_acc, pos_acc, out_in, ia as int, ib as int, r, (ia * cs, ib * cs), shv, n_a as int, n_b as int);
                    rs_acc = rs_acc.push(r);
                    pos_acc = pos_acc.push((ia * cs, ib * cs));
                } else {
                    assert(shv.len() == 0);
                    assert(shv =~= Seq::<DiffEntry>::empty());
                    lemma_cont_step(a@, b@, cs as int, fb, rs_acc, pos_acc, out_in, ia as int, ib as int, Seq::empty(), n_a as int, n_b as int);
                }
            }
            ia = n_a;
            ib = n_b;
        }
    }
    let ghost out_l = out@;
    proof {
        lemma_cont_final(a@, b@, cs as int, fb, rs_acc, pos_acc, out_l, ia as int, ib as int);
    }
    if ia < n_a {
        proof {
            lemma_block_start(ia as int, cs as int, la as int);
        }
        let s = ia * cs;
        let e = mk_removed(s, la);
        proof {
            lemma_entries_wf_append(out@, seq![e], la as int, lb as int);
        }
        out.push(e);
    }
    if ib < n_b {
        proof {
            lemma_block_start(ib as int, cs as int, lb as int);
        }
        let s = ib * cs;
        let e = mk_added(la, s, lb);
        proof {
            lemma_entries_wf_append(out@, seq![e], la as int, lb as int);
        }
        out.push(e);
    }
    proof {
        assert(out@ =~= out_l + chunk_tail(la as int, lb as int, cs as int, ia as int, ib as int));
        assert(0 * cs == 0);
        assert(chunk_result(a@, b@, cs as int, fb, rs_acc, out@));
        assert(chunk_block(chunk_size) == cs as int);
        assert(chunk_result(a@, b@, chunk_block(chunk_size), allow_sliding_fallback, rs_acc, out@));
        if allow_sliding_fallback && a@ != b@ {
            law_chunk_walk_reports(a@, b@, chunk_block(chunk_size), rs_acc);
        }
        if !fb {
            assert(rs_acc =~= Seq::<(Seq<DiffEntry>, bool, int, int)>::empty());
        }
        if la == 0 && lb > 0 {
            assert(out@ =~= seq![added_spec(0, 0, lb as int)]);
        }
        if lb == 0 && la > 0 {
            assert(out@ =~= seq![removed_spec(0, la as int)]);
        }
    }
    out
}

} // verus!

verus! {

/// `v` is what the engine reports for `a` and `b` with `strategy`: the chunked walk with
/// the re-anchoring on, the sliding-window report, or the structural report.
pub open spec fn diff_report(a: crate::file_loader::LoadedFile, b: crate::file_loader::LoadedFile, strategy: DiffStrategy, v: Seq<DiffEntry>) -> bool {
    match strategy {
        DiffStrategy::ChunkedHash { chunk_size } =>
            exists|rs: Seq<(Seq<DiffEntry>, bool, int, int)>| #[trigger] chunk_result(a.data@, b.data@, chunk_block(chunk_size), true, rs, v),
        DiffStrategy::SlidingWindow { window, min_match } =>
            exists|p: int, q: int, index: Seq<(u64, u64)>, order: Seq<usize>|
                #[trigger] sliding_report(a.data@, b.data@, window as int, min_match as int, p, q, index, order, v),
        DiffStrategy::StructureMatch { min_run } => crate::structural_matcher::structural_report(a, b, min_run, v),
    }
}

/// Finds the differences between two loaded files.
pub trait DiffEngine {
    /// Diffs two loaded files with the chosen strategy.
    fn diff(&self, a: &crate::file_loader::LoadedFile, b: &crate::file_loader::LoadedFile, strategy: DiffStrategy) -> (r: Result<Vec<DiffEntry>, crate::RvaError>)
        requires
            !(strategy is ChunkedHash) ==> a.data@.len() <= u32::MAX && b.data@.len() <= u32::MAX,
            a.data@.len() <= usize::MAX / 8,
            b.data@.len() <= usize::MAX / 8,
            forall|i: int| 0 <= i < a.meta.segments@.len() ==> crate::structural_matcher::seg_end(#[trigger] a.meta.segments@[i]) <= u64::MAX,
            forall|i: int| 0 <= i < b.meta.segments@.len() ==> crate::structural_matcher::seg_end(#[trigger] b.meta.segments@[i]) <= u64::MAX,
        ensures
            !(strategy is StructureMatch) ==> (r matches Ok(v) && entries_wf(v@, a.data@.len() as int, b.data@.len() as int)
                && (a.data@ == b.data@ ==> v@.len() == 0)),
            strategy is StructureMatch ==> (!((a.meta.arch == crate::file_loader::Arch::X86_64 && b.meta.arch == crate::file_loader::Arch::X86_64)
                || (a.meta.arch == crate::file_loader::Arch::X86 && b.meta.arch == crate::file_loader::Arch::X86))
                <==> r matches Err(crate::RvaError::Other(_))),
            r is Err ==> r matches Err(crate::RvaError::Other(_)),
    ;
}

/// The engine of the three strategies.
pub struct DefaultDiffEngine;

impl DiffEngine for DefaultDiffEngine {
    /// Chunked hashing with the re-anchoring on, the sliding-window diff, or the structural
    /// diff, as `strategy` says.
    fn diff(&self, a: &crate::file_loader::LoadedFile, b: &crate::file_loader::LoadedFile, strategy: DiffStrategy) -> (r: Result<Vec<DiffEntry>, crate::RvaError>)
        ensures
            !(strategy is StructureMatch) ==> r is Ok,
            r matches Ok(v) ==> diff_report(*a, *b, strategy, v@),
    {
        match strategy {
            DiffStrategy::ChunkedHash { chunk_size } => Ok(chunked_hash(a.data.as_slice(), b.data.as_slice(), chunk_size)),
            DiffStrategy::SlidingWindow { window, min_match } => Ok(sliding_window(a.data.as_slice(), b.data.as_slice(), window, min_match)),
            DiffStrategy::StructureMatch { min_run } => crate::structural_matcher::structural_diff(a, b, min_run),
        }
    }
}

} // verus!
