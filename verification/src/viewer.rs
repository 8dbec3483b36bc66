//! Helpers of the hex viewer: byte-pattern search and the bounded list of entries that is
//! handed to the display.

use vstd::prelude::*;
use crate::aligner::dup_entry;
use crate::diff_engine::{ChangeType, DiffEntry, DiffStrategy};
use crate::util::ranges_equal;

verus! {

/// `pat` occurs in `buf` at position `i`.
pub open spec fn occurs_at(buf: Seq<u8>, pat: Seq<u8>, i: int) -> bool {
    0 <= i && i + pat.len() <= buf.len() && buf.subrange(i, i + pat.len()) == pat
}

/// The positions below `n` at which `pat` occurs, ascending.
pub open spec fn occurrences(buf: Seq<u8>, pat: Seq<u8>, n: int) -> Seq<u64>
    decreases n,
{
    if n <= 0 {
        Seq::empty()
    } else if occurs_at(buf, pat, n - 1) {
        occurrences(buf, pat, n - 1).push((n - 1) as u64)
    } else {
        occurrences(buf, pat, n - 1)
    }
}

proof fn lemma_occurrences_prefix(buf: Seq<u8>, pat: Seq<u8>, n: int, m: int)
    requires
        0 <= n <= m,
    ensures
        occurrences(buf, pat, m).len() >= occurrences(buf, pat, n).len(),
        occurrences(buf, pat, m).take(occurrences(buf, pat, n).len() as int) == occurrences(buf, pat, n),
    decreases m - n,
{
    if n < m {
        lemma_occurrences_prefix(buf, pat, n, m - 1);
        let a = occurrences(buf, pat, n);
        let b = occurrences(buf, pat, m - 1);
        let c = occurrences(buf, pat, m);
        assert(c.take(a.len() as int) =~= b.take(a.len() as int));
    } else {
        assert(occurrences(buf, pat, m).take(occurrences(buf, pat, m).len() as int) =~= occurrences(buf, pat, m));
    }
}

/// Every position at which `pat` occurs in `buf`, ascending.
pub open spec fn all_occurrences(buf: Seq<u8>, pat: Seq<u8>) -> Seq<u64> {
    occurrences(buf, pat, buf.len() as int + 1)
}

/// The number of matches kept out of `total`: `max_matches`, where 0 means no limit.
pub open spec fn match_cap(max_matches: u64, total: int) -> int {
    if max_matches > 0 && (max_matches as int) < total { max_matches as int } else { total }
}

pub open spec fn min_int(a: int, b: int) -> int {
    if a < b { a } else { b }
}

/// The positions at which `pattern` occurs in `buf`, ascending, at most `max_matches` of
/// them (0 means all of them); none for an empty pattern.
pub fn search_pattern(buf: &[u8], pattern: &[u8], max_matches: u64) -> (out: Vec<u64>)
    requires
        buf@.len() <= u64::MAX,
    ensures
        pattern@.len() == 0 ==> out@.len() == 0,
        pattern@.len() > 0 ==> out@ == all_occurrences(buf@, pattern@).take(
            match_cap(max_matches, all_occurrences(buf@, pattern@).len() as int)),
{
    let mut out: Vec<u64> = Vec::new();
    if pattern.len() == 0 {
        return out;
    }
    let ghost total: int = buf@.len() as int + 1;
    let plen = pattern.len();
    let mut i: usize = 0;
    while i <= buf.len() && plen <= buf.len() - i
        invariant
            plen == pattern@.len(),
            plen > 0,
            i <= buf@.len() + 1,
            buf@.len() <= u64::MAX,
            out@ == occurrences(buf@, pattern@, i as int),
            max_matches > 0 ==> out@.len() < max_matches,
            total == buf@.len() + 1,
        decreases buf@.len() + 1 - i,
    {
        assert(pattern@.subrange(0, plen as int) =~= pattern@);
        if ranges_equal(buf, i, pattern, 0, plen) {
            out.push(i as u64);
            assert(out@ =~= occurrences(buf@, pattern@, i + 1));
            if max_matches > 0 && out.len() as u64 >= max_matches {
                proof {
                    lemma_occurrences_prefix(buf@, pattern@, i + 1, total);
                }
                return out;
            }
        } else {
            assert(!occurs_at(buf@, pattern@, i as int));
        }
        i = i + 1;
    }
    proof {
        lemma_no_more(buf@, pattern@, i as int, total);
        let all = occurrences(buf@, pattern@, total);
        assert(all.take(all.len() as int) =~= all);
    }
    out
}

proof fn lemma_no_more(buf: Seq<u8>, pat: Seq<u8>, i: int, n: int)
    requires
        0 <= i <= n,
        pat.len() > 0,
        i + pat.len() > buf.len(),
    ensures
        occurrences(buf, pat, n) == occurrences(buf, pat, i),
    decreases n - i,
{
    if i < n {
        lemma_no_more(buf, pat, i, n - 1);
        assert(!occurs_at(buf, pat, n - 1));
    }
}

/// The most entries handed to the display.
pub const MAX_SHOWN: usize = 50_000;

/// The most Modified entries among them, leaving room for Added and Removed ones.
pub const MODIFIED_BUDGET: usize = 35_000;

/// The entries kept, in order, and the number of Modified ones among them: entries are
/// taken until `MAX_SHOWN` are kept, and Modified ones beyond `MODIFIED_BUDGET` are skipped.
pub open spec fn shown_fold(ds: Seq<DiffEntry>) -> (Seq<DiffEntry>, nat)
    decreases ds.len(),
{
    if ds.len() == 0 {
        (Seq::empty(), 0)
    } else {
        let (k, m) = shown_fold(ds.drop_last());
        let d = ds.last();
        if k.len() >= MAX_SHOWN {
            (k, m)
        } else if d.change == ChangeType::Modified {
            if m >= MODIFIED_BUDGET { (k, m) } else { (k.push(d), m + 1) }
        } else {
            (k.push(d), m)
        }
    }
}

proof fn lemma_shown_bounds(ds: Seq<DiffEntry>)
    ensures
        shown_fold(ds).0.len() <= MAX_SHOWN,
        shown_fold(ds).1 <= MODIFIED_BUDGET,
        shown_fold(ds).1 <= shown_fold(ds).0.len(),
    decreases ds.len(),
{
    if ds.len() > 0 {
        lemma_shown_bounds(ds.drop_last());
    }
}

proof fn lemma_full_stays(ds: Seq<DiffEntry>, k: int)
    requires
        0 <= k <= ds.len(),
        shown_fold(ds.take(k)).0.len() >= MAX_SHOWN,
    ensures
        shown_fold(ds) == shown_fold(ds.take(k)),
    decreases ds.len() - k,
{
    if k < ds.len() {
        assert(ds.take(k + 1).drop_last() =~= ds.take(k));
        lemma_full_stays(ds, k + 1);
    } else {
        assert(ds.take(k) =~= ds);
    }
}

/// The bounded list of entries shown by the viewer (the summary is still computed from all
/// of them).
pub fn shown_entries(diffs: &[DiffEntry]) -> (kept: Vec<DiffEntry>)
    ensures
        kept@ == shown_fold(diffs@).0,
{
    let n = diffs.len();
    let mut kept: Vec<DiffEntry> = Vec::new();
    let mut mods: usize = 0;
    let mut i: usize = 0;
    while i < n
        invariant
            n == diffs@.len(),
            i <= n,
            (kept@, mods as nat) == shown_fold(diffs@.take(i as int)),
        decreases n - i,
    {
        proof {
            assert(diffs@.take(i + 1).drop_last() =~= diffs@.take(i as int));
            lemma_shown_bounds(diffs@.take(i as int));
        }
        if kept.len() >= MAX_SHOWN {
            proof {
                lemma_full_stays(diffs@, i as int);
            }
            return kept;
        }
        let d = &diffs[i];
        if d.change == ChangeType::Modified {
            if mods < MODIFIED_BUDGET {
                kept.push(dup_entry(d));
                mods = mods + 1;
            }
        } else {
            kept.push(dup_entry(d));
        }
        i = i + 1;
    }
    proof {
        assert(diffs@.take(n as int) =~= diffs@);
    }
    kept
}

/// The most bytes one read of the viewer returns.
pub const READ_CAP: u64 = 1 << 20;

/// The part `start..end` of a file of `len` bytes that a viewer read of `length` bytes at
/// `offset` returns: clipped to the file and to `READ_CAP` bytes.
pub fn read_window(len: usize, offset: u64, length: u64) -> (r: (usize, usize))
    ensures
        r.0 == (if offset < len { offset as int } else { len as int }),
        r.1 == (if r.0 + (if length < READ_CAP { length as int } else { READ_CAP as int }) < len {
            r.0 + (if length < READ_CAP { length as int } else { READ_CAP as int })
        } else {
            len as int
        }),
        r.0 <= r.1 <= len,
{
    let want: u64 = if length < READ_CAP { length } else { READ_CAP };
    let start: usize = if offset < len as u64 { offset as usize } else { len };
    let room: usize = len - start;
    let end: usize = if (want as u128) < (room as u128) { start + want as usize } else { len };
    (start, end)
}

/// Whether a sliding-window result has diverged and the viewer should recompute with
/// chunked hashing: the strategy was the sliding window and the entries cover more than
/// half of the two files' combined size.
pub fn needs_fallback(strategy: DiffStrategy, total_bytes: u64, size_a: u64, size_b: u64) -> (r: bool)
    requires
        size_a + size_b <= u64::MAX,
    ensures
        r == (strategy is SlidingWindow && total_bytes > (size_a + size_b) / 2),
{
    match strategy {
        DiffStrategy::SlidingWindow { .. } => total_bytes > (size_a + size_b) / 2,
        _ => false,
    }
}

} // verus!
