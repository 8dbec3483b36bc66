//! Scoring of a diff against the known answer of a benchmark transform: the byte offsets
//! that the entries report on each side, compared with the real differences.

use vstd::prelude::*;
use std::collections::HashSet;
use crate::bench_gen::{Truth, range_set};
use crate::diff_engine::{ChangeType, DiffEntry};

verus! {

broadcast use vstd::std_specs::hash::group_hash_axioms;

/// Byte-level scores, both sides together: offsets reported, real differences, reported
/// offsets that are real, and reported offsets of the new file that are not.
#[derive(Debug, Clone, Copy)]
pub struct Metrics {
    pub reported: u64,
    pub truth: u64,
    pub inter: u64,
    pub b_fp: u64,
}

impl Metrics {
    /// Reported offsets that are no real difference.
    pub fn fp(&self) -> (n: u64)
        requires
            self.inter <= self.reported,
        ensures
            n == self.reported - self.inter,
    {
        self.reported - self.inter
    }

    /// Real differences that were not reported.
    pub fn fneg(&self) -> (n: u64)
        requires
            self.inter <= self.truth,
        ensures
            n == self.truth - self.inter,
    {
        self.truth - self.inter
    }
}

/// The old-file offsets an entry reports: the old range of a Modified or Removed entry.
pub open spec fn old_part(e: DiffEntry) -> Set<u64> {
    match e.old {
        Some(r) => if e.change == ChangeType::Modified || e.change == ChangeType::Removed {
            range_set(r.start as int, r.end as int)
        } else {
            Set::empty()
        },
        None => Set::empty(),
    }
}

/// The new-file offsets an entry reports: the new range of a Modified or Added entry.
pub open spec fn new_part(e: DiffEntry) -> Set<u64> {
    match e.new {
        Some(r) => if e.change == ChangeType::Modified || e.change == ChangeType::Added {
            range_set(r.start as int, r.end as int)
        } else {
            Set::empty()
        },
        None => Set::empty(),
    }
}

/// Every old-file offset that the entries report.
pub open spec fn old_cov(ds: Seq<DiffEntry>) -> Set<u64>
    decreases ds.len(),
{
    if ds.len() == 0 { Set::empty() } else { old_cov(ds.drop_last()).union(old_part(ds.last())) }
}

/// Every new-file offset that the entries report.
pub open spec fn new_cov(ds: Seq<DiffEntry>) -> Set<u64>
    decreases ds.len(),
{
    if ds.len() == 0 { Set::empty() } else { new_cov(ds.drop_last()).union(new_part(ds.last())) }
}

/// Marks the offsets `s..e` in `set` and counts the newly marked ones that lie in `truth`.
fn mark_counting(set: &mut HashSet<u64>, s: u64, e: u64, truth: &HashSet<u64>, count: &mut usize)
    requires
        old(set)@.finite(),
        *old(count) == old(set)@.intersect(truth@).len(),
    ensures
        final(set)@ == old(set)@.union(range_set(s as int, e as int)),
        final(set)@.finite(),
        *final(count) == final(set)@.intersect(truth@).len(),
{
    let mut i = s;
    while i < e
        invariant
            s <= i <= e || (s > e && i == s),
            set@ == old(set)@.union(range_set(s as int, i as int)),
            set@.finite(),
            *count == set@.intersect(truth@).len(),
        decreases e - i,
    {
        let ghost before = set@;
        let fresh = set.insert(i);
        if fresh && truth.contains(&i) {
            proof {
                assert(set@.intersect(truth@) =~= before.intersect(truth@).insert(i));
                vstd::set_lib::lemma_len_subset(set@.intersect(truth@), set@);
                // A hash set holds at most usize::MAX keys.
                assert(vstd::std_specs::hash::spec_hash_set_len(&*set) == set@.len());
            }
            *count = *count + 1;
        } else {
            assert(set@.intersect(truth@) =~= before.intersect(truth@));
        }
        i = i + 1;
        assert(set@ =~= old(set)@.union(range_set(s as int, i as int)));
    }
    assert(set@ =~= old(set)@.union(range_set(s as int, e as int)));
}

/// Scores the entries against the known answer.
pub fn eval(truth: &Truth, diffs: &[DiffEntry]) -> (m: Metrics)
    requires
        old_cov(diffs@).len() + new_cov(diffs@).len() <= usize::MAX,
        truth.a_truth@.len() + truth.b_truth@.len() <= usize::MAX,
    ensures
        old_cov(diffs@).finite(),
        new_cov(diffs@).finite(),
        m.reported == old_cov(diffs@).len() + new_cov(diffs@).len(),
        m.truth == truth.a_truth@.len() + truth.b_truth@.len(),
        m.inter == new_cov(diffs@).intersect(truth.b_truth@).len() + old_cov(diffs@).intersect(truth.a_truth@).len(),
        m.b_fp == new_cov(diffs@).len() - new_cov(diffs@).intersect(truth.b_truth@).len(),
{
    let mut rb: HashSet<u64> = HashSet::new();
    let mut ra: HashSet<u64> = HashSet::new();
    let mut inter_b: usize = 0;
    let mut inter_a: usize = 0;
    assert(rb@.intersect(truth.b_truth@) =~= Set::empty());
    assert(ra@.intersect(truth.a_truth@) =~= Set::empty());
    let n = diffs.len();
    let mut k: usize = 0;
    while k < n
        invariant
            n == diffs@.len(),
            k <= n,
            ra@ == old_cov(diffs@.take(k as int)),
            rb@ == new_cov(diffs@.take(k as int)),
            ra@.finite(),
            rb@.finite(),
            inter_a == ra@.intersect(truth.a_truth@).len(),
            inter_b == rb@.intersect(truth.b_truth@).len(),
        decreases n - k,
    {
        let e = &diffs[k];
        proof {
            assert(diffs@.take(k + 1).drop_last() =~= diffs@.take(k as int));
            assert(diffs@.take(k + 1).last() == *e);
        }
        let ghost ra0 = ra@;
        let ghost rb0 = rb@;
        match e.change {
            ChangeType::Modified => {
                if let Some(r) = &e.old {
                    mark_counting(&mut ra, r.start, r.end, &truth.a_truth, &mut inter_a);
                }
                if let Some(r) = &e.new {
                    mark_counting(&mut rb, r.start, r.end, &truth.b_truth, &mut inter_b);
                }
            },
            ChangeType::Removed => {
                if let Some(r) = &e.old {
                    mark_counting(&mut ra, r.start, r.end, &truth.a_truth, &mut inter_a);
                }
            },
            ChangeType::Added => {
                if let Some(r) = &e.new {
                    mark_counting(&mut rb, r.start, r.end, &truth.b_truth, &mut inter_b);
                }
            },
        }
        proof {
            assert(ra@ =~= ra0.union(old_part(*e)));
            assert(rb@ =~= rb0.union(new_part(*e)));
        }
        k = k + 1;
    }
    proof {
        assert(diffs@.take(n as int) =~= diffs@);
        vstd::set_lib::lemma_len_subset(rb@.intersect(truth.b_truth@), rb@);
        vstd::set_lib::lemma_len_subset(ra@.intersect(truth.a_truth@), ra@);
    }
    let lb = rb.len();
    let la = ra.len();
    let tb = truth.b_truth.len();
    let ta = truth.a_truth.len();
    Metrics {
        reported: (lb + la) as u64,
        truth: (tb + ta) as u64,
        inter: (inter_b + inter_a) as u64,
        b_fp: (lb - inter_b) as u64,
    }
}

} // verus!
