//! Function-level structure matching: the executable segments of both files are
//! disassembled into normalized instruction signatures, the signature sequences are matched
//! with a sliding window, and the unmatched instruction ranges become the diff entries.

use std::ops::Range;
use vstd::prelude::*;
use vstd::bytes::{spec_u64_to_le_bytes, u64_to_le_bytes};
use crate::hashing::{xxh, spec_xxh64, XXH_SEED};
use crate::util::{extend, pair_le, pairs_sorted, sort_pairs};
use crate::diff_engine::{chained, select_chain, ChangeType, DiffEntry};
use crate::disasm::Insn;

verus! {

pub open spec fn min_int(a: int, b: int) -> int {
    if a < b { a } else { b }
}

/// Little-endian bytes of `s[start..start+m]`, one signature after another.
pub open spec fn win_bytes(s: Seq<u64>, start: int, m: int) -> Seq<u8>
    decreases m,
{
    if m <= 0 {
        Seq::empty()
    } else {
        win_bytes(s, start, m - 1) + spec_u64_to_le_bytes(s[start + m - 1])
    }
}

/// Window hash: xxh64 over the first `min(k, 8)` signatures from `start`.
pub open spec fn win_spec(s: Seq<u64>, start: int, k: int) -> u64 {
    spec_xxh64(win_bytes(s, start, min_int(k, 8)), XXH_SEED)
}

proof fn lemma_win_bytes_equal(s1: Seq<u64>, i: int, s2: Seq<u64>, j: int, m: int)
    requires
        0 <= i,
        0 <= j,
        i + m <= s1.len(),
        j + m <= s2.len(),
        s1.subrange(i, i + m) == s2.subrange(j, j + m),
    ensures
        win_bytes(s1, i, m) == win_bytes(s2, j, m),
    decreases m,
{
    if m > 0 {
        assert(s1.subrange(i, i + m - 1) =~= s1.subrange(i, i + m).subrange(0, m - 1));
        assert(s2.subrange(j, j + m - 1) =~= s2.subrange(j, j + m).subrange(0, m - 1));
        lemma_win_bytes_equal(s1, i, s2, j, m - 1);
        assert(s1[i + m - 1] == s1.subrange(i, i + m)[m - 1]);
        assert(s2[j + m - 1] == s2.subrange(j, j + m)[m - 1]);
    }
}

/// Equal windows hash alike: when the first `min(k, 8)` signatures from `i` in `s1` equal
/// those from `j` in `s2`, the two window hashes are the same, wherever the windows lie.
pub proof fn law_win_hash_equal_windows(s1: Seq<u64>, i: int, s2: Seq<u64>, j: int, k: int)
    requires
        0 <= k,
        0 <= i,
        0 <= j,
        i + min_int(k, 8) <= s1.len(),
        j + min_int(k, 8) <= s2.len(),
        s1.subrange(i, i + min_int(k, 8)) == s2.subrange(j, j + min_int(k, 8)),
    ensures
        win_spec(s1, i, k) == win_spec(s2, j, k),
{
    lemma_win_bytes_equal(s1, i, s2, j, min_int(k, 8));
}

/// Window hash: xxh64 over at most 8 consecutive signatures (8 bytes LE each) from `start`.
pub fn win_hash(sigs: &[u64], start: usize, k: usize) -> (h: u64)
    requires
        start + min_int(k as int, 8) <= sigs@.len(),
    ensures
        h == win_spec(sigs@, start as int, k as int),
{
    let kk = if k < 8 { k } else { 8 };
    let mut buf: Vec<u8> = Vec::new();
    let mut j: usize = 0;
    while j < kk
        invariant
            kk == min_int(k as int, 8),
            start + kk <= sigs.len(),
            j <= kk,
            buf@ == win_bytes(sigs@, start as int, j as int),
        decreases kk - j,
    {
        let b = u64_to_le_bytes(sigs[start + j]);
        extend(&mut buf, b.as_slice());
        j = j + 1;
    }
    xxh(buf.as_slice())
}

/// The run `(op, np, len)` of signatures cannot be extended: it starts at the start of a
/// sequence or after differing signatures, and ends at the end of a sequence or before
/// differing signatures.
pub open spec fn sig_run_maximal(a: Seq<u64>, b: Seq<u64>, m: (usize, usize, usize)) -> bool {
    &&& (m.0 == 0 || m.1 == 0 || a[m.0 - 1] != b[m.1 - 1])
    &&& (m.0 + m.2 == a.len() || m.1 + m.2 == b.len() || a[m.0 + m.2] != b[m.1 + m.2])
}

pub open spec fn sigs_of(insns: Seq<Insn>) -> Seq<u64> {
    insns.map_values(|i: Insn| i.sig)
}

/// `m = (op, np, len)` pairs `a[op..op+len]` with `b[np..np+len]`: at least `k` long and
/// equal signature by signature over its whole length.
pub open spec fn insn_match(a: Seq<u64>, b: Seq<u64>, k: int, m: (usize, usize, usize)) -> bool {
    &&& m.2 >= k
    &&& m.0 + m.2 <= a.len()
    &&& m.1 + m.2 <= b.len()
    &&& a.subrange(m.0 as int, m.0 + m.2) == b.subrange(m.1 as int, m.1 + m.2)
}

/// Whether `a[op..op+n]` and `b[i..i+n]` hold the same signatures.
fn sigs_equal(a: &Vec<u64>, op: usize, b: &Vec<u64>, i: usize, n: usize) -> (r: bool)
    requires
        op + n <= a@.len(),
        i + n <= b@.len(),
    ensures
        r == (a@.subrange(op as int, op + n) == b@.subrange(i as int, i + n)),
{
    let alen = a.len();
    let blen = b.len();
    let mut t: usize = 0;
    while t < n
        invariant
            op + n <= a@.len(),
            i + n <= b@.len(),
            alen == a@.len(),
            blen == b@.len(),
            t <= n,
            forall|u: int| 0 <= u < t ==> #[trigger] a@[op + u] == b@[i + u],
        decreases n - t,
    {
        if a[op + t] != b[i + t] {
            assert(a@.subrange(op as int, op + n)[t as int] != b@.subrange(i as int, i + n)[t as int]);
            return false;
        }
        t = t + 1;
    }
    assert forall|u: int| 0 <= u < n implies #[trigger] a@.subrange(op as int, op + n)[u] == b@.subrange(i as int, i + n)[u] by {
        assert(a@[op + u] == b@[i + u]);
    }
    assert(a@.subrange(op as int, op + n) =~= b@.subrange(i as int, i + n));
    true
}

fn sig_vec(insns: &[Insn]) -> (v: Vec<u64>)
    ensures
        v@ == sigs_of(insns@),
{
    let mut v: Vec<u64> = Vec::new();
    let mut i: usize = 0;
    while i < insns.len()
        invariant
            i <= insns@.len(),
            v@ == sigs_of(insns@).subrange(0, i as int),
        decreases insns.len() - i,
    {
        v.push(insns[i].sig);
        i = i + 1;
    }
    assert(v@ =~= sigs_of(insns@));
    v
}

/// Length of the run at `a[op..]` / `b[i..]` once extended forwards from `len` signatures, as
/// far as the next signatures agree.
pub open spec fn sig_fwd_len(a: Seq<u64>, b: Seq<u64>, op: int, i: int, len: int) -> int
    decreases b.len() - i - len,
{
    if 0 <= i + len < b.len() && 0 <= op + len < a.len() && b[i + len] == a[op + len] {
        sig_fwd_len(a, b, op, i, len + 1)
    } else {
        len
    }
}

/// The candidate search of one scan position over the index entries `m..lim`: an entry
/// whose `k` signatures equal those of the window `b[i..i+k]` gives a run extended
/// forwards, and the first longest run is kept. Returns whether one was kept, its start in `a` and its length.
pub open spec fn sig_cand_scan(a: Seq<u64>, b: Seq<u64>, k: int, index: Seq<(u64, u64)>, i: int, m: int, lim: int,
    found: bool, bop: int, blen: int) -> (bool, int, int)
    decreases lim - m,
{
    if m >= lim {
        (found, bop, blen)
    } else {
        let op = index[m].1 as int;
        let len = sig_fwd_len(a, b, op, i, k);
        if a.subrange(op, op + k) == b.subrange(i, i + k) && (!found || len > blen) {
            sig_cand_scan(a, b, k, index, i, m + 1, lim, true, op, len)
        } else {
            sig_cand_scan(a, b, k, index, i, m + 1, lim, found, bop, blen)
        }
    }
}

/// The run `a[op..op+len] / b[np..np+len]` extended backwards as far as the signatures
/// before it agree.
pub open spec fn sig_back_ext(a: Seq<u64>, b: Seq<u64>, op: int, np: int, len: int) -> (int, int, int)
    decreases op,
{
    if op > 0 && np > 0 && a[op - 1] == b[np - 1] {
        sig_back_ext(a, b, op - 1, np - 1, len + 1)
    } else {
        (op, np, len)
    }
}

/// The runs that the scan of `b` finds from position `i` on: the index entries whose key is
/// the hash of the window `b[i..i+k]` are looked up (at most 128) and checked signature by
/// signature, the kept candidate is extended backwards and reported, and the scan resumes
/// after it; without one it moves on by one signature.
pub open spec fn insn_scan(a: Seq<u64>, b: Seq<u64>, k: int, index: Seq<(u64, u64)>, i: int) -> Seq<(usize, usize, usize)>
    decreases b.len() - i,
{
    if i < 0 || k < 1 || i + k > b.len() {
        Seq::empty()
    } else {
        let h = win_spec(b, i, k);
        let lo = crate::diff_engine::key_point(index, h, false, 0);
        let hi = crate::diff_engine::key_point(index, h, true, 0);
        let c = if lo < hi {
            sig_cand_scan(a, b, k, index, i, lo, if hi - lo > 128 { lo + 128 } else { hi }, false, 0, 0)
        } else {
            (false, 0int, 0int)
        };
        if c.0 {
            let m = sig_back_ext(a, b, c.1, i, c.2);
            let i2 = m.1 + m.2;
            seq![(m.0 as usize, m.1 as usize, m.2 as usize)] + (if i < i2 <= b.len() { insn_scan(a, b, k, index, i2) } else { Seq::empty() })
        } else {
            insn_scan(a, b, k, index, i + 1)
        }
    }
}

/// `sel` is what the instruction-level match reports for the signatures `sa` and `sb`:
/// the windows of `k` signatures of `sa` are indexed (`index`, sorted), `sb` is scanned
/// (`insn_scan`), and the runs found are chained greedily in the stable order `order` of
/// their ends. Nothing is found when either side has fewer than `k` signatures.
#[verifier::opaque]
pub open spec fn insn_report(sa: Seq<u64>, sb: Seq<u64>, k: int, index: Seq<(u64, u64)>, order: Seq<usize>, sel: Seq<(usize, usize, usize)>) -> bool {
    let cands = if sa.len() < k || sb.len() < k { Seq::empty() } else { insn_scan(sa, sb, k, index, 0) };
    &&& (sa.len() >= k && sb.len() >= k ==> pairs_sorted(index)
        && index.to_multiset() == Seq::new((sa.len() - k + 1) as nat, |t: int| (win_spec(sa, t, k), t as u64)).to_multiset())
    &&& crate::util::is_stable_order(crate::diff_engine::chain_end_keys(cands), order)
    &&& sel == crate::diff_engine::greedy_chain(cands, order, cands.len() as int).0
}

/// Instruction-level sliding match over the normalized signatures: every window of `k`
/// signatures of `a` is indexed by hash; `b` is scanned for windows whose hash is indexed,
/// each hit whose `k` signatures really are equal is extended forwards (up to 128
/// candidates per hash, the longest kept) and backwards, and the runs are chained greedily
/// by their end in `b`. Every run is at least `k` signatures long and equal throughout.
/// Returns `(a_index, b_index, length)` in instructions.
pub fn match_insns(a: &[Insn], b: &[Insn], k: usize) -> (sel: Vec<(usize, usize, usize)>)
    requires
        k >= 1,
        a@.len() <= u32::MAX,
        b@.len() <= u32::MAX,
    ensures
        chained(sel@),
        forall|i: int| 0 <= i < sel@.len() ==> insn_match(sigs_of(a@), sigs_of(b@), k as int, #[trigger] sel@[i]),
        forall|i: int| 0 <= i < sel@.len() ==> sig_run_maximal(sigs_of(a@), sigs_of(b@), #[trigger] sel@[i]),
        exists|cands: Seq<(usize, usize, usize)>, order: Seq<usize>|
            crate::util::is_stable_order(crate::diff_engine::chain_end_keys(cands), order)
            && sel@ == (#[trigger] crate::diff_engine::greedy_chain(cands, order, cands.len() as int)).0,
        sigs_of(a@) == sigs_of(b@) && a@.len() >= k ==> sel@.len() >= 1,
        exists|index: Seq<(u64, u64)>, order: Seq<usize>| #[trigger] insn_report(sigs_of(a@), sigs_of(b@), k as int, index, order, sel@),
{
    let ghost sa = sigs_of(a@);
    let ghost sb = sigs_of(b@);
    let mut matches: Vec<(usize, usize, usize)> = Vec::new();
    if a.len() < k || b.len() < k {
        proof {
            let e = Seq::<(usize, usize, usize)>::empty();
            let o = Seq::<usize>::empty();
            assert(crate::util::is_stable_order(crate::diff_engine::chain_end_keys(e), o));
            assert(matches@ == crate::diff_engine::greedy_chain(e, o, e.len() as int).0);
            assert(sigs_of(a@).len() == a@.len() && sigs_of(b@).len() == b@.len());
            assert(insn_report(sigs_of(a@), sigs_of(b@), k as int, Seq::empty(), o, matches@)) by {
                reveal(insn_report);
            }
        }
        return matches;
    }
    let a_sigs = sig_vec(a);
    let b_sigs = sig_vec(b);
    let la = a_sigs.len();
    let lb = b_sigs.len();
    let n = la - k + 1;
    let mut index: Vec<(u64, u64)> = Vec::new();
    let mut i: usize = 0;
    while i < n
        invariant
            la == sa.len(),
            a_sigs@ == sa,
            k >= 1,
            n == la - k + 1,
            i <= n,
            index@.len() == i,
            i >= 1 ==> index@[0] == (win_spec(sa, 0, k as int), 0u64),
            index@ =~= Seq::new(i as nat, |t: int| (win_spec(sa, t, k as int), t as u64)),
            forall|t: int| 0 <= t < index@.len() ==> (#[trigger] index@[t]).1 < n && index@[t].0 == win_spec(sa, index@[t].1 as int, k as int),
        decreases n - i,
    {
        let h = win_hash(a_sigs.as_slice(), i, k);
        index.push((h, i as u64));
        i = i + 1;
    }
    let ghost before = index@;
    sort_pairs(&mut index);
    proof {
        assert forall|t: int| 0 <= t < index@.len() implies (#[trigger] index@[t]).1 < n && index@[t].0 == win_spec(sa, index@[t].1 as int, k as int) by {
            let p = index@[t];
            assert(index@.contains(p));
            vstd::seq_lib::to_multiset_contains(index@, p);
            vstd::seq_lib::to_multiset_contains(before, p);
            let q = choose|q: int| 0 <= q < before.len() && before[q] == p;
        }
        let p0 = (win_spec(sa, 0, k as int), 0u64);
        assert(before[0] == p0);
        vstd::seq_lib::to_multiset_contains(before, p0);
        vstd::seq_lib::to_multiset_contains(index@, p0);
        assert(index@.contains(p0));
    }
    let ghost hit0 = sa == sb;
    let ghost idx_all = index@;
    let ghost total = insn_scan(sa, sb, k as int, index@, 0);
    proof {
        assert(before =~= Seq::new(n as nat, |t: int| (win_spec(sa, t, k as int), t as u64)));
        assert(matches@ + total =~= total);
    }
    let mut i: usize = 0;
    while i <= lb - k
        invariant
            matches@ + insn_scan(sa, sb, k as int, index@, i as int) == total,
            total == insn_scan(sa, sb, k as int, index@, 0),
            k <= lb,
            la == sa.len(),
            lb == sb.len(),
            a_sigs@ == sa,
            b_sigs@ == sb,
            k >= 1,
            n == la - k + 1,
            la <= u32::MAX,
            lb <= u32::MAX,
            pairs_sorted(index@),
            forall|t: int| 0 <= t < index@.len() ==> (#[trigger] index@[t]).1 < n && index@[t].0 == win_spec(sa, index@[t].1 as int, k as int),
            forall|t: int| 0 <= t < matches@.len() ==> insn_match(sa, sb, k as int, #[trigger] matches@[t]),
            forall|t: int| 0 <= t < matches@.len() ==> sig_run_maximal(sa, sb, #[trigger] matches@[t]),
            index@.contains((win_spec(sa, 0, k as int), 0u64)),
            hit0 == (sa == sb),
            hit0 ==> i == 0 || matches@.len() >= 1,
        decreases lb - i,
    {
        let ghost ms0 = matches@;
        let ghost rest = insn_scan(sa, sb, k as int, index@, i as int);
        let h = win_hash(b_sigs.as_slice(), i, k);
        let lo = crate::diff_engine::partition_point(&index, h, false);
        let hi = crate::diff_engine::partition_point(&index, h, true);
        proof {
            if hit0 && i == 0 {
                let p = choose|p: int| 0 <= p < index@.len() && index@[p] == (win_spec(sa, 0, k as int), 0u64);
                assert(index@[p].0 == h);
                assert(lo <= p < hi);
                assert(pair_le(index@[lo as int], index@[p]));
                assert(index@[lo as int].1 == 0);
            }
        }
        let mut found = false;
        let mut best_op: usize = 0;
        let mut best_len: usize = 0;
        if lo < hi {
            let lim = if hi - lo > 128 { lo + 128 } else { hi };
            let mut m = lo;
            while m < lim
                invariant
                    la == sa.len(),
                    lb == sb.len(),
                    a_sigs@ == sa,
                    b_sigs@ == sb,
                    k >= 1,
                    n == la - k + 1,
                    i + k <= lb,
                    lo <= m,
                    lo < lim,
                    m <= lim,
                    lim <= hi <= index@.len(),
                    hit0 && i == 0 ==> sa == sb && index@[lo as int].1 == 0,
                    hit0 && i == 0 && m > lo ==> found,
                    forall|t: int| 0 <= t < index@.len() ==> (#[trigger] index@[t]).1 < n && index@[t].0 == win_spec(sa, index@[t].1 as int, k as int),
                    found ==> best_len >= k && best_op + best_len <= la && i + best_len <= lb
                        && (forall|t: int| 0 <= t < best_len ==> #[trigger] sa[best_op + t] == sb[i + t]),
                    found ==> best_op + best_len == la || i + best_len == lb || sa[best_op + best_len] != sb[i + best_len],
                    sig_cand_scan(sa, sb, k as int, index@, i as int, m as int, lim as int, found, best_op as int, best_len as int)
                        == sig_cand_scan(sa, sb, k as int, index@, i as int, lo as int, lim as int, false, 0, 0),
                decreases lim - m,
            {
                proof {
                    assert(index@[m as int].1 < n);
                }
                let op = index[m].1 as usize;
                let mut len = k;
                while i + len < lb && op + len < la && b_sigs[i + len] == a_sigs[op + len]
                    invariant
                        la == sa.len(),
                        lb == sb.len(),
                        a_sigs@ == sa,
                        b_sigs@ == sb,
                        len >= k,
                        i + len <= lb,
                        op + len <= la,
                        forall|t: int| k <= t < len ==> #[trigger] sa[op + t] == sb[i + t],
                        sig_fwd_len(sa, sb, op as int, i as int, len as int) == sig_fwd_len(sa, sb, op as int, i as int, k as int),
                    decreases lb - i - len,
                {
                    len = len + 1;
                }
                proof {
                    assert(len == sig_fwd_len(sa, sb, op as int, i as int, k as int));
                }
                let eq = sigs_equal(&a_sigs, op, &b_sigs, i, k);
                proof {
                    if hit0 && i == 0 && m == lo {
                        assert(op == 0);
                        assert(sa.subrange(0, k as int) =~= sb.subrange(0, k as int));
                    }
                }
                if eq && (!found || len > best_len) {
                    proof {
                        assert forall|t: int| 0 <= t < len implies #[trigger] sa[op + t] == sb[i + t] by {
                            if t < k {
                                assert(sa.subrange(op as int, op + k)[t] == sb.subrange(i as int, i + k)[t]);
                            }
                        }
                    }
                    found = true;
                    best_op = op;
                    best_len = len;
                }
                m = m + 1;
            }
        }
        proof {
            assert((found, best_op as int, best_len as int) == if lo < hi {
                sig_cand_scan(sa, sb, k as int, index@, i as int, lo as int, if hi - lo > 128 { lo + 128 } else { hi as int }, false, 0, 0)
            } else {
                (false, 0int, 0int)
            });
        }
        if found {
            let mut op = best_op;
            let mut np = i;
            let mut len = best_len;
            while op > 0 && np > 0 && a_sigs[op - 1] == b_sigs[np - 1]
                invariant
                    la == sa.len(),
                    lb == sb.len(),
                    a_sigs@ == sa,
                    b_sigs@ == sb,
                    op + len <= la,
                    np + len <= lb,
                    np + len == i + best_len,
                    op + len == best_op + best_len,
                    len >= best_len,
                    best_len >= k,
                    best_op + best_len == la || i + best_len == lb || sa[best_op + best_len] != sb[i + best_len],
                    forall|t: int| 0 <= t < len ==> #[trigger] sa[op + t] == sb[np + t],
                    sig_back_ext(sa, sb, op as int, np as int, len as int) == sig_back_ext(sa, sb, best_op as int, i as int, best_len as int),
                decreases op,
            {
                proof {
                    assert forall|t: int| 0 <= t < len + 1 implies #[trigger] sa[op - 1 + t] == sb[np - 1 + t] by {
                        if t >= 1 {
                            assert(sa[op + (t - 1)] == sb[np + (t - 1)]);
                        }
                    }
                }
                op = op - 1;
                np = np - 1;
                len = len + 1;
            }
            let mt = (op, np, len);
            proof {
                assert(sa.subrange(op as int, op + len) =~= sb.subrange(np as int, np + len)) by {
                    assert forall|t: int| 0 <= t < len implies #[trigger] sa.subrange(op as int, op + len)[t] == sb.subrange(np as int, np + len)[t] by {
                        assert(sa[op + t] == sb[np + t]);
                    }
                }
                assert(insn_match(sa, sb, k as int, mt));
                assert(sig_run_maximal(sa, sb, mt));
                assert(rest == seq![mt] + (if i < np + len <= lb { insn_scan(sa, sb, k as int, index@, np + len) } else { Seq::empty() }));
            }
            matches.push(mt);
            proof {
                assert(matches@ + insn_scan(sa, sb, k as int, index@, np + len) =~= ms0 + rest);
            }
            i = np + len;
            continue;
        }
        proof {
            assert(rest == insn_scan(sa, sb, k as int, index@, i + 1));
        }
        i = i + 1;
    }
    proof {
        assert(insn_scan(sa, sb, k as int, index@, i as int) == Seq::<(usize, usize, usize)>::empty());
        assert(matches@ =~= total);
    }
    let ghost okf = |m: (usize, usize, usize)| insn_match(sa, sb, k as int, m) && sig_run_maximal(sa, sb, m);
    proof {
        assert forall|t: int| 0 <= t < matches@.len() implies okf(#[trigger] matches@[t]) && matches@[t].0 + matches@[t].2 <= usize::MAX && matches@[t].1 + matches@[t].2 <= usize::MAX by {
            assert(insn_match(sa, sb, k as int, matches@[t]));
            assert(sig_run_maximal(sa, sb, matches@[t]));
        }
    }
    let sel = select_chain(Ghost(okf), &matches);
    proof {
        assert forall|t: int| 0 <= t < sel@.len() implies insn_match(sa, sb, k as int, #[trigger] sel@[t])
            && sig_run_maximal(sa, sb, sel@[t]) by {
            assert(okf(sel@[t]));
        }
        let order = choose|order: Seq<usize>| crate::util::is_stable_order(crate::diff_engine::chain_end_keys(matches@), order)
            && sel@ == (#[trigger] crate::diff_engine::greedy_chain(matches@, order, matches@.len() as int)).0;
        if hit0 {
            crate::diff_engine::lemma_greedy_nonempty(matches@, order, matches@.len() as int);
        }
        assert(insn_report(sa, sb, k as int, index@, order, sel@)) by {
            reveal(insn_report);
            assert(sa.len() == la && sb.len() == lb);
        }
    }
    sel
}

} // verus!

verus! {

/// Byte range of instructions `start..end`: from the first one's offset to the last one's
/// end, clipped to `seg_end`; `(0, 0)` for an empty range.
pub open spec fn insn_range_spec(insns: Seq<Insn>, start: int, end: int, seg_end: u64) -> (u64, u64) {
    if start >= end {
        (0, 0)
    } else {
        let last = insns[end - 1];
        let e = (last.offset + last.len) as u64;
        (insns[start].offset as u64, if e < seg_end { e } else { seg_end })
    }
}

/// Instructions sorted by offset, each ending by `seg_end`.
pub open spec fn insns_ok(insns: Seq<Insn>, seg_end: int) -> bool {
    &&& forall|i: int| 0 <= i < insns.len() ==> (#[trigger] insns[i]).offset + insns[i].len <= seg_end
    &&& forall|i: int, j: int| 0 <= i <= j < insns.len() ==> (#[trigger] insns[i]).offset <= (#[trigger] insns[j]).offset
}

pub fn insn_byte_range(insns: &[Insn], start: usize, end: usize, seg_end: u64) -> (r: (u64, u64))
    requires
        end <= insns@.len(),
        insns_ok(insns@, seg_end as int),
    ensures
        r == insn_range_spec(insns@, start as int, end as int, seg_end),
        start < end ==> r.0 <= r.1,
{
    if start >= end {
        return (0, 0);
    }
    let s = insns[start].offset as u64;
    let last = &insns[end - 1];
    let e0 = last.offset as u64 + last.len as u64;
    let e = if e0 < seg_end { e0 } else { seg_end };
    (s, e)
}

pub open spec fn removed_of(r: (u64, u64)) -> DiffEntry {
    DiffEntry { offset: r.0, length: (r.1 - r.0) as u64, change: crate::diff_engine::ChangeType::Removed,
        old: Some(Range { start: r.0, end: r.1 }), new: None }
}

pub open spec fn added_of(r: (u64, u64), at: u64) -> DiffEntry {
    DiffEntry { offset: r.0, length: (r.1 - r.0) as u64, change: crate::diff_engine::ChangeType::Added,
        old: Some(Range { start: at, end: at }), new: Some(Range { start: r.0, end: r.1 }) }
}

/// Offset of instruction `i` of A, or the end of A's segment past the last instruction.
pub open spec fn ins_point(a: Seq<Insn>, i: int, a_end: u64) -> u64 {
    if 0 <= i < a.len() { a[i].offset as u64 } else { a_end }
}

/// Entries for the runs `sel` (taken in order) and the final cursors in A and B.
pub open spec fn entries_fold(a: Seq<Insn>, b: Seq<Insn>, sel: Seq<(usize, usize, usize)>, a_end: u64, b_end: u64) -> (Seq<DiffEntry>, int, int)
    decreases sel.len(),
{
    if sel.len() == 0 {
        (Seq::empty(), 0, 0)
    } else {
        let (out, o_cur, n_cur) = entries_fold(a, b, sel.drop_last(), a_end, b_end);
        let (op, np, len) = sel.last();
        let r1 = if o_cur < op { seq![removed_of(insn_range_spec(a, o_cur, op as int, a_end))] } else { Seq::empty() };
        let r2 = if np > n_cur {
            seq![added_of(insn_range_spec(b, n_cur, np as int, b_end), ins_point(a, op as int, a_end))]
        } else {
            Seq::empty()
        };
        (out + r1 + r2, op + len, np + len)
    }
}

/// All entries: those of the runs, then an Added tail of B and a Removed tail of A.
pub open spec fn entries_spec(a: Seq<Insn>, b: Seq<Insn>, sel: Seq<(usize, usize, usize)>, a_end: u64, b_end: u64) -> Seq<DiffEntry> {
    let (out, o_cur, n_cur) = entries_fold(a, b, sel, a_end, b_end);
    let t1 = if n_cur < b.len() {
        seq![added_of(insn_range_spec(b, n_cur, b.len() as int, b_end), ins_point(a, o_cur, a_end))]
    } else {
        Seq::empty()
    };
    let t2 = if o_cur < a.len() { seq![removed_of(insn_range_spec(a, o_cur, a.len() as int, a_end))] } else { Seq::empty() };
    out + t1 + t2
}

/// Instruction `i` of A lies inside one of the runs `sel`.
pub open spec fn in_runs_a(sel: Seq<(usize, usize, usize)>, i: int) -> bool {
    exists|t: int| 0 <= t < sel.len() && (#[trigger] sel[t]).0 <= i < sel[t].0 + sel[t].2
}

/// Instruction `j` of B lies inside one of the runs `sel`.
pub open spec fn in_runs_b(sel: Seq<(usize, usize, usize)>, j: int) -> bool {
    exists|t: int| 0 <= t < sel.len() && (#[trigger] sel[t]).1 <= j < sel[t].1 + sel[t].2
}

/// The old range of `e` holds position `p`.
pub open spec fn holds_old(e: DiffEntry, p: int) -> bool {
    e.old matches Some(r) && r.start <= p < r.end
}

/// The new range of `e` holds position `p`.
pub open spec fn holds_new(e: DiffEntry, p: int) -> bool {
    e.new matches Some(r) && r.start <= p < r.end
}

/// Some Removed entry of `out` has an old range holding position `p`.
pub open spec fn removed_covers(out: Seq<DiffEntry>, p: int) -> bool {
    exists|k: int| 0 <= k < out.len() && (#[trigger] out[k]).change == crate::diff_engine::ChangeType::Removed
        && holds_old(out[k], p)
}

/// Some Added entry of `out` has a new range holding position `p`.
pub open spec fn added_covers(out: Seq<DiffEntry>, p: int) -> bool {
    exists|k: int| 0 <= k < out.len() && (#[trigger] out[k]).change == crate::diff_engine::ChangeType::Added
        && holds_new(out[k], p)
}

/// The runs are chained and lie inside both instruction lists, which are ordered, end by
/// their segment ends and hold no empty instruction.
pub open spec fn runs_in(a: Seq<Insn>, b: Seq<Insn>, sel: Seq<(usize, usize, usize)>, a_end: u64, b_end: u64) -> bool {
    &&& insns_ok(a, a_end as int)
    &&& insns_ok(b, b_end as int)
    &&& chained(sel)
    &&& forall|t: int| 0 <= t < sel.len() ==> (#[trigger] sel[t]).0 + sel[t].2 <= a.len() && sel[t].1 + sel[t].2 <= b.len()
    &&& forall|i: int| 0 <= i < a.len() ==> (#[trigger] a[i]).len >= 1
    &&& forall|j: int| 0 <= j < b.len() ==> (#[trigger] b[j]).len >= 1
}

proof fn lemma_range_holds(a: Seq<Insn>, s: int, e: int, seg_end: u64, i: int)
    requires
        insns_ok(a, seg_end as int),
        0 <= s <= i < e <= a.len(),
        a[i].len >= 1,
        a[e - 1].len >= 1,
    ensures
        insn_range_spec(a, s, e, seg_end).0 <= a[i].offset < insn_range_spec(a, s, e, seg_end).1,
{
    assert(a[s].offset <= a[i].offset);
    assert(a[i].offset <= a[e - 1].offset);
    assert(a[e - 1].offset + a[e - 1].len <= seg_end);
    assert(a[i].offset + a[i].len <= seg_end);
    let last = a[e - 1];
    assert(((last.offset + last.len) as u64) as int == last.offset + last.len);
    assert((a[s].offset as u64) as int == a[s].offset);
}

proof fn lemma_fold_cover(a: Seq<Insn>, b: Seq<Insn>, sel: Seq<(usize, usize, usize)>, a_end: u64, b_end: u64)
    requires
        runs_in(a, b, sel, a_end, b_end),
    ensures
        entries_fold(a, b, sel, a_end, b_end).1 == (if sel.len() == 0 { 0 } else { sel.last().0 + sel.last().2 }),
        entries_fold(a, b, sel, a_end, b_end).2 == (if sel.len() == 0 { 0 } else { sel.last().1 + sel.last().2 }),
        forall|i: int| 0 <= i < entries_fold(a, b, sel, a_end, b_end).1 && !in_runs_a(sel, i)
            ==> removed_covers(entries_fold(a, b, sel, a_end, b_end).0, a[i].offset as int),
        forall|j: int| 0 <= j < entries_fold(a, b, sel, a_end, b_end).2 && !in_runs_b(sel, j)
            ==> added_covers(entries_fold(a, b, sel, a_end, b_end).0, b[j].offset as int),
    decreases sel.len(),
{
    if sel.len() > 0 {
        let pre = sel.drop_last();
        assert(runs_in(a, b, pre, a_end, b_end)) by {
            assert forall|t: int, u: int| 0 <= t < u < pre.len() implies
                (#[trigger] pre[t]).0 + pre[t].2 <= (#[trigger] pre[u]).0 && pre[t].1 + pre[t].2 <= pre[u].1 by {
                assert(pre[t] == sel[t] && pre[u] == sel[u]);
            }
            assert forall|t: int| 0 <= t < pre.len() implies (#[trigger] pre[t]).0 + pre[t].2 <= a.len() && pre[t].1 + pre[t].2 <= b.len() by {
                assert(pre[t] == sel[t]);
            }
        }
        lemma_fold_cover(a, b, pre, a_end, b_end);
        let (out0, o0, n0) = entries_fold(a, b, pre, a_end, b_end);
        let (op, np, len) = sel.last();
        let lt = sel.len() - 1;
        assert(sel[lt] == sel.last());
        assert(sel[lt].0 + sel[lt].2 <= a.len() && sel[lt].1 + sel[lt].2 <= b.len());
        if pre.len() > 0 {
            assert(pre.last() == sel[lt - 1]);
            assert(sel[lt - 1].0 + sel[lt - 1].2 <= sel[lt].0 && sel[lt - 1].1 + sel[lt - 1].2 <= sel[lt].1);
        }
        assert(o0 <= op && n0 <= np);
        let r1 = if o0 < op { seq![removed_of(insn_range_spec(a, o0, op as int, a_end))] } else { Seq::<DiffEntry>::empty() };
        let r2 = if np > n0 {
            seq![added_of(insn_range_spec(b, n0, np as int, b_end), ins_point(a, op as int, a_end))]
        } else {
            Seq::<DiffEntry>::empty()
        };
        let out = out0 + r1 + r2;
        assert(entries_fold(a, b, sel, a_end, b_end) == (out, op + len, np + len));
        assert forall|i: int| 0 <= i < op + len && !in_runs_a(sel, i) implies removed_covers(out, a[i].offset as int) by {
            if i < o0 {
                if in_runs_a(pre, i) {
                    let t = choose|t: int| 0 <= t < pre.len() && (#[trigger] pre[t]).0 <= i < pre[t].0 + pre[t].2;
                    assert(sel[t] == pre[t]);
                    assert(in_runs_a(sel, i));
                }
                let k = choose|k: int| 0 <= k < out0.len() && (#[trigger] out0[k]).change == crate::diff_engine::ChangeType::Removed
                    && holds_old(out0[k], a[i].offset as int);
                assert(out[k] == out0[k]);
            } else if i < op {
                lemma_range_holds(a, o0, op as int, a_end, i);
                assert(out[out0.len() as int] == r1[0]);
            } else {
                assert(sel[lt].0 <= i < sel[lt].0 + sel[lt].2);
                assert(in_runs_a(sel, i));
            }
        }
        assert forall|j: int| 0 <= j < np + len && !in_runs_b(sel, j) implies added_covers(out, b[j].offset as int) by {
            if j < n0 {
                if in_runs_b(pre, j) {
                    let t = choose|t: int| 0 <= t < pre.len() && (#[trigger] pre[t]).1 <= j < pre[t].1 + pre[t].2;
                    assert(sel[t] == pre[t]);
                    assert(in_runs_b(sel, j));
                }
                let k = choose|k: int| 0 <= k < out0.len() && (#[trigger] out0[k]).change == crate::diff_engine::ChangeType::Added
                    && holds_new(out0[k], b[j].offset as int);
                assert(out[k] == out0[k]);
            } else if j < np {
                lemma_range_holds(b, n0, np as int, b_end, j);
                assert(out[(out0.len() + r1.len()) as int] == r2[0]);
            } else {
                assert(sel[lt].1 <= j < sel[lt].1 + sel[lt].2);
                assert(in_runs_b(sel, j));
            }
        }
    }
}

/// Structural entries account for every unmatched instruction: each instruction of A that
/// lies in none of the matched runs (before, between or after them) lies inside the old
/// range of a Removed entry, and each instruction of B in none of the runs lies inside the
/// new range of an Added entry.
pub proof fn law_unmatched_reported(a: Seq<Insn>, b: Seq<Insn>, sel: Seq<(usize, usize, usize)>, a_end: u64, b_end: u64)
    requires
        runs_in(a, b, sel, a_end, b_end),
    ensures
        forall|i: int| 0 <= i < a.len() && !in_runs_a(sel, i) ==> removed_covers(entries_spec(a, b, sel, a_end, b_end), a[i].offset as int),
        forall|j: int| 0 <= j < b.len() && !in_runs_b(sel, j) ==> added_covers(entries_spec(a, b, sel, a_end, b_end), b[j].offset as int),
{
    lemma_fold_cover(a, b, sel, a_end, b_end);
    let (out, o, n) = entries_fold(a, b, sel, a_end, b_end);
    let t1 = if n < b.len() {
        seq![added_of(insn_range_spec(b, n, b.len() as int, b_end), ins_point(a, o, a_end))]
    } else {
        Seq::<DiffEntry>::empty()
    };
    let t2 = if o < a.len() { seq![removed_of(insn_range_spec(a, o, a.len() as int, a_end))] } else { Seq::<DiffEntry>::empty() };
    let all = entries_spec(a, b, sel, a_end, b_end);
    assert(all == out + t1 + t2);
    if sel.len() > 0 {
        let lt = sel.len() - 1;
        assert(sel[lt] == sel.last());
        assert(sel[lt].0 + sel[lt].2 <= a.len() && sel[lt].1 + sel[lt].2 <= b.len());
    }
    assert forall|i: int| 0 <= i < a.len() && !in_runs_a(sel, i) implies removed_covers(all, a[i].offset as int) by {
        if i < o {
            let k = choose|k: int| 0 <= k < out.len() && (#[trigger] out[k]).change == crate::diff_engine::ChangeType::Removed
                && holds_old(out[k], a[i].offset as int);
            assert(all[k] == out[k]);
        } else {
            lemma_range_holds(a, o, a.len() as int, a_end, i);
            assert(all[(out.len() + t1.len()) as int] == t2[0]);
        }
    }
    assert forall|j: int| 0 <= j < b.len() && !in_runs_b(sel, j) implies added_covers(all, b[j].offset as int) by {
        if j < n {
            let k = choose|k: int| 0 <= k < out.len() && (#[trigger] out[k]).change == crate::diff_engine::ChangeType::Added
                && holds_new(out[k], b[j].offset as int);
            assert(all[k] == out[k]);
        } else {
            lemma_range_holds(b, n, b.len() as int, b_end, j);
            assert(all[out.len() as int] == t1[0]);
        }
    }
}

fn mk_range_entry(r: (u64, u64), added: bool, at: u64) -> (e: DiffEntry)
    requires
        r.0 <= r.1,
    ensures
        e == if added { added_of(r, at) } else { removed_of(r) },
{
    if added {
        DiffEntry { offset: r.0, length: r.1 - r.0, change: crate::diff_engine::ChangeType::Added,
            old: Some(Range { start: at, end: at }), new: Some(Range { start: r.0, end: r.1 }) }
    } else {
        DiffEntry { offset: r.0, length: r.1 - r.0, change: crate::diff_engine::ChangeType::Removed,
            old: Some(Range { start: r.0, end: r.1 }), new: None }
    }
}

/// Maps instruction-level runs back to file byte ranges: the instructions between runs
/// are Removed (A) and Added (B, inserted at the next run's first A instruction, or at the
/// end of A's segment).
pub fn build_entries(a_insns: &[Insn], b_insns: &[Insn], selected: &[(usize, usize, usize)], a_end: u64, b_end: u64) -> (out: Vec<DiffEntry>)
    requires
        insns_ok(a_insns@, a_end as int),
        insns_ok(b_insns@, b_end as int),
        chained(selected@),
        forall|i: int| 0 <= i < selected@.len() ==> (#[trigger] selected@[i]).0 + selected@[i].2 <= a_insns@.len()
            && selected@[i].1 + selected@[i].2 <= b_insns@.len(),
    ensures
        out@ == entries_spec(a_insns@, b_insns@, selected@, a_end, b_end),
{
    let la = a_insns.len();
    let lb = b_insns.len();
    let mut out: Vec<DiffEntry> = Vec::new();
    let mut o_cur: usize = 0;
    let mut n_cur: usize = 0;
    let n = selected.len();
    let mut k: usize = 0;
    while k < n
        invariant
            n == selected@.len(),
            la == a_insns@.len(),
            lb == b_insns@.len(),
            insns_ok(a_insns@, a_end as int),
            insns_ok(b_insns@, b_end as int),
            chained(selected@),
            forall|i: int| 0 <= i < selected@.len() ==> (#[trigger] selected@[i]).0 + selected@[i].2 <= la
                && selected@[i].1 + selected@[i].2 <= lb,
            k <= n,
            o_cur <= la,
            n_cur <= lb,
            k > 0 ==> o_cur == selected@[k - 1].0 + selected@[k - 1].2 && n_cur == selected@[k - 1].1 + selected@[k - 1].2,
            k == 0 ==> o_cur == 0 && n_cur == 0,
            (out@, o_cur as int, n_cur as int) == entries_fold(a_insns@, b_insns@, selected@.subrange(0, k as int), a_end, b_end),
        decreases n - k,
    {
        let (op, np, len) = selected[k];
        proof {
            let pre = selected@.subrange(0, k + 1);
            assert(pre.drop_last() =~= selected@.subrange(0, k as int));
            assert(pre.last() == selected@[k as int]);
            assert(selected@[k as int].0 + selected@[k as int].2 <= la);
        }
        let ghost before = out@;
        if o_cur < op {
            let r = insn_byte_range(a_insns, o_cur, op, a_end);
            out.push(mk_range_entry(r, false, 0));
        }
        let ghost mid = out@;
        if np > n_cur {
            let r = insn_byte_range(b_insns, n_cur, np, b_end);
            let at = if op < la { a_insns[op].offset as u64 } else { a_end };
            out.push(mk_range_entry(r, true, at));
        }
        proof {
            let (o0, c0, d0) = entries_fold(a_insns@, b_insns@, selected@.subrange(0, k as int), a_end, b_end);
            let r1 = if c0 < op { seq![removed_of(insn_range_spec(a_insns@, c0, op as int, a_end))] } else { Seq::empty() };
            let r2 = if np > d0 {
                seq![added_of(insn_range_spec(b_insns@, d0, np as int, b_end), ins_point(a_insns@, op as int, a_end))]
            } else {
                Seq::empty()
            };
            assert(mid =~= before + r1);
            assert(out@ =~= before + r1 + r2);
        }
        o_cur = op + len;
        n_cur = np + len;
        k = k + 1;
    }
    assert(selected@.subrange(0, n as int) =~= selected@);
    let ghost before = out@;
    if n_cur < lb {
        let r = insn_byte_range(b_insns, n_cur, lb, b_end);
        let at = if o_cur < la { a_insns[o_cur].offset as u64 } else { a_end };
        out.push(mk_range_entry(r, true, at));
    }
    let ghost mid = out@;
    if o_cur < la {
        let r = insn_byte_range(a_insns, o_cur, la, a_end);
        out.push(mk_range_entry(r, false, 0));
    }
    proof {
        let t1 = if n_cur < lb {
            seq![added_of(insn_range_spec(b_insns@, n_cur as int, lb as int, b_end), ins_point(a_insns@, o_cur as int, a_end))]
        } else {
            Seq::empty()
        };
        let t2 = if o_cur < la { seq![removed_of(insn_range_spec(a_insns@, o_cur as int, la as int, a_end))] } else { Seq::empty() };
        assert(mid =~= before + t1);
        assert(out@ =~= before + t1 + t2);
    }
    out
}

} // verus!

verus! {

pub open spec fn trim_start_nul(s: Seq<char>) -> Seq<char>
    decreases s.len(),
{
    if s.len() > 0 && s[0] == '\0' { trim_start_nul(s.drop_first()) } else { s }
}

pub open spec fn trim_end_nul(s: Seq<char>) -> Seq<char>
    decreases s.len(),
{
    if s.len() > 0 && s.last() == '\0' { trim_end_nul(s.drop_last()) } else { s }
}

pub open spec fn lower_char(c: char) -> char {
    if 'A' <= c <= 'Z' { ((c as u8) + 32) as char } else { c }
}

/// A section name as matched across files: NUL padding trimmed, ASCII lower-cased.
pub open spec fn norm_name_spec(s: Seq<char>) -> Seq<char> {
    trim_end_nul(trim_start_nul(s)).map_values(|c: char| lower_char(c))
}

/// String order on names (code point by code point).
pub open spec fn name_lt(a: Seq<char>, b: Seq<char>) -> bool
    decreases a.len(),
{
    if a.len() == 0 {
        b.len() > 0
    } else if b.len() == 0 {
        false
    } else if (a[0] as u32) != (b[0] as u32) {
        (a[0] as u32) < (b[0] as u32)
    } else {
        name_lt(a.drop_first(), b.drop_first())
    }
}

fn norm_name(s: &String) -> (v: Vec<char>)
    ensures
        v@ == norm_name_spec(s@),
{
    let st = s.as_str();
    let n = st.unicode_len();
    let mut lo: usize = 0;
    assert(s@.subrange(0, n as int) =~= s@);
    while lo < n && st.get_char(lo) == '\0'
        invariant
            n == s@.len(),
            st@ == s@,
            lo <= n,
            trim_start_nul(s@) == trim_start_nul(s@.subrange(lo as int, n as int)),
        decreases n - lo,
    {
        proof {
            let t = s@.subrange(lo as int, n as int);
            assert(t.drop_first() =~= s@.subrange(lo + 1, n as int));
        }
        lo = lo + 1;
    }
    let ghost ts = s@.subrange(lo as int, n as int);
    assert(trim_start_nul(ts) == ts);
    let mut hi: usize = n;
    while hi > lo && st.get_char(hi - 1) == '\0'
        invariant
            n == s@.len(),
            st@ == s@,
            lo <= hi <= n,
            trim_end_nul(ts) == trim_end_nul(s@.subrange(lo as int, hi as int)),
        decreases hi,
    {
        proof {
            let t = s@.subrange(lo as int, hi as int);
            assert(t.drop_last() =~= s@.subrange(lo as int, hi - 1));
        }
        hi = hi - 1;
    }
    let ghost core = s@.subrange(lo as int, hi as int);
    assert(trim_end_nul(core) == core);
    let mut v: Vec<char> = Vec::new();
    let mut i: usize = lo;
    while i < hi
        invariant
            n == s@.len(),
            st@ == s@,
            lo <= i <= hi <= n,
            core == s@.subrange(lo as int, hi as int),
            v@ == core.subrange(0, i - lo).map_values(|c: char| lower_char(c)),
        decreases hi - i,
    {
        let c = st.get_char(i);
        let lc = if 'A' <= c && c <= 'Z' { ((c as u8) + 32) as char } else { c };
        v.push(lc);
        proof {
            assert(v@ =~= core.subrange(0, i + 1 - lo).map_values(|c: char| lower_char(c)));
        }
        i = i + 1;
    }
    assert(core.subrange(0, hi - lo) =~= core);
    v
}

fn name_less(a: &Vec<char>, b: &Vec<char>) -> (r: bool)
    ensures
        r == name_lt(a@, b@),
{
    let mut i: usize = 0;
    assert(a@.subrange(0, a@.len() as int) =~= a@);
    assert(b@.subrange(0, b@.len() as int) =~= b@);
    while i < a.len() && i < b.len()
        invariant
            i <= a@.len(),
            i <= b@.len(),
            name_lt(a@, b@) == name_lt(a@.subrange(i as int, a@.len() as int), b@.subrange(i as int, b@.len() as int)),
        decreases a.len() - i,
    {
        if (a[i] as u32) != (b[i] as u32) {
            return (a[i] as u32) < (b[i] as u32);
        }
        proof {
            let x = a@.subrange(i as int, a@.len() as int);
            let y = b@.subrange(i as int, b@.len() as int);
            assert(x.drop_first() =~= a@.subrange(i + 1, a@.len() as int));
            assert(y.drop_first() =~= b@.subrange(i + 1, b@.len() as int));
        }
        i = i + 1;
    }
    i < b.len()
}

fn name_eq(a: &Vec<char>, b: &Vec<char>) -> (r: bool)
    ensures
        r == (a@ == b@),
{
    if a.len() != b.len() {
        return false;
    }
    let mut i: usize = 0;
    while i < a.len()
        invariant
            a@.len() == b@.len(),
            i <= a@.len(),
            forall|k: int| 0 <= k < i ==> a@[k] == b@[k],
        decreases a.len() - i,
    {
        if a[i] != b[i] {
            return false;
        }
        i = i + 1;
    }
    assert(a@ =~= b@);
    true
}

/// `(x, y)` ordered by name, then by file offset.
pub open spec fn seg_key_lt(x: (Seq<char>, u64), y: (Seq<char>, u64)) -> bool {
    name_lt(x.0, y.0) || (x.0 == y.0 && x.1 < y.1)
}

/// Executable, non-empty segments among `segs[0..n]`: normalized name and index.
pub open spec fn exec_filter(segs: Seq<crate::file_loader::Segment>, n: int) -> Seq<(Seq<char>, usize)>
    decreases n,
{
    if n <= 0 {
        Seq::empty()
    } else {
        let rest = exec_filter(segs, n - 1);
        let s = segs[n - 1];
        if s.is_executable && s.size > 0 { rest.push((norm_name_spec(s.name@), (n - 1) as usize)) } else { rest }
    }
}

pub open spec fn key_of(segs: Seq<crate::file_loader::Segment>, e: (Seq<char>, usize)) -> (Seq<char>, u64) {
    (e.0, segs[e.1 as int].file_offset)
}

proof fn lemma_name_lt_trans(a: Seq<char>, b: Seq<char>, c: Seq<char>)
    requires
        name_lt(a, b),
        name_lt(b, c),
    ensures
        name_lt(a, c),
    decreases a.len(),
{
    if a.len() > 0 && b.len() > 0 && c.len() > 0 && (a[0] as u32) == (b[0] as u32) && (b[0] as u32) == (c[0] as u32) {
        lemma_name_lt_trans(a.drop_first(), b.drop_first(), c.drop_first());
    }
}

proof fn lemma_name_lt_asym(a: Seq<char>, b: Seq<char>)
    ensures
        !(name_lt(a, b) && name_lt(b, a)),
        !name_lt(a, a),
    decreases a.len(),
{
    if a.len() > 0 && b.len() > 0 {
        lemma_name_lt_asym(a.drop_first(), b.drop_first());
    }
    if a.len() > 0 {
        lemma_name_lt_asym(a.drop_first(), a.drop_first());
    }
}

proof fn lemma_key_order(x: (Seq<char>, u64), y: (Seq<char>, u64), z: (Seq<char>, u64))
    ensures
        seg_key_lt(x, y) && seg_key_lt(y, z) ==> seg_key_lt(x, z),
        !(seg_key_lt(x, y) && seg_key_lt(y, x)),
        !seg_key_lt(x, x),
{
    lemma_name_lt_asym(x.0, y.0);
    lemma_name_lt_asym(x.0, x.0);
    if name_lt(x.0, y.0) && name_lt(y.0, z.0) {
        lemma_name_lt_trans(x.0, y.0, z.0);
    }
}

/// `vv` is ordered by key, equal keys by index.
pub open spec fn segs_sorted(segs: Seq<crate::file_loader::Segment>, vv: Seq<(Seq<char>, usize)>) -> bool {
    forall|a: int, b: int| 0 <= a < b < vv.len() ==> !seg_key_lt(key_of(segs, #[trigger] vv[b]), key_of(segs, #[trigger] vv[a]))
        && (key_of(segs, vv[b]) == key_of(segs, vv[a]) ==> vv[a].1 < vv[b].1)
}

pub open spec fn names_view(v: Seq<(Vec<char>, usize)>) -> Seq<(Seq<char>, usize)> {
    v.map_values(|e: (Vec<char>, usize)| (e.0@, e.1))
}

/// The executable, non-empty segments with their normalized names, ordered by name, then
/// file offset, equal keys in section-table order.
pub fn exec_segments(segs: &[crate::file_loader::Segment]) -> (v: Vec<(Vec<char>, usize)>)
    ensures
        names_view(v@).to_multiset() == exec_filter(segs@, segs@.len() as int).to_multiset(),
        names_view(v@).len() == exec_filter(segs@, segs@.len() as int).len(),
        segs_sorted(segs@, names_view(v@)),
{
    let mut v: Vec<(Vec<char>, usize)> = Vec::new();
    let n = segs.len();
    let mut i: usize = 0;
    assert(names_view(v@) =~= exec_filter(segs@, 0));
    while i < n
        invariant
            n == segs@.len(),
            i <= n,
            names_view(v@).to_multiset() == exec_filter(segs@, i as int).to_multiset(),
            names_view(v@).len() == exec_filter(segs@, i as int).len(),
            forall|k: int| 0 <= k < v@.len() ==> (#[trigger] v@[k]).1 < i,
            segs_sorted(segs@, names_view(v@)),
        decreases n - i,
    {
        let s = &segs[i];
        if s.is_executable && s.size > 0 {
            let name = norm_name(&s.name);
            let off = s.file_offset;
            let ghost vv = names_view(v@);
            let mut p: usize = 0;
            while p < v.len() && !(name_less(&name, &v[p].0) || (name_eq(&name, &v[p].0) && off < segs[v[p].1].file_offset))
                invariant
                    n == segs@.len(),
                    i < n,
                    p <= v@.len(),
                    vv == names_view(v@),
                    forall|k: int| 0 <= k < v@.len() ==> (#[trigger] v@[k]).1 < i,
                    forall|k: int| 0 <= k < p ==> !seg_key_lt((name@, off), key_of(segs@, #[trigger] vv[k])),
                decreases v.len() - p,
            {
                proof {
                    assert(vv[p as int] == (v@[p as int].0@, v@[p as int].1));
                }
                p = p + 1;
            }
            proof {
                if p < v@.len() {
                    assert(vv[p as int] == (v@[p as int].0@, v@[p as int].1));
                    assert(seg_key_lt((name@, off), key_of(segs@, vv[p as int])));
                }
            }
            let ghost vb = v@;
            let item = (name, i);
            v.insert(p, item);
            proof {
                assert(v@ == vb.insert(p as int, item));
                let nv = names_view(v@);
                let ne = (name@, i);
                assert(nv =~= vv.insert(p as int, ne));
                vstd::seq_lib::to_multiset_insert(vv, p as int, ne);
                let f = exec_filter(segs@, i as int);
                assert(exec_filter(segs@, i + 1) == f.push(ne));
                assert(f.push(ne) =~= f.insert(f.len() as int, ne));
                vstd::seq_lib::to_multiset_insert(f, f.len() as int, ne);
                let nk = (name@, off);
                assert(key_of(segs@, ne) == nk);
                assert forall|a: int, b: int| 0 <= a < b < nv.len() implies !seg_key_lt(key_of(segs@, #[trigger] nv[b]), key_of(segs@, #[trigger] nv[a]))
                    && (key_of(segs@, nv[b]) == key_of(segs@, nv[a]) ==> nv[a].1 < nv[b].1) by {
                    let ka = key_of(segs@, nv[a]);
                    let kb = key_of(segs@, nv[b]);
                    if b < p {
                        assert(nv[a] == vv[a] && nv[b] == vv[b]);
                    } else if b == p {
                        assert(nv[a] == vv[a] && nv[b] == ne);
                        assert(vv[a] == (vb[a].0@, vb[a].1));
                        assert(vb[a].1 < i);
                    } else if a < p {
                        assert(nv[a] == vv[a] && nv[b] == vv[b - 1]);
                    } else if a == p {
                        assert(nv[a] == ne && nv[b] == vv[b - 1]);
                        let kp = key_of(segs@, vv[p as int]);
                        lemma_key_order(kb, nk, kp);
                        lemma_key_order(nk, kp, kb);
                        lemma_key_order(kb, kb, kb);
                    } else {
                        assert(nv[a] == vv[a - 1] && nv[b] == vv[b - 1]);
                    }
                }
                assert forall|k: int| 0 <= k < v@.len() implies (#[trigger] v@[k]).1 < i + 1 by {
                    if k < p {
                        assert(v@[k] == vb[k]);
                    } else if k > p {
                        assert(v@[k] == vb[k - 1]);
                    }
                }
            }
        } else {
            proof {
                assert(exec_filter(segs@, i + 1) == exec_filter(segs@, i as int));
            }
        }
        i = i + 1;
    }
    v
}

} // verus!

verus! {

pub open spec fn offsets_of(v: Seq<DiffEntry>) -> Seq<u64> {
    v.map_values(|e: DiffEntry| e.offset)
}

/// The entries in stable order of their offset.
pub fn sort_by_offset(v: &Vec<DiffEntry>) -> (r: Vec<DiffEntry>)
    ensures
        exists|order: Seq<usize>| crate::util::is_stable_order(offsets_of(v@), order)
            && r@ == order.map_values(|k: usize| v@[k as int]),
        forall|i: int, j: int| 0 <= i <= j < r@.len() ==> (#[trigger] r@[i]).offset <= (#[trigger] r@[j]).offset,
{
    let n = v.len();
    let mut keys: Vec<u64> = Vec::new();
    let mut i: usize = 0;
    while i < n
        invariant
            n == v@.len(),
            i <= n,
            keys@ == offsets_of(v@).subrange(0, i as int),
        decreases n - i,
    {
        keys.push(v[i].offset);
        i = i + 1;
    }
    assert(keys@ =~= offsets_of(v@));
    let order = crate::util::stable_order(&keys);
    let mut r: Vec<DiffEntry> = Vec::new();
    let mut j: usize = 0;
    while j < n
        invariant
            n == v@.len(),
            crate::util::is_stable_order(offsets_of(v@), order@),
            j <= n,
            r@ == order@.subrange(0, j as int).map_values(|k: usize| v@[k as int]),
        decreases n - j,
    {
        proof {
            assert(order@[j as int] < offsets_of(v@).len());
        }
        let e = crate::aligner::dup_entry(&v[order[j]]);
        r.push(e);
        proof {
            assert(r@ =~= order@.subrange(0, j + 1).map_values(|k: usize| v@[k as int]));
        }
        j = j + 1;
    }
    assert(order@.subrange(0, n as int) =~= order@);
    proof {
        assert forall|i: int, j: int| 0 <= i <= j < r@.len() implies (#[trigger] r@[i]).offset <= (#[trigger] r@[j]).offset by {
            if i < j {
                assert(offsets_of(v@)[order@[i] as int] == v@[order@[i] as int].offset);
                assert(offsets_of(v@)[order@[j] as int] == v@[order@[j] as int].offset);
            }
        }
    }
    r
}

/// Segment end: `file_offset + size`.
pub open spec fn seg_end(s: crate::file_loader::Segment) -> int {
    s.file_offset + s.size
}

/// The instructions of the part of `seg` that lies inside the file bytes `data`:
/// `data[file_offset .. min(file_offset + size, len)]` disassembled at the segment's virtual
/// address, or none when that part is empty.
pub open spec fn seg_insns(data: Seq<u8>, seg: crate::file_loader::Segment, bitness: u32) -> Seq<Insn> {
    let e = min_int(seg_end(seg), data.len() as int);
    if seg.file_offset >= e {
        Seq::empty()
    } else {
        crate::disasm::disasm_from(data.subrange(seg.file_offset as int, e), 0, seg.vaddr, seg.file_offset as usize, bitness)
    }
}

/// Disassembles the part of a segment that lies inside the file.
fn disassemble_seg(f: &crate::file_loader::LoadedFile, seg: &crate::file_loader::Segment, bitness: u32) -> (insns: Vec<Insn>)
    requires
        bitness == 32 || bitness == 64,
        seg_end(*seg) <= u64::MAX,
        f.data@.len() <= u32::MAX,
    ensures
        insns@ == seg_insns(f.data@, *seg, bitness),
        insns_ok(insns@, seg_end(*seg)),
        insns@.len() <= u32::MAX,
{
    let len = f.data.len();
    let fo = seg.file_offset;
    let end = fo + seg.size;
    let e64 = if end < len as u64 { end } else { len as u64 };
    if fo >= e64 {
        return Vec::new();
    }
    let s = fo as usize;
    let e = e64 as usize;
    let insns = crate::disasm::disassemble(&f.data.as_slice()[s..e], seg.vaddr, s, bitness);
    proof {
        let data = f.data@.subrange(s as int, e as int);
        crate::disasm::lemma_disasm_shape(data, 0, seg.vaddr, s, bitness);
    }
    insns
}

/// The position in `v` of the first entry named `name`, from `j` on.
pub open spec fn first_named(v: Seq<(Seq<char>, usize)>, name: Seq<char>, j: int) -> Option<int>
    decreases v.len() - j,
{
    if j < 0 || j >= v.len() {
        None
    } else if v[j].0 == name {
        Some(j)
    } else {
        first_named(v, name, j + 1)
    }
}

proof fn lemma_first_named(v: Seq<(Seq<char>, usize)>, name: Seq<char>, j0: int, j: int)
    requires
        0 <= j0 <= j <= v.len(),
        forall|t: int| j0 <= t < j ==> (#[trigger] v[t]).0 != name,
        j < v.len() ==> v[j].0 == name,
    ensures
        first_named(v, name, j0) == (if j < v.len() { Some(j) } else { None::<int> }),
    decreases j - j0,
{
    if j0 < j {
        lemma_first_named(v, name, j0 + 1, j);
    }
}

/// A whole segment reported as Removed.
pub open spec fn seg_removed(s: crate::file_loader::Segment) -> DiffEntry {
    DiffEntry { offset: s.file_offset, length: s.size, change: ChangeType::Removed,
        old: Some(Range { start: s.file_offset, end: seg_end(s) as u64 }), new: None }
}

/// A whole segment reported as Added.
pub open spec fn seg_added(s: crate::file_loader::Segment) -> DiffEntry {
    DiffEntry { offset: s.file_offset, length: s.size, change: ChangeType::Added,
        old: Some(Range { start: s.file_offset, end: s.file_offset }), new: Some(Range { start: s.file_offset, end: seg_end(s) as u64 }) }
}

/// The bitness of the structural diff of `a` and `b`: 64 for two x64 files, else 32.
pub open spec fn struct_bitness(a: crate::file_loader::LoadedFile, b: crate::file_loader::LoadedFile) -> u32 {
    if a.meta.arch == crate::file_loader::Arch::X86_64 && b.meta.arch == crate::file_loader::Arch::X86_64 { 64 } else { 32 }
}

/// The entries of the first `i` executable segments `av` of A (name, index): one paired by
/// name with a segment `bv[j]` of B is diffed at instruction level along the runs `sels[i]`;
/// one without a partner is Removed whole.
pub open spec fn struct_pairs(a: crate::file_loader::LoadedFile, b: crate::file_loader::LoadedFile, av: Seq<(Seq<char>, usize)>,
    bv: Seq<(Seq<char>, usize)>, sels: Seq<Seq<(usize, usize, usize)>>, bitness: u32, i: int) -> Seq<DiffEntry>
    decreases i,
{
    if i <= 0 {
        Seq::empty()
    } else {
        let prev = struct_pairs(a, b, av, bv, sels, bitness, i - 1);
        let sa = a.meta.segments@[av[i - 1].1 as int];
        match first_named(bv, av[i - 1].0, 0) {
            Some(j) => {
                let sb = b.meta.segments@[bv[j].1 as int];
                prev + entries_spec(seg_insns(a.data@, sa, bitness), seg_insns(b.data@, sb, bitness), sels[i - 1],
                    seg_end(sa) as u64, seg_end(sb) as u64)
            },
            None => prev.push(seg_removed(sa)),
        }
    }
}

/// Added entries for the first `j` executable segments `bv` of B that no segment of A shares
/// a name with.
pub open spec fn struct_added(b: crate::file_loader::LoadedFile, av: Seq<(Seq<char>, usize)>, bv: Seq<(Seq<char>, usize)>, j: int) -> Seq<DiffEntry>
    decreases j,
{
    if j <= 0 {
        Seq::empty()
    } else {
        let prev = struct_added(b, av, bv, j - 1);
        if first_named(av, bv[j - 1].0, 0) is None {
            prev.push(seg_added(b.meta.segments@[bv[j - 1].1 as int]))
        } else {
            prev
        }
    }
}

/// The runs `sel` are what instruction matching (runs of at least `k`) selects for the two
/// paired segments.
pub open spec fn runs_matched(sa: Seq<Insn>, sb: Seq<Insn>, k: int, sel: Seq<(usize, usize, usize)>) -> bool {
    exists|index: Seq<(u64, u64)>, order: Seq<usize>| #[trigger] insn_report(sigs_of(sa), sigs_of(sb), k, index, order, sel)
}

/// The entries of the structural diff before they are ordered by offset.
pub open spec fn struct_pre(a: crate::file_loader::LoadedFile, b: crate::file_loader::LoadedFile, av: Seq<(Seq<char>, usize)>,
    bv: Seq<(Seq<char>, usize)>, sels: Seq<Seq<(usize, usize, usize)>>, bitness: u32) -> Seq<DiffEntry> {
    struct_pairs(a, b, av, bv, sels, bitness, av.len() as int) + struct_added(b, av, bv, bv.len() as int)
}

/// `v` is the structural report of `a` and `b` with runs of at least `min_run` (at least 1):
/// the executable segments of each file listed by name (as `exec_segments` orders them),
/// the paired ones diffed along their matched runs, the unpaired ones Removed / Added, all
/// of it in stable offset order.
pub open spec fn structural_report(a: crate::file_loader::LoadedFile, b: crate::file_loader::LoadedFile, min_run: usize, v: Seq<DiffEntry>) -> bool {
    let bitness = struct_bitness(a, b);
    let k: int = if min_run > 1 { min_run as int } else { 1 };
    exists|av: Seq<(Seq<char>, usize)>, bv: Seq<(Seq<char>, usize)>, sels: Seq<Seq<(usize, usize, usize)>>, order: Seq<usize>|
        #[trigger] crate::util::is_stable_order(offsets_of(struct_pre(a, b, av, bv, sels, bitness)), order)
        && av.to_multiset() == exec_filter(a.meta.segments@, a.meta.segments@.len() as int).to_multiset()
        && segs_sorted(a.meta.segments@, av)
        && bv.to_multiset() == exec_filter(b.meta.segments@, b.meta.segments@.len() as int).to_multiset()
        && segs_sorted(b.meta.segments@, bv)
        && sels.len() == av.len()
        && (forall|t: int| 0 <= t < av.len() && first_named(bv, av[t].0, 0) is Some ==> runs_matched(
                seg_insns(a.data@, a.meta.segments@[av[t].1 as int], bitness),
                seg_insns(b.data@, b.meta.segments@[bv[first_named(bv, av[t].0, 0)->0].1 as int], bitness), k, #[trigger] sels[t]))
        && v == order.map_values(|x: usize| struct_pre(a, b, av, bv, sels, bitness)[x as int])
}

/// Structure matching: only for two x86 or two x64 files. Executable segments are paired
/// by normalized name; a paired segment is disassembled on both sides and diffed at
/// instruction level (runs of at least `min_run` instructions, at least 1); a segment on
/// one side only is Removed / Added as a whole. The entries come out in stable offset order.
pub fn structural_diff(a: &crate::file_loader::LoadedFile, b: &crate::file_loader::LoadedFile, min_run: usize) -> (r: Result<Vec<DiffEntry>, crate::RvaError>)
    requires
        a.data@.len() <= u32::MAX,
        b.data@.len() <= u32::MAX,
        forall|i: int| 0 <= i < a.meta.segments@.len() ==> seg_end(#[trigger] a.meta.segments@[i]) <= u64::MAX,
        forall|i: int| 0 <= i < b.meta.segments@.len() ==> seg_end(#[trigger] b.meta.segments@[i]) <= u64::MAX,
    ensures
        !((a.meta.arch == crate::file_loader::Arch::X86_64 && b.meta.arch == crate::file_loader::Arch::X86_64)
            || (a.meta.arch == crate::file_loader::Arch::X86 && b.meta.arch == crate::file_loader::Arch::X86))
            <==> r matches Err(crate::RvaError::Other(_)),
        r is Err ==> r matches Err(crate::RvaError::Other(_)),
        r matches Ok(v) ==> forall|i: int, j: int| 0 <= i <= j < v@.len() ==> (#[trigger] v@[i]).offset <= (#[trigger] v@[j]).offset,
        r matches Ok(v) ==> structural_report(*a, *b, min_run, v@),
{
    let bitness: u32 = if a.meta.arch == crate::file_loader::Arch::X86_64 && b.meta.arch == crate::file_loader::Arch::X86_64 {
        64
    } else if a.meta.arch == crate::file_loader::Arch::X86 && b.meta.arch == crate::file_loader::Arch::X86 {
        32
    } else {
        return Err(crate::err(String::from_str("structural diff only supports two x86 or two x64 files")));
    };
    let k = if min_run > 1 { min_run } else { 1 };
    let a_exec = exec_segments(a.meta.segments.as_slice());
    let b_exec = exec_segments(b.meta.segments.as_slice());
    let mut out: Vec<DiffEntry> = Vec::new();
    let na = a_exec.len();
    let nb = b_exec.len();
    let ghost av = names_view(a_exec@);
    let ghost bv = names_view(b_exec@);
    let ghost kk: int = if min_run > 1 { min_run as int } else { 1 };
    let ghost mut sels: Seq<Seq<(usize, usize, usize)>> = Seq::empty();
    let mut i: usize = 0;
    while i < na
        invariant
            av == names_view(a_exec@),
            bv == names_view(b_exec@),
            bitness == struct_bitness(*a, *b),
            k == kk,
            i <= na,
            sels.len() == i,
            out@ == struct_pairs(*a, *b, av, bv, sels, bitness, i as int),
            forall|t: int| 0 <= t < i && first_named(bv, av[t].0, 0) is Some ==> runs_matched(
                seg_insns(a.data@, a.meta.segments@[av[t].1 as int], bitness),
                seg_insns(b.data@, b.meta.segments@[bv[first_named(bv, av[t].0, 0)->0].1 as int], bitness), kk, #[trigger] sels[t]),
            na == a_exec@.len(),
            nb == b_exec@.len(),
            bitness == 32 || bitness == 64,
            k >= 1,
            a.data@.len() <= u32::MAX,
            b.data@.len() <= u32::MAX,
            forall|t: int| 0 <= t < a.meta.segments@.len() ==> seg_end(#[trigger] a.meta.segments@[t]) <= u64::MAX,
            forall|t: int| 0 <= t < b.meta.segments@.len() ==> seg_end(#[trigger] b.meta.segments@[t]) <= u64::MAX,
            names_view(a_exec@).to_multiset() == exec_filter(a.meta.segments@, a.meta.segments@.len() as int).to_multiset(),
            names_view(b_exec@).to_multiset() == exec_filter(b.meta.segments@, b.meta.segments@.len() as int).to_multiset(),
        decreases na - i,
    {
        let ai = a_exec[i].1;
        proof {
            lemma_filter_index(a.meta.segments@, names_view(a_exec@), i as int);
        }
        let a_seg = &a.meta.segments[ai];
        let mut j: usize = 0;
        let mut found = false;
        while j < nb && !found
            invariant
                nb == b_exec@.len(),
                na == a_exec@.len(),
                i < na,
                j <= nb,
                found ==> j < nb && b_exec@[j as int].0@ == a_exec@[i as int].0@,
                forall|t: int| 0 <= t < j ==> (#[trigger] b_exec@[t]).0@ != a_exec@[i as int].0@,
            decreases nb - j + (if found { 0int } else { 1int }),
        {
            if name_eq(&b_exec[j].0, &a_exec[i].0) {
                found = true;
            } else {
                j = j + 1;
            }
        }
        proof {
            assert forall|t: int| 0 <= t < j implies (#[trigger] bv[t]).0 != av[i as int].0 by {
                assert(bv[t].0 == b_exec@[t].0@);
            }
            if found {
                assert(bv[j as int].0 == av[i as int].0);
            }
            lemma_first_named(bv, av[i as int].0, 0, if found { j as int } else { nb as int });
            assert(struct_pairs(*a, *b, av, bv, sels, bitness, i as int) == out@);
        }
        let ghost out0 = out@;
        if found && j < nb {
            let bi = b_exec[j].1;
            proof {
                lemma_filter_index(b.meta.segments@, names_view(b_exec@), j as int);
            }
            let b_seg = &b.meta.segments[bi];
            let a_insns = disassemble_seg(a, a_seg, bitness);
            let b_insns = disassemble_seg(b, b_seg, bitness);
            let matches = match_insns(a_insns.as_slice(), b_insns.as_slice(), k);
            let mut es = build_entries(a_insns.as_slice(), b_insns.as_slice(), matches.as_slice(), a_seg.file_offset + a_seg.size, b_seg.file_offset + b_seg.size);
            out.append(&mut es);
            proof {
                let sels0 = sels;
                sels = sels.push(matches@);
                assert(runs_matched(a_insns@, b_insns@, kk, matches@));
                assert forall|t: int| 0 <= t < i && first_named(bv, av[t].0, 0) is Some implies runs_matched(
                    seg_insns(a.data@, a.meta.segments@[av[t].1 as int], bitness),
                    seg_insns(b.data@, b.meta.segments@[bv[first_named(bv, av[t].0, 0)->0].1 as int], bitness), kk, #[trigger] sels[t]) by {
                    assert(sels[t] == sels0[t]);
                }
                lemma_struct_pairs_prefix(*a, *b, av, bv, sels0, sels, bitness, i as int);
                assert(out@ =~= struct_pairs(*a, *b, av, bv, sels, bitness, i + 1));
            }
        } else {
            let fo = a_seg.file_offset;
            out.push(DiffEntry { offset: fo, length: a_seg.size, change: ChangeType::Removed,
                old: Some(Range { start: fo, end: fo + a_seg.size }), new: None });
            proof {
                let sels0 = sels;
                sels = sels.push(Seq::empty());
                assert forall|t: int| 0 <= t < i && first_named(bv, av[t].0, 0) is Some implies runs_matched(
                    seg_insns(a.data@, a.meta.segments@[av[t].1 as int], bitness),
                    seg_insns(b.data@, b.meta.segments@[bv[first_named(bv, av[t].0, 0)->0].1 as int], bitness), kk, #[trigger] sels[t]) by {
                    assert(sels[t] == sels0[t]);
                }
                lemma_struct_pairs_prefix(*a, *b, av, bv, sels0, sels, bitness, i as int);
                assert(out@ =~= struct_pairs(*a, *b, av, bv, sels, bitness, i + 1));
            }
        }
        i = i + 1;
    }
    let ghost paired = out@;
    let mut j: usize = 0;
    assert(out@ =~= paired + struct_added(*b, av, bv, 0));
    while j < nb
        invariant
            av == names_view(a_exec@),
            bv == names_view(b_exec@),
            out@ == paired + struct_added(*b, av, bv, j as int),
            na == a_exec@.len(),
            nb == b_exec@.len(),
            j <= nb,
            forall|t: int| 0 <= t < b.meta.segments@.len() ==> seg_end(#[trigger] b.meta.segments@[t]) <= u64::MAX,
            names_view(b_exec@).to_multiset() == exec_filter(b.meta.segments@, b.meta.segments@.len() as int).to_multiset(),
        decreases nb - j,
    {
        let mut any = false;
        let mut t: usize = 0;
        while t < na && !any
            invariant
                na == a_exec@.len(),
                nb == b_exec@.len(),
                j < nb,
                t <= na,
                any ==> t < na && a_exec@[t as int].0@ == b_exec@[j as int].0@,
                forall|u: int| 0 <= u < t ==> (#[trigger] a_exec@[u]).0@ != b_exec@[j as int].0@,
            decreases na - t + (if any { 0int } else { 1int }),
        {
            if name_eq(&a_exec[t].0, &b_exec[j].0) {
                any = true;
            } else {
                t = t + 1;
            }
        }
        proof {
            assert forall|u: int| 0 <= u < t implies (#[trigger] av[u]).0 != bv[j as int].0 by {
                assert(av[u].0 == a_exec@[u].0@);
            }
            if any {
                assert(av[t as int].0 == bv[j as int].0);
            }
            lemma_first_named(av, bv[j as int].0, 0, if any { t as int } else { na as int });
        }
        let ghost out1 = out@;
        if !any {
            let bi = b_exec[j].1;
            proof {
                lemma_filter_index(b.meta.segments@, names_view(b_exec@), j as int);
            }
            let b_seg = &b.meta.segments[bi];
            let fo = b_seg.file_offset;
            out.push(DiffEntry { offset: fo, length: b_seg.size, change: ChangeType::Added,
                old: Some(Range { start: fo, end: fo }), new: Some(Range { start: fo, end: fo + b_seg.size }) });
        }
        proof {
            assert(out@ =~= paired + struct_added(*b, av, bv, j + 1));
        }
        j = j + 1;
    }
    let sorted = sort_by_offset(&out);
    proof {
        let pre = struct_pre(*a, *b, av, bv, sels, bitness);
        assert(out@ == pre);
        let order = choose|order: Seq<usize>| crate::util::is_stable_order(offsets_of(out@), order)
            && sorted@ == order.map_values(|x: usize| out@[x as int]);
        assert(sorted@ == order.map_values(|x: usize| struct_pre(*a, *b, av, bv, sels, bitness)[x as int]));
        assert(crate::util::is_stable_order(offsets_of(struct_pre(*a, *b, av, bv, sels, bitness)), order));
    }
    Ok(sorted)
}

proof fn lemma_struct_pairs_prefix(a: crate::file_loader::LoadedFile, b: crate::file_loader::LoadedFile, av: Seq<(Seq<char>, usize)>,
    bv: Seq<(Seq<char>, usize)>, s0: Seq<Seq<(usize, usize, usize)>>, s1: Seq<Seq<(usize, usize, usize)>>, bitness: u32, i: int)
    requires
        0 <= i <= s0.len(),
        s0.len() <= s1.len(),
        forall|t: int| 0 <= t < s0.len() ==> s1[t] == s0[t],
    ensures
        struct_pairs(a, b, av, bv, s1, bitness, i) == struct_pairs(a, b, av, bv, s0, bitness, i),
    decreases i,
{
    if i > 0 {
        lemma_struct_pairs_prefix(a, b, av, bv, s0, s1, bitness, i - 1);
    }
}

proof fn lemma_filter_idx_bound(segs: Seq<crate::file_loader::Segment>, n: int, k: int)
    requires
        0 <= n <= segs.len(),
        0 <= k < exec_filter(segs, n).len(),
    ensures
        exec_filter(segs, n)[k].1 < n,
    decreases n,
{
    if n > 0 {
        let rest = exec_filter(segs, n - 1);
        if k < rest.len() {
            lemma_filter_idx_bound(segs, n - 1, k);
            let s = segs[n - 1];
            if s.is_executable && s.size > 0 {
                assert(exec_filter(segs, n)[k] == rest[k]);
            }
        }
    }
}

/// Every index listed by `exec_segments` is a valid segment index.
proof fn lemma_filter_index(segs: Seq<crate::file_loader::Segment>, vv: Seq<(Seq<char>, usize)>, i: int)
    requires
        vv.to_multiset() == exec_filter(segs, segs.len() as int).to_multiset(),
        0 <= i < vv.len(),
    ensures
        vv[i].1 < segs.len(),
{
    let f = exec_filter(segs, segs.len() as int);
    let x = vv[i];
    assert(vv.contains(x));
    vstd::seq_lib::to_multiset_contains(vv, x);
    vstd::seq_lib::to_multiset_contains(f, x);
    let k = choose|k: int| 0 <= k < f.len() && f[k] == x;
    lemma_filter_idx_bound(segs, segs.len() as int, k);
}

} // verus!
