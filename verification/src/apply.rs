//! Patch application and rollback: rebuilding the target from the source, rebuilding the
//! source from the target and the rollback snapshot, and choosing where a chain of patches
//! starts.

use vstd::prelude::*;
use crate::RvaError;
use crate::patch_engine::{PatchEngine, Patch, PatchOp, OpView, ops_view, ops_bytes, op_bytes, copies_in};
use crate::patch_pack::{PackedPatch, RevertSegment, SegView, segs_view, revert_spec, revert_fold, revert_step};
use crate::util::{copy_range, dec_string, dec_spec, hex_lower, hex_lower_spec};
use crate::hashing::spec_sha256;
use crate::patch_pack::{sha256_of, content_spec, sigs_view};
use crate::signing::{first_sig, verify_signed};

verus! {

/// Result of an apply or rollback, as reported to the user.
#[derive(Debug, Clone)]
pub struct ApplyResult {
    pub ok: bool,
    pub message: String,
    pub source_sha256: String,
    pub target_sha256: String,
    pub signed_by: Option<String>,
}

/// Rebuilds the target file: Copy passes old bytes through, Insert writes the embedded
/// bytes; a Copy past the old file, or a result whose length differs from `new_size`, is an
/// error.
pub fn rebuild_new(old: &[u8], patch: &Patch) -> (r: Result<Vec<u8>, RvaError>)
    ensures
        (copies_in(old@.len() as int, ops_view(patch.ops@)) && ops_bytes(old@, ops_view(patch.ops@)).len() == patch.new_size)
            ==> (r matches Ok(v) && v@ == ops_bytes(old@, ops_view(patch.ops@))),
        !(copies_in(old@.len() as int, ops_view(patch.ops@)) && ops_bytes(old@, ops_view(patch.ops@)).len() == patch.new_size)
            ==> r matches Err(RvaError::Patch(_)),
{
    match crate::patch_engine::DefaultPatchEngine::apply(old, patch) {
        Err(e) => Err(e),
        Ok(v) => {
            if v.len() as u64 != patch.new_size {
                Err(RvaError::Patch(String::from_str("target rebuild length mismatch")))
            } else {
                Ok(v)
            }
        },
    }
}

/// `buf` with `src` written at `at`.
pub open spec fn write_at(buf: Seq<u8>, at: int, src: Seq<u8>) -> Seq<u8> {
    buf.subrange(0, at) + src + buf.subrange(at + src.len(), buf.len() as int)
}

/// Zero bytes.
pub open spec fn zeros(n: nat) -> Seq<u8> {
    Seq::new(n, |i: int| 0u8)
}

/// First rollback phase: each Copy puts the next `len` bytes of the current file back at
/// `from`; each Insert skips its bytes of the current file. Yields the buffer and the
/// number of current-file bytes consumed, or `None` when a Copy reaches past the current
/// file or outside the source size.
pub open spec fn copy_phase(cur: Seq<u8>, ops: Seq<OpView>, size: nat) -> Option<(Seq<u8>, int)>
    decreases ops.len(),
{
    if ops.len() == 0 {
        Some((zeros(size), 0))
    } else {
        match copy_phase(cur, ops.drop_last(), size) {
            None => None,
            Some((buf, c)) => match ops.last() {
                OpView::Copy { from, len } => if from + len > size || c + len > cur.len() {
                    None
                } else {
                    Some((write_at(buf, from as int, cur.subrange(c, c + len)), c + len))
                },
                OpView::Insert { data } => Some((buf, c + data.len())),
            },
        }
    }
}

/// Second rollback phase: each snapshot segment is written back at its old start; a
/// segment past the buffer, or whose byte count differs from its length, is an error.
pub open spec fn seg_phase(buf: Seq<u8>, segs: Seq<SegView>) -> Option<Seq<u8>>
    decreases segs.len(),
{
    if segs.len() == 0 {
        Some(buf)
    } else {
        match seg_phase(buf, segs.drop_last()) {
            None => None,
            Some(b) => {
                let s = segs.last();
                if s.old_start + s.len > b.len() || s.bytes.len() != s.len {
                    None
                } else {
                    Some(write_at(b, s.old_start as int, s.bytes))
                }
            },
        }
    }
}

/// The source file rebuilt from the current file `cur`, or `None` when rollback fails.
pub open spec fn rebuild_old_spec(cur: Seq<u8>, ops: Seq<OpView>, segs: Seq<SegView>, size: nat) -> Option<Seq<u8>> {
    match copy_phase(cur, ops, size) {
        None => None,
        Some((buf, c)) => if c != cur.len() { None } else { seg_phase(buf, segs) },
    }
}

/// Total byte count of the operations (Copy lengths and Insert data lengths).
pub open spec fn ops_total(ops: Seq<OpView>) -> int
    decreases ops.len(),
{
    if ops.len() == 0 {
        0
    } else {
        ops_total(ops.drop_last()) + match ops.last() {
            OpView::Copy { len, .. } => len as int,
            OpView::Insert { data } => data.len() as int,
        }
    }
}

proof fn lemma_ops_total_mono(ops: Seq<OpView>, i: int)
    requires
        0 <= i <= ops.len(),
    ensures
        0 <= ops_total(ops.subrange(0, i)) <= ops_total(ops),
    decreases ops.len() - i,
{
    if i < ops.len() {
        lemma_ops_total_mono(ops, i + 1);
        assert(ops.subrange(0, i + 1).drop_last() =~= ops.subrange(0, i));
    } else {
        assert(ops.subrange(0, i) =~= ops);
    }
    lemma_ops_total_nonneg(ops.subrange(0, i));
}

proof fn lemma_ops_total_nonneg(ops: Seq<OpView>)
    ensures
        ops_total(ops) >= 0,
    decreases ops.len(),
{
    if ops.len() > 0 {
        lemma_ops_total_nonneg(ops.drop_last());
    }
}

proof fn lemma_copy_phase_none(cur: Seq<u8>, ops: Seq<OpView>, size: nat, k: int)
    requires
        0 <= k <= ops.len(),
        copy_phase(cur, ops.subrange(0, k), size) is None,
    ensures
        copy_phase(cur, ops, size) is None,
    decreases ops.len() - k,
{
    if k < ops.len() {
        assert(ops.subrange(0, k + 1).drop_last() =~= ops.subrange(0, k));
        lemma_copy_phase_none(cur, ops, size, k + 1);
    } else {
        assert(ops.subrange(0, k) =~= ops);
    }
}

proof fn lemma_seg_phase_none(buf: Seq<u8>, segs: Seq<SegView>, k: int)
    requires
        0 <= k <= segs.len(),
        seg_phase(buf, segs.subrange(0, k)) is None,
    ensures
        seg_phase(buf, segs) is None,
    decreases segs.len() - k,
{
    if k < segs.len() {
        assert(segs.subrange(0, k + 1).drop_last() =~= segs.subrange(0, k));
        lemma_seg_phase_none(buf, segs, k + 1);
    } else {
        assert(segs.subrange(0, k) =~= segs);
    }
}

/// Rebuilds the source file from the current (patched) file: the Copy ranges come back
/// from the current file to their old positions, the replaced and removed bytes come from
/// the snapshot segments. A Copy outside the declared source size is an error.
pub fn rebuild_old(cur: &[u8], patch: &Patch, revert: &[RevertSegment]) -> (r: Result<Vec<u8>, RvaError>)
    requires
        patch.old_size <= usize::MAX,
        ops_total(ops_view(patch.ops@)) <= usize::MAX,
        forall|k: int| 0 <= k < revert@.len() ==> (#[trigger] revert@[k]).old_start + revert@[k].len <= usize::MAX,
    ensures
        match rebuild_old_spec(cur@, ops_view(patch.ops@), segs_view(revert@), patch.old_size as nat) {
            Some(v) => r matches Ok(x) && x@ == v,
            None => r matches Err(RvaError::Patch(_)),
        },
{
    let ghost ov = ops_view(patch.ops@);
    let clen = cur.len();
    let size = patch.old_size as usize;
    let mut old: Vec<u8> = Vec::new();
    let mut z: usize = 0;
    while z < size
        invariant
            z <= size,
            old@ == zeros(z as nat),
        decreases size - z,
    {
        old.push(0u8);
        z = z + 1;
        assert(old@ =~= zeros(z as nat));
    }
    let mut consume: usize = 0;
    let n = patch.ops.len();
    let mut i: usize = 0;
    while i < n
        invariant
            n == patch.ops@.len(),
            ov == ops_view(patch.ops@),
            size == patch.old_size,
            ops_total(ov) <= usize::MAX,
            i <= n,
            clen == cur@.len(),
            old@.len() == size,
            consume == ops_total(ov.subrange(0, i as int)),
            copy_phase(cur@, ov.subrange(0, i as int), size as nat) == Some((old@, consume as int)),
        decreases n - i,
    {
        proof {
            assert(ov.subrange(0, i + 1).drop_last() =~= ov.subrange(0, i as int));
            assert(ov.subrange(0, i + 1).last() == ov[i as int]);
            lemma_ops_total_mono(ov, i + 1);
        }
        match &patch.ops[i] {
            PatchOp::Copy { from, len } => {
                if *len > size as u64 || *from > size as u64 - *len {
                    proof {
                        lemma_copy_phase_none(cur@, ov, size as nat, i + 1);
                    }
                    return Err(RvaError::Patch(String::from_str("rollback Copy outside the source size")));
                }
                let f = *from as usize;
                let l = *len as usize;
                if l > cur.len() || consume > cur.len() - l {
                    proof {
                        lemma_copy_phase_none(cur@, ov, size as nat, i + 1);
                    }
                    return Err(RvaError::Patch(String::from_str("rollback Copy out of bounds")));
                }
                let ghost before = old@;
                let mut k: usize = 0;
                while k < l
                    invariant
                        k <= l,
                        f + l <= before.len(),
                        before.len() == size,
                        consume + l <= cur@.len(),
                        clen == cur@.len(),
                        old@.len() == before.len(),
                        forall|q: int| 0 <= q < before.len() ==> old@[q] == if f <= q < f + k { cur@[consume + q - f] } else { before[q] },
                    decreases l - k,
                {
                    old.set(f + k, cur[consume + k]);
                    k = k + 1;
                }
                assert(old@ =~= write_at(before, f as int, cur@.subrange(consume as int, consume + l)));
                consume = consume + l;
            },
            PatchOp::Insert { data } => {
                consume = consume + data.len();
            },
        }
        i = i + 1;
    }
    assert(ov.subrange(0, n as int) =~= ov);
    if consume != cur.len() {
        return Err(RvaError::Patch(String::from_str("rollback consume position mismatch")));
    }
    let ghost buf0 = old@;
    let ghost sv = segs_view(revert@);
    let m = revert.len();
    let mut j: usize = 0;
    while j < m
        invariant
            m == revert@.len(),
            sv == segs_view(revert@),
            j <= m,
            old@.len() == size,
            size == patch.old_size,
            ov == ops_view(patch.ops@),
            copy_phase(cur@, ov, size as nat) == Some((buf0, cur@.len() as int)),
            forall|k: int| 0 <= k < revert@.len() ==> (#[trigger] revert@[k]).old_start + revert@[k].len <= usize::MAX,
            seg_phase(buf0, sv.subrange(0, j as int)) == Some(old@),
        decreases m - j,
    {
        let seg = &revert[j];
        proof {
            assert(sv.subrange(0, j + 1).drop_last() =~= sv.subrange(0, j as int));
            assert(sv.subrange(0, j + 1).last() == seg@);
            assert(revert@[j as int].old_start + revert@[j as int].len <= usize::MAX);
        }
        let s0 = seg.old_start as usize;
        let l = seg.len as usize;
        if s0 + l > size || seg.bytes.len() != l {
            proof {
                let pre = sv.subrange(0, j + 1);
                assert(pre.drop_last() =~= sv.subrange(0, j as int));
                assert(pre.last() == seg@);
                assert(seg_phase(buf0, pre) is None);
                lemma_seg_phase_none(buf0, sv, j + 1);
                assert(rebuild_old_spec(cur@, ov, sv, size as nat) == seg_phase(buf0, sv));
                assert(size as nat == patch.old_size as nat);
            }
            return Err(RvaError::Patch(String::from_str("rollback snapshot segment out of bounds")));
        }
        let ghost before = old@;
        let mut k: usize = 0;
        while k < l
            invariant
                k <= l,
                s0 + l <= before.len(),
                before.len() == size,
                l == seg.bytes@.len(),
                old@.len() == before.len(),
                forall|q: int| 0 <= q < before.len() ==> old@[q] == if s0 <= q < s0 + k { seg.bytes@[q - s0] } else { before[q] },
            decreases l - k,
        {
            old.set(s0 + k, seg.bytes[k]);
            k = k + 1;
        }
        assert(old@ =~= write_at(before, s0 as int, seg.bytes@));
        j = j + 1;
    }
    assert(sv.subrange(0, m as int) =~= sv);
    Ok(old)
}

} // verus!

verus! {

pub open spec fn is_copy(op: OpView) -> bool {
    op is Copy
}

/// Start of the old range of a Copy.
pub open spec fn lo_of(op: OpView) -> int {
    match op {
        OpView::Copy { from, .. } => from as int,
        OpView::Insert { .. } => 0,
    }
}

/// End of the old range of a Copy.
pub open spec fn hi_of(op: OpView) -> int {
    match op {
        OpView::Copy { from, len } => from + len,
        OpView::Insert { .. } => 0,
    }
}

/// The Copy ranges lie inside an old file of `n` bytes and follow each other without
/// overlapping or going back.
pub open spec fn copies_monotone(ops: Seq<OpView>, n: int) -> bool {
    &&& forall|k: int| 0 <= k < ops.len() && #[trigger] is_copy(ops[k]) ==> hi_of(ops[k]) <= n
    &&& forall|i: int, j: int| 0 <= i < j < ops.len() && #[trigger] is_copy(ops[i]) && #[trigger] is_copy(ops[j])
            ==> hi_of(ops[i]) <= lo_of(ops[j])
}

/// The old-file position right after the last Copy of `ops` (0 when there is none): where
/// the next stretch that a rollback snapshot stores begins.
pub open spec fn copy_end(ops: Seq<OpView>) -> int
    decreases ops.len(),
{
    if ops.len() == 0 {
        0
    } else {
        match ops.last() {
            OpView::Copy { from, len } => from + len,
            OpView::Insert { .. } => copy_end(ops.drop_last()),
        }
    }
}

/// Every stretch of an `n`-byte source that the rollback snapshot stores (the gap before each
/// Copy range, and the tail after the last one) is shorter than 2^32 bytes, the most that
/// one snapshot segment can hold.
pub open spec fn gaps_fit(ops: Seq<OpView>, n: int) -> bool {
    &&& forall|k: int| 0 <= k < ops.len() && #[trigger] is_copy(ops[k]) ==> lo_of(ops[k]) - copy_end(ops.subrange(0, k)) <= u32::MAX
    &&& n - copy_end(ops) <= u32::MAX
}

proof fn lemma_fold_pos(old: Seq<u8>, ops: Seq<OpView>)
    requires
        forall|k: int| 0 <= k < ops.len() && #[trigger] is_copy(ops[k]) ==> hi_of(ops[k]) <= u64::MAX,
    ensures
        revert_fold(old, ops).1 == copy_end(ops),
    decreases ops.len(),
{
    if ops.len() > 0 {
        let pre = ops.drop_last();
        assert forall|k: int| 0 <= k < pre.len() && #[trigger] is_copy(pre[k]) implies hi_of(pre[k]) <= u64::MAX by {
            assert(pre[k] == ops[k]);
        }
        lemma_fold_pos(old, pre);
        assert(ops.last() == ops[ops.len() - 1]);
        if ops.last() is Copy {
            assert(is_copy(ops[ops.len() - 1]));
        }
    }
}

pub open spec fn copy_cov(ops: Seq<OpView>, p: int) -> bool {
    exists|k: int| 0 <= k < ops.len() && #[trigger] is_copy(ops[k]) && lo_of(ops[k]) <= p < hi_of(ops[k])
}

pub open spec fn seg_cov(segs: Seq<SegView>, p: int) -> bool {
    exists|k: int| 0 <= k < segs.len() && (#[trigger] segs[k]).old_start <= p < segs[k].old_start + segs[k].len
}

/// `s` holds the old bytes of its own range.
pub open spec fn seg_ok(s: SegView, old: Seq<u8>) -> bool {
    &&& s.old_start + s.len <= old.len()
    &&& s.bytes.len() == s.len
    &&& s.bytes == old.subrange(s.old_start as int, s.old_start + s.len)
}

proof fn lemma_ops_bytes_prefix(old: Seq<u8>, ops: Seq<OpView>, k: int)
    requires
        0 <= k <= ops.len(),
    ensures
        ops_bytes(old, ops.subrange(0, k)).len() <= ops_bytes(old, ops).len(),
        ops_bytes(old, ops).subrange(0, ops_bytes(old, ops.subrange(0, k)).len() as int) == ops_bytes(old, ops.subrange(0, k)),
    decreases ops.len() - k,
{
    if k == ops.len() {
        assert(ops.subrange(0, k) =~= ops);
        assert(ops_bytes(old, ops).subrange(0, ops_bytes(old, ops).len() as int) =~= ops_bytes(old, ops));
    } else {
        lemma_ops_bytes_prefix(old, ops, k + 1);
        let a = ops_bytes(old, ops.subrange(0, k));
        let b = ops_bytes(old, ops.subrange(0, k + 1));
        assert(ops.subrange(0, k + 1).drop_last() =~= ops.subrange(0, k));
        assert(b == a + op_bytes(old, ops[k]));
        let all = ops_bytes(old, ops);
        assert(all.subrange(0, a.len() as int) =~= all.subrange(0, b.len() as int).subrange(0, a.len() as int));
        assert(b.subrange(0, a.len() as int) =~= a);
    }
}

proof fn lemma_copy_phase_agrees(old: Seq<u8>, ops: Seq<OpView>, k: int)
    requires
        0 <= k <= ops.len(),
        copies_monotone(ops, old.len() as int),
    ensures
        match copy_phase(ops_bytes(old, ops), ops.subrange(0, k), old.len()) {
            Some((b, c)) => {
                &&& c == ops_bytes(old, ops.subrange(0, k)).len()
                &&& b.len() == old.len()
                &&& forall|p: int| 0 <= p < old.len() && copy_cov(ops.subrange(0, k), p) ==> b[p] == old[p]
            },
            None => false,
        },
    decreases k,
{
    let cur = ops_bytes(old, ops);
    let pre = ops.subrange(0, k);
    if k == 0 {
        assert(ops_bytes(old, pre) =~= Seq::<u8>::empty());
    } else {
        lemma_copy_phase_agrees(old, ops, k - 1);
        let prev = ops.subrange(0, k - 1);
        assert(pre.drop_last() =~= prev);
        assert(pre.last() == ops[k - 1]);
        let (buf, c) = match copy_phase(cur, prev, old.len()) {
            Some(x) => x,
            None => (Seq::empty(), 0),
        };
        lemma_ops_bytes_prefix(old, ops, k);
        let pb = ops_bytes(old, pre);
        assert(pb == ops_bytes(old, prev) + op_bytes(old, ops[k - 1]));
        match ops[k - 1] {
            OpView::Copy { from, len } => {
                assert(is_copy(ops[k - 1]));
                let piece = old.subrange(from as int, from + len);
                assert(cur.subrange(c, c + len) =~= pb.subrange(c, c + len));
                assert(pb.subrange(c, c + len) =~= piece);
                let nb = write_at(buf, from as int, piece);
                assert forall|p: int| 0 <= p < old.len() && copy_cov(pre, p) implies nb[p] == old[p] by {
                    if from <= p < from + len {
                        assert(nb[p] == piece[p - from]);
                    } else {
                        let j = choose|j: int| 0 <= j < pre.len() && #[trigger] is_copy(pre[j]) && lo_of(pre[j]) <= p < hi_of(pre[j]);
                        assert(j < k - 1);
                        assert(prev[j] == pre[j]);
                        assert(copy_cov(prev, p));
                    }
                }
            },
            OpView::Insert { data } => {
                assert forall|p: int| 0 <= p < old.len() && copy_cov(pre, p) implies buf[p] == old[p] by {
                    let j = choose|j: int| 0 <= j < pre.len() && #[trigger] is_copy(pre[j]) && lo_of(pre[j]) <= p < hi_of(pre[j]);
                    assert(j < k - 1);
                    assert(prev[j] == pre[j]);
                    assert(copy_cov(prev, p));
                }
            },
        }
    }
}

proof fn lemma_revert_cov(old: Seq<u8>, ops: Seq<OpView>, k: int)
    requires
        0 <= k <= ops.len(),
        copies_monotone(ops, old.len() as int),
        gaps_fit(ops, old.len() as int),
        old.len() <= u64::MAX,
    ensures
        ({
            let (segs, pos) = revert_fold(old, ops.subrange(0, k));
            &&& forall|i: int| 0 <= i < segs.len() ==> seg_ok(#[trigger] segs[i], old)
            &&& forall|p: int| 0 <= p < pos ==> copy_cov(ops.subrange(0, k), p) || seg_cov(segs, p)
            &&& pos <= old.len()
            &&& forall|j: int| k <= j < ops.len() && #[trigger] is_copy(ops[j]) ==> pos <= lo_of(ops[j])
        }),
    decreases k,
{
    let pre = ops.subrange(0, k);
    if k > 0 {
        lemma_revert_cov(old, ops, k - 1);
        let prev = ops.subrange(0, k - 1);
        assert(pre.drop_last() =~= prev);
        assert(pre.last() == ops[k - 1]);
        let (segs, pos) = revert_fold(old, prev);
        assert forall|p: int| copy_cov(prev, p) implies copy_cov(pre, p) by {
            let j = choose|j: int| 0 <= j < prev.len() && #[trigger] is_copy(prev[j]) && lo_of(prev[j]) <= p < hi_of(prev[j]);
            assert(pre[j] == prev[j]);
        }
        match ops[k - 1] {
            OpView::Copy { from, len } => {
                assert(is_copy(ops[k - 1]));
                assert(pos <= from);
                assert(from + len <= old.len());
                assert(from - pos <= u32::MAX) by {
                    assert forall|j: int| 0 <= j < prev.len() && #[trigger] is_copy(prev[j]) implies hi_of(prev[j]) <= u64::MAX by {
                        assert(prev[j] == ops[j]);
                    }
                    lemma_fold_pos(old, prev);
                    assert(is_copy(ops[k - 1]));
                    assert(ops.subrange(0, k - 1) == prev);
                }
                let (segs2, pos2) = revert_step(old, (segs, pos), ops[k - 1]);
                assert(pos2 == from + len);
                if from > pos {
                    let sg = SegView { old_start: pos, len: (from - pos) as u32, bytes: old.subrange(pos as int, from as int) };
                    assert(segs2 == segs.push(sg));
                    assert(seg_ok(sg, old));
                    assert forall|i: int| 0 <= i < segs2.len() implies seg_ok(#[trigger] segs2[i], old) by {
                        if i < segs.len() {
                            assert(segs2[i] == segs[i]);
                        }
                    }
                    assert forall|p: int| 0 <= p < pos2 implies copy_cov(pre, p) || seg_cov(segs2, p) by {
                        if p < pos {
                            if seg_cov(segs, p) {
                                let i = choose|i: int| 0 <= i < segs.len() && (#[trigger] segs[i]).old_start <= p < segs[i].old_start + segs[i].len;
                                assert(segs2[i] == segs[i]);
                            }
                        } else if p < from {
                            assert(segs2[segs.len() as int] == sg);
                        } else {
                            assert(pre[k - 1] == ops[k - 1]);
                        }
                    }
                } else {
                    assert(segs2 == segs);
                    assert forall|p: int| 0 <= p < pos2 implies copy_cov(pre, p) || seg_cov(segs2, p) by {
                        if p >= pos {
                            assert(pre[k - 1] == ops[k - 1]);
                        }
                    }
                }
                assert forall|j: int| k <= j < ops.len() && #[trigger] is_copy(ops[j]) implies pos2 <= lo_of(ops[j]) by {
                    assert(is_copy(ops[k - 1]));
                }
            },
            OpView::Insert { .. } => {
                assert(!is_copy(ops[k - 1]));
            },
        }
    }
}

proof fn lemma_seg_phase_agrees(old: Seq<u8>, buf: Seq<u8>, segs: Seq<SegView>)
    requires
        buf.len() == old.len(),
        forall|i: int| 0 <= i < segs.len() ==> seg_ok(#[trigger] segs[i], old),
    ensures
        seg_phase(buf, segs) is Some,
        seg_phase(buf, segs)->0.len() == old.len(),
        forall|p: int| 0 <= p < old.len() && (buf[p] == old[p] || seg_cov(segs, p)) ==> seg_phase(buf, segs)->0[p] == old[p],
    decreases segs.len(),
{
    if segs.len() > 0 {
        let pre = segs.drop_last();
        assert forall|i: int| 0 <= i < pre.len() implies seg_ok(#[trigger] pre[i], old) by {
            assert(pre[i] == segs[i]);
        }
        lemma_seg_phase_agrees(old, buf, pre);
        let b = seg_phase(buf, pre)->0;
        let s = segs.last();
        assert(seg_ok(segs[segs.len() - 1], old));
        let nb = write_at(b, s.old_start as int, s.bytes);
        assert forall|p: int| 0 <= p < old.len() && (buf[p] == old[p] || seg_cov(segs, p)) implies nb[p] == old[p] by {
            if s.old_start <= p < s.old_start + s.len {
                assert(nb[p] == s.bytes[p - s.old_start]);
            } else {
                if seg_cov(segs, p) && buf[p] != old[p] {
                    let i = choose|i: int| 0 <= i < segs.len() && (#[trigger] segs[i]).old_start <= p < segs[i].old_start + segs[i].len;
                    assert(i < segs.len() - 1);
                    assert(pre[i] == segs[i]);
                }
            }
        }
    }
}

/// Rolling back undoes applying: for Copy operations that stay inside the source file and
/// follow each other without overlap, where every stretch the snapshot stores fits one
/// segment (`gaps_fit`), rebuilding the source from the patched bytes and the snapshot that
/// `build_revert_segments` derives gives back the source file.
pub proof fn law_rollback(old: Seq<u8>, ops: Seq<OpView>)
    requires
        copies_monotone(ops, old.len() as int),
        gaps_fit(ops, old.len() as int),
        old.len() <= u64::MAX,
    ensures
        rebuild_old_spec(ops_bytes(old, ops), ops, revert_spec(old, ops), old.len()) == Some(old),
{
    let cur = ops_bytes(old, ops);
    lemma_copy_phase_agrees(old, ops, ops.len() as int);
    assert(ops.subrange(0, ops.len() as int) =~= ops);
    let (buf, c) = match copy_phase(cur, ops, old.len()) {
        Some(x) => x,
        None => (Seq::empty(), 0),
    };
    lemma_revert_cov(old, ops, ops.len() as int);
    let (segs, pos) = revert_fold(old, ops);
    let full = revert_spec(old, ops);
    assert(old.len() - pos <= u32::MAX) by {
        assert forall|j: int| 0 <= j < ops.len() && #[trigger] is_copy(ops[j]) implies hi_of(ops[j]) <= u64::MAX by {}
        lemma_fold_pos(old, ops);
    }
    let tail = SegView { old_start: pos, len: (old.len() - pos) as u32, bytes: old.subrange(pos as int, old.len() as int) };
    assert forall|i: int| 0 <= i < full.len() implies seg_ok(#[trigger] full[i], old) by {
        if i < segs.len() {
            assert(full[i] == segs[i]);
        } else {
            assert(full[i] == tail);
        }
    }
    lemma_seg_phase_agrees(old, buf, full);
    let res = seg_phase(buf, full)->0;
    assert forall|p: int| 0 <= p < old.len() implies res[p] == old[p] by {
        if copy_cov(ops, p) {
        } else if p < pos {
            assert(seg_cov(segs, p));
            let i = choose|i: int| 0 <= i < segs.len() && (#[trigger] segs[i]).old_start <= p < segs[i].old_start + segs[i].len;
            assert(full[i] == segs[i]);
            assert(seg_cov(full, p));
        } else {
            assert(full[segs.len() as int] == tail);
            assert(seg_cov(full, p));
        }
    }
    assert(res =~= old);
}

} // verus!

verus! {

/// Whether two digests are equal.
pub fn same_digest(a: &[u8; 32], b: &[u8; 32]) -> (r: bool)
    ensures
        r == (a@ == b@),
{
    let mut i: usize = 0;
    while i < 32
        invariant
            i <= 32,
            forall|k: int| 0 <= k < i ==> a@[k] == b@[k],
        decreases 32 - i,
    {
        if a[i] != b[i] {
            return false;
        }
        i = i + 1;
    }
    assert(a@ =~= b@);
    true
}

/// Each patch of the chain starts from the previous patch's target.
pub open spec fn chain_linked(ps: Seq<PackedPatch>) -> bool {
    forall|i: int| 1 <= i < ps.len() ==> (#[trigger] ps[i]).metadata.source_sha256@ == ps[i - 1].metadata.target_sha256@
}

/// `src` is the state right before patch `i` of the chain: the first patch's source, or the
/// target of the patch before it.
pub open spec fn state_before(ps: Seq<PackedPatch>, src: Seq<u8>, i: int) -> bool {
    if i == 0 {
        src == ps[0].metadata.source_sha256@
    } else {
        src == ps[i - 1].metadata.target_sha256@
    }
}

/// Where a batch apply of the chain `patches` starts for a source whose digest is
/// `src_hash`: `Ok(None)` when the source already is the chain's final target (nothing to
/// do), `Ok(Some(i))` for the first patch `i` whose starting state is the source (resuming
/// a partly applied chain), an error for an empty or broken chain or a source that is no
/// state of the chain.
pub fn batch_start(src_hash: &[u8; 32], patches: &[PackedPatch]) -> (r: Result<Option<usize>, RvaError>)
    ensures
        patches@.len() == 0 ==> r matches Err(RvaError::Patch(_)),
        patches@.len() > 0 && src_hash@ == patches@.last().metadata.target_sha256@ ==> r matches Ok(None),
        patches@.len() > 0 && src_hash@ != patches@.last().metadata.target_sha256@ && !chain_linked(patches@)
            ==> r matches Err(RvaError::Patch(_)),
        patches@.len() > 0 && src_hash@ != patches@.last().metadata.target_sha256@ && chain_linked(patches@) ==> match r {
            Ok(Some(i)) => i < patches@.len() && state_before(patches@, src_hash@, i as int)
                && forall|j: int| 0 <= j < i ==> !state_before(patches@, src_hash@, j),
            Ok(None) => false,
            Err(e) => e is Patch && forall|j: int| 0 <= j < patches@.len() ==> !state_before(patches@, src_hash@, j),
        },
{
    let n = patches.len();
    if n == 0 {
        return Err(RvaError::Patch(String::from_str("batch apply: patch list is empty")));
    }
    if same_digest(src_hash, &patches[n - 1].metadata.target_sha256) {
        return Ok(None);
    }
    let mut i: usize = 1;
    while i < n
        invariant
            n == patches@.len(),
            1 <= i <= n,
            src_hash@ != patches@.last().metadata.target_sha256@,
            forall|k: int| 1 <= k < i ==> (#[trigger] patches@[k]).metadata.source_sha256@ == patches@[k - 1].metadata.target_sha256@,
        decreases n - i,
    {
        if !same_digest(&patches[i].metadata.source_sha256, &patches[i - 1].metadata.target_sha256) {
            return Err(RvaError::Patch(String::from_str("patch chain discontinuity")));
        }
        i = i + 1;
    }
    if same_digest(src_hash, &patches[0].metadata.source_sha256) {
        return Ok(Some(0));
    }
    let mut k: usize = 1;
    while k < n
        invariant
            n == patches@.len(),
            1 <= k <= n,
            src_hash@ != patches@.last().metadata.target_sha256@,
            chain_linked(patches@),
            forall|j: int| 0 <= j < k ==> !state_before(patches@, src_hash@, j),
        decreases n - k,
    {
        if same_digest(src_hash, &patches[k - 1].metadata.target_sha256) {
            return Ok(Some(k));
        }
        k = k + 1;
    }
    Err(RvaError::Patch(String::from_str("batch apply: source file does not match any state in this patch chain")))
}

} // verus!

verus! {

/// The rebuilt target, when the patch's Copy ranges stay inside `old` and the result has
/// the declared length.
pub open spec fn new_spec(old: Seq<u8>, p: Patch) -> Option<Seq<u8>> {
    let ops = ops_view(p.ops@);
    if copies_in(old.len() as int, ops) && ops_bytes(old, ops).len() == p.new_size {
        Some(ops_bytes(old, ops))
    } else {
        None
    }
}

/// The container carries a signature that a trusted key accepts.
pub open spec fn signed_by_trusted(keys: Seq<[u8; 32]>, pk: PackedPatch) -> bool {
    first_sig(keys, content_spec(pk@), sigs_view(pk.signatures@)) is Some
}

/// The outcome of applying the container `pk` (with patch body `p`) to `old`: the source
/// digest must match, a trusted key must accept a signature, the rebuild must succeed and
/// its digest must be the declared target.
pub open spec fn apply_spec(old: Seq<u8>, pk: PackedPatch, keys: Seq<[u8; 32]>, p: Patch) -> Option<Seq<u8>> {
    if spec_sha256(old) != pk.metadata.source_sha256@ || !signed_by_trusted(keys, pk) {
        None
    } else {
        match new_spec(old, p) {
            Some(nb) => if spec_sha256(nb) == pk.metadata.target_sha256@ { Some(nb) } else { None },
            None => None,
        }
    }
}

/// The outcome of rolling the container back from `cur`: the current digest must be the
/// declared target, a trusted key must accept a signature, the reverse rebuild must
/// succeed and its digest must be the declared source.
pub open spec fn rollback_spec(cur: Seq<u8>, pk: PackedPatch, keys: Seq<[u8; 32]>, p: Patch) -> Option<Seq<u8>> {
    if spec_sha256(cur) != pk.metadata.target_sha256@ || !signed_by_trusted(keys, pk) {
        None
    } else {
        match rebuild_old_spec(cur, ops_view(p.ops@), segs_view(pk.revert_segments@), p.old_size as nat) {
            Some(ob) => if spec_sha256(ob) == pk.metadata.source_sha256@ { Some(ob) } else { None },
            None => None,
        }
    }
}

/// The hex fingerprint of the signature that admitted the container.
pub open spec fn issuer_spec(keys: Seq<[u8; 32]>, pk: PackedPatch) -> Seq<char> {
    hex_lower_spec(pk.signatures@[first_sig(keys, content_spec(pk@), sigs_view(pk.signatures@))->0].fingerprint@)
}

/// Applies a container to the source bytes `old`, given the trusted public keys and the
/// parsed patch body (or the message of its parse error). Checks run in order: source
/// digest, signature, patch body, rebuild, target digest; the first failure is the error.
pub fn apply_checked(old: &[u8], packed: &PackedPatch, keys: &[[u8; 32]], patch: &Result<Patch, String>) -> (r: Result<(Vec<u8>, ApplyResult), RvaError>)
    ensures
        patch matches Ok(p) ==> (r is Ok <==> apply_spec(old@, *packed, keys@, *p) is Some),
        patch matches Err(m) ==> (if spec_sha256(old@) == packed.metadata.source_sha256@ && signed_by_trusted(keys@, *packed) {
            r matches Err(RvaError::Patch(x)) && x@ == m@
        } else {
            r matches Err(RvaError::Patch(_))
        }),
        r matches Err(e) ==> e is Patch,
        r matches Ok((v, res)) ==> (patch matches Ok(p) && apply_spec(old@, *packed, keys@, *p) == Some(v@)),
        r matches Ok((v, res)) ==> res.ok && res.source_sha256@ == hex_lower_spec(spec_sha256(old@))
            && res.target_sha256@ == hex_lower_spec(packed.metadata.target_sha256@),
        r matches Ok((v, res)) ==> (res.signed_by matches Some(s) && s@ == issuer_spec(keys@, *packed)),
        r matches Ok((v, res)) ==> res.message@ == "patch applied successfully ("@ + dec_spec(packed.signatures@.len() as nat)
            + " signature(s), issuer: "@ + issuer_spec(keys@, *packed) + ")"@,
{
    let src_hash = sha256_of(old);
    if !same_digest(&src_hash, &packed.metadata.source_sha256) {
        return Err(RvaError::Patch(String::from_str("source verification failed: SHA256 does not match patch metadata")));
    }
    let signer = verify_signed(keys, packed)?;
    let p = match patch {
        Ok(p) => p,
        Err(m) => {
            return Err(RvaError::Patch(m.clone()));
        },
    };
    let new_bytes = rebuild_new(old, p)?;
    let new_hash = sha256_of(new_bytes.as_slice());
    if !same_digest(&new_hash, &packed.metadata.target_sha256) {
        return Err(RvaError::Patch(String::from_str("target rebuild verification failed: SHA256 does not match patch metadata")));
    }
    let mut message = String::from_str("patch applied successfully (");
    message.append(dec_string(packed.signatures.len() as u64).as_str());
    message.append(" signature(s), issuer: ");
    message.append(signer.as_str());
    message.append(")");
    let res = ApplyResult {
        ok: true,
        message,
        source_sha256: hex_lower(&src_hash),
        target_sha256: hex_lower(&packed.metadata.target_sha256),
        signed_by: Some(signer),
    };
    Ok((new_bytes, res))
}

/// Rolls a container back from the current (patched) bytes `cur`, given the trusted public
/// keys and the parsed patch body (or the message of its parse error). Checks run in
/// order: current digest, signature, patch body, reverse rebuild, source digest.
pub fn rollback_checked(cur: &[u8], packed: &PackedPatch, keys: &[[u8; 32]], patch: &Result<Patch, String>) -> (r: Result<(Vec<u8>, ApplyResult), RvaError>)
    requires
        patch matches Ok(p) ==> p.old_size <= usize::MAX && ops_total(ops_view(p.ops@)) <= usize::MAX,
        forall|k: int| 0 <= k < packed.revert_segments@.len() ==> (#[trigger] packed.revert_segments@[k]).old_start + packed.revert_segments@[k].len <= usize::MAX,
    ensures
        patch matches Ok(p) ==> (r is Ok <==> rollback_spec(cur@, *packed, keys@, *p) is Some),
        patch matches Err(m) ==> (if spec_sha256(cur@) == packed.metadata.target_sha256@ && signed_by_trusted(keys@, *packed) {
            r matches Err(RvaError::Patch(x)) && x@ == m@
        } else {
            r matches Err(RvaError::Patch(_))
        }),
        r matches Err(e) ==> e is Patch,
        r matches Ok((v, res)) ==> (patch matches Ok(p) && rollback_spec(cur@, *packed, keys@, *p) == Some(v@)),
        r matches Ok((v, res)) ==> res.ok && res.source_sha256@ == hex_lower_spec(packed.metadata.source_sha256@)
            && res.target_sha256@ == hex_lower_spec(spec_sha256(cur@)),
        r matches Ok((v, res)) ==> (res.signed_by matches Some(s) && s@ == issuer_spec(keys@, *packed)),
        r matches Ok((v, res)) ==> res.message@ == "patch rollback succeeded (issuer: "@ + issuer_spec(keys@, *packed) + ")"@,
{
    let cur_hash = sha256_of(cur);
    if !same_digest(&cur_hash, &packed.metadata.target_sha256) {
        return Err(RvaError::Patch(String::from_str("rollback precondition failed: current file SHA256 does not match patch target")));
    }
    let signer = verify_signed(keys, packed)?;
    let p = match patch {
        Ok(p) => p,
        Err(m) => {
            return Err(RvaError::Patch(m.clone()));
        },
    };
    let old_bytes = rebuild_old(cur, p, packed.revert_segments.as_slice())?;
    let old_hash = sha256_of(old_bytes.as_slice());
    if !same_digest(&old_hash, &packed.metadata.source_sha256) {
        return Err(RvaError::Patch(String::from_str("rollback rebuild verification failed: SHA256 does not match patch source")));
    }
    let mut message = String::from_str("patch rollback succeeded (issuer: ");
    message.append(signer.as_str());
    message.append(")");
    let res = ApplyResult {
        ok: true,
        message,
        source_sha256: hex_lower(&packed.metadata.source_sha256),
        target_sha256: hex_lower(&cur_hash),
        signed_by: Some(signer),
    };
    Ok((old_bytes, res))
}

/// Applying a container and then rolling it back gives back the source: for a patch whose
/// Copy ranges stay inside the source and follow each other without overlap, leaving no
/// stretch of 4 GiB or more for the snapshot (`gaps_fit`), whose declared old size is the
/// source's, and whose container holds the snapshot that `build_revert_segments` derives,
/// a successful apply yields bytes that roll back to the source, under the same keys.
pub proof fn law_apply_then_rollback(old: Seq<u8>, pk: PackedPatch, keys: Seq<[u8; 32]>, p: Patch)
    requires
        apply_spec(old, pk, keys, p) is Some,
        copies_monotone(ops_view(p.ops@), old.len() as int),
        gaps_fit(ops_view(p.ops@), old.len() as int),
        old.len() <= u64::MAX,
        p.old_size == old.len(),
        segs_view(pk.revert_segments@) == revert_spec(old, ops_view(p.ops@)),
    ensures
        rollback_spec(apply_spec(old, pk, keys, p)->0, pk, keys, p) == Some(old),
{
    law_rollback(old, ops_view(p.ops@));
}

/// The chain `ps` applied from patch `i` on, starting from the bytes `cur`: each patch body
/// must parse and rebuild, each result must have the declared target digest, and each
/// container must carry a trusted signature.
pub open spec fn chain_from(cur: Seq<u8>, ps: Seq<PackedPatch>, parsed: Seq<Result<Patch, String>>, keys: Seq<[u8; 32]>, i: int) -> Option<Seq<u8>>
    decreases ps.len() - i,
{
    if i >= ps.len() || i < 0 {
        Some(cur)
    } else {
        match parsed[i] {
            Err(_) => None,
            Ok(p) => match new_spec(cur, p) {
                None => None,
                Some(nb) => if spec_sha256(nb) != ps[i].metadata.target_sha256@ || !signed_by_trusted(keys, ps[i]) {
                    None
                } else {
                    chain_from(nb, ps, parsed, keys, i + 1)
                },
            },
        }
    }
}

/// The hex fingerprint of the first signature of `p` that one of `keys` verifies (empty
/// when none does).
pub open spec fn signer_of(keys: Seq<[u8; 32]>, p: PackedPatch) -> Seq<char> {
    match first_sig(keys, content_spec(p@), sigs_view(p.signatures@)) {
        Some(k) => hex_lower_spec(p.signatures@[k].fingerprint@),
        None => Seq::empty(),
    }
}

/// The message of a batch apply that applied `count` patches, the last one signed by `signer`.
pub open spec fn batch_message(count: nat, signer: Seq<char>) -> Seq<char> {
    "批量应用成功: "@ + dec_spec(count) + " 个补丁, 签发者: "@ + signer
}

/// Applies the chain of containers `patches` to the source bytes `src`, given the trusted
/// keys and each patch body parsed (or the message of its parse error). A source that
/// already is the chain's final target needs nothing (no bytes to write); otherwise the
/// chain must be linked and the source must be one of its states, and the remaining
/// patches are applied in order.
pub fn apply_chain(src: &[u8], patches: &[PackedPatch], keys: &[[u8; 32]], parsed: &[Result<Patch, String>]) -> (r: Result<(Option<Vec<u8>>, ApplyResult), RvaError>)
    requires
        parsed@.len() == patches@.len(),
    ensures
        patches@.len() == 0 ==> r matches Err(RvaError::Patch(_)),
        patches@.len() > 0 && spec_sha256(src@) == patches@.last().metadata.target_sha256@ ==> (r matches Ok((None, res)) && res.ok
            && res.signed_by is None
            && res.message@ == "已是最新目标，无需应用（幂等跳过）"@
            && res.source_sha256@ == hex_lower_spec(spec_sha256(src@))
            && res.target_sha256@ == hex_lower_spec(patches@.last().metadata.target_sha256@)),
        patches@.len() > 0 && spec_sha256(src@) != patches@.last().metadata.target_sha256@ && !chain_linked(patches@)
            ==> r matches Err(RvaError::Patch(_)),
        patches@.len() > 0 && spec_sha256(src@) != patches@.last().metadata.target_sha256@ && chain_linked(patches@)
            && (forall|j: int| 0 <= j < patches@.len() ==> !state_before(patches@, spec_sha256(src@), j))
            ==> r matches Err(RvaError::Patch(_)),
        forall|i: int| 0 <= i < patches@.len() && spec_sha256(src@) != patches@.last().metadata.target_sha256@ && chain_linked(patches@)
            && state_before(patches@, spec_sha256(src@), i) && (forall|j: int| 0 <= j < i ==> !state_before(patches@, spec_sha256(src@), j))
            ==> (r is Ok <==> chain_from(src@, patches@, parsed@, keys@, i) is Some)
            && (r matches Ok((v, res)) ==> (v matches Some(b) && b@ == chain_from(src@, patches@, parsed@, keys@, i)->0)
                && res.ok
                && (res.signed_by matches Some(who) && who@ == signer_of(keys@, patches@.last()))
                && res.message@ == batch_message((patches@.len() - i) as nat, signer_of(keys@, patches@.last()))
                && res.source_sha256@ == hex_lower_spec(spec_sha256(src@))
                && res.target_sha256@ == hex_lower_spec(patches@.last().metadata.target_sha256@)),
        r matches Err(e) ==> e is Patch,
{
    let n = patches.len();
    let src_hash = sha256_of(src);
    let start = match batch_start(&src_hash, patches) {
        Err(e) => {
            return Err(e);
        },
        Ok(None) => {
            let res = ApplyResult {
                ok: true,
                message: String::from_str("已是最新目标，无需应用（幂等跳过）"),
                source_sha256: hex_lower(&src_hash),
                target_sha256: hex_lower(&patches[n - 1].metadata.target_sha256),
                signed_by: None,
            };
            return Ok((None, res));
        },
        Ok(Some(i)) => i,
    };
    let mut cur: Vec<u8> = copy_range(src, 0, src.len());
    let mut signer: String = String::new();
    let mut i: usize = start;
    assert(src@.subrange(0, src@.len() as int) =~= src@);
    while i < n
        invariant
            n == patches@.len(),
            n == parsed@.len(),
            start <= i <= n,
            src_hash@ == spec_sha256(src@),
            src_hash@ != patches@.last().metadata.target_sha256@,
            start < n,
            state_before(patches@, src_hash@, start as int),
            forall|j: int| 0 <= j < start ==> !state_before(patches@, src_hash@, j),
            chain_from(src@, patches@, parsed@, keys@, start as int) == chain_from(cur@, patches@, parsed@, keys@, i as int),
            i > start ==> signer@ == signer_of(keys@, patches@[i - 1]),
        decreases n - i,
    {
        let p = match &parsed[i] {
            Ok(p) => p,
            Err(m) => {
                return Err(RvaError::Patch(m.clone()));
            },
        };
        let new_bytes = rebuild_new(cur.as_slice(), p)?;
        let new_hash = sha256_of(new_bytes.as_slice());
        if !same_digest(&new_hash, &patches[i].metadata.target_sha256) {
            return Err(RvaError::Patch(String::from_str("batch apply: target rebuild verification failed (SHA256 mismatch)")));
        }
        signer = verify_signed(keys, &patches[i])?;
        cur = new_bytes;
        i = i + 1;
    }
    let mut message = String::from_str("批量应用成功: ");
    message.append(dec_string((n - start) as u64).as_str());
    message.append(" 个补丁, 签发者: ");
    message.append(signer.as_str());
    let res = ApplyResult {
        ok: true,
        message,
        source_sha256: hex_lower(&src_hash),
        target_sha256: hex_lower(&patches[n - 1].metadata.target_sha256),
        signed_by: Some(signer),
    };
    Ok((Some(cur), res))
}

} // verus!
