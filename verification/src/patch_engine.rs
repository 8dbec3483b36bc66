//! Patch engine: turns a diff into a self-contained sequence of Copy / Insert operations
//! (the new bytes of each Added / Modified entry are embedded) and rebuilds the new file
//! from the old one.

use vstd::prelude::*;
use crate::RvaError;
use crate::diff_engine::{ChangeType, DiffEntry};
use crate::file_loader::LoadedFile;
use crate::util::{is_stable_order, stable_order, copy_range};

verus! {

#[derive(Debug, Clone, Copy, PartialEq, Eq, Structural)]
pub enum PatchFormat {
    /// Compact custom format with embedded bytes.
    Custom,
    /// Standard xdelta3 binary delta (not available).
    Xdelta3,
}

/// Edit instruction: Copy keeps an old-file range; Insert writes embedded new bytes.
#[derive(Debug, Clone)]
pub enum PatchOp {
    Copy { from: u64, len: u64 },
    Insert { data: Vec<u8> },
}

/// The mathematical value of a `PatchOp`.
pub enum OpView {
    Copy { from: u64, len: u64 },
    Insert { data: Seq<u8> },
}

impl View for PatchOp {
    type V = OpView;

    open spec fn view(&self) -> OpView {
        match self {
            PatchOp::Copy { from, len } => OpView::Copy { from: *from, len: *len },
            PatchOp::Insert { data } => OpView::Insert { data: data@ },
        }
    }
}

pub open spec fn ops_view(ops: Seq<PatchOp>) -> Seq<OpView> {
    ops.map_values(|o: PatchOp| o@)
}

#[derive(Debug, Clone)]
pub struct Patch {
    pub format: PatchFormat,
    pub old_size: u64,
    pub new_size: u64,
    pub ops: Vec<PatchOp>,
}

/// The bytes that one operation contributes.
pub open spec fn op_bytes(old: Seq<u8>, op: OpView) -> Seq<u8> {
    match op {
        OpView::Copy { from, len } => old.subrange(from as int, from + len),
        OpView::Insert { data } => data,
    }
}

/// Every Copy stays inside an old file of `old_len` bytes.
pub open spec fn copies_in(old_len: int, ops: Seq<OpView>) -> bool {
    forall|k: int| 0 <= k < ops.len() ==> (#[trigger] ops[k] matches OpView::Copy { from, len } ==> from + len <= old_len)
}

/// The output of the operations, in order.
pub open spec fn ops_bytes(old: Seq<u8>, ops: Seq<OpView>) -> Seq<u8>
    decreases ops.len(),
{
    if ops.len() == 0 {
        Seq::empty()
    } else {
        ops_bytes(old, ops.drop_last()) + op_bytes(old, ops.last())
    }
}

/// The old-file position at which an entry takes effect: the start of its old range, else its offset.
pub open spec fn old_start(e: DiffEntry) -> u64 {
    match e.old {
        Some(r) => r.start,
        None => e.offset,
    }
}

pub open spec fn keys_of(diffs: Seq<DiffEntry>) -> Seq<u64> {
    diffs.map_values(|e: DiffEntry| old_start(e))
}

/// Old-file cursor after an entry: past the old range of a Removed / Modified entry, at
/// the insertion point of an Added one.
pub open spec fn next_pos(e: DiffEntry, pos: u64) -> u64 {
    match e.old {
        Some(r) => if e.change == ChangeType::Added { r.start } else { r.end },
        None => pos,
    }
}

/// The operations of one entry at cursor `pos`: a Copy of the untouched old bytes up to the
/// entry, then the new bytes of an Added / Modified entry.
pub open spec fn entry_ops(new: Seq<u8>, e: DiffEntry, pos: u64) -> Seq<OpView> {
    let s = old_start(e);
    let copy = if s > pos { seq![OpView::Copy { from: pos, len: (s - pos) as u64 }] } else { Seq::empty() };
    let ins = if e.change != ChangeType::Removed && e.new is Some {
        seq![OpView::Insert { data: new.subrange(e.new->0.start as int, e.new->0.end as int) }]
    } else {
        Seq::empty()
    };
    copy + ins
}

/// Operations and final cursor for the entries `items`, taken in order.
pub open spec fn items_ops(new: Seq<u8>, items: Seq<DiffEntry>) -> (Seq<OpView>, u64)
    decreases items.len(),
{
    if items.len() == 0 {
        (Seq::empty(), 0)
    } else {
        let (o, p) = items_ops(new, items.drop_last());
        (o + entry_ops(new, items.last(), p), next_pos(items.last(), p))
    }
}

/// The whole operation list: the entries' operations and a final Copy of the old tail.
pub open spec fn build_ops_spec(old_len: int, new: Seq<u8>, items: Seq<DiffEntry>) -> Seq<OpView> {
    let (o, p) = items_ops(new, items);
    o + if p < old_len { seq![OpView::Copy { from: p, len: (old_len - p) as u64 }] } else { Seq::empty() }
}

/// The new ranges of inserting entries lie inside the new file.
pub open spec fn new_ranges_in(diffs: Seq<DiffEntry>, new_len: int) -> bool {
    forall|k: int| 0 <= k < diffs.len() ==> ((#[trigger] diffs[k]).change != ChangeType::Removed && diffs[k].new is Some
        ==> diffs[k].new->0.start <= diffs[k].new->0.end <= new_len)
}

/// Walks the entries `items` (in old-file order) over the old file and the new file: the
/// old bytes before each entry must reappear unchanged in the new file at the new cursor;
/// a Removed entry skips its old range; an Added entry inserts its new range at the new
/// cursor; a Modified entry skips its old range and inserts its new range there. Returns
/// the old cursor, the new cursor, and whether every step was consistent.
pub open spec fn rebuild_cursors(old: Seq<u8>, new: Seq<u8>, items: Seq<DiffEntry>) -> (int, int, bool)
    decreases items.len(),
{
    if items.len() == 0 {
        (0, 0, true)
    } else {
        let (op, np, ok) = rebuild_cursors(old, new, items.drop_last());
        let e = items.last();
        let s = old_start(e) as int;
        let nq = np + (s - op);
        let common = ok && e.old is Some && op <= s && s <= e.old->0.end <= old.len() && nq <= new.len()
            && old.subrange(op, s) == new.subrange(np, nq);
        match e.change {
            ChangeType::Removed => (e.old->0.end as int, nq, common),
            ChangeType::Added => (s, e.new->0.end as int,
                common && e.new is Some && e.new->0.start == nq && nq <= e.new->0.end <= new.len()),
            ChangeType::Modified => (e.old->0.end as int, e.new->0.end as int,
                common && e.new is Some && e.new->0.start == nq && nq <= e.new->0.end <= new.len()),
        }
    }
}

/// The entries `items`, taken in old-file order, account for every difference between
/// `old` and `new`: the walk of `rebuild_cursors` is consistent and what follows the last
/// entry is the same in both files.
pub open spec fn rebuilds(old: Seq<u8>, new: Seq<u8>, items: Seq<DiffEntry>) -> bool {
    let (op, np, ok) = rebuild_cursors(old, new, items);
    ok && op <= old.len() && np <= new.len() && old.subrange(op, old.len() as int) == new.subrange(np, new.len() as int)
}

proof fn lemma_ops_bytes_append(old: Seq<u8>, x: Seq<OpView>, y: Seq<OpView>)
    ensures
        ops_bytes(old, x + y) == ops_bytes(old, x) + ops_bytes(old, y),
    decreases y.len(),
{
    if y.len() == 0 {
        assert(x + y =~= x);
        assert(ops_bytes(old, x) + ops_bytes(old, y) =~= ops_bytes(old, x));
    } else {
        assert((x + y).drop_last() =~= x + y.drop_last());
        lemma_ops_bytes_append(old, x, y.drop_last());
        assert(ops_bytes(old, x) + ops_bytes(old, y) =~= ops_bytes(old, x) + ops_bytes(old, y.drop_last()) + op_bytes(old, y.last()));
    }
}

proof fn lemma_items_rebuild(old: Seq<u8>, new: Seq<u8>, items: Seq<DiffEntry>)
    requires
        old.len() <= u64::MAX,
        rebuild_cursors(old, new, items).2,
    ensures
        items_ops(new, items).1 as int == rebuild_cursors(old, new, items).0,
        ops_bytes(old, items_ops(new, items).0) == new.subrange(0, rebuild_cursors(old, new, items).1),
        copies_in(old.len() as int, items_ops(new, items).0),
        0 <= rebuild_cursors(old, new, items).0 <= old.len(),
        0 <= rebuild_cursors(old, new, items).1 <= new.len(),
    decreases items.len(),
{
    if items.len() > 0 {
        let pre = items.drop_last();
        lemma_items_rebuild(old, new, pre);
        let (op, np, ok) = rebuild_cursors(old, new, pre);
        let (o, p) = items_ops(new, pre);
        let e = items.last();
        let s = old_start(e) as int;
        let nq = np + (s - op);
        let eo = entry_ops(new, e, p);
        let copy = if s > p { seq![OpView::Copy { from: p, len: (s - p) as u64 }] } else { Seq::<OpView>::empty() };
        let ins = if e.change != ChangeType::Removed && e.new is Some {
            seq![OpView::Insert { data: new.subrange(e.new->0.start as int, e.new->0.end as int) }]
        } else {
            Seq::<OpView>::empty()
        };
        assert(eo == copy + ins);
        lemma_ops_bytes_append(old, o, eo);
        lemma_ops_bytes_append(old, copy, ins);
        if s > p {
            assert(ops_bytes(old, copy) =~= old.subrange(op, s)) by {
                assert(copy.drop_last() =~= Seq::<OpView>::empty());
                assert(ops_bytes(old, copy) == ops_bytes(old, copy.drop_last()) + op_bytes(old, copy.last()));
                assert(op_bytes(old, copy.last()) == old.subrange(p as int, p + (s - p)));
            }
        } else {
            assert(ops_bytes(old, copy) =~= old.subrange(op, s));
        }
        if e.change != ChangeType::Removed {
            assert(ops_bytes(old, ins) =~= new.subrange(nq, e.new->0.end as int)) by {
                assert(ins.drop_last() =~= Seq::<OpView>::empty());
                assert(ops_bytes(old, ins) == ops_bytes(old, ins.drop_last()) + op_bytes(old, ins.last()));
            }
            assert(new.subrange(0, e.new->0.end as int) =~= new.subrange(0, np) + new.subrange(np, nq) + new.subrange(nq, e.new->0.end as int));
        } else {
            assert(ops_bytes(old, ins) =~= Seq::<u8>::empty());
            assert(new.subrange(0, nq) =~= new.subrange(0, np) + new.subrange(np, nq));
        }
        assert(copies_in(old.len() as int, o + eo)) by {
            assert forall|k: int| 0 <= k < (o + eo).len() implies (#[trigger] (o + eo)[k] matches OpView::Copy { from, len } ==> from + len <= old.len()) by {
                if k < o.len() {
                    assert((o + eo)[k] == o[k]);
                } else {
                    assert((o + eo)[k] == eo[k - o.len()]);
                }
            }
        }
        assert(items.drop_last() == pre);
    }
}

/// Patch round trip: when the entries, taken in old-file order, account for every
/// difference between `old` and `new` (`rebuilds`), the operations built from them stay
/// inside the old file and their output is exactly `new`.
pub proof fn law_build_apply_roundtrip(old: Seq<u8>, new: Seq<u8>, items: Seq<DiffEntry>)
    requires
        old.len() <= u64::MAX,
        rebuilds(old, new, items),
    ensures
        copies_in(old.len() as int, build_ops_spec(old.len() as int, new, items)),
        ops_bytes(old, build_ops_spec(old.len() as int, new, items)) == new,
{
    lemma_items_rebuild(old, new, items);
    let (o, p) = items_ops(new, items);
    let (op, np, ok) = rebuild_cursors(old, new, items);
    let tail = if p < old.len() { seq![OpView::Copy { from: p, len: (old.len() - p) as u64 }] } else { Seq::<OpView>::empty() };
    lemma_ops_bytes_append(old, o, tail);
    if p < old.len() {
        assert(ops_bytes(old, tail) =~= old.subrange(op, old.len() as int)) by {
            assert(tail.drop_last() =~= Seq::<OpView>::empty());
            assert(ops_bytes(old, tail) == ops_bytes(old, tail.drop_last()) + op_bytes(old, tail.last()));
            assert(op_bytes(old, tail.last()) == old.subrange(p as int, p + (old.len() - p)));
        }
    } else {
        assert(ops_bytes(old, tail) =~= old.subrange(op, old.len() as int));
    }
    assert(new =~= new.subrange(0, np) + new.subrange(np, new.len() as int));
    assert(copies_in(old.len() as int, o + tail)) by {
        assert forall|k: int| 0 <= k < (o + tail).len() implies (#[trigger] (o + tail)[k] matches OpView::Copy { from, len } ==> from + len <= old.len()) by {
            if k < o.len() {
                assert((o + tail)[k] == o[k]);
            } else {
                assert((o + tail)[k] == tail[k - o.len()]);
            }
        }
    }
}

/// The entries are in old-file order without overlap, inside an old file of `old_len` bytes:
/// each carries its old range (empty, at the insertion point, for an Added entry), which
/// starts at or after the end of every one before it.
pub open spec fn edits_ordered(old_len: int, items: Seq<DiffEntry>) -> bool {
    &&& forall|k: int| 0 <= k < items.len() ==> ((#[trigger] items[k]).old matches Some(r) && r.start <= r.end <= old_len
        && (items[k].change == ChangeType::Added ==> r.start == r.end))
    &&& forall|i: int, j: int| 0 <= i < j < items.len() ==> (#[trigger] items[i]).old->0.end <= (#[trigger] items[j]).old->0.start
}

/// What the entries `items`, taken in order, make of `old` up to the old cursor after them:
/// the untouched old bytes before each entry, then the new bytes `new[e.new]` of an Added or
/// Modified entry (a Removed entry's old range is dropped, a Modified entry's replaced).
/// Returns the bytes and the cursor.
pub open spec fn edit_fold(old: Seq<u8>, new: Seq<u8>, items: Seq<DiffEntry>) -> (Seq<u8>, int)
    decreases items.len(),
{
    if items.len() == 0 {
        (Seq::empty(), 0)
    } else {
        let (o, p) = edit_fold(old, new, items.drop_last());
        let e = items.last();
        let s = old_start(e) as int;
        let put = if e.change != ChangeType::Removed && e.new is Some {
            new.subrange(e.new->0.start as int, e.new->0.end as int)
        } else {
            Seq::empty()
        };
        (o + old.subrange(p, s) + put, next_pos(e, p as u64) as int)
    }
}

/// `old` with the entries' edits applied: Removed ranges dropped, Modified old ranges
/// replaced by their new bytes, Added new bytes inserted at their point.
pub open spec fn edit_result(old: Seq<u8>, new: Seq<u8>, items: Seq<DiffEntry>) -> Seq<u8> {
    let (o, p) = edit_fold(old, new, items);
    o + old.subrange(p, old.len() as int)
}

proof fn lemma_items_edit(old: Seq<u8>, new: Seq<u8>, items: Seq<DiffEntry>)
    requires
        old.len() <= u64::MAX,
        edits_ordered(old.len() as int, items),
    ensures
        items_ops(new, items).1 as int == edit_fold(old, new, items).1,
        ops_bytes(old, items_ops(new, items).0) == edit_fold(old, new, items).0,
        copies_in(old.len() as int, items_ops(new, items).0),
        0 <= edit_fold(old, new, items).1 <= old.len(),
        items.len() > 0 ==> edit_fold(old, new, items).1 == items.last().old->0.end,
    decreases items.len(),
{
    if items.len() > 0 {
        let pre = items.drop_last();
        assert(edits_ordered(old.len() as int, pre)) by {
            assert forall|k: int| 0 <= k < pre.len() implies ((#[trigger] pre[k]).old matches Some(r) && r.start <= r.end <= old.len()
                && (pre[k].change == ChangeType::Added ==> r.start == r.end)) by {
                assert(pre[k] == items[k]);
            }
            assert forall|i: int, j: int| 0 <= i < j < pre.len() implies (#[trigger] pre[i]).old->0.end <= (#[trigger] pre[j]).old->0.start by {
                assert(pre[i] == items[i] && pre[j] == items[j]);
            }
        }
        lemma_items_edit(old, new, pre);
        let (o, p) = items_ops(new, pre);
        let (eo_bytes, q) = edit_fold(old, new, pre);
        let e = items.last();
        assert(e == items[items.len() - 1]);
        let s = old_start(e) as int;
        if pre.len() > 0 {
            assert(pre.last() == items[items.len() - 2]);
            assert(items[items.len() - 2].old->0.end <= items[items.len() - 1].old->0.start);
        }
        assert(q <= s);
        let eo = entry_ops(new, e, p);
        let copy = if s > p { seq![OpView::Copy { from: p, len: (s - p) as u64 }] } else { Seq::<OpView>::empty() };
        let ins = if e.change != ChangeType::Removed && e.new is Some {
            seq![OpView::Insert { data: new.subrange(e.new->0.start as int, e.new->0.end as int) }]
        } else {
            Seq::<OpView>::empty()
        };
        assert(eo == copy + ins);
        lemma_ops_bytes_append(old, o, eo);
        lemma_ops_bytes_append(old, copy, ins);
        if s > p {
            assert(ops_bytes(old, copy) =~= old.subrange(q, s)) by {
                assert(copy.drop_last() =~= Seq::<OpView>::empty());
                assert(ops_bytes(old, copy) == ops_bytes(old, copy.drop_last()) + op_bytes(old, copy.last()));
                assert(op_bytes(old, copy.last()) == old.subrange(p as int, p + (s - p)));
            }
        } else {
            assert(ops_bytes(old, copy) =~= old.subrange(q, s));
        }
        if e.change != ChangeType::Removed && e.new is Some {
            assert(ops_bytes(old, ins) =~= new.subrange(e.new->0.start as int, e.new->0.end as int)) by {
                assert(ins.drop_last() =~= Seq::<OpView>::empty());
                assert(ops_bytes(old, ins) == ops_bytes(old, ins.drop_last()) + op_bytes(old, ins.last()));
            }
        } else {
            assert(ops_bytes(old, ins) =~= Seq::<u8>::empty());
        }
        assert(copies_in(old.len() as int, o + eo)) by {
            assert forall|k: int| 0 <= k < (o + eo).len() implies (#[trigger] (o + eo)[k] matches OpView::Copy { from, len } ==> from + len <= old.len()) by {
                if k < o.len() {
                    assert((o + eo)[k] == o[k]);
                } else {
                    assert((o + eo)[k] == eo[k - o.len()]);
                }
            }
        }
        assert(ops_bytes(old, o + eo) =~= eo_bytes + old.subrange(q, s)
            + (if e.change != ChangeType::Removed && e.new is Some { new.subrange(e.new->0.start as int, e.new->0.end as int) } else { Seq::<u8>::empty() }));
    }
}

/// Patch round trip, in the entries' own terms: for entries in old-file order without
/// overlap and inside the old file, the operations built from them stay inside the old file
/// and output the old file with the entries' edits applied; so when the new file is the
/// old one with those edits, applying the patch rebuilds exactly the new file.
pub proof fn law_build_apply_edits(old: Seq<u8>, new: Seq<u8>, items: Seq<DiffEntry>)
    requires
        old.len() <= u64::MAX,
        edits_ordered(old.len() as int, items),
    ensures
        copies_in(old.len() as int, build_ops_spec(old.len() as int, new, items)),
        ops_bytes(old, build_ops_spec(old.len() as int, new, items)) == edit_result(old, new, items),
        new == edit_result(old, new, items) ==> ops_bytes(old, build_ops_spec(old.len() as int, new, items)) == new,
{
    lemma_items_edit(old, new, items);
    let (o, p) = items_ops(new, items);
    let (eb, q) = edit_fold(old, new, items);
    let tail = if p < old.len() { seq![OpView::Copy { from: p, len: (old.len() - p) as u64 }] } else { Seq::<OpView>::empty() };
    lemma_ops_bytes_append(old, o, tail);
    if p < old.len() {
        assert(ops_bytes(old, tail) =~= old.subrange(q, old.len() as int)) by {
            assert(tail.drop_last() =~= Seq::<OpView>::empty());
            assert(ops_bytes(old, tail) == ops_bytes(old, tail.drop_last()) + op_bytes(old, tail.last()));
            assert(op_bytes(old, tail.last()) == old.subrange(p as int, p + (old.len() - p)));
        }
    } else {
        assert(ops_bytes(old, tail) =~= old.subrange(q, old.len() as int));
    }
    assert(copies_in(old.len() as int, o + tail)) by {
        assert forall|k: int| 0 <= k < (o + tail).len() implies (#[trigger] (o + tail)[k] matches OpView::Copy { from, len } ==> from + len <= old.len()) by {
            if k < o.len() {
                assert((o + tail)[k] == o[k]);
            } else {
                assert((o + tail)[k] == tail[k - o.len()]);
            }
        }
    }
}

pub struct DefaultPatchEngine;

impl DefaultPatchEngine {
    /// Encodes the diff as an ordered Copy / Insert list, advancing through old-file
    /// coordinates: the entries are taken in stable order of their old start.
    pub fn build_ops(old: &[u8], new: &[u8], diffs: &[DiffEntry]) -> (ops: Vec<PatchOp>)
        requires
            new_ranges_in(diffs@, new@.len() as int),
            old@.len() <= u64::MAX,
        ensures
            exists|order: Seq<usize>| is_stable_order(keys_of(diffs@), order)
                && ops_view(ops@) == build_ops_spec(old@.len() as int, new@, order.map_values(|k: usize| diffs@[k as int]))
                && (edits_ordered(old@.len() as int, order.map_values(|k: usize| diffs@[k as int])) ==> (
                    copies_in(old@.len() as int, ops_view(ops@))
                    && ops_bytes(old@, ops_view(ops@)) == edit_result(old@, new@, order.map_values(|k: usize| diffs@[k as int])))),
    {
        let n = diffs.len();
        let mut keys: Vec<u64> = Vec::new();
        let mut i: usize = 0;
        while i < n
            invariant
                n == diffs@.len(),
                i <= n,
                keys@ == keys_of(diffs@).subrange(0, i as int),
            decreases n - i,
        {
            let e = &diffs[i];
            let k = match &e.old {
                Some(r) => r.start,
                None => e.offset,
            };
            keys.push(k);
            i = i + 1;
        }
        assert(keys@ =~= keys_of(diffs@));
        let order = stable_order(&keys);
        let ghost items = order@.map_values(|k: usize| diffs@[k as int]);
        let nlen = new.len();
        let mut ops: Vec<PatchOp> = Vec::new();
        let mut old_pos: u64 = 0;
        let mut j: usize = 0;
        while j < n
            invariant
                n == diffs@.len(),
                is_stable_order(keys_of(diffs@), order@),
                items == order@.map_values(|k: usize| diffs@[k as int]),
                new_ranges_in(diffs@, new@.len() as int),
                nlen == new@.len(),
                j <= n,
                (ops_view(ops@), old_pos) == items_ops(new@, items.subrange(0, j as int)),
            decreases n - j,
        {
            let k = order[j];
            let e = &diffs[k];
            proof {
                assert(order@[j as int] < keys_of(diffs@).len());
                assert(items[j as int] == diffs@[k as int]);
                assert(items.subrange(0, j + 1).drop_last() =~= items.subrange(0, j as int));
                assert(items.subrange(0, j + 1).last() == diffs@[k as int]);
                assert(diffs@[k as int].change != ChangeType::Removed && diffs@[k as int].new is Some
                    ==> diffs@[k as int].new->0.start <= diffs@[k as int].new->0.end <= new@.len());
            }
            let s = match &e.old {
                Some(r) => r.start,
                None => e.offset,
            };
            let ghost before = ops_view(ops@);
            let ghost pos0 = old_pos;
            let ghost copy: Seq<OpView> = if s > old_pos { seq![OpView::Copy { from: old_pos, len: (s - old_pos) as u64 }] } else { Seq::empty() };
            if s > old_pos {
                let op = PatchOp::Copy { from: old_pos, len: s - old_pos };
                proof {
                    assert(ops_view(ops@.push(op)) =~= ops_view(ops@).push(op@));
                }
                ops.push(op);
            }
            assert(ops_view(ops@) =~= before + copy);
            let ghost mid = ops_view(ops@);
            match e.change {
                ChangeType::Removed => {
                    if let Some(r) = &e.old {
                        old_pos = r.end;
                    }
                },
                _ => {
                    if let Some(r) = &e.old {
                        old_pos = if e.change == ChangeType::Added { r.start } else { r.end };
                    }
                    if let Some(nr) = &e.new {
                        let data = copy_range(new, nr.start as usize, nr.end as usize);
                        let op = PatchOp::Insert { data };
                        proof {
                            assert(ops_view(ops@.push(op)) =~= ops_view(ops@).push(op@));
                        }
                        ops.push(op);
                    }
                },
            }
            proof {
                assert(ops_view(ops@) =~= before + entry_ops(new@, diffs@[k as int], pos0));
                assert(old_pos == next_pos(diffs@[k as int], pos0));
            }
            j = j + 1;
        }
        assert(items.subrange(0, n as int) =~= items);
        let ghost before = ops_view(ops@);
        if old_pos < old.len() as u64 {
            let op = PatchOp::Copy { from: old_pos, len: old.len() as u64 - old_pos };
            proof {
                assert(ops_view(ops@.push(op)) =~= ops_view(ops@).push(op@));
            }
            ops.push(op);
        }
        assert(ops_view(ops@) =~= build_ops_spec(old@.len() as int, new@, items));
        proof {
            if edits_ordered(old@.len() as int, items) {
                law_build_apply_edits(old@, new@, items);
            }
        }
        ops
    }

}

/// Builds patches from diffs and rebuilds the new file from a patch.
pub trait PatchEngine {
    /// Generates a self-contained patch from the diff and the two files' bytes; only the
    /// custom format is available.
    fn generate(old: &LoadedFile, new: &LoadedFile, diffs: &[DiffEntry], format: PatchFormat) -> (r: Result<Patch, RvaError>)
        requires
            new_ranges_in(diffs@, new.data@.len() as int),
            old.data@.len() <= u64::MAX,
        ensures
            format == PatchFormat::Xdelta3 ==> r matches Err(RvaError::Patch(_)),
            format == PatchFormat::Custom ==> (r matches Ok(p) && p.format == format
                && p.old_size == old.meta.size && p.new_size == new.meta.size
                && exists|order: Seq<usize>| is_stable_order(keys_of(diffs@), order)
                    && ops_view(p.ops@) == build_ops_spec(old.data@.len() as int, new.data@, order.map_values(|k: usize| diffs@[k as int]))),
    ;

    /// Rebuilds the new file: Copy passes old bytes through, Insert writes the embedded
    /// bytes; a Copy that reaches past the old file is an error.
    fn apply(old: &[u8], patch: &Patch) -> (r: Result<Vec<u8>, RvaError>)
        ensures
            copies_in(old@.len() as int, ops_view(patch.ops@)) ==> (r matches Ok(v) && v@ == ops_bytes(old@, ops_view(patch.ops@))),
            !copies_in(old@.len() as int, ops_view(patch.ops@)) ==> r matches Err(RvaError::Patch(_)),
    ;
}

impl PatchEngine for DefaultPatchEngine {
    /// Generates a self-contained patch from the diff and the two files' bytes; only the
    /// custom format is available.
    fn generate(old: &LoadedFile, new: &LoadedFile, diffs: &[DiffEntry], format: PatchFormat) -> (r: Result<Patch, RvaError>)
    {
        if format == PatchFormat::Xdelta3 {
            return Err(RvaError::Patch(String::from_str("Xdelta3 backend not implemented yet; use Custom")));
        }
        let ops = Self::build_ops(old.data.as_slice(), new.data.as_slice(), diffs);
        Ok(Patch { format, old_size: old.meta.size, new_size: new.meta.size, ops })
    }

    /// Rebuilds the new file: Copy passes old bytes through, Insert writes the embedded
    /// bytes; a Copy that reaches past the old file is an error.
    fn apply(old: &[u8], patch: &Patch) -> (r: Result<Vec<u8>, RvaError>)
    {
        let n = patch.ops.len();
        let mut result: Vec<u8> = Vec::new();
        let mut i: usize = 0;
        while i < n
            invariant
                n == patch.ops@.len(),
                i <= n,
                copies_in(old@.len() as int, ops_view(patch.ops@).subrange(0, i as int)),
                result@ == ops_bytes(old@, ops_view(patch.ops@).subrange(0, i as int)),
            decreases n - i,
        {
            let ghost ov = ops_view(patch.ops@);
            proof {
                assert(ov.subrange(0, i + 1).drop_last() =~= ov.subrange(0, i as int));
                assert(ov.subrange(0, i + 1).last() == ov[i as int]);
            }
            match &patch.ops[i] {
                PatchOp::Copy { from, len } => {
                    let ol = old.len() as u64;
                    if *len > ol || *from > ol - *len {
                        proof {
                            assert(!copies_in(old@.len() as int, ov)) by {
                                assert(!(ov[i as int] matches OpView::Copy { from, len } ==> from + len <= old@.len()));
                            }
                        }
                        return Err(RvaError::Patch(String::from_str("copy out of range")));
                    }
                    let f = *from as usize;
                    let l = *len as usize;
                    let mut piece = copy_range(old, f, f + l);
                    result.append(&mut piece);
                },
                PatchOp::Insert { data } => {
                    let mut piece = data.clone();
                    result.append(&mut piece);
                },
            }
            proof {
                assert(copies_in(old@.len() as int, ov.subrange(0, i + 1))) by {
                    assert forall|k: int| 0 <= k < i + 1 implies (#[trigger] ov.subrange(0, i + 1)[k] matches OpView::Copy { from, len } ==> from + len <= old@.len()) by {
                        if k < i {
                            assert(ov.subrange(0, i + 1)[k] == ov.subrange(0, i as int)[k]);
                        }
                    }
                }
            }
            i = i + 1;
        }
        assert(ops_view(patch.ops@).subrange(0, n as int) =~= ops_view(patch.ops@));
        Ok(result)
    }
}

} // verus!
