//! Batch comparison: two directory trees are walked, files with the same relative path are
//! diffed, and the result is a tree that mirrors the directory structure.

use vstd::prelude::*;
use crate::diff_engine::{DefaultDiffEngine, DiffEngine, DiffEntry, DiffStrategy};
use crate::file_loader::LoadedFile;
use crate::structural_matcher::seg_end;

verus! {

#[derive(Debug, Clone, Copy, PartialEq, Eq, Structural)]
pub enum BatchStatus {
    Identical,
    Different,
    OnlyInA,
    OnlyInB,
    Error,
}

#[derive(Debug)]
pub struct BatchNode {
    pub path_a: Option<String>,
    pub path_b: Option<String>,
    pub status: BatchStatus,
    pub diffs: Option<Vec<DiffEntry>>,
    pub children: Vec<BatchNode>,
}

pub open spec fn all_identical(children: Seq<BatchNode>) -> bool {
    forall|i: int| 0 <= i < children.len() ==> (#[trigger] children[i]).status == BatchStatus::Identical
}

/// A directory node is Identical only if all its children are (an empty directory too);
/// otherwise Different.
pub fn finalize_dir(node: &mut BatchNode)
    ensures
        final(node).status == (if all_identical(old(node).children@) { BatchStatus::Identical } else { BatchStatus::Different }),
        final(node).children@ == old(node).children@,
        final(node).path_a == old(node).path_a,
        final(node).path_b == old(node).path_b,
        final(node).diffs == old(node).diffs,
{
    let n = node.children.len();
    let mut all = true;
    let mut i: usize = 0;
    while i < n
        invariant
            n == node.children@.len(),
            i <= n,
            all == forall|k: int| 0 <= k < i ==> (#[trigger] node.children@[k]).status == BatchStatus::Identical,
        decreases n - i,
    {
        if node.children[i].status != BatchStatus::Identical {
            all = false;
        }
        i = i + 1;
    }
    node.status = if all { BatchStatus::Identical } else { BatchStatus::Different };
}

/// A directory node named `comp` on both sides, Different until finalized.
pub fn dir_node(comp: &String) -> (n: BatchNode)
    ensures
        n.path_a matches Some(p) && p@ == comp@,
        n.path_b matches Some(p) && p@ == comp@,
        n.status == BatchStatus::Different,
        n.diffs is None,
        n.children@.len() == 0,
{
    BatchNode { path_a: Some(comp.clone()), path_b: Some(comp.clone()), status: BatchStatus::Different, diffs: None, children: Vec::new() }
}

/// The size limits under which the diff engine accepts a loaded file for `strategy`.
pub open spec fn loaded_ok(f: LoadedFile, strategy: DiffStrategy) -> bool {
    &&& (!(strategy is ChunkedHash) ==> f.data@.len() <= u32::MAX)
    &&& f.data@.len() <= usize::MAX / 8
    &&& forall|i: int| 0 <= i < f.meta.segments@.len() ==> seg_end(#[trigger] f.meta.segments@[i]) <= u64::MAX
}

/// Outcome of comparing one file pair: Error when either file could not be loaded,
/// Identical when the bytes agree, otherwise Different with the engine's diff for
/// `strategy` (absent when the engine refused the pair).
pub fn compare_files(fa: Option<&LoadedFile>, fb: Option<&LoadedFile>, strategy: DiffStrategy) -> (r: (BatchStatus, Option<Vec<DiffEntry>>))
    requires
        fa matches Some(f) ==> loaded_ok(*f, strategy),
        fb matches Some(f) ==> loaded_ok(*f, strategy),
    ensures
        (fa is None || fb is None) ==> r.0 == BatchStatus::Error && r.1 is None,
        (fa matches Some(x) && fb matches Some(y) && x.data@ == y.data@) ==> r.0 == BatchStatus::Identical && r.1 is None,
        (fa matches Some(x) && fb matches Some(y) && x.data@ != y.data@) ==> r.0 == BatchStatus::Different,
        (fa is Some && fb is Some && fa->0.data@ != fb->0.data@ && !(strategy is StructureMatch))
            ==> (r.1 matches Some(d) && crate::diff_engine::entries_wf(d@, fa->0.data@.len() as int, fb->0.data@.len() as int)),
        (fa is Some && fb is Some && r.1 is Some) ==> crate::diff_engine::diff_report(*fa->0, *fb->0, strategy, r.1->0@),
        (fa is Some && fb is Some && fa->0.data@ != fb->0.data@ && strategy is StructureMatch)
            ==> (r.1 is None <==> !((fa->0.meta.arch == crate::file_loader::Arch::X86_64 && fb->0.meta.arch == crate::file_loader::Arch::X86_64)
                || (fa->0.meta.arch == crate::file_loader::Arch::X86 && fb->0.meta.arch == crate::file_loader::Arch::X86))),
{
    let fa = match fa {
        Some(f) => f,
        None => {
            return (BatchStatus::Error, None);
        },
    };
    let fb = match fb {
        Some(f) => f,
        None => {
            return (BatchStatus::Error, None);
        },
    };
    if crate::util::slices_equal(fa.data.as_slice(), fb.data.as_slice()) {
        return (BatchStatus::Identical, None);
    }
    let diffs = match DefaultDiffEngine.diff(fa, fb, strategy) {
        Ok(d) => Some(d),
        Err(_) => None,
    };
    (BatchStatus::Different, diffs)
}

/// One file found under a walked directory: its path relative to the walk's root, split
/// into components, its absolute path, and its contents (`None` when it could not be loaded).
pub struct BatchFile {
    pub rel: Vec<String>,
    pub abs: String,
    pub file: Option<LoadedFile>,
}

pub open spec fn batch_ok(f: BatchFile, strategy: DiffStrategy) -> bool {
    f.file matches Some(l) ==> loaded_ok(l, strategy)
}

/// The entry's relative path goes below depth `lvl`.
pub open spec fn deeper(f: BatchFile, lvl: int) -> bool {
    f.rel@.len() > lvl
}

/// The entry's path component at depth `lvl`.
pub open spec fn comp_at(f: BatchFile, lvl: int) -> Seq<char> {
    f.rel@[lvl]@
}

pub open spec fn strs(v: Seq<String>) -> Seq<Seq<char>> {
    v.map_values(|s: String| s@)
}

/// `acc` followed by the components at depth `lvl` of the entries `ids` that it lacks, each
/// once, in order of first appearance.
pub open spec fn firsts(fs: Seq<BatchFile>, ids: Seq<usize>, lvl: int, acc: Seq<Seq<char>>) -> Seq<Seq<char>>
    decreases ids.len(),
{
    if ids.len() == 0 {
        acc
    } else {
        let f = fs[ids[0] as int];
        let acc2 = if deeper(f, lvl) && !acc.contains(comp_at(f, lvl)) { acc.push(comp_at(f, lvl)) } else { acc };
        firsts(fs, ids.drop_first(), lvl, acc2)
    }
}

/// The names met at depth `lvl`: those of side A first, then those only side B has.
pub open spec fn comps(a: Seq<BatchFile>, ia: Seq<usize>, b: Seq<BatchFile>, ib: Seq<usize>, lvl: int) -> Seq<Seq<char>> {
    firsts(b, ib, lvl, firsts(a, ia, lvl, Seq::empty()))
}

/// The entries of `ids` whose component at depth `lvl` is `c`, in order.
pub open spec fn sub_of(fs: Seq<BatchFile>, ids: Seq<usize>, lvl: int, c: Seq<char>) -> Seq<usize>
    decreases ids.len(),
{
    if ids.len() == 0 {
        Seq::empty()
    } else {
        let rest = sub_of(fs, ids.drop_last(), lvl, c);
        let f = fs[ids.last() as int];
        if deeper(f, lvl) && comp_at(f, lvl) == c { rest.push(ids.last()) } else { rest }
    }
}

/// The first entry of `ids` whose path ends at depth `lvl`: a file at that level.
pub open spec fn file_at(fs: Seq<BatchFile>, ids: Seq<usize>, lvl: int) -> Option<usize>
    decreases ids.len(),
{
    if ids.len() == 0 {
        None
    } else if fs[ids[0] as int].rel@.len() == lvl {
        Some(ids[0])
    } else {
        file_at(fs, ids.drop_first(), lvl)
    }
}

pub open spec fn opt_view(p: Option<String>) -> Option<Seq<char>> {
    match p {
        Some(s) => Some(s@),
        None => None,
    }
}

/// What a node shows: its status and its two paths.
pub open spec fn shape(n: BatchNode) -> (BatchStatus, Option<Seq<char>>, Option<Seq<char>>) {
    (n.status, opt_view(n.path_a), opt_view(n.path_b))
}

pub open spec fn shapes(ns: Seq<BatchNode>) -> Seq<(BatchStatus, Option<Seq<char>>, Option<Seq<char>>)> {
    ns.map_values(|n: BatchNode| shape(n))
}

pub open spec fn all_ident(s: Seq<(BatchStatus, Option<Seq<char>>, Option<Seq<char>>)>) -> bool {
    forall|i: int| 0 <= i < s.len() ==> (#[trigger] s[i]).0 == BatchStatus::Identical
}

/// Status of a pair of same-named files.
pub open spec fn file_status(x: BatchFile, y: BatchFile) -> BatchStatus {
    match (x.file, y.file) {
        (Some(p), Some(q)) => if p.data@ == q.data@ { BatchStatus::Identical } else { BatchStatus::Different },
        _ => BatchStatus::Error,
    }
}

/// The nodes (by shape) produced at depth `lvl` for the names `cs`: a same-named file pair
/// gives one compared node; a file on one side only gives an OnlyInA / OnlyInB node, followed
/// by a directory node (left Different) when the other side holds a directory of that name;
/// two directories give one directory node, Identical exactly when all its children are.
pub open spec fn shapes_over(a: Seq<BatchFile>, ia: Seq<usize>, b: Seq<BatchFile>, ib: Seq<usize>, lvl: int, bound: int, cs: Seq<Seq<char>>)
    -> Seq<(BatchStatus, Option<Seq<char>>, Option<Seq<char>>)>
    decreases bound - lvl, cs.len(),
{
    if lvl >= bound || cs.len() == 0 {
        Seq::empty()
    } else {
        let prev = shapes_over(a, ia, b, ib, lvl, bound, cs.drop_last());
        let c = cs.last();
        let sa = sub_of(a, ia, lvl, c);
        let sb = sub_of(b, ib, lvl, c);
        let fa = file_at(a, sa, lvl + 1);
        let fb = file_at(b, sb, lvl + 1);
        let dir_other = (BatchStatus::Different, Some(c), Some(c));
        prev + if fa is Some && fb is Some {
            let x = a[fa->0 as int];
            let y = b[fb->0 as int];
            seq![(file_status(x, y), Some(x.abs@), Some(y.abs@))]
        } else if fa is Some {
            seq![(BatchStatus::OnlyInA, Some(a[fa->0 as int].abs@), None::<Seq<char>>)]
                + (if sb.len() > 0 { seq![dir_other] } else { Seq::empty() })
        } else if fb is Some {
            seq![(BatchStatus::OnlyInB, None::<Seq<char>>, Some(b[fb->0 as int].abs@))]
                + (if sa.len() > 0 { seq![dir_other] } else { Seq::empty() })
        } else {
            let inner = shapes_over(a, sa, b, sb, lvl + 1, bound, comps(a, sa, b, sb, lvl + 1));
            seq![(if all_ident(inner) { BatchStatus::Identical } else { BatchStatus::Different }, Some(c), Some(c))]
        }
    }
}

/// Both files are x86, or both x64: the structural strategy accepts the pair.
pub open spec fn struct_arch_ok(p: LoadedFile, q: LoadedFile) -> bool {
    (p.meta.arch == crate::file_loader::Arch::X86_64 && q.meta.arch == crate::file_loader::Arch::X86_64)
        || (p.meta.arch == crate::file_loader::Arch::X86 && q.meta.arch == crate::file_loader::Arch::X86)
}

/// The leaf for the same-named files `x` and `y`: both paths, the compared status, no
/// children, and for two loaded files that differ the engine's diff for `strategy` (absent
/// only when the structural strategy refuses the pair).
pub open spec fn file_node_ok(x: BatchFile, y: BatchFile, strategy: DiffStrategy, n: BatchNode) -> bool {
    &&& opt_view(n.path_a) == Some(x.abs@)
    &&& opt_view(n.path_b) == Some(y.abs@)
    &&& n.status == file_status(x, y)
    &&& n.children@.len() == 0
    &&& match (x.file, y.file) {
        (Some(p), Some(q)) => if p.data@ == q.data@ {
            n.diffs is None
        } else {
            &&& (n.diffs matches Some(d) ==> crate::diff_engine::diff_report(p, q, strategy, d@))
            &&& (n.diffs is None <==> (strategy is StructureMatch && !struct_arch_ok(p, q)))
        },
        _ => n.diffs is None,
    }
}

/// A leaf for a file on one side only.
pub open spec fn only_node_ok(n: BatchNode, st: BatchStatus, pa: Option<Seq<char>>, pb: Option<Seq<char>>) -> bool {
    &&& n.status == st
    &&& opt_view(n.path_a) == pa
    &&& opt_view(n.path_b) == pb
    &&& n.diffs is None
    &&& n.children@.len() == 0
}

/// `out` is the list of nodes built at depth `lvl` for the names `cs` (see `shapes_over`),
/// node by node: a same-named file pair gives its compared leaf (`file_node_ok`); a file on
/// one side only gives its OnlyInA / OnlyInB leaf, then a directory node (Different) whose
/// children are built from the other side's entries when that side holds a directory of
/// the name; two directories give one directory node whose children are built from both
/// sides' entries below it, Identical exactly when all those children are.
pub open spec fn tree_ok(a: Seq<BatchFile>, ia: Seq<usize>, b: Seq<BatchFile>, ib: Seq<usize>, lvl: int, bound: int,
    cs: Seq<Seq<char>>, strategy: DiffStrategy, out: Seq<BatchNode>) -> bool
    decreases bound - lvl, cs.len(),
{
    if lvl >= bound || cs.len() == 0 {
        out.len() == 0
    } else {
        let c = cs.last();
        let sa = sub_of(a, ia, lvl, c);
        let sb = sub_of(b, ib, lvl, c);
        let fa = file_at(a, sa, lvl + 1);
        let fb = file_at(b, sb, lvl + 1);
        let g: int = if fa is Some && fb is Some {
            1
        } else if fa is Some {
            if sb.len() > 0 { 2 } else { 1 }
        } else if fb is Some {
            if sa.len() > 0 { 2 } else { 1 }
        } else {
            1
        };
        let m = out.len() - g;
        &&& out.len() >= g
        &&& tree_ok(a, ia, b, ib, lvl, bound, cs.drop_last(), strategy, out.take(m))
        &&& if fa is Some && fb is Some {
            file_node_ok(a[fa->0 as int], b[fb->0 as int], strategy, out[m])
        } else if fa is Some {
            &&& only_node_ok(out[m], BatchStatus::OnlyInA, Some(a[fa->0 as int].abs@), None)
            &&& (sb.len() > 0 ==> (opt_view(out[m + 1].path_a) == Some(c) && opt_view(out[m + 1].path_b) == Some(c)
                        && out[m + 1].status == BatchStatus::Different && out[m + 1].diffs is None
                        && tree_ok(a, Seq::empty(), b, sb, lvl + 1, bound, comps(a, Seq::empty(), b, sb, lvl + 1), strategy, out[m + 1].children@)))
        } else if fb is Some {
            &&& only_node_ok(out[m], BatchStatus::OnlyInB, None, Some(b[fb->0 as int].abs@))
            &&& (sa.len() > 0 ==> (opt_view(out[m + 1].path_a) == Some(c) && opt_view(out[m + 1].path_b) == Some(c)
                        && out[m + 1].status == BatchStatus::Different && out[m + 1].diffs is None
                        && tree_ok(a, sa, b, Seq::empty(), lvl + 1, bound, comps(a, sa, b, Seq::empty(), lvl + 1), strategy, out[m + 1].children@)))
        } else {
            &&& opt_view(out[m].path_a) == Some(c)
            &&& opt_view(out[m].path_b) == Some(c)
            &&& out[m].diffs is None
            &&& tree_ok(a, sa, b, sb, lvl + 1, bound, comps(a, sa, b, sb, lvl + 1), strategy, out[m].children@)
            &&& out[m].status == (if all_identical(out[m].children@) { BatchStatus::Identical } else { BatchStatus::Different })
        }
    }
}

pub open spec fn ids_ok(ids: Seq<usize>, n: int) -> bool {
    forall|k: int| 0 <= k < ids.len() ==> #[trigger] ids[k] < n
}

pub open spec fn max_depth(fs: Seq<BatchFile>) -> nat
    decreases fs.len(),
{
    if fs.len() == 0 {
        0
    } else {
        let d = max_depth(fs.drop_last());
        if fs.last().rel@.len() > d { fs.last().rel@.len() } else { d }
    }
}

pub open spec fn all_ids(n: int) -> Seq<usize> {
    Seq::new(n as nat, |i: int| i as usize)
}

/// `children` are the root's children for the walked trees `a` and `b`, node by node and
/// level by level down to the deepest path (`tree_ok`).
pub open spec fn tree_built(a: Seq<BatchFile>, b: Seq<BatchFile>, strategy: DiffStrategy, children: Seq<BatchNode>) -> bool {
    let bound = if max_depth(a) > max_depth(b) { max_depth(a) } else { max_depth(b) };
    let ia = all_ids(a.len() as int);
    let ib = all_ids(b.len() as int);
    tree_ok(a, ia, b, ib, 0, bound as int, comps(a, ia, b, ib, 0), strategy, children)
}

/// The children of the root for two walked trees, by shape.
pub open spec fn tree_shapes(a: Seq<BatchFile>, b: Seq<BatchFile>) -> Seq<(BatchStatus, Option<Seq<char>>, Option<Seq<char>>)> {
    let bound = if max_depth(a) > max_depth(b) { max_depth(a) } else { max_depth(b) };
    let ia = all_ids(a.len() as int);
    let ib = all_ids(b.len() as int);
    shapes_over(a, ia, b, ib, 0, bound as int, comps(a, ia, b, ib, 0))
}

fn contains_str(v: &Vec<String>, c: &String) -> (r: bool)
    ensures
        r == strs(v@).contains(c@),
{
    let mut i: usize = 0;
    while i < v.len()
        invariant
            i <= v.len(),
            forall|j: int| 0 <= j < i ==> (#[trigger] v@[j])@ != c@,
        decreases v.len() - i,
    {
        if v[i] == *c {
            assert(strs(v@)[i as int] == c@);
            return true;
        }
        i = i + 1;
    }
    assert forall|j: int| 0 <= j < strs(v@).len() implies strs(v@)[j] != c@ by {
        assert(v@[j]@ != c@);
    }
    false
}

fn push_firsts(fs: &[BatchFile], ids: &Vec<usize>, lvl: usize, acc: &mut Vec<String>)
    requires
        ids_ok(ids@, fs@.len() as int),
    ensures
        strs(final(acc)@) == firsts(fs@, ids@, lvl as int, strs(old(acc)@)),
{
    let n = ids.len();
    let mut k: usize = 0;
    assert(ids@.subrange(0, n as int) =~= ids@);
    while k < n
        invariant
            n == ids@.len(),
            k <= n,
            ids_ok(ids@, fs@.len() as int),
            firsts(fs@, ids@, lvl as int, strs(old(acc)@)) == firsts(fs@, ids@.subrange(k as int, n as int), lvl as int, strs(acc@)),
        decreases n - k,
    {
        let id = ids[k];
        let f = &fs[id];
        proof {
            assert(ids@.subrange(k as int, n as int).drop_first() =~= ids@.subrange(k + 1, n as int));
            assert(ids@.subrange(k as int, n as int)[0] == id);
        }
        if f.rel.len() > lvl {
            let c = &f.rel[lvl];
            if !contains_str(acc, c) {
                let ghost prev = strs(acc@);
                acc.push(c.clone());
                proof {
                    assert(strs(acc@) =~= prev.push(c@));
                }
            }
        }
        k = k + 1;
    }
    proof {
        assert(ids@.subrange(n as int, n as int).len() == 0);
    }
}

fn sub_ids(fs: &[BatchFile], ids: &Vec<usize>, lvl: usize, c: &String) -> (out: Vec<usize>)
    requires
        ids_ok(ids@, fs@.len() as int),
    ensures
        out@ == sub_of(fs@, ids@, lvl as int, c@),
        ids_ok(out@, fs@.len() as int),
{
    let n = ids.len();
    let mut out: Vec<usize> = Vec::new();
    let mut k: usize = 0;
    while k < n
        invariant
            n == ids@.len(),
            k <= n,
            ids_ok(ids@, fs@.len() as int),
            ids_ok(out@, fs@.len() as int),
            out@ == sub_of(fs@, ids@.take(k as int), lvl as int, c@),
        decreases n - k,
    {
        let id = ids[k];
        proof {
            assert(ids@.take(k + 1).drop_last() =~= ids@.take(k as int));
            assert(ids@.take(k + 1).last() == id);
        }
        let f = &fs[id];
        if f.rel.len() > lvl && f.rel[lvl] == *c {
            out.push(id);
        }
        k = k + 1;
    }
    proof {
        assert(ids@.take(n as int) =~= ids@);
    }
    out
}

fn file_at_exec(fs: &[BatchFile], ids: &Vec<usize>, lvl: usize) -> (r: Option<usize>)
    requires
        ids_ok(ids@, fs@.len() as int),
    ensures
        r == file_at(fs@, ids@, lvl as int),
        r matches Some(x) ==> x < fs@.len(),
{
    let n = ids.len();
    let mut k: usize = 0;
    assert(ids@.subrange(0, n as int) =~= ids@);
    while k < n
        invariant
            n == ids@.len(),
            k <= n,
            ids_ok(ids@, fs@.len() as int),
            file_at(fs@, ids@, lvl as int) == file_at(fs@, ids@.subrange(k as int, n as int), lvl as int),
        decreases n - k,
    {
        let id = ids[k];
        proof {
            assert(ids@.subrange(k as int, n as int).drop_first() =~= ids@.subrange(k + 1, n as int));
            assert(ids@.subrange(k as int, n as int)[0] == id);
        }
        if fs[id].rel.len() == lvl {
            return Some(id);
        }
        k = k + 1;
    }
    None
}

proof fn lemma_all_identical(ch: Seq<BatchNode>)
    ensures
        all_identical(ch) == all_ident(shapes(ch)),
{
    if all_identical(ch) {
        assert forall|i: int| 0 <= i < shapes(ch).len() implies (#[trigger] shapes(ch)[i]).0 == BatchStatus::Identical by {
            assert(ch[i].status == BatchStatus::Identical);
        }
    }
    if all_ident(shapes(ch)) {
        assert forall|i: int| 0 <= i < ch.len() implies (#[trigger] ch[i]).status == BatchStatus::Identical by {
            assert(shapes(ch)[i].0 == BatchStatus::Identical);
        }
    }
}

/// The nodes for the entries `ia` / `ib` at depth `lvl`, directories built recursively.
fn build_children(a: &[BatchFile], ia: &Vec<usize>, b: &[BatchFile], ib: &Vec<usize>, lvl: usize, bound: usize, strategy: DiffStrategy) -> (out: Vec<BatchNode>)
    requires
        ids_ok(ia@, a@.len() as int),
        ids_ok(ib@, b@.len() as int),
        forall|i: int| 0 <= i < a@.len() ==> batch_ok(#[trigger] a@[i], strategy),
        forall|i: int| 0 <= i < b@.len() ==> batch_ok(#[trigger] b@[i], strategy),
    ensures
        shapes(out@) == shapes_over(a@, ia@, b@, ib@, lvl as int, bound as int, comps(a@, ia@, b@, ib@, lvl as int)),
        tree_ok(a@, ia@, b@, ib@, lvl as int, bound as int, comps(a@, ia@, b@, ib@, lvl as int), strategy, out@),
    decreases bound - lvl,
{
    let mut out: Vec<BatchNode> = Vec::new();
    if lvl >= bound {
        assert(shapes(out@) =~= Seq::empty());
        return out;
    }
    let mut cs: Vec<String> = Vec::new();
    push_firsts(a, ia, lvl, &mut cs);
    push_firsts(b, ib, lvl, &mut cs);
    proof {
        assert(strs(Seq::<String>::empty()) =~= Seq::<Seq<char>>::empty());
    }
    let ghost all_cs = strs(cs@);
    let n = cs.len();
    let mut k: usize = 0;
    while k < n
        invariant
            n == cs@.len(),
            k <= n,
            lvl < bound,
            all_cs == strs(cs@),
            all_cs == comps(a@, ia@, b@, ib@, lvl as int),
            ids_ok(ia@, a@.len() as int),
            ids_ok(ib@, b@.len() as int),
            forall|i: int| 0 <= i < a@.len() ==> batch_ok(#[trigger] a@[i], strategy),
            forall|i: int| 0 <= i < b@.len() ==> batch_ok(#[trigger] b@[i], strategy),
            shapes(out@) == shapes_over(a@, ia@, b@, ib@, lvl as int, bound as int, all_cs.take(k as int)),
            tree_ok(a@, ia@, b@, ib@, lvl as int, bound as int, all_cs.take(k as int), strategy, out@),
        decreases n - k,
    {
        let c = &cs[k];
        let sa = sub_ids(a, ia, lvl, c);
        let sb = sub_ids(b, ib, lvl, c);
        let fa = file_at_exec(a, &sa, lvl + 1);
        let fb = file_at_exec(b, &sb, lvl + 1);
        let ghost prev = shapes(out@);
        let ghost prev_nodes = out@;
        proof {
            assert(all_cs.take(k + 1).drop_last() =~= all_cs.take(k as int));
            assert(all_cs.take(k + 1).last() == c@);
        }
        match fa {
            Some(x) => match fb {
                Some(y) => {
                    let (status, diffs) = compare_files(a[x].file.as_ref(), b[y].file.as_ref(), strategy);
                    assert(batch_ok(a@[x as int], strategy) && batch_ok(b@[y as int], strategy));
                    let node = BatchNode { path_a: Some(a[x].abs.clone()), path_b: Some(b[y].abs.clone()), status, diffs, children: Vec::new() };
                    assert(node.status == file_status(a@[x as int], b@[y as int]));
                    out.push(node);
                    assert(shapes(out@) =~= prev + seq![shape(node)]);
                },
                None => {
                    let node = BatchNode { path_a: Some(a[x].abs.clone()), path_b: None, status: BatchStatus::OnlyInA, diffs: None, children: Vec::new() };
                    out.push(node);
                    assert(shapes(out@) =~= prev + seq![shape(node)]);
                    if sb.len() > 0 {
                        let empty: Vec<usize> = Vec::new();
                        let ch = build_children(a, &empty, b, &sb, lvl + 1, bound, strategy);
                        let mut dir = dir_node(c);
                        dir.children = ch;
                        out.push(dir);
                        assert(shapes(out@) =~= prev + seq![shape(node)] + seq![shape(dir)]);
                    }
                },
            },
            None => match fb {
                Some(y) => {
                    let node = BatchNode { path_a: None, path_b: Some(b[y].abs.clone()), status: BatchStatus::OnlyInB, diffs: None, children: Vec::new() };
                    out.push(node);
                    assert(shapes(out@) =~= prev + seq![shape(node)]);
                    if sa.len() > 0 {
                        let empty: Vec<usize> = Vec::new();
                        let ch = build_children(a, &sa, b, &empty, lvl + 1, bound, strategy);
                        let mut dir = dir_node(c);
                        dir.children = ch;
                        out.push(dir);
                        assert(shapes(out@) =~= prev + seq![shape(node)] + seq![shape(dir)]);
                    }
                },
                None => {
                    let ch = build_children(a, &sa, b, &sb, lvl + 1, bound, strategy);
                    let mut dir = dir_node(c);
                    dir.children = ch;
                    finalize_dir(&mut dir);
                    proof {
                        lemma_all_identical(dir.children@);
                    }
                    out.push(dir);
                    assert(shapes(out@) =~= prev + seq![shape(dir)]);
                },
            },
        }
        proof {
            let t = all_cs.take(k + 1);
            let m = prev_nodes.len() as int;
            assert(t.drop_last() =~= all_cs.take(k as int));
            assert(t.last() == c@);
            assert(out@.take(m) =~= prev_nodes);
        }
        k = k + 1;
    }
    proof {
        assert(all_cs.take(n as int) =~= all_cs);
    }
    out
}

fn max_depth_exec(fs: &[BatchFile]) -> (d: usize)
    ensures
        d == max_depth(fs@),
{
    let n = fs.len();
    let mut d: usize = 0;
    let mut k: usize = 0;
    while k < n
        invariant
            n == fs@.len(),
            k <= n,
            d == max_depth(fs@.take(k as int)),
        decreases n - k,
    {
        proof {
            assert(fs@.take(k + 1).drop_last() =~= fs@.take(k as int));
        }
        if fs[k].rel.len() > d {
            d = fs[k].rel.len();
        }
        k = k + 1;
    }
    proof {
        assert(fs@.take(n as int) =~= fs@);
    }
    d
}

fn index_list(n: usize) -> (v: Vec<usize>)
    ensures
        v@ == all_ids(n as int),
{
    let mut v: Vec<usize> = Vec::new();
    let mut i: usize = 0;
    while i < n
        invariant
            i <= n,
            v@ == all_ids(i as int),
        decreases n - i,
    {
        v.push(i);
        i = i + 1;
        assert(v@ =~= all_ids(i as int));
    }
    v
}

/// Compares two directory trees.
pub trait BatchComparator {
    /// Compares two walked directory trees. Files are matched by relative path, each placed
    /// as one leaf at its place in the mirrored tree with its diff (`tree_built`); the root
    /// (named by `root_a` / `root_b`) is Identical only when every child is, including when
    /// both trees are empty.
    fn compare_trees(root_a: String, root_b: String, a: &[BatchFile], b: &[BatchFile], strategy: DiffStrategy) -> (r: BatchNode)
        requires
            forall|i: int| 0 <= i < a@.len() ==> batch_ok(#[trigger] a@[i], strategy),
            forall|i: int| 0 <= i < b@.len() ==> batch_ok(#[trigger] b@[i], strategy),
        ensures
            r.path_a == Some(root_a),
            r.path_b == Some(root_b),
            r.diffs is None,
            shapes(r.children@) == tree_shapes(a@, b@),
            tree_built(a@, b@, strategy, r.children@),
            r.status == (if all_ident(tree_shapes(a@, b@)) { BatchStatus::Identical } else { BatchStatus::Different }),
    ;
}

/// Compares file pairs with the diff engine and builds the tree that mirrors the directories.
pub struct DefaultBatchComparator;

impl BatchComparator for DefaultBatchComparator {
    fn compare_trees(root_a: String, root_b: String, a: &[BatchFile], b: &[BatchFile], strategy: DiffStrategy) -> (r: BatchNode) {
        let da = max_depth_exec(a);
        let db = max_depth_exec(b);
        let bound = if da > db { da } else { db };
        let ia = index_list(a.len());
        let ib = index_list(b.len());
        let ch = build_children(a, &ia, b, &ib, 0, bound, strategy);
        let mut root = BatchNode { path_a: Some(root_a), path_b: Some(root_b), status: BatchStatus::Different, diffs: None, children: ch };
        finalize_dir(&mut root);
        proof {
            lemma_all_identical(root.children@);
        }
        root
    }
}

/// Two entries for the same relative path whose contents were both loaded and agree.
pub open spec fn mirrored(x: BatchFile, y: BatchFile) -> bool {
    &&& x.rel@.len() == y.rel@.len()
    &&& forall|j: int| 0 <= j < x.rel@.len() ==> (#[trigger] x.rel@[j])@ == y.rel@[j]@
    &&& x.file matches Some(p)
    &&& y.file matches Some(q)
    &&& p.data@ == q.data@
}

proof fn lemma_sub_mirror(a: Seq<BatchFile>, b: Seq<BatchFile>, ids: Seq<usize>, lvl: int, c: Seq<char>)
    requires
        0 <= lvl,
        a.len() == b.len(),
        ids_ok(ids, a.len() as int),
        forall|i: int| 0 <= i < a.len() ==> mirrored(#[trigger] a[i], b[i]),
    ensures
        sub_of(a, ids, lvl, c) == sub_of(b, ids, lvl, c),
        ids_ok(sub_of(a, ids, lvl, c), a.len() as int),
    decreases ids.len(),
{
    if ids.len() > 0 {
        lemma_sub_mirror(a, b, ids.drop_last(), lvl, c);
        let i = ids.last() as int;
        assert(ids[ids.len() - 1] < a.len());
        assert(mirrored(a[i], b[i]));
        if deeper(a[i], lvl) {
            assert(a[i].rel@[lvl]@ == b[i].rel@[lvl]@);
        }
        let r = sub_of(a, ids, lvl, c);
        assert forall|k: int| 0 <= k < r.len() implies #[trigger] r[k] < a.len() by {
            let p = sub_of(a, ids.drop_last(), lvl, c);
            if k < p.len() {
                assert(p[k] < a.len());
            }
        }
    }
}

proof fn lemma_file_at_mirror(a: Seq<BatchFile>, b: Seq<BatchFile>, ids: Seq<usize>, lvl: int)
    requires
        a.len() == b.len(),
        ids_ok(ids, a.len() as int),
        forall|i: int| 0 <= i < a.len() ==> mirrored(#[trigger] a[i], b[i]),
    ensures
        file_at(a, ids, lvl) == file_at(b, ids, lvl),
        file_at(a, ids, lvl) matches Some(x) ==> x < a.len(),
    decreases ids.len(),
{
    if ids.len() > 0 {
        assert(ids[0] < a.len());
        assert(mirrored(a[ids[0] as int], b[ids[0] as int]));
        assert(ids_ok(ids.drop_first(), a.len() as int)) by {
            assert forall|k: int| 0 <= k < ids.drop_first().len() implies #[trigger] ids.drop_first()[k] < a.len() by {
                assert(ids[k + 1] < a.len());
            }
        }
        lemma_file_at_mirror(a, b, ids.drop_first(), lvl);
    }
}

proof fn lemma_mirror_shapes(a: Seq<BatchFile>, b: Seq<BatchFile>, ids: Seq<usize>, lvl: int, bound: int, cs: Seq<Seq<char>>)
    requires
        0 <= lvl,
        a.len() == b.len(),
        ids_ok(ids, a.len() as int),
        forall|i: int| 0 <= i < a.len() ==> mirrored(#[trigger] a[i], b[i]),
    ensures
        all_ident(shapes_over(a, ids, b, ids, lvl, bound, cs)),
    decreases bound - lvl, cs.len(),
{
    if lvl < bound && cs.len() > 0 {
        lemma_mirror_shapes(a, b, ids, lvl, bound, cs.drop_last());
        let c = cs.last();
        lemma_sub_mirror(a, b, ids, lvl, c);
        let sa = sub_of(a, ids, lvl, c);
        lemma_file_at_mirror(a, b, sa, lvl + 1);
        let fa = file_at(a, sa, lvl + 1);
        let prev = shapes_over(a, ids, b, ids, lvl, bound, cs.drop_last());
        let whole = shapes_over(a, ids, b, ids, lvl, bound, cs);
        if fa is Some {
            let x = fa->0 as int;
            assert(mirrored(a[x], b[x]));
            assert(file_status(a[x], b[x]) == BatchStatus::Identical);
        } else {
            lemma_mirror_shapes(a, b, sa, lvl + 1, bound, comps(a, sa, b, sa, lvl + 1));
        }
        assert forall|i: int| 0 <= i < whole.len() implies (#[trigger] whole[i]).0 == BatchStatus::Identical by {
            if i < prev.len() {
                assert(prev[i].0 == BatchStatus::Identical);
            }
        }
    }
}

/// Two walked trees that hold the same relative paths, entry for entry, with contents that
/// were loaded and agree, compare Identical: every node under the root is Identical, and so
/// is the root.
pub proof fn law_mirrored_trees_identical(a: Seq<BatchFile>, b: Seq<BatchFile>)
    requires
        a.len() == b.len(),
        forall|i: int| 0 <= i < a.len() ==> mirrored(#[trigger] a[i], b[i]),
    ensures
        all_ident(tree_shapes(a, b)),
{
    let ia = all_ids(a.len() as int);
    assert(all_ids(b.len() as int) =~= ia);
    let bound = if max_depth(a) > max_depth(b) { max_depth(a) } else { max_depth(b) };
    lemma_mirror_shapes(a, b, ia, 0, bound as int, comps(a, ia, b, ia, 0));
}

} // verus!
