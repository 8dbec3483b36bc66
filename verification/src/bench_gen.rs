//! Benchmark inputs with known answers: a deterministic xorshift64 generator, synthetic
//! firmware-like data, and transforms that record which bytes really changed.

use std::collections::HashSet;
use std::ops::Range;
use vstd::prelude::*;
use crate::util::{copy_range, extend};

verus! {

broadcast use vstd::std_specs::hash::group_hash_axioms;

/// xorshift64 generator (deterministic).
pub struct Rng(pub u64);

/// One xorshift64 step (shifts 13, 7, 17).
pub open spec fn xorshift(x: u64) -> u64 {
    let a = x ^ (x << 13u64);
    let b = a ^ (a >> 7u64);
    b ^ (b << 17u64)
}

impl Rng {
    /// A generator seeded with `seed` (0 is replaced by 1, which xorshift needs).
    pub fn new(seed: u64) -> (r: Rng)
        ensures
            r.0 == if seed > 1 { seed } else { 1 },
    {
        Rng(if seed > 1 { seed } else { 1 })
    }

    /// The next state, which is also the output.
    pub fn next(&mut self) -> (x: u64)
        ensures
            x == xorshift(old(self).0),
            final(self).0 == x,
    {
        let mut x = self.0;
        x = x ^ (x << 13u64);
        x = x ^ (x >> 7u64);
        x = x ^ (x << 17u64);
        self.0 = x;
        x
    }

    /// A byte: bits 32..40 of the next output.
    pub fn byte(&mut self) -> (b: u8)
        ensures
            b == ((xorshift(old(self).0) >> 32u64) as u8),
            final(self).0 == xorshift(old(self).0),
    {
        (self.next() >> 32u64) as u8
    }

    /// The next output modulo `n`.
    pub fn range(&mut self, n: u64) -> (v: u64)
        requires
            n > 0,
        ensures
            v == xorshift(old(self).0) % n,
            final(self).0 == xorshift(old(self).0),
    {
        self.next() % n
    }
}

/// Pushes `v`; tells whether the output has reached `total` bytes.
fn push_until(out: &mut Vec<u8>, v: u8, total: usize) -> (full: bool)
    requires
        old(out)@.len() <= total,
    ensures
        final(out)@ == old(out)@.push(v),
        full == (final(out)@.len() >= total),
{
    out.push(v);
    out.len() >= total
}

/// `n` generator bytes from state `x`, and the state after them.
pub open spec fn rng_bytes(x: u64, n: nat) -> (Seq<u8>, u64)
    decreases n,
{
    if n == 0 {
        (Seq::empty(), x)
    } else {
        let (s, y) = rng_bytes(x, (n - 1) as nat);
        let z = xorshift(y);
        (s.push((z >> 32u64) as u8), z)
    }
}

/// One function block of the firmware stream, starting at output offset `pos` with
/// generator state `x`: four 0x55 bytes, a body of `32 + x1 % 96` generator bytes (`x1` the
/// next state), 0xC3, zeros up to the next multiple of 16, then sixteen 0xCC bytes when the
/// next output is a multiple of 8. Returns the bytes and the generator state after them.
pub open spec fn fw_block(x: u64, pos: int) -> (Seq<u8>, u64) {
    let x1 = xorshift(x);
    let (body, x2) = rng_bytes(x1, (32 + x1 % 96) as nat);
    let head = seq![0x55u8, 0x55u8, 0x55u8, 0x55u8] + body + seq![0xC3u8];
    let end = pos + head.len();
    let pad = if end % 16 == 0 { 0int } else { 16 - end % 16 };
    let x3 = xorshift(x2);
    (head + Seq::new(pad as nat, |i: int| 0u8) + (if x3 % 8 == 0 { Seq::new(16, |i: int| 0xCCu8) } else { Seq::empty() }), x3)
}

/// The first `n` blocks of the firmware stream of a generator started at `x`, and the
/// generator state after them.
pub open spec fn fw_prefix(x: u64, n: nat) -> (Seq<u8>, u64)
    decreases n,
{
    if n == 0 {
        (Seq::empty(), x)
    } else {
        let (s, y) = fw_prefix(x, (n - 1) as nat);
        let (blk, z) = fw_block(y, s.len() as int);
        (s + blk, z)
    }
}

/// The seed as the generator uses it.
pub open spec fn rng_seed(seed: u64) -> u64 {
    if seed > 1 { seed } else { 1 }
}

/// The first `total` bytes of the firmware stream of `seed`.
pub open spec fn firmware_spec(seed: u64, total: nat) -> Seq<u8> {
    fw_prefix(rng_seed(seed), total + 1).0.take(total as int)
}

proof fn lemma_rng_bytes(x: u64, n: nat, j: nat)
    requires
        j < n,
    ensures
        rng_bytes(x, n).0.len() == n,
        rng_bytes(x, n).0[j as int] == (xorshift(rng_bytes(x, j).1) >> 32u64) as u8,
    decreases n,
{
    if j + 1 < n {
        lemma_rng_bytes(x, (n - 1) as nat, j);
    } else {
        lemma_rng_len(x, (n - 1) as nat);
    }
}

proof fn lemma_rng_len(x: u64, n: nat)
    ensures
        rng_bytes(x, n).0.len() == n,
    decreases n,
{
    if n > 0 {
        lemma_rng_len(x, (n - 1) as nat);
    }
}

/// The bytes of a firmware block, part by part.
proof fn lemma_fw_block_bytes(x: u64, pos: int)
    ensures
        ({
            let blk = fw_block(x, pos).0;
            let x1 = xorshift(x);
            let n = 32 + x1 % 96;
            let end = pos + 4 + n + 1;
            let pad = if end % 16 == 0 { 0int } else { 16 - end % 16 };
            let sled = xorshift(rng_bytes(x1, n as nat).1) % 8 == 0;
            &&& blk.len() == 4 + n + 1 + pad + if sled { 16int } else { 0int }
            &&& forall|i: int| 0 <= i < 4 ==> blk[i] == 0x55u8
            &&& forall|j: int| 0 <= j < n ==> #[trigger] blk[4 + j] == rng_bytes(x1, n as nat).0[j]
            &&& blk[4 + n] == 0xC3u8
            &&& forall|i: int| 4 + n + 1 <= i < 4 + n + 1 + pad ==> #[trigger] blk[i] == 0u8
            &&& forall|i: int| 4 + n + 1 + pad <= i < blk.len() ==> #[trigger] blk[i] == 0xCCu8
            &&& fw_block(x, pos).1 == xorshift(rng_bytes(x1, n as nat).1)
        }),
{
    let x1 = xorshift(x);
    let n = 32 + x1 % 96;
    lemma_rng_len(x1, n as nat);
    let body = rng_bytes(x1, n as nat).0;
    let head = seq![0x55u8, 0x55u8, 0x55u8, 0x55u8] + body + seq![0xC3u8];
    let end = pos + head.len();
    let pad = if end % 16 == 0 { 0int } else { 16 - end % 16 };
    let x3 = xorshift(rng_bytes(x1, n as nat).1);
    let ps = Seq::new(pad as nat, |i: int| 0u8);
    let ss = if x3 % 8 == 0 { Seq::new(16, |i: int| 0xCCu8) } else { Seq::<u8>::empty() };
    let blk = fw_block(x, pos).0;
    assert(blk == head + ps + ss);
    assert forall|j: int| 0 <= j < n implies #[trigger] blk[4 + j] == body[j] by {
        assert(head[4 + j] == body[j]);
    }
    assert(head[4 + n] == 0xC3u8);
}

/// Blocks are never empty, and a shorter prefix of the stream is a prefix of a longer one.
proof fn lemma_fw_prefix(x: u64, n: nat, m: nat)
    requires
        n <= m,
    ensures
        fw_prefix(x, m).0.len() >= fw_prefix(x, n).0.len(),
        fw_prefix(x, m).0.take(fw_prefix(x, n).0.len() as int) == fw_prefix(x, n).0,
        fw_prefix(x, m).0.len() >= m,
    decreases m,
{
    if m > 0 {
        let (s, y) = fw_prefix(x, (m - 1) as nat);
        let (blk, z) = fw_block(y, s.len() as int);
        assert(blk.len() >= 1);
        if n < m {
            lemma_fw_prefix(x, n, (m - 1) as nat);
            let sn = fw_prefix(x, n).0;
            assert((s + blk).take(sn.len() as int) =~= s.take(sn.len() as int));
        } else {
            lemma_fw_prefix(x, 0, (m - 1) as nat);
            assert((s + blk).take((s + blk).len() as int) =~= s + blk);
        }
    } else {
        assert(fw_prefix(x, 0).0.take(0) =~= fw_prefix(x, 0).0);
    }
}

/// The firmware of `n` bytes is the first `n` bytes of the firmware of any `m >= n` bytes
/// of the same seed, and it starts with four 0x55 bytes when it has at least four.
pub proof fn law_firmware_prefix(seed: u64, n: nat, m: nat)
    requires
        n <= m,
    ensures
        firmware_spec(seed, n).len() == n,
        firmware_spec(seed, n) == firmware_spec(seed, m).take(n as int),
        n >= 4 ==> firmware_spec(seed, n).take(4) == seq![0x55u8, 0x55u8, 0x55u8, 0x55u8],
{
    let x = rng_seed(seed);
    lemma_fw_prefix(x, n + 1, m + 1);
    lemma_fw_prefix(x, 0, n + 1);
    let sn = fw_prefix(x, n + 1).0;
    let sm = fw_prefix(x, m + 1).0;
    assert(sn.take(n as int) =~= sm.take(m as int).take(n as int));
    if n >= 4 {
        lemma_fw_prefix(x, 1, n + 1);
        let s1 = fw_prefix(x, 1).0;
        assert(fw_prefix(x, 0).0 =~= Seq::<u8>::empty());
        assert(s1.take(4) =~= seq![0x55u8, 0x55u8, 0x55u8, 0x55u8]);
        assert(sn.take(n as int).take(4) =~= s1.take(4));
    }
}

/// Firmware-like data of exactly `total` bytes: function blocks (four 0x55 bytes, a random
/// body of 32..=127 bytes, 0xC3), zero padding to 16-byte alignment, and now and then a
/// 16-byte 0xCC sled.
#[verifier::rlimit(40)]
pub fn gen_firmware(seed: u64, total: usize) -> (out: Vec<u8>)
    requires
        total < usize::MAX,
    ensures
        out@.len() == total,
        out@ == firmware_spec(seed, total as nat),
{
    let mut rng = Rng::new(seed);
    let mut out: Vec<u8> = Vec::new();
    let mut done = false;
    let ghost x0 = rng.0;
    let ghost mut nb: nat = 0;
    while !done
        invariant
            !done ==> out@.len() <= total,
            out@.len() <= total + 1,
            done ==> out@.len() >= total,
            total < usize::MAX,
            x0 == rng_seed(seed),
            !done ==> out@ == fw_prefix(x0, nb).0 && rng.0 == fw_prefix(x0, nb).1,
            done ==> out@.len() <= fw_prefix(x0, nb).0.len() && out@ == fw_prefix(x0, nb).0.take(out@.len() as int),
            nb <= out@.len(),
        decreases total + 2 - out@.len(),
    {
        let ghost start = out@.len();
        let ghost sp = out@;
        let ghost xs = rng.0;
        let ghost blk = fw_block(xs, start as int).0;
        let ghost x1 = xorshift(xs);
        let ghost body_n: nat = (32 + x1 % 96) as nat;
        proof {
            lemma_rng_len(x1, body_n);
            lemma_fw_block_bytes(xs, start as int);
            assert(fw_prefix(x0, nb + 1).0 == sp + blk);
        }
        let mut k: usize = 0;
        while k < 4 && !done
            invariant
                !done ==> out@.len() < total || (k == 0 && out@.len() <= total),
                out@.len() <= total + 1,
                done ==> out@.len() >= total,
                out@.len() == start + k,
                k <= 4,
                done ==> k >= 1,
                blk == fw_block(xs, start as int).0,
                blk.len() >= 4 + body_n + 1,
                out@ == sp + blk.take(k as int),
                rng.0 == xs,
            decreases 4 - k,
        {
            proof {
                assert(blk[k as int] == 0x55u8);
            }
            done = push_until(&mut out, 0x55, total);
            k = k + 1;
            assert(out@ =~= sp + blk.take(k as int));
        }
        assert(out@.len() > start);
        if !done {
            let body = 32 + rng.range(96) as usize;
            let mut j: usize = 0;
            while j < body && !done
                invariant
                    !done ==> out@.len() < total,
                    out@.len() <= total + 1,
                    done ==> out@.len() >= total,
                    out@.len() > start,
                    body == body_n,
                    j <= body,
                    out@.len() == start + 4 + j,
                    out@ == sp + blk.take(4 + j),
                    rng.0 == rng_bytes(x1, j as nat).1,
                    blk == fw_block(xs, start as int).0,
                    x1 == xorshift(xs),
                    body_n == 32 + x1 % 96,
                    blk.len() >= 4 + body_n + 1,
                decreases body - j,
            {
                let v = rng.byte();
                proof {
                    lemma_rng_bytes(x1, body_n, j as nat);
                    lemma_fw_block_bytes(xs, start as int);
                    assert(blk[4 + j] == v);
                }
                done = push_until(&mut out, v, total);
                j = j + 1;
                assert(out@ =~= sp + blk.take(4 + j));
            }
        }
        if !done {
            proof {
                assert(blk[4 + body_n as int] == 0xC3u8);
            }
            out.push(0xC3);
            assert(out@ =~= sp + blk.take(4 + body_n as int + 1));
            let ghost pad_n: int = {
                let end = start + 4 + body_n + 1;
                if end % 16 == 0 { 0int } else { 16 - end % 16 }
            };
            while out.len() % 16 != 0 && !done
                invariant
                    !done ==> out@.len() <= total,
                    out@.len() <= total + 1,
                    done ==> out@.len() >= total,
                    out@.len() > start,
                    start + 4 + body_n + 1 <= out@.len() <= start + 4 + body_n + 1 + pad_n,
                    !done ==> (out@.len() % 16 == 0 <==> out@.len() == start + 4 + body_n + 1 + pad_n),
                    pad_n == (if (start + 4 + body_n + 1) % 16 == 0 { 0int } else { 16 - (start + 4 + body_n + 1) % 16 }),
                    out@ == sp + blk.take(out@.len() - start),
                    blk == fw_block(xs, start as int).0,
                    blk.len() >= 4 + body_n + 1 + pad_n,
                    rng.0 == rng_bytes(x1, body_n).1,
                    x1 == xorshift(xs),
                    body_n == 32 + x1 % 96,
                decreases total + 1 - out@.len(),
            {
                proof {
                    lemma_fw_block_bytes(xs, start as int);
                    assert(blk[out@.len() - start] == 0u8);
                }
                let ghost l0 = out@.len();
                done = push_until(&mut out, 0x00, total);
                assert(out@ =~= sp + blk.take(out@.len() - start));
            }
            if !done {
                let r8 = rng.range(8);
                if r8 == 0 {
                    let mut t: usize = 0;
                    while t < 16 && !done
                        invariant
                            !done ==> out@.len() <= total,
                            out@.len() <= total + 1,
                            done ==> out@.len() >= total,
                            out@.len() > start,
                            t <= 16,
                            out@.len() == start + 4 + body_n + 1 + pad_n + t,
                            out@ == sp + blk.take(out@.len() - start),
                            blk == fw_block(xs, start as int).0,
                            blk.len() == 4 + body_n + 1 + pad_n + 16,
                            x1 == xorshift(xs),
                            body_n == 32 + x1 % 96,
                            pad_n == (if (start + 4 + body_n + 1) % 16 == 0 { 0int } else { 16 - (start + 4 + body_n + 1) % 16 }),
                        decreases 16 - t,
                    {
                        proof {
                            lemma_fw_block_bytes(xs, start as int);
                            assert(blk[out@.len() - start] == 0xCCu8);
                        }
                        done = push_until(&mut out, 0xCC, total);
                        t = t + 1;
                        assert(out@ =~= sp + blk.take(out@.len() - start));
                    }
                } else {
                    assert(blk.len() == 4 + body_n + 1 + pad_n);
                }
                proof {
                    if !done {
                        assert(out@ =~= sp + blk);
                    }
                }
            }
        }
        proof {
            assert(fw_prefix(x0, nb + 1).0 == sp + blk);
            assert(fw_prefix(x0, nb + 1).1 == fw_block(xs, start as int).1);
            nb = nb + 1;
            if done {
                assert(out@.len() - start <= blk.len());
                assert(out@ =~= fw_prefix(x0, nb).0.take(out@.len() as int));
            }
        }
    }
    out.truncate(total);
    proof {
        lemma_fw_prefix(x0, nb, total as nat + 1);
        let sf = fw_prefix(x0, total as nat + 1).0;
        let sn = fw_prefix(x0, nb).0;
        assert(out@ =~= sf.take(total as int));
    }
    out
}

} // verus!

verus! {

/// Known answer of a transform: the byte offsets of the real differences in the old file A
/// and in the new file B, and B itself.
pub struct Truth {
    pub a_truth: HashSet<u64>,
    pub b_truth: HashSet<u64>,
    pub b: Vec<u8>,
}

pub open spec fn range_set(s: int, e: int) -> Set<u64> {
    Set::new(|i: u64| s <= i < e)
}

/// Marks every offset of `r`.
pub fn mark(set: &mut HashSet<u64>, r: Range<u64>)
    ensures
        final(set)@ == old(set)@.union(range_set(r.start as int, r.end as int)),
{
    let mut i = r.start;
    while i < r.end
        invariant
            r.start <= i <= r.end || (r.start > r.end && i == r.start),
            set@ == old(set)@.union(range_set(r.start as int, i as int)),
        decreases r.end - i,
    {
        set.insert(i);
        i = i + 1;
        assert(set@ =~= old(set)@.union(range_set(r.start as int, i as int)));
    }
    assert(set@ =~= old(set)@.union(range_set(r.start as int, r.end as int)));
}

/// `n` point modifications of `a` drawn from generator state `x`: each draws a length
/// `1 + r % maxlen`, then a position `r % (len(a) - length)`, then that many generator bytes
/// which overwrite the bytes there. Returns the bytes, the set of rewritten offsets (the
/// union of the runs) and the generator state after them.
pub open spec fn point_runs(a: Seq<u8>, x: u64, maxlen: u64, n: nat) -> (Seq<u8>, Set<u64>, u64)
    decreases n,
{
    if n == 0 {
        (a, Set::empty(), x)
    } else {
        let (b, s, y) = point_runs(a, x, maxlen, (n - 1) as nat);
        let y1 = xorshift(y);
        let len = 1 + y1 % maxlen;
        let y2 = xorshift(y1);
        let pos = y2 % ((a.len() - len) as u64);
        let (v, y3) = rng_bytes(y2, len as nat);
        (b.subrange(0, pos as int) + v + b.subrange(pos + len, b.len() as int), s.union(range_set(pos as int, pos + len)), y3)
    }
}

proof fn lemma_point_runs(a: Seq<u8>, x: u64, maxlen: u64, n: nat)
    requires
        maxlen > 0,
        a.len() > maxlen,
        a.len() <= u64::MAX,
    ensures
        point_runs(a, x, maxlen, n).0.len() == a.len(),
        n > 0 ==> !point_runs(a, x, maxlen, n).1.is_empty(),
    decreases n,
{
    if n > 0 {
        lemma_point_runs(a, x, maxlen, (n - 1) as nat);
        let (b, s, y) = point_runs(a, x, maxlen, (n - 1) as nat);
        let y1 = xorshift(y);
        let len = 1 + y1 % maxlen;
        let y2 = xorshift(y1);
        let pos = y2 % ((a.len() - len) as u64);
        lemma_rng_len(y2, len as nat);
        assert(len <= maxlen);
        assert(((a.len() - len) as u64) as int == a.len() - len);
        assert(pos < a.len() - len);
        assert(range_set(pos as int, pos + len).contains(pos));
        assert(point_runs(a, x, maxlen, n).1.contains(pos));
    }
}

/// Point modifications: `n` spots, each of 1..=`maxlen` bytes rewritten with random
/// values. Offsets do not move; both sides mark the rewritten bytes.
#[verifier::rlimit(40)]
pub fn t_point(a: &[u8], seed: u64, n: usize, maxlen: u64) -> (t: Truth)
    requires
        maxlen > 0,
        a@.len() > maxlen,
    ensures
        t.b@.len() == a@.len(),
        t.a_truth@ == t.b_truth@,
        t.b@ == point_runs(a@, rng_seed(seed), maxlen, n as nat).0,
        t.b_truth@ == point_runs(a@, rng_seed(seed), maxlen, n as nat).1,
        n > 0 ==> !t.b_truth@.is_empty(),
        forall|i: u64| #[trigger] t.b_truth@.contains(i) ==> i < a@.len(),
        forall|i: int| 0 <= i < a@.len() && !t.b_truth@.contains(i as u64) ==> t.b@[i] == a@[i],
        unmarked(a@, t.a_truth@) == unmarked(t.b@, t.b_truth@),
{
    let mut rng = Rng::new(seed);
    let ghost x0 = rng.0;
    let mut b = copy_range(a, 0, a.len());
    assert(a@.subrange(0, a@.len() as int) =~= a@);
    let mut at: HashSet<u64> = HashSet::new();
    let mut bt: HashSet<u64> = HashSet::new();
    let alen: usize = a.len();
    let la = alen as u64;
    let mut k: usize = 0;
    proof {
        assert(bt@ =~= Set::<u64>::empty());
    }
    while k < n
        invariant
            la == a@.len(),
            a@.len() == alen,
            la > maxlen,
            maxlen > 0,
            k <= n,
            b@.len() == a@.len(),
            at@ == bt@,
            forall|i: u64| #[trigger] bt@.contains(i) ==> i < la,
            forall|i: int| 0 <= i < a@.len() && !bt@.contains(i as u64) ==> b@[i] == a@[i],
            (b@, bt@, rng.0) == point_runs(a@, x0, maxlen, k as nat),
        decreases n - k,
    {
        let ghost b0 = b@;
        let ghost s0 = bt@;
        let len = 1 + rng.range(maxlen);
        let ghost y2x = rng.0;
        let pos = rng.range(la - len);
        let ghost y2 = rng.0;
        let mut i: u64 = 0;
        proof {
            assert(b@ =~= b0.subrange(0, pos as int) + rng_bytes(y2, 0).0 + b0.subrange(pos as int, b0.len() as int));
            assert(bt@ =~= s0.union(range_set(pos as int, pos as int)));
        }
        while i < len
            invariant
                la == a@.len(),
                a@.len() == alen,
                pos + len <= la,
                i <= len,
                b@.len() == a@.len(),
                b0.len() == a@.len(),
                at@ == bt@,
                forall|x: u64| #[trigger] bt@.contains(x) ==> x < la,
                forall|x: int| 0 <= x < a@.len() && !bt@.contains(x as u64) ==> b@[x] == a@[x],
                b@ == b0.subrange(0, pos as int) + rng_bytes(y2, i as nat).0 + b0.subrange(pos + i, b0.len() as int),
                bt@ == s0.union(range_set(pos as int, pos + i)),
                rng.0 == rng_bytes(y2, i as nat).1,
            decreases len - i,
        {
            let v = rng.byte();
            proof {
                lemma_rng_len(y2, i as nat);
                assert(rng_bytes(y2, (i + 1) as nat).0 == rng_bytes(y2, i as nat).0.push(v));
            }
            let ghost bb = b@;
            let p = (pos + i) as usize;
            assert(p as int == pos + i);
            b.set(p, v);
            at.insert(pos + i);
            bt.insert(pos + i);
            i = i + 1;
            proof {
                lemma_rng_len(y2, i as nat);
                assert(b@ =~= b0.subrange(0, pos as int) + rng_bytes(y2, i as nat).0 + b0.subrange(pos + i, b0.len() as int));
                assert(bt@ =~= s0.union(range_set(pos as int, pos + i)));
            }
        }
        k = k + 1;
    }
    proof {
        lemma_unmarked_same(a@, b@, bt@);
        lemma_point_runs(a@, x0, maxlen, n as nat);
    }
    Truth { a_truth: at, b_truth: bt, b }
}

/// Single insertion of `len` random bytes at `pos`; only B marks them.
pub fn t_insert(a: &[u8], seed: u64, pos: u64, len: usize) -> (t: Truth)
    requires
        pos <= a@.len(),
        a@.len() + len <= u64::MAX,
    ensures
        t.b@.len() == a@.len() + len,
        t.b@.subrange(0, pos as int) == a@.subrange(0, pos as int),
        t.b@.subrange(pos + len, t.b@.len() as int) == a@.subrange(pos as int, a@.len() as int),
        t.b_truth@ == range_set(pos as int, pos + len),
        t.a_truth@ == Set::<u64>::empty(),
        unmarked(a@, t.a_truth@) == unmarked(t.b@, t.b_truth@),
{
    let mut rng = Rng::new(seed);
    let p = pos as usize;
    let mut b = copy_range(a, 0, p);
    let mut j: usize = 0;
    while j < len
        invariant
            b@.len() == p + j,
            b@.subrange(0, p as int) == a@.subrange(0, p as int),
            j <= len,
        decreases len - j,
    {
        let v = rng.byte();
        b.push(v);
        j = j + 1;
        assert(b@.subrange(0, p as int) =~= a@.subrange(0, p as int));
    }
    let ghost mid = b@;
    extend(&mut b, &a[p..a.len()]);
    assert(b@.subrange(0, p as int) =~= a@.subrange(0, p as int));
    assert(b@.subrange(p + len, b@.len() as int) =~= a@.subrange(p as int, a@.len() as int));
    let mut bt: HashSet<u64> = HashSet::new();
    mark(&mut bt, Range { start: pos, end: pos + len as u64 });
    assert(bt@ =~= range_set(pos as int, pos + len));
    proof {
        let ins = b@.subrange(p as int, p + len);
        assert(b@ =~= a@.subrange(0, p as int) + ins + a@.subrange(p as int, a@.len() as int));
        assert(Set::<u64>::empty().union(range_set(pos as int, pos + len)) =~= bt@);
        lemma_insert_marked(a@, ins, Set::<u64>::empty(), p as int);
        lemma_unmarked_none(a@, Set::<u64>::empty(), 0);
    }
    let at: HashSet<u64> = HashSet::new();
    Truth { a_truth: at, b_truth: bt, b }
}

/// Deletion of `a[pos..pos+len]`; only A marks it.
pub fn t_delete(a: &[u8], pos: u64, len: usize) -> (t: Truth)
    requires
        pos + len <= a@.len(),
    ensures
        t.b@ == a@.subrange(0, pos as int) + a@.subrange(pos + len, a@.len() as int),
        t.a_truth@ == range_set(pos as int, pos + len),
        t.b_truth@ == Set::<u64>::empty(),
        unmarked(a@, t.a_truth@) == unmarked(t.b@, t.b_truth@),
{
    let la = a.len();
    let p = pos as usize;
    let mut b = copy_range(a, 0, p);
    extend(&mut b, &a[p + len..la]);
    let mut at: HashSet<u64> = HashSet::new();
    mark(&mut at, Range { start: pos, end: pos + len as u64 });
    assert(at@ =~= range_set(pos as int, pos + len));
    proof {
        let pre = a@.subrange(0, p as int);
        let mid = a@.subrange(p as int, p + len);
        let post = a@.subrange(p + len, la as int);
        assert(a@ =~= pre + mid + post);
        lemma_unmarked_concat(pre + mid, post, at@, 0);
        lemma_unmarked_concat(pre, mid, at@, 0);
        lemma_unmarked_none(pre, at@, 0);
        lemma_unmarked_all(mid, at@, p as int);
        lemma_unmarked_none(post, at@, p + len);
        lemma_unmarked_none(b@, Set::<u64>::empty(), 0);
        assert(unmarked(a@, at@) =~= pre + post);
    }
    let bt: HashSet<u64> = HashSet::new();
    Truth { a_truth: at, b_truth: bt, b }
}

/// The bytes of `b` whose positions, counted from `o`, are not in `s`, in order.
pub open spec fn unmarked_from(b: Seq<u8>, s: Set<u64>, o: int) -> Seq<u8>
    decreases b.len(),
{
    if b.len() == 0 {
        Seq::empty()
    } else {
        let r = unmarked_from(b.drop_last(), s, o);
        if s.contains((o + b.len() - 1) as u64) { r } else { r.push(b.last()) }
    }
}

/// The bytes of `b` at the positions that `s` does not mark.
pub open spec fn unmarked(b: Seq<u8>, s: Set<u64>) -> Seq<u8> {
    unmarked_from(b, s, 0)
}

proof fn lemma_unmarked_concat(x: Seq<u8>, y: Seq<u8>, s: Set<u64>, o: int)
    ensures
        unmarked_from(x + y, s, o) == unmarked_from(x, s, o) + unmarked_from(y, s, o + x.len()),
    decreases y.len(),
{
    if y.len() == 0 {
        assert(x + y =~= x);
    } else {
        assert((x + y).drop_last() =~= x + y.drop_last());
        lemma_unmarked_concat(x, y.drop_last(), s, o);
    }
}

proof fn lemma_unmarked_all(y: Seq<u8>, s: Set<u64>, o: int)
    requires
        0 <= o,
        o + y.len() <= u64::MAX + 1,
        forall|i: u64| o <= i < o + y.len() ==> #[trigger] s.contains(i),
    ensures
        unmarked_from(y, s, o) == Seq::<u8>::empty(),
    decreases y.len(),
{
    if y.len() > 0 {
        lemma_unmarked_all(y.drop_last(), s, o);
        assert(s.contains((o + y.len() - 1) as u64));
    }
}

proof fn lemma_unmarked_none(y: Seq<u8>, s: Set<u64>, o: int)
    requires
        0 <= o,
        o + y.len() <= u64::MAX + 1,
        forall|i: u64| o <= i < o + y.len() ==> !#[trigger] s.contains(i),
    ensures
        unmarked_from(y, s, o) == y,
    decreases y.len(),
{
    if y.len() > 0 {
        lemma_unmarked_none(y.drop_last(), s, o);
        assert(!s.contains((o + y.len() - 1) as u64));
        assert(y.drop_last().push(y.last()) =~= y);
    }
}

proof fn lemma_unmarked_extra(y: Seq<u8>, s: Set<u64>, r: Set<u64>, o: int)
    requires
        0 <= o,
        o + y.len() <= u64::MAX + 1,
        forall|i: u64| o <= i < o + y.len() ==> !#[trigger] r.contains(i),
    ensures
        unmarked_from(y, s.union(r), o) == unmarked_from(y, s, o),
    decreases y.len(),
{
    if y.len() > 0 {
        lemma_unmarked_extra(y.drop_last(), s, r, o);
        assert(!r.contains((o + y.len() - 1) as u64));
    }
}

proof fn lemma_unmarked_same(x: Seq<u8>, y: Seq<u8>, s: Set<u64>)
    requires
        x.len() == y.len(),
        x.len() <= u64::MAX + 1,
        forall|i: int| 0 <= i < x.len() && !s.contains(i as u64) ==> x[i] == y[i],
    ensures
        unmarked(x, s) == unmarked(y, s),
    decreases x.len(),
{
    if x.len() > 0 {
        lemma_unmarked_same(x.drop_last(), y.drop_last(), s);
        assert(x.last() == y.last() || s.contains((x.len() - 1) as u64));
    }
}

/// Inserting a block at `p` into bytes whose marks all lie before `p`, and marking the
/// block, leaves the unmarked bytes unchanged.
proof fn lemma_insert_marked(b: Seq<u8>, x: Seq<u8>, s: Set<u64>, p: int)
    requires
        0 <= p <= b.len(),
        b.len() + x.len() <= u64::MAX,
        forall|i: u64| #[trigger] s.contains(i) ==> i < p,
    ensures
        unmarked(b.subrange(0, p) + x + b.subrange(p, b.len() as int), s.union(range_set(p, p + x.len())))
            == unmarked(b, s),
{
    let pre = b.subrange(0, p);
    let post = b.subrange(p, b.len() as int);
    let r = range_set(p, p + x.len());
    let s2 = s.union(r);
    lemma_unmarked_concat(pre + x, post, s2, 0);
    lemma_unmarked_concat(pre, x, s2, 0);
    lemma_unmarked_extra(pre, s, r, 0);
    lemma_unmarked_all(x, s2, p);
    assert forall|i: u64| p + x.len() <= i < p + x.len() + post.len() implies !#[trigger] s2.contains(i) by {
        if s.contains(i) {
            assert(i < p);
        }
    }
    lemma_unmarked_none(post, s2, p + x.len());
    assert forall|i: u64| p <= i < p + post.len() implies !#[trigger] s.contains(i) by {
        if s.contains(i) {
            assert(i < p);
        }
    }
    lemma_unmarked_none(post, s, p);
    assert(pre + post =~= b);
    lemma_unmarked_concat(pre, post, s, 0);
    assert(unmarked_from(pre + x, s2, 0) =~= unmarked_from(pre, s, 0));
}

/// `range_set(s, e)` is finite and holds `e - s` offsets.
proof fn lemma_range_set_len(s: int, e: int)
    requires
        0 <= s <= e <= u64::MAX + 1,
    ensures
        range_set(s, e).finite(),
        range_set(s, e).len() == e - s,
    decreases e - s,
{
    if s == e {
        assert(range_set(s, e) =~= Set::<u64>::empty());
    } else {
        lemma_range_set_len(s, e - 1);
        assert(range_set(s, e) =~= range_set(s, e - 1).insert((e - 1) as u64));
    }
}

/// The `n` insertions drawn from generator state `x` for a file of `la` bytes: each draws a
/// length `minlen + r % (maxlen - minlen + 1)`, then a position `r % (la - 1)`. Returns the
/// positions, the lengths and the generator state after them.
pub open spec fn multi_draws(x: u64, la: u64, n: nat, minlen: usize, maxlen: usize) -> (Seq<u64>, Seq<usize>, u64)
    decreases n,
{
    if n == 0 {
        (Seq::empty(), Seq::empty(), x)
    } else {
        let (ps, ls, y) = multi_draws(x, la, (n - 1) as nat, minlen, maxlen);
        let y1 = xorshift(y);
        let len = (minlen + y1 % (((maxlen - minlen) as u64 + 1) as u64)) as usize;
        let y2 = xorshift(y1);
        let pos = y2 % ((la - 1) as u64);
        (ps.push(pos), ls.push(len), y2)
    }
}

/// The first `j` insertions of `ps` / `ls` taken in the order `order`, applied to `a` from
/// generator state `x`: each puts its length in generator bytes at its position plus the
/// lengths inserted before it. Returns the bytes, the set of inserted offsets, the total
/// inserted length and the generator state after them.
pub open spec fn multi_fold(a: Seq<u8>, ps: Seq<u64>, ls: Seq<usize>, order: Seq<usize>, x: u64, j: nat) -> (Seq<u8>, Set<u64>, int, u64)
    decreases j,
{
    if j == 0 {
        (a, Set::empty(), 0, x)
    } else {
        let (b, s, shift, y) = multi_fold(a, ps, ls, order, x, (j - 1) as nat);
        let k = order[j - 1] as int;
        let p = ps[k] + shift;
        let len = ls[k] as int;
        let (v, y2) = rng_bytes(y, len as nat);
        (b.subrange(0, p) + v + b.subrange(p, b.len() as int), s.union(range_set(p, p + len)), shift + len, y2)
    }
}

/// What `t_multi_insert` builds for `seed`, the drawn insertions applied in the order `order`.
pub open spec fn multi_result(a: Seq<u8>, seed: u64, n: nat, minlen: usize, maxlen: usize, order: Seq<usize>) -> (Seq<u8>, Set<u64>, int, u64) {
    let d = multi_draws(rng_seed(seed), a.len() as u64, n, minlen, maxlen);
    multi_fold(a, d.0, d.1, order, d.2, n)
}

/// Several insertions (address drift after recompilation): `n` spots of `minlen..=maxlen`
/// random bytes, applied in ascending position order (equal positions in drawing order)
/// with the offsets accumulated, so that B marks the final coordinates of every inserted byte.
pub fn t_multi_insert(a: &[u8], seed: u64, n: usize, minlen: usize, maxlen: usize) -> (t: Truth)
    requires
        minlen <= maxlen,
        maxlen < u64::MAX,
        a@.len() >= 2,
        a@.len() + n * maxlen <= u64::MAX,
        n * maxlen <= usize::MAX,
    ensures
        t.a_truth@ == Set::<u64>::empty(),
        forall|i: u64| #[trigger] t.b_truth@.contains(i) ==> i < t.b@.len(),
        a@.len() <= t.b@.len() <= a@.len() + n * maxlen,
        a@.len() + n * minlen <= t.b@.len(),
        t.b_truth@.finite(),
        t.b@.len() == a@.len() + t.b_truth@.len(),
        unmarked(t.b@, t.b_truth@) == a@,
        unmarked(a@, t.a_truth@) == unmarked(t.b@, t.b_truth@),
        exists|order: Seq<usize>| #[trigger] crate::util::is_stable_order(multi_draws(rng_seed(seed), a@.len() as u64, n as nat, minlen, maxlen).0, order)
            && t.b@ == multi_result(a@, seed, n as nat, minlen, maxlen, order).0
            && t.b_truth@ == multi_result(a@, seed, n as nat, minlen, maxlen, order).1,
{
    let mut rng = Rng::new(seed);
    let ghost x0 = rng.0;
    let la = a.len() as u64;
    let mut poss: Vec<u64> = Vec::new();
    let mut lens: Vec<usize> = Vec::new();
    let mut k: usize = 0;
    while k < n
        invariant
            poss@.len() == k,
            lens@.len() == k,
            k <= n,
            la == a@.len(),
            la >= 2,
            minlen <= maxlen,
            maxlen < u64::MAX,
            forall|t: int| 0 <= t < k ==> minlen <= #[trigger] lens@[t] <= maxlen,
            forall|t: int| 0 <= t < k ==> #[trigger] poss@[t] < la - 1,
            (poss@, lens@, rng.0) == multi_draws(x0, la, k as nat, minlen, maxlen),
        decreases n - k,
    {
        let len = minlen + rng.range((maxlen - minlen) as u64 + 1) as usize;
        let pos = rng.range(la - 1);
        poss.push(pos);
        lens.push(len);
        k = k + 1;
    }
    let ghost x1 = rng.0;
    let order = crate::util::stable_order(&poss);
    let mut b = copy_range(a, 0, a.len());
    assert(a@.subrange(0, a@.len() as int) =~= a@);
    let mut bt: HashSet<u64> = HashSet::new();
    proof {
        lemma_unmarked_none(b@, bt@, 0);
    }
    let mut shift: u64 = 0;
    let mut j: usize = 0;
    while j < n
        invariant
            poss@.len() == n,
            lens@.len() == n,
            crate::util::is_stable_order(poss@, order@),
            forall|t: int| 0 <= t < n ==> minlen <= #[trigger] lens@[t] <= maxlen,
            forall|t: int| 0 <= t < n ==> #[trigger] poss@[t] < la - 1,
            la == a@.len(),
            a@.len() + n * maxlen <= u64::MAX,
            n * maxlen <= usize::MAX,
            j <= n,
            shift <= j * maxlen,
            shift >= j * minlen,
            b@.len() == a@.len() + shift,
            bt@.finite(),
            bt@.len() == shift,
            forall|i: u64| #[trigger] bt@.contains(i) ==> i < b@.len(),
            unmarked(b@, bt@) == a@,
            j > 0 ==> forall|i: u64| #[trigger] bt@.contains(i) ==> i < poss@[order@[j - 1] as int] + shift,
            j == 0 ==> bt@ == Set::<u64>::empty(),
            (b@, bt@, shift as int, rng.0) == multi_fold(a@, poss@, lens@, order@, x1, j as nat),
        decreases n - j,
    {
        proof {
            assert(order@[j as int] < poss@.len());
            assert(j * maxlen + maxlen <= n * maxlen) by (nonlinear_arith)
                requires
                    j < n,
            ;
        }
        let idx = order[j];
        let pos = poss[idx];
        let len = lens[idx];
        let actual = pos + shift;
        assert(actual < b@.len());
        let bl: usize = b.len();
        assert(actual < bl);
        let p = actual as usize;
        assert(p as int == actual as int);
        assert(pos == poss@[order@[j as int] as int]);
        let mut nb = copy_range(b.as_slice(), 0, p);
        let ghost head = nb@;
        let ghost xs = rng.0;
        let mut t: usize = 0;
        proof {
            assert(nb@ =~= head + rng_bytes(xs, 0).0);
        }
        while t < len
            invariant
                nb@.len() == p + t,
                head.len() == p,
                nb@.subrange(0, p as int) == head,
                t <= len,
                nb@ == head + rng_bytes(xs, t as nat).0,
                rng.0 == rng_bytes(xs, t as nat).1,
            decreases len - t,
        {
            let v = rng.byte();
            let ghost before = nb@;
            nb.push(v);
            assert(nb@.subrange(0, p as int) =~= before.subrange(0, p as int));
            proof {
                assert(rng_bytes(xs, (t + 1) as nat).0 == rng_bytes(xs, t as nat).0.push(v));
                assert(nb@ =~= head + rng_bytes(xs, (t + 1) as nat).0);
            }
            t = t + 1;
        }
        let ghost ins = nb@.subrange(p as int, p + len);
        proof {
            assert(ins =~= rng_bytes(xs, len as nat).0);
            assert(nb@ =~= b@.subrange(0, p as int) + ins);
            assert(p as int == poss@[order@[j as int] as int] + shift);
            if j > 0 {
                assert(poss@[order@[j - 1] as int] <= poss@[order@[j as int] as int]);
                assert forall|i: u64| #[trigger] bt@.contains(i) implies i < p by {
                    assert(i < poss@[order@[j - 1] as int] + shift);
                }
            }
            lemma_insert_marked(b@, ins, bt@, p as int);
        }
        extend(&mut nb, &b.as_slice()[p..b.len()]);
        b = nb;
        let ghost bt0 = bt@;
        mark(&mut bt, Range { start: actual, end: actual + len as u64 });
        proof {
            lemma_range_set_len(actual as int, actual + len);
            let r = range_set(actual as int, actual + len);
            assert(bt0.disjoint(r)) by {
                assert forall|i: u64| bt0.contains(i) implies !r.contains(i) by {
                    if j > 0 {
                        assert(poss@[order@[j - 1] as int] <= poss@[order@[j as int] as int]);
                        assert(i < poss@[order@[j - 1] as int] + shift);
                    }
                }
            }
            vstd::set_lib::lemma_set_disjoint_lens(bt0, r);
            assert(bt@ == bt0 + r);
        }
        shift = shift + len as u64;
        proof {
            assert((j + 1) * maxlen == j * maxlen + maxlen) by (nonlinear_arith);
            assert((j + 1) * minlen == j * minlen + minlen) by (nonlinear_arith);
        }
        j = j + 1;
    }
    let at: HashSet<u64> = HashSet::new();
    proof {
        lemma_unmarked_none(a@, at@, 0);
        assert(x0 == rng_seed(seed));
        assert(crate::util::is_stable_order(multi_draws(rng_seed(seed), a@.len() as u64, n as nat, minlen, maxlen).0, order@));
    }
    Truth { a_truth: at, b_truth: bt, b }
}

} // verus!
