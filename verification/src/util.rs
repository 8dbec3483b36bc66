//! Small verified helpers shared by the engines: byte-range comparison, copying and
//! ordering of integer pairs.

use vstd::prelude::*;
use vstd::slice::slice_to_vec;

verus! {

/// Lexicographic order on pairs of integers.
pub open spec fn pair_le(x: (u64, u64), y: (u64, u64)) -> bool {
    x.0 < y.0 || (x.0 == y.0 && x.1 <= y.1)
}

/// `s` is in ascending lexicographic order.
pub open spec fn pairs_sorted(s: Seq<(u64, u64)>) -> bool {
    forall|i: int, j: int| 0 <= i <= j < s.len() ==> pair_le(#[trigger] s[i], #[trigger] s[j])
}

/// Calls `slice::sort_unstable` on a vector of integer pairs. Trusted: std documents that
/// the slice comes back sorted, tuples of integers ordering lexicographically, and that
/// sorting only permutes the elements.
#[verifier::external_body]
pub(crate) fn sort_pairs(v: &mut Vec<(u64, u64)>)
    ensures
        pairs_sorted(final(v)@),
        final(v)@.to_multiset() == old(v)@.to_multiset(),
{
    v.sort_unstable();
}

/// Whether `a[a0..a0+n]` and `b[b0..b0+n]` hold the same bytes.
pub fn ranges_equal(a: &[u8], a0: usize, b: &[u8], b0: usize, n: usize) -> (r: bool)
    requires
        a0 + n <= a@.len(),
        b0 + n <= b@.len(),
    ensures
        r == (a@.subrange(a0 as int, a0 + n) == b@.subrange(b0 as int, b0 + n)),
{
    let mut k: usize = 0;
    while k < n
        invariant
            k <= n,
            a0 + n <= a.len(),
            b0 + n <= b.len(),
            forall|t: int| 0 <= t < k ==> #[trigger] a@[a0 + t] == b@[b0 + t],
        decreases n - k,
    {
        if a[a0 + k] != b[b0 + k] {
            assert(a@.subrange(a0 as int, a0 + n)[k as int] != b@.subrange(b0 as int, b0 + n)[k as int]);
            return false;
        }
        k = k + 1;
    }
    assert forall|t: int| 0 <= t < n implies #[trigger] a@.subrange(a0 as int, a0 + n)[t] == b@.subrange(b0 as int, b0 + n)[t] by {
        assert(a@[a0 + t] == b@[b0 + t]);
    }
    assert(a@.subrange(a0 as int, a0 + n) =~= b@.subrange(b0 as int, b0 + n));
    true
}

/// Appends `src[s..e]` to `out`.
pub fn append_range(out: &mut Vec<u8>, src: &[u8], s: usize, e: usize)
    requires
        s <= e <= src@.len(),
    ensures
        final(out)@ == old(out)@ + src@.subrange(s as int, e as int),
{
    let mut piece = slice_to_vec(&src[s..e]);
    out.append(&mut piece);
}

} // verus!

verus! {

/// The character of hexadecimal digit `d` (`0-9`, then `a-f`, or `A-F` when `upper`).
pub open spec fn hex_char(d: int, upper: bool) -> char {
    if d < 10 {
        ((48 + d) as u8) as char
    } else if upper {
        ((55 + d) as u8) as char
    } else {
        ((87 + d) as u8) as char
    }
}

/// The one-character string of hexadecimal digit `d`.
pub fn digit_str(d: u8, upper: bool) -> (s: &'static str)
    requires
        d < 16,
    ensures
        s@ == seq![hex_char(d as int, upper)],
{
    proof {
        reveal_strlit("0"); reveal_strlit("1"); reveal_strlit("2"); reveal_strlit("3");
        reveal_strlit("4"); reveal_strlit("5"); reveal_strlit("6"); reveal_strlit("7");
        reveal_strlit("8"); reveal_strlit("9");
        reveal_strlit("A"); reveal_strlit("B"); reveal_strlit("C");
        reveal_strlit("D"); reveal_strlit("E"); reveal_strlit("F");
        reveal_strlit("a"); reveal_strlit("b"); reveal_strlit("c");
        reveal_strlit("d"); reveal_strlit("e"); reveal_strlit("f");
    }
    match d {
        0 => "0",
        1 => "1",
        2 => "2",
        3 => "3",
        4 => "4",
        5 => "5",
        6 => "6",
        7 => "7",
        8 => "8",
        9 => "9",
        10 => if upper { "A" } else { "a" },
        11 => if upper { "B" } else { "b" },
        12 => if upper { "C" } else { "c" },
        13 => if upper { "D" } else { "d" },
        14 => if upper { "E" } else { "e" },
        _ => if upper { "F" } else { "f" },
    }
}

/// The digits of `n` in base `base` (2..=16), most significant first, without leading zeros
/// (`0` is a single digit).
pub open spec fn radix_spec(n: nat, base: nat, upper: bool) -> Seq<char>
    decreases n,
{
    if base < 2 || n < base {
        seq![hex_char((n % 16) as int, upper)]
    } else {
        proof {
            assert(n / base < n) by (nonlinear_arith)
                requires
                    base >= 2,
                    n >= base,
            ;
        }
        radix_spec(n / base, base, upper).push(hex_char((n % base) as int, upper))
    }
}

/// Decimal text of `n`.
pub open spec fn dec_spec(n: nat) -> Seq<char> {
    radix_spec(n, 10, false)
}

/// Writes `n` in base `base` (10 or 16).
pub fn radix_string(n: u64, base: u64, upper: bool) -> (s: String)
    requires
        base == 10 || base == 16,
    ensures
        s@ == radix_spec(n as nat, base as nat, upper),
    decreases n,
{
    if n < base {
        let mut s = String::new();
        s.append(digit_str(n as u8, upper));
        s
    } else {
        let mut s = radix_string(n / base, base, upper);
        s.append(digit_str((n % base) as u8, upper));
        s
    }
}

/// Decimal text of `n`.
pub fn dec_string(n: u64) -> (s: String)
    ensures
        s@ == dec_spec(n as nat),
{
    radix_string(n, 10, false)
}

/// Lower-case hexadecimal text of `bytes`, two digits per byte.
pub open spec fn hex_lower_spec(bytes: Seq<u8>) -> Seq<char>
    decreases bytes.len(),
{
    if bytes.len() == 0 {
        Seq::empty()
    } else {
        hex_lower_spec(bytes.drop_last())
            + seq![hex_char((bytes.last() / 16) as int, false), hex_char((bytes.last() % 16) as int, false)]
    }
}

/// Lower-case hexadecimal text of `bytes`, two digits per byte.
pub fn hex_lower(bytes: &[u8]) -> (s: String)
    ensures
        s@ == hex_lower_spec(bytes@),
{
    let mut s = String::new();
    let mut i: usize = 0;
    while i < bytes.len()
        invariant
            i <= bytes@.len(),
            s@ == hex_lower_spec(bytes@.subrange(0, i as int)),
        decreases bytes.len() - i,
    {
        let b = bytes[i];
        s.append(digit_str(b / 16, false));
        s.append(digit_str(b % 16, false));
        proof {
            let pre = bytes@.subrange(0, i + 1);
            assert(pre.drop_last() =~= bytes@.subrange(0, i as int));
            assert(pre.last() == b);
        }
        i = i + 1;
    }
    assert(bytes@.subrange(0, bytes@.len() as int) =~= bytes@);
    s
}

} // verus!

verus! {

/// `order` lists the indices of `keys` sorted by key, equal keys in index order.
pub open spec fn is_stable_order(keys: Seq<u64>, order: Seq<usize>) -> bool {
    &&& order.len() == keys.len()
    &&& forall|i: int| 0 <= i < order.len() ==> (#[trigger] order[i]) < keys.len()
    &&& forall|i: int, j: int| 0 <= i < j < order.len() ==>
            keys[#[trigger] order[i] as int] < keys[#[trigger] order[j] as int]
            || (keys[order[i] as int] == keys[order[j] as int] && order[i] < order[j])
}

/// The indices of `keys` in stable ascending key order.
pub fn stable_order(keys: &Vec<u64>) -> (order: Vec<usize>)
    ensures
        is_stable_order(keys@, order@),
{
    let n = keys.len();
    let mut pairs: Vec<(u64, u64)> = Vec::new();
    let mut i: usize = 0;
    while i < n
        invariant
            n == keys@.len(),
            i <= n,
            pairs@.len() == i,
            forall|k: int| 0 <= k < i ==> (#[trigger] pairs@[k]) == (keys@[k], k as u64),
        decreases n - i,
    {
        pairs.push((keys[i], i as u64));
        i = i + 1;
    }
    let ghost before = pairs@;
    proof {
        assert(before.no_duplicates()) by {
            assert forall|x: int, y: int| 0 <= x < before.len() && 0 <= y < before.len() && x != y implies before[x] != before[y] by {
                assert(before[x].1 == x && before[y].1 == y);
            }
        }
        before.lemma_multiset_has_no_duplicates();
    }
    sort_pairs(&mut pairs);
    proof {
        vstd::seq_lib::to_multiset_len(pairs@);
        vstd::seq_lib::to_multiset_len(before);
        pairs@.lemma_multiset_has_no_duplicates_conv();
    }
    let mut order: Vec<usize> = Vec::new();
    let mut j: usize = 0;
    while j < n
        invariant
            n == keys@.len(),
            pairs@.len() == n,
            pairs@.to_multiset() == before.to_multiset(),
            before.len() == n,
            forall|k: int| 0 <= k < n ==> (#[trigger] before[k]) == (keys@[k], k as u64),
            j <= n,
            order@.len() == j,
            forall|k: int| 0 <= k < j ==> (#[trigger] order@[k]) as u64 == pairs@[k].1 && pairs@[k].1 < n,
        decreases n - j,
    {
        proof {
            let p = pairs@[j as int];
            assert(pairs@.contains(p));
            vstd::seq_lib::to_multiset_contains(pairs@, p);
            vstd::seq_lib::to_multiset_contains(before, p);
            let t = choose|t: int| 0 <= t < before.len() && before[t] == p;
        }
        order.push(pairs[j].1 as usize);
        j = j + 1;
    }
    proof {
        assert forall|k: int| 0 <= k < n implies (#[trigger] pairs@[k]).0 == keys@[pairs@[k].1 as int] by {
            let p = pairs@[k];
            assert(pairs@.contains(p));
            vstd::seq_lib::to_multiset_contains(pairs@, p);
            vstd::seq_lib::to_multiset_contains(before, p);
            let t = choose|t: int| 0 <= t < before.len() && before[t] == p;
        }
        assert forall|i: int, j: int| 0 <= i < j < order@.len() implies
            keys@[#[trigger] order@[i] as int] < keys@[#[trigger] order@[j] as int]
            || (keys@[order@[i] as int] == keys@[order@[j] as int] && order@[i] < order@[j]) by {
            assert(pair_le(pairs@[i], pairs@[j]));
            assert(pairs@[i] != pairs@[j]);
            assert(pairs@[i].0 == keys@[pairs@[i].1 as int]);
            assert(pairs@[j].0 == keys@[pairs@[j].1 as int]);
        }
    }
    order
}

} // verus!

verus! {

/// A copy of `src[s..e]`.
pub fn copy_range(src: &[u8], s: usize, e: usize) -> (v: Vec<u8>)
    requires
        s <= e <= src@.len(),
    ensures
        v@ == src@.subrange(s as int, e as int),
{
    slice_to_vec(&src[s..e])
}

} // verus!

verus! {

/// Appends `b` to `out`.
pub fn extend(out: &mut Vec<u8>, b: &[u8])
    ensures
        final(out)@ == old(out)@ + b@,
{
    let mut v = copy_range(b, 0, b.len());
    assert(b@.subrange(0, b@.len() as int) =~= b@);
    out.append(&mut v);
}

} // verus!

verus! {

/// Whether `a` and `b` hold the same bytes.
pub fn slices_equal(a: &[u8], b: &[u8]) -> (r: bool)
    ensures
        r == (a@ == b@),
{
    if a.len() != b.len() {
        return false;
    }
    let r = ranges_equal(a, 0, b, 0, a.len());
    assert(a@.subrange(0, a@.len() as int) =~= a@);
    assert(b@.subrange(0, b@.len() as int) =~= b@);
    r
}

} // verus!
