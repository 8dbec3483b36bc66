//! Names and presets shared by the front ends: display labels of the model's enums, the
//! strategy and alignment presets behind the settings, and hexadecimal text.

use vstd::prelude::*;
use crate::RvaError;
use crate::aligner::AlignMode;
use crate::batch_comparator::BatchStatus;
use crate::diff_engine::DiffStrategy;
use crate::file_loader::{Arch, FileFormat};

verus! {

/// Whether `s` is the string `lit`.
pub fn str_is(s: &str, lit: &str) -> (r: bool)
    ensures
        r == (s@ == lit@),
{
    let n = s.unicode_len();
    if n != lit.unicode_len() {
        return false;
    }
    let mut i: usize = 0;
    while i < n
        invariant
            n == s@.len(),
            n == lit@.len(),
            i <= n,
            forall|k: int| 0 <= k < i ==> s@[k] == lit@[k],
        decreases n - i,
    {
        if s.get_char(i) != lit.get_char(i) {
            return false;
        }
        i = i + 1;
    }
    assert(s@ =~= lit@);
    true
}

pub fn fmt_arch(a: Arch) -> (s: &'static str)
    ensures
        s@ == match a {
            Arch::X86 => "x86"@,
            Arch::X86_64 => "x86_64"@,
            Arch::Arm => "arm"@,
            Arch::Aarch64 => "aarch64"@,
            Arch::Mips => "mips"@,
            Arch::Unknown => "unknown"@,
        },
{
    match a {
        Arch::X86 => "x86",
        Arch::X86_64 => "x86_64",
        Arch::Arm => "arm",
        Arch::Aarch64 => "aarch64",
        Arch::Mips => "mips",
        Arch::Unknown => "unknown",
    }
}

pub fn fmt_format(f: FileFormat) -> (s: &'static str)
    ensures
        s@ == match f {
            FileFormat::Bin => "bin"@,
            FileFormat::PE => "PE"@,
            FileFormat::ELF => "ELF"@,
            FileFormat::MachO => "Mach-O"@,
        },
{
    match f {
        FileFormat::Bin => "bin",
        FileFormat::PE => "PE",
        FileFormat::ELF => "ELF",
        FileFormat::MachO => "Mach-O",
    }
}

pub fn fmt_batch_status(s: &BatchStatus) -> (r: &'static str)
    ensures
        r@ == match *s {
            BatchStatus::Identical => "Identical"@,
            BatchStatus::Different => "Different"@,
            BatchStatus::OnlyInA => "OnlyInA"@,
            BatchStatus::OnlyInB => "OnlyInB"@,
            BatchStatus::Error => "Error"@,
        },
{
    match s {
        BatchStatus::Identical => "Identical",
        BatchStatus::Different => "Different",
        BatchStatus::OnlyInA => "OnlyInA",
        BatchStatus::OnlyInB => "OnlyInB",
        BatchStatus::Error => "Error",
    }
}

/// The fixed-width status column of the command-line batch tree listing.
pub fn status_column(s: &BatchStatus) -> (r: &'static str)
    ensures
        r@ == match *s {
            BatchStatus::Identical => "IDENTICAL "@,
            BatchStatus::Different => "DIFFERENT "@,
            BatchStatus::OnlyInA => "ONLY-IN-A "@,
            BatchStatus::OnlyInB => "ONLY-IN-B "@,
            BatchStatus::Error => "ERROR     "@,
        },
{
    proof {
        reveal_strlit("IDENTICAL ");
        reveal_strlit("DIFFERENT ");
        reveal_strlit("ONLY-IN-A ");
        reveal_strlit("ONLY-IN-B ");
        reveal_strlit("ERROR     ");
    }
    match s {
        BatchStatus::Identical => "IDENTICAL ",
        BatchStatus::Different => "DIFFERENT ",
        BatchStatus::OnlyInA => "ONLY-IN-A ",
        BatchStatus::OnlyInB => "ONLY-IN-B ",
        BatchStatus::Error => "ERROR     ",
    }
}

pub fn fmt_strategy_name(s: &DiffStrategy) -> (r: &'static str)
    ensures
        r@ == match *s {
            DiffStrategy::SlidingWindow { .. } => "sliding"@,
            DiffStrategy::StructureMatch { .. } => "structural"@,
            DiffStrategy::ChunkedHash { .. } => "chunked"@,
        },
{
    match s {
        DiffStrategy::SlidingWindow { .. } => "sliding",
        DiffStrategy::StructureMatch { .. } => "structural",
        DiffStrategy::ChunkedHash { .. } => "chunked",
    }
}

/// Benchmark verdict text.
pub fn flag(b: bool) -> (s: &'static str)
    ensures
        s@ == if b { "PASS"@ } else { "FAIL"@ },
{
    if b { "PASS" } else { "FAIL" }
}

/// The strategy a setting names: `sliding` (window from the setting, default 8, clamped
/// to 4..=64, minimum match 8), `structural` (runs of 8), anything else chunked hashing
/// with 4 KiB blocks.
pub fn parse_strategy(s: Option<&str>, sliding_window: Option<u32>) -> (r: DiffStrategy)
    ensures
        r == (match s {
            Some(x) => if x@ == "sliding"@ {
                let w: int = match sliding_window { Some(v) => v as int, None => 8 };
                DiffStrategy::SlidingWindow { window: (if w < 4 { 4 } else if w > 64 { 64 } else { w }) as usize, min_match: 8 }
            } else if x@ == "structural"@ {
                DiffStrategy::StructureMatch { min_run: 8 }
            } else {
                DiffStrategy::ChunkedHash { chunk_size: 4096 }
            },
            None => DiffStrategy::ChunkedHash { chunk_size: 4096 },
        }),
{
    match s {
        Some(x) => {
            if str_is(x, "sliding") {
                let w = match sliding_window {
                    Some(v) => v,
                    None => 8,
                };
                let w = if w < 4 { 4 } else if w > 64 { 64 } else { w };
                DiffStrategy::SlidingWindow { window: w as usize, min_match: 8 }
            } else if str_is(x, "structural") {
                DiffStrategy::StructureMatch { min_run: 8 }
            } else {
                DiffStrategy::ChunkedHash { chunk_size: 4096 }
            }
        },
        None => DiffStrategy::ChunkedHash { chunk_size: 4096 },
    }
}

/// The alignment mode a setting names: `instruction`, `function`, anything else bytes.
pub fn parse_align_mode(s: Option<&str>) -> (m: AlignMode)
    ensures
        m == match s {
            Some(x) => if x@ == "instruction"@ { AlignMode::Instruction } else if x@ == "function"@ {
                AlignMode::Function } else { AlignMode::Byte },
            None => AlignMode::Byte,
        },
{
    match s {
        Some(x) => {
            if str_is(x, "instruction") {
                AlignMode::Instruction
            } else if str_is(x, "function") {
                AlignMode::Function
            } else {
                AlignMode::Byte
            }
        },
        None => AlignMode::Byte,
    }
}

/// The strategy of a container's strategy id: 1 sliding window (8/8), 2 structure
/// matching (8), anything else chunked hashing (4 KiB).
pub fn strategy_from_u8(v: u8) -> (r: DiffStrategy)
    ensures
        r == (if v == 1 { DiffStrategy::SlidingWindow { window: 8, min_match: 8 } } else if v == 2 {
            DiffStrategy::StructureMatch { min_run: 8 } } else { DiffStrategy::ChunkedHash { chunk_size: 4096 } }),
{
    match v {
        1 => DiffStrategy::SlidingWindow { window: 8, min_match: 8 },
        2 => DiffStrategy::StructureMatch { min_run: 8 },
        _ => DiffStrategy::ChunkedHash { chunk_size: 4096 },
    }
}

/// The strategies the accuracy benchmark compares, with their names.
pub fn strategies() -> (v: Vec<(&'static str, DiffStrategy)>)
    ensures
        v@.len() == 4,
        v@[0].0@ == "chunked-4K"@ && v@[0].1 == (DiffStrategy::ChunkedHash { chunk_size: 4096 }),
        v@[1].0@ == "chunked-64"@ && v@[1].1 == (DiffStrategy::ChunkedHash { chunk_size: 64 }),
        v@[2].0@ == "sliding-16"@ && v@[2].1 == (DiffStrategy::SlidingWindow { window: 16, min_match: 16 }),
        v@[3].0@ == "sliding-64"@ && v@[3].1 == (DiffStrategy::SlidingWindow { window: 64, min_match: 64 }),
{
    let mut v: Vec<(&'static str, DiffStrategy)> = Vec::new();
    v.push(("chunked-4K", DiffStrategy::ChunkedHash { chunk_size: 4096 }));
    v.push(("chunked-64", DiffStrategy::ChunkedHash { chunk_size: 64 }));
    v.push(("sliding-16", DiffStrategy::SlidingWindow { window: 16, min_match: 16 }));
    v.push(("sliding-64", DiffStrategy::SlidingWindow { window: 64, min_match: 64 }));
    v
}

/// The alignment modes the accuracy benchmark compares, with their names.
pub fn align_modes() -> (v: Vec<(&'static str, AlignMode)>)
    ensures
        v@.len() == 3,
        v@[0].0@ == "sliding-16+align:byte"@ && v@[0].1 == AlignMode::Byte,
        v@[1].0@ == "sliding-16+align:instr"@ && v@[1].1 == AlignMode::Instruction,
        v@[2].0@ == "sliding-16+align:func"@ && v@[2].1 == AlignMode::Function,
{
    let mut v: Vec<(&'static str, AlignMode)> = Vec::new();
    v.push(("sliding-16+align:byte", AlignMode::Byte));
    v.push(("sliding-16+align:instr", AlignMode::Instruction));
    v.push(("sliding-16+align:func", AlignMode::Function));
    v
}

/// `char::is_whitespace` on ASCII: tab, line feed, vertical tab, form feed, carriage return, space.
pub open spec fn ascii_ws(c: char) -> bool {
    c == '\t' || c == '\n' || c == '\u{b}' || c == '\u{c}' || c == '\r' || c == ' '
}

pub open spec fn hex_val(c: char) -> Option<u8> {
    if '0' <= c <= '9' {
        Some(((c as u32) - 48) as u8)
    } else if 'a' <= c <= 'f' {
        Some(((c as u32) - 87) as u8)
    } else if 'A' <= c <= 'F' {
        Some(((c as u32) - 55) as u8)
    } else {
        None
    }
}

/// `u8::from_str_radix(pair, 16)` on a two-character pair: two hexadecimal digits, or a `+`
/// sign and one digit.
pub open spec fn pair_val(c0: char, c1: char) -> Option<u8> {
    if c0 == '+' {
        hex_val(c1)
    } else {
        match (hex_val(c0), hex_val(c1)) {
            (Some(h), Some(l)) => Some((h * 16 + l) as u8),
            _ => None,
        }
    }
}

pub open spec fn strip_ws(s: Seq<char>) -> Seq<char> {
    s.filter(|c: char| !ascii_ws(c))
}

/// The bytes of hexadecimal text `t` (already without whitespace), pair by pair.
pub open spec fn decode_pairs(t: Seq<char>) -> Option<Seq<u8>>
    decreases t.len(),
{
    if t.len() < 2 {
        Some(Seq::empty())
    } else {
        match (pair_val(t[0], t[1]), decode_pairs(t.subrange(2, t.len() as int))) {
            (Some(v), Some(rest)) => Some(seq![v] + rest),
            _ => None,
        }
    }
}

fn hex_digit(c: char) -> (r: Option<u8>)
    ensures
        r == hex_val(c),
{
    if '0' <= c && c <= '9' {
        Some(((c as u32) - 48) as u8)
    } else if 'a' <= c && c <= 'f' {
        Some(((c as u32) - 87) as u8)
    } else if 'A' <= c && c <= 'F' {
        Some(((c as u32) - 55) as u8)
    } else {
        None
    }
}

/// Bytes of hexadecimal text; whitespace is ignored. Odd length, or a pair that is not a
/// hexadecimal number, is an error.
pub fn hex_decode(s: &str) -> (r: Result<Vec<u8>, RvaError>)
    requires
        s.is_ascii(),
    ensures
        strip_ws(s@).len() % 2 != 0 ==> r matches Err(RvaError::Parse(_)),
        strip_ws(s@).len() % 2 == 0 ==> match decode_pairs(strip_ws(s@)) {
            Some(v) => r matches Ok(x) && x@ == v,
            None => r matches Err(RvaError::Parse(_)),
        },
{
    let n = s.unicode_len();
    let mut clean: Vec<char> = Vec::new();
    let mut i: usize = 0;
    while i < n
        invariant
            n == s@.len(),
            i <= n,
            clean@ == strip_ws(s@.subrange(0, i as int)),
        decreases n - i,
    {
        let c = s.get_char(i);
        proof {
            let pre = s@.subrange(0, i + 1);
            assert(pre.drop_last() =~= s@.subrange(0, i as int));
            assert(pre.last() == c);
            reveal(Seq::filter);
        }
        if !(c == '\t' || c == '\n' || c == '\u{b}' || c == '\u{c}' || c == '\r' || c == ' ') {
            clean.push(c);
        }
        proof {
            assert(s@.subrange(0, i as int).push(c) =~= s@.subrange(0, i + 1));
        }
        i = i + 1;
    }
    assert(s@.subrange(0, n as int) =~= s@);
    let m = clean.len();
    if m % 2 != 0 {
        return Err(RvaError::Parse(String::from_str("hex text must have an even length")));
    }
    let mut out: Vec<u8> = Vec::new();
    let mut k: usize = 0;
    proof {
        assert(clean@.subrange(0, m as int) =~= clean@);
        match decode_pairs(clean@) {
            Some(v) => {
                assert(out@ + v =~= v);
            },
            None => {},
        }
    }
    while k < m
        invariant
            m == clean@.len(),
            clean@ == strip_ws(s@),
            m % 2 == 0,
            k % 2 == 0,
            k <= m,
            decode_pairs(clean@) == match decode_pairs(clean@.subrange(k as int, m as int)) {
                Some(rest) => Some(out@ + rest),
                None => None,
            },
        decreases m - k,
    {
        let c0 = clean[k];
        let c1 = clean[k + 1];
        let v = if c0 == '+' {
            hex_digit(c1)
        } else {
            match (hex_digit(c0), hex_digit(c1)) {
                (Some(h), Some(l)) => Some(h * 16 + l),
                _ => None,
            }
        };
        proof {
            let t = clean@.subrange(k as int, m as int);
            assert(t.subrange(2, t.len() as int) =~= clean@.subrange(k + 2, m as int));
            assert(t[0] == c0 && t[1] == c1);
        }
        match v {
            Some(b) => {
                proof {
                    match decode_pairs(clean@.subrange(k + 2, m as int)) {
                        Some(rest) => {
                            assert(out@.push(b) + rest =~= out@ + (seq![b] + rest));
                        },
                        None => {},
                    }
                }
                out.push(b);
            },
            None => {
                proof {
                    let t = clean@.subrange(k as int, m as int);
                    assert(pair_val(c0, c1) is None);
                    assert(decode_pairs(t) is None);
                }
                return Err(RvaError::Parse(String::from_str("invalid hex digit")));
            },
        }
        k = k + 2;
    }
    proof {
        assert(clean@.subrange(m as int, m as int) =~= Seq::<char>::empty());
        assert(out@ + Seq::<u8>::empty() =~= out@);
    }
    Ok(out)
}

} // verus!
