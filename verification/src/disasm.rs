//! x86 / x64 disassembly into normalized instruction signatures: relocation-sensitive
//! fields (branch targets, immediates, displacements) are masked so that instructions that
//! only moved during recompilation keep their signature.

use vstd::prelude::*;
use crate::hashing::{xxh, spec_xxh64, XXH_SEED};
use crate::util::extend;

verus! {

/// One disassembled instruction.
#[derive(Debug, Clone, Copy)]
pub struct Insn {
    /// File offset of the instruction.
    pub offset: usize,
    /// Length in bytes.
    pub len: usize,
    /// Normalized signature (xxh64 of the normalized text).
    pub sig: u64,
}

/// What iced-x86 decodes at the start of `code` (at instruction pointer `ip`, in a
/// `bitness`-bit mode): the length, the mnemonic's debug name (bytes), the operand kinds
/// (numeric), whether the memory operand is RIP-relative, and the memory index scale.
pub uninterp spec fn decode_spec(code: Seq<u8>, ip: u64, bitness: u32) -> (usize, Seq<u8>, Seq<u32>, bool, u32);

/// Decodes one instruction of `data[pos..]` with `iced_x86::Decoder::with_ip` and
/// `decode_out`. Trusted: the result is `decode_spec` of the bytes from `pos`, the ip and
/// the bitness; nothing else is stated of it.
#[verifier::external_body]
fn decode_at(data: &[u8], pos: usize, ip: u64, bitness: u32) -> (r: (usize, Vec<u8>, Vec<u32>, bool, u32))
    requires
        pos < data@.len(),
        bitness == 32 || bitness == 64,
    ensures
        ({
            let d = decode_spec(data@.subrange(pos as int, data@.len() as int), ip, bitness);
            r.0 == d.0 && r.1@ == d.1 && r.2@ == d.2 && r.3 == d.3 && r.4 == d.4
        }),
{
    let mut decoder = iced_x86::Decoder::with_ip(bitness, &data[pos..], ip, iced_x86::DecoderOptions::NONE);
    let mut insn = iced_x86::Instruction::default();
    decoder.decode_out(&mut insn);
    let kinds: Vec<u32> = (0..insn.op_count()).map(|i| insn.op_kind(i) as u32).collect();
    let name = format!("{:?}", insn.mnemonic()).into_bytes();
    (insn.len(), name, kinds, insn.is_ip_rel_memory_operand(), insn.memory_index_scale())
}

/// ASCII bytes of a string.
pub open spec fn ascii(s: Seq<char>) -> Seq<u8> {
    s.map_values(|c: char| c as u8)
}

/// Normalized text of an operand kind (iced-x86 `OpKind` numbering): registers stay,
/// branch targets, far pointers and immediates are masked, memory keeps only its shape.
pub open spec fn operand_text(kind: u32, ip_rel: bool, scale: u32) -> Seq<u8> {
    if kind == 0 {
        ascii("reg"@)
    } else if 1 <= kind <= 3 {
        ascii("rel"@)
    } else if 4 <= kind <= 5 {
        ascii("far"@)
    } else if 6 <= kind <= 14 {
        ascii("imm"@)
    } else if kind == 24 {
        if ip_rel {
            ascii("m[rip]"@)
        } else {
            ascii("m[base+idx*"@) + dec_bytes(scale as nat) + ascii("]"@)
        }
    } else {
        ascii("m[seg]"@)
    }
}

/// The normalized text: mnemonic, then `|` and the text of each operand.
pub open spec fn sig_text(name: Seq<u8>, kinds: Seq<u32>, ip_rel: bool, scale: u32) -> Seq<u8>
    decreases kinds.len(),
{
    if kinds.len() == 0 {
        name
    } else {
        sig_text(name, kinds.drop_last(), ip_rel, scale) + ascii("|"@) + operand_text(kinds.last(), ip_rel, scale)
    }
}

/// Appends the bytes of an ASCII string.
fn push_ascii(out: &mut Vec<u8>, s: &str)
    requires
        s.is_ascii(),
    ensures
        final(out)@ == old(out)@ + ascii(s@),
{
    let n = s.unicode_len();
    let mut i: usize = 0;
    let ghost o = out@;
    while i < n
        invariant
            n == s@.len(),
            s.is_ascii(),
            i <= n,
            out@ == o + ascii(s@.subrange(0, i as int)),
        decreases n - i,
    {
        let b = s.get_ascii(i);
        out.push(b);
        proof {
            assert(ascii(s@.subrange(0, i + 1)) =~= ascii(s@.subrange(0, i as int)).push(s@[i as int] as u8));
        }
        i = i + 1;
    }
    assert(s@.subrange(0, n as int) =~= s@);
}

/// ASCII decimal digits of `n`.
pub open spec fn dec_bytes(n: nat) -> Seq<u8>
    decreases n,
{
    if n < 10 {
        seq![(48 + n) as u8]
    } else {
        dec_bytes(n / 10).push((48 + n % 10) as u8)
    }
}

/// Appends the decimal digits of `n`.
fn push_dec(out: &mut Vec<u8>, n: u32)
    ensures
        final(out)@ == old(out)@ + dec_bytes(n as nat),
    decreases n,
{
    if n < 10 {
        out.push((48 + n) as u8);
    } else {
        push_dec(out, n / 10);
        out.push((48 + n % 10) as u8);
    }
}

/// Appends the normalized text of one operand.
fn push_operand(out: &mut Vec<u8>, kind: u32, ip_rel: bool, scale: u32)
    ensures
        final(out)@ == old(out)@ + operand_text(kind, ip_rel, scale),
{
    proof {
        reveal_strlit("reg");
        reveal_strlit("rel");
        reveal_strlit("far");
        reveal_strlit("imm");
        reveal_strlit("m[rip]");
        reveal_strlit("m[base+idx*");
        reveal_strlit("]");
        reveal_strlit("m[seg]");
    }
    if kind == 0 {
        push_ascii(out, "reg");
    } else if 1 <= kind && kind <= 3 {
        push_ascii(out, "rel");
    } else if 4 <= kind && kind <= 5 {
        push_ascii(out, "far");
    } else if 6 <= kind && kind <= 14 {
        push_ascii(out, "imm");
    } else if kind == 24 {
        if ip_rel {
            push_ascii(out, "m[rip]");
        } else {
            push_ascii(out, "m[base+idx*");
            push_dec(out, scale);
            push_ascii(out, "]");
        }
    } else {
        push_ascii(out, "m[seg]");
    }
}

} // verus!

verus! {

/// Signature of a decoded instruction: xxh64 of its normalized text.
pub fn norm_sig(name: &Vec<u8>, kinds: &Vec<u32>, ip_rel: bool, scale: u32) -> (h: u64)
    ensures
        h == spec_xxh64(sig_text(name@, kinds@, ip_rel, scale), XXH_SEED),
{
    let mut s: Vec<u8> = Vec::new();
    extend(&mut s, name.as_slice());
    assert(s@ =~= name@);
    let n = kinds.len();
    let mut i: usize = 0;
    while i < n
        invariant
            n == kinds@.len(),
            i <= n,
            s@ == sig_text(name@, kinds@.subrange(0, i as int), ip_rel, scale),
        decreases n - i,
    {
        proof {
            reveal_strlit("|");
            assert(kinds@.subrange(0, i + 1).drop_last() =~= kinds@.subrange(0, i as int));
        }
        push_ascii(&mut s, "|");
        push_operand(&mut s, kinds[i], ip_rel, scale);
        i = i + 1;
    }
    assert(kinds@.subrange(0, n as int) =~= kinds@);
    xxh(s.as_slice())
}

/// The instructions decoded from `data[pos..]`, one after another, until the data ends or
/// an instruction has no length.
pub open spec fn disasm_from(data: Seq<u8>, pos: int, base_ip: u64, file_base: usize, bitness: u32) -> Seq<Insn>
    decreases data.len() - pos,
{
    if pos < 0 || pos >= data.len() {
        Seq::empty()
    } else {
        let d = decode_spec(data.subrange(pos, data.len() as int), base_ip.wrapping_add(pos as u64), bitness);
        if d.0 == 0 || d.0 > data.len() - pos {
            Seq::empty()
        } else {
            seq![Insn { offset: (file_base + pos) as usize, len: d.0, sig: spec_xxh64(sig_text(d.1, d.2, d.3, d.4), XXH_SEED) }]
                + disasm_from(data, pos + d.0, base_ip, file_base, bitness)
        }
    }
}

/// Disassembles x86 / x64 code: `data` is a segment's bytes, `base_ip` its virtual address
/// and `file_base` its file offset.
pub fn disassemble(data: &[u8], base_ip: u64, file_base: usize, bitness: u32) -> (out: Vec<Insn>)
    requires
        bitness == 32 || bitness == 64,
        file_base + data@.len() <= usize::MAX,
    ensures
        out@ == disasm_from(data@, 0, base_ip, file_base, bitness),
{
    let n = data.len();
    let mut out: Vec<Insn> = Vec::new();
    let mut pos: usize = 0;
    while pos < n
        invariant
            n == data@.len(),
            bitness == 32 || bitness == 64,
            file_base + n <= usize::MAX,
            pos <= n,
            out@ + disasm_from(data@, pos as int, base_ip, file_base, bitness) == disasm_from(data@, 0, base_ip, file_base, bitness),
        decreases n - pos,
    {
        let (len, name, kinds, ip_rel, scale) = decode_at(data, pos, base_ip.wrapping_add(pos as u64), bitness);
        if len == 0 || len > n - pos {
            proof {
                assert(out@ + Seq::<Insn>::empty() =~= out@);
            }
            return out;
        }
        let sig = norm_sig(&name, &kinds, ip_rel, scale);
        let insn = Insn { offset: file_base + pos, len, sig };
        proof {
            assert(out@.push(insn) + disasm_from(data@, pos + len, base_ip, file_base, bitness)
                =~= out@ + disasm_from(data@, pos as int, base_ip, file_base, bitness));
        }
        out.push(insn);
        pos = pos + len;
    }
    proof {
        assert(out@ + Seq::<Insn>::empty() =~= out@);
    }
    out
}

} // verus!

verus! {

/// The disassembly is sorted by offset, each instruction ends within the data, and there
/// are at most as many instructions as bytes.
pub proof fn lemma_disasm_shape(data: Seq<u8>, pos: int, base_ip: u64, file_base: usize, bitness: u32)
    requires
        0 <= pos <= data.len(),
        file_base + data.len() <= usize::MAX,
    ensures
        ({
            let s = disasm_from(data, pos, base_ip, file_base, bitness);
            &&& s.len() <= data.len() - pos
            &&& forall|i: int| 0 <= i < s.len() ==> file_base + pos <= (#[trigger] s[i]).offset
                && s[i].offset + s[i].len <= file_base + data.len()
            &&& forall|i: int, j: int| 0 <= i <= j < s.len() ==> (#[trigger] s[i]).offset <= (#[trigger] s[j]).offset
        }),
    decreases data.len() - pos,
{
    if pos < data.len() {
        let d = decode_spec(data.subrange(pos, data.len() as int), base_ip.wrapping_add(pos as u64), bitness);
        if !(d.0 == 0 || d.0 > data.len() - pos) {
            lemma_disasm_shape(data, pos + d.0, base_ip, file_base, bitness);
            let rest = disasm_from(data, pos + d.0, base_ip, file_base, bitness);
            let s = disasm_from(data, pos, base_ip, file_base, bitness);
            assert forall|i: int| 0 <= i < s.len() implies file_base + pos <= (#[trigger] s[i]).offset
                && s[i].offset + s[i].len <= file_base + data.len() by {
                if i > 0 {
                    assert(s[i] == rest[i - 1]);
                }
            }
            assert forall|i: int, j: int| 0 <= i <= j < s.len() implies (#[trigger] s[i]).offset <= (#[trigger] s[j]).offset by {
                if i > 0 {
                    assert(s[i] == rest[i - 1]);
                }
                if j > 0 {
                    assert(s[j] == rest[j - 1]);
                }
            }
        }
    }
}

} // verus!
