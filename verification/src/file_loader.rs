//! File loading: format detection from the header bytes, architecture decoding and the
//! metadata model (entry point, section table) of a loaded file.

use vstd::prelude::*;
use crate::RvaError;

verus! {

#[derive(Debug, Clone, Copy, PartialEq, Eq, Structural)]
pub enum FileFormat {
    Bin,
    PE,
    ELF,
    MachO,
}

#[derive(Debug, Clone, Copy, PartialEq, Eq, Structural)]
pub enum Arch {
    X86,
    X86_64,
    Arm,
    Aarch64,
    Mips,
    Unknown,
}

impl Arch {
    /// Architecture of a PE COFF `Machine` field.
    pub fn from_pe_machine(m: u16) -> (a: Arch)
        ensures
            a == (if m == 0x014c { Arch::X86 } else if m == 0x8664 { Arch::X86_64 } else if m == 0x01c0
                || m == 0x01c2 || m == 0x01c4 { Arch::Arm } else if m == 0xaa64 { Arch::Aarch64 } else {
                Arch::Unknown }),
    {
        match m {
            0x014c => Arch::X86,
            0x8664 => Arch::X86_64,
            0x01c0 | 0x01c2 | 0x01c4 => Arch::Arm,
            0xaa64 => Arch::Aarch64,
            _ => Arch::Unknown,
        }
    }

    /// Architecture of an ELF `e_machine` field.
    pub fn from_elf_machine(m: u16) -> (a: Arch)
        ensures
            a == (if m == 0x03 { Arch::X86 } else if m == 0x3e { Arch::X86_64 } else if m == 0x28 {
                Arch::Arm } else if m == 0xb7 { Arch::Aarch64 } else if m == 0x08 { Arch::Mips } else {
                Arch::Unknown }),
    {
        match m {
            0x03 => Arch::X86,
            0x3e => Arch::X86_64,
            0x28 => Arch::Arm,
            0xb7 => Arch::Aarch64,
            0x08 => Arch::Mips,
            _ => Arch::Unknown,
        }
    }
}

#[derive(Debug, Clone)]
pub struct Segment {
    pub name: String,
    pub file_offset: u64,
    pub vaddr: u64,
    pub size: u64,
    pub is_executable: bool,
    pub is_writable: bool,
}

#[derive(Debug, Clone)]
pub struct FileMeta {
    pub format: FileFormat,
    pub arch: Arch,
    pub entry_point: Option<u64>,
    pub segments: Vec<Segment>,
    pub size: u64,
}

/// A loaded file: its path, its parsed metadata and its bytes.
pub struct LoadedFile {
    pub path: String,
    pub meta: FileMeta,
    pub data: Vec<u8>,
}

pub struct DefaultFileLoader;

/// Little-endian value of the first four bytes.
pub open spec fn le32_spec(d: Seq<u8>) -> int {
    d[0] + d[1] * 0x100 + d[2] * 0x10000 + d[3] * 0x1000000
}

/// The format that the header bytes announce; `None` when there are too few of them.
pub open spec fn detect_spec(d: Seq<u8>) -> Option<FileFormat> {
    if d.len() >= 2 && d[0] == 0x4d && d[1] == 0x5a {
        Some(FileFormat::PE)
    } else if d.len() >= 4 && d[0] == 0x7f && d[1] == 0x45 && d[2] == 0x4c && d[3] == 0x46 {
        Some(FileFormat::ELF)
    } else if d.len() >= 4 {
        let m = le32_spec(d);
        if m == 0xfeedface || m == 0xfeedfacf || m == 0xcafebabe || m == 0xcafebabf {
            Some(FileFormat::MachO)
        } else {
            Some(FileFormat::Bin)
        }
    } else {
        None
    }
}

/// Format detection by magic bytes: input starting with `MZ` is PE; input starting with
/// `7f 45 4c 46` is ELF; other input of at least four bytes whose first four bytes are a
/// Mach-O magic read little-endian (0xfeedface, 0xfeedfacf, 0xcafebabe, 0xcafebabf, i.e.
/// `ce fa ed fe`, `cf fa ed fe`, `be ba fe ca`, `bf ba fe ca`) is Mach-O, and any other
/// such input is raw binary; input shorter than four bytes without the `MZ` mark has no
/// format.
pub proof fn law_detect_format(d: Seq<u8>)
    ensures
        d.len() >= 2 && d[0] == 0x4du8 && d[1] == 0x5au8 ==> detect_spec(d) == Some(FileFormat::PE),
        d.len() >= 4 && !(d[0] == 0x4du8 && d[1] == 0x5au8) && d[0] == 0x7fu8 && d[1] == 0x45u8 && d[2] == 0x4cu8 && d[3] == 0x46u8
            ==> detect_spec(d) == Some(FileFormat::ELF),
        d.len() >= 4 && !(d[0] == 0x4du8 && d[1] == 0x5au8) && !(d[0] == 0x7fu8 && d[1] == 0x45u8 && d[2] == 0x4cu8 && d[3] == 0x46u8)
            ==> (detect_spec(d) == Some(FileFormat::MachO) <==> (
                (d[0] == 0xceu8 && d[1] == 0xfau8 && d[2] == 0xedu8 && d[3] == 0xfeu8)
                || (d[0] == 0xcfu8 && d[1] == 0xfau8 && d[2] == 0xedu8 && d[3] == 0xfeu8)
                || (d[0] == 0xbeu8 && d[1] == 0xbau8 && d[2] == 0xfeu8 && d[3] == 0xcau8)
                || (d[0] == 0xbfu8 && d[1] == 0xbau8 && d[2] == 0xfeu8 && d[3] == 0xcau8))),
        d.len() >= 4 && !(d[0] == 0x4du8 && d[1] == 0x5au8) && !(d[0] == 0x7fu8 && d[1] == 0x45u8 && d[2] == 0x4cu8 && d[3] == 0x46u8)
            && detect_spec(d) != Some(FileFormat::MachO) ==> detect_spec(d) == Some(FileFormat::Bin),
        d.len() < 4 && !(d.len() >= 2 && d[0] == 0x4du8 && d[1] == 0x5au8) ==> detect_spec(d) is None,
{
    if d.len() >= 4 {
        let (b0, b1, b2, b3) = (d[0], d[1], d[2], d[3]);
        let m = le32_spec(d);
        assert(m == b0 + b1 * 0x100 + b2 * 0x10000 + b3 * 0x1000000);
        assert(m == 0xfeedface <==> (b0 == 0xce && b1 == 0xfa && b2 == 0xed && b3 == 0xfe)) by (nonlinear_arith)
            requires
                m == b0 + b1 * 0x100 + b2 * 0x10000 + b3 * 0x1000000,
                0 <= b0 < 256, 0 <= b1 < 256, 0 <= b2 < 256, 0 <= b3 < 256,
        ;
        assert(m == 0xfeedfacf <==> (b0 == 0xcf && b1 == 0xfa && b2 == 0xed && b3 == 0xfe)) by (nonlinear_arith)
            requires
                m == b0 + b1 * 0x100 + b2 * 0x10000 + b3 * 0x1000000,
                0 <= b0 < 256, 0 <= b1 < 256, 0 <= b2 < 256, 0 <= b3 < 256,
        ;
        assert(m == 0xcafebabe <==> (b0 == 0xbe && b1 == 0xba && b2 == 0xfe && b3 == 0xca)) by (nonlinear_arith)
            requires
                m == b0 + b1 * 0x100 + b2 * 0x10000 + b3 * 0x1000000,
                0 <= b0 < 256, 0 <= b1 < 256, 0 <= b2 < 256, 0 <= b3 < 256,
        ;
        assert(m == 0xcafebabf <==> (b0 == 0xbf && b1 == 0xba && b2 == 0xfe && b3 == 0xca)) by (nonlinear_arith)
            requires
                m == b0 + b1 * 0x100 + b2 * 0x10000 + b3 * 0x1000000,
                0 <= b0 < 256, 0 <= b1 < 256, 0 <= b2 < 256, 0 <= b3 < 256,
        ;
    }
}

impl DefaultFileLoader {
    /// Identifies the format from the magic bytes only: `MZ` is PE, `\x7fELF` is ELF, the
    /// four Mach-O / fat magics (little-endian) are Mach-O, anything else of at least four
    /// bytes is raw binary; shorter input is unsupported.
    pub fn detect_format_bytes(data: &[u8]) -> (r: Result<FileFormat, RvaError>)
        ensures
            match detect_spec(data@) {
                Some(f) => r == Ok::<FileFormat, RvaError>(f),
                None => r matches Err(RvaError::UnsupportedFormat),
            },
    {
        if data.len() >= 2 && data[0] == 0x4d && data[1] == 0x5a {
            Ok(FileFormat::PE)
        } else if data.len() >= 4 && data[0] == 0x7f && data[1] == 0x45 && data[2] == 0x4c && data[3] == 0x46 {
            Ok(FileFormat::ELF)
        } else if data.len() >= 4 {
            let magic: u32 = data[0] as u32 + data[1] as u32 * 0x100 + data[2] as u32 * 0x10000 + data[3] as u32 * 0x1000000;
            if magic == 0xfeedface || magic == 0xfeedfacf || magic == 0xcafebabe || magic == 0xcafebabf {
                Ok(FileFormat::MachO)
            } else {
                Ok(FileFormat::Bin)
            }
        } else {
            Err(RvaError::UnsupportedFormat)
        }
    }
}

/// The single segment that stands for a whole file without a parsed section table.
pub open spec fn raw_segment_spec(s: Segment, size: u64) -> bool {
    &&& s.name@ == "<raw>"@
    &&& s.file_offset == 0
    &&& s.vaddr == 0
    &&& s.size == size
    &&& !s.is_executable
    &&& !s.is_writable
}

/// The `<raw>` segment covering `size` bytes.
pub fn raw_segment(size: u64) -> (s: Segment)
    ensures
        raw_segment_spec(s, size),
{
    Segment {
        name: String::from_str("<raw>"),
        file_offset: 0,
        vaddr: 0,
        size,
        is_executable: false,
        is_writable: false,
    }
}

} // verus!

verus! {

/// One section or segment as a header lists it: name (`None` when unreadable), file offset,
/// virtual address, size, flags.
pub type SectionRecord = (Option<String>, u64, u64, u64, u64);

pub open spec fn rec_view(r: SectionRecord) -> (Option<Seq<char>>, u64, u64, u64, u64) {
    (match r.0 { Some(s) => Some(s@), None => None }, r.1, r.2, r.3, r.4)
}

pub open spec fn recs_view(v: Seq<SectionRecord>) -> Seq<(Option<Seq<char>>, u64, u64, u64, u64)> {
    v.map_values(|r: SectionRecord| rec_view(r))
}

pub open spec fn header_view(r: Result<(u16, u64, Vec<SectionRecord>), String>) -> Result<(u16, u64, Seq<(Option<Seq<char>>, u64, u64, u64, u64)>), Seq<char>> {
    match r {
        Ok((m, e, v)) => Ok((m, e, recs_view(v@))),
        Err(s) => Err(s@),
    }
}

/// What goblin's PE parser reads from the bytes: COFF machine, entry point, and per section
/// its name, raw-data pointer, virtual address, raw-data size and characteristics; or the
/// parser's error message.
pub uninterp spec fn pe_headers_spec(data: Seq<u8>) -> Result<(u16, u64, Seq<(Option<Seq<char>>, u64, u64, u64, u64)>), Seq<char>>;

/// What goblin's ELF parser reads: `e_machine`, entry point, and per section header its
/// name from the section-name table, offset, address, size and flags; or the error message.
pub uninterp spec fn elf_headers_spec(data: Seq<u8>) -> Result<(u16, u64, Seq<(Option<Seq<char>>, u64, u64, u64, u64)>), Seq<char>>;

/// What goblin's Mach-O parser reads: for a single-architecture binary its segments (name,
/// file offset, VM address, VM size), for a fat binary an empty list (tag 1 / 2 in the first
/// field); or the error message.
pub uninterp spec fn macho_headers_spec(data: Seq<u8>) -> Result<(u16, u64, Seq<(Option<Seq<char>>, u64, u64, u64, u64)>), Seq<char>>;

/// Calls `goblin::pe::PE::parse`. Trusted: the result is `pe_headers_spec` of the bytes.
#[verifier::external_body]
fn pe_headers(data: &[u8]) -> (r: Result<(u16, u64, Vec<SectionRecord>), String>)
    ensures
        header_view(r) == pe_headers_spec(data@),
{
    match goblin::pe::PE::parse(data) {
        Ok(pe) => Ok((pe.header.coff_header.machine, pe.entry as u64, pe.sections.iter().map(|s| (s.name().ok().map(|n| n.to_string()),
            s.pointer_to_raw_data as u64, s.virtual_address as u64, s.size_of_raw_data as u64, s.characteristics as u64)).collect())),
        Err(e) => Err(e.to_string()),
    }
}

/// Calls `goblin::elf::Elf::parse`. Trusted: the result is `elf_headers_spec` of the bytes.
#[verifier::external_body]
fn elf_headers(data: &[u8]) -> (r: Result<(u16, u64, Vec<SectionRecord>), String>)
    ensures
        header_view(r) == elf_headers_spec(data@),
{
    match goblin::elf::Elf::parse(data) {
        Ok(elf) => Ok((elf.header.e_machine, elf.entry, elf.section_headers.iter().map(|sh| (elf.shdr_strtab.get_at(sh.sh_name).map(|n| n.to_string()),
            sh.sh_offset, sh.sh_addr, sh.sh_size, sh.sh_flags)).collect())),
        Err(e) => Err(e.to_string()),
    }
}

/// Calls `goblin::mach::Mach::parse`. Trusted: the result is `macho_headers_spec` of the bytes.
#[verifier::external_body]
fn macho_headers(data: &[u8]) -> (r: Result<(u16, u64, Vec<SectionRecord>), String>)
    ensures
        header_view(r) == macho_headers_spec(data@),
{
    match goblin::mach::Mach::parse(data) {
        Ok(goblin::mach::Mach::Binary(b)) => Ok((1, 0, b.segments.iter().map(|s| (s.name().ok().map(|n| n.to_string()),
            s.fileoff, s.vmaddr, s.vmsize, 0)).collect())),
        Ok(goblin::mach::Mach::Fat(_)) => Ok((2, 0, Vec::new())),
        Err(e) => Err(e.to_string()),
    }
}

pub open spec fn seg_view(s: Segment) -> (Seq<char>, u64, u64, u64, bool, bool) {
    (s.name@, s.file_offset, s.vaddr, s.size, s.is_executable, s.is_writable)
}

pub open spec fn segs_view(v: Seq<Segment>) -> Seq<(Seq<char>, u64, u64, u64, bool, bool)> {
    v.map_values(|s: Segment| seg_view(s))
}

/// The segment of a header record: name (or `<unknown>`), offset, address, size, and the
/// executable / writable bits of `flags` under the masks `ex` and `wr`.
pub open spec fn rec_segment(r: (Option<Seq<char>>, u64, u64, u64, u64), ex: u64, wr: u64) -> (Seq<char>, u64, u64, u64, bool, bool) {
    (match r.0 { Some(n) => n, None => "<unknown>"@ }, r.1, r.2, r.3, r.4 & ex != 0, r.4 & wr != 0)
}

pub open spec fn rec_segments(v: Seq<(Option<Seq<char>>, u64, u64, u64, u64)>, ex: u64, wr: u64) -> Seq<(Seq<char>, u64, u64, u64, bool, bool)> {
    v.map_values(|r: (Option<Seq<char>>, u64, u64, u64, u64)| rec_segment(r, ex, wr))
}

fn to_segments(recs: &Vec<SectionRecord>, ex: u64, wr: u64) -> (v: Vec<Segment>)
    ensures
        segs_view(v@) == rec_segments(recs_view(recs@), ex, wr),
{
    let mut v: Vec<Segment> = Vec::new();
    let n = recs.len();
    let mut i: usize = 0;
    while i < n
        invariant
            n == recs@.len(),
            i <= n,
            segs_view(v@) == rec_segments(recs_view(recs@), ex, wr).subrange(0, i as int),
        decreases n - i,
    {
        let r = &recs[i];
        let name = match &r.0 {
            Some(s) => s.clone(),
            None => String::from_str("<unknown>"),
        };
        let seg = Segment { name, file_offset: r.1, vaddr: r.2, size: r.3, is_executable: r.4 & ex != 0, is_writable: r.4 & wr != 0 };
        proof {
            let rv = rec_view(recs@[i as int]);
            assert(recs_view(recs@)[i as int] == rv);
            assert(seg_view(seg) == rec_segment(rv, ex, wr));
        }
        let ghost before = v@;
        v.push(seg);
        proof {
            assert(segs_view(v@) =~= segs_view(before).push(seg_view(seg)));
            assert(rec_segments(recs_view(recs@), ex, wr).subrange(0, i + 1)
                =~= rec_segments(recs_view(recs@), ex, wr).subrange(0, i as int).push(rec_segment(recs_view(recs@)[i as int], ex, wr)));
        }
        i = i + 1;
    }
    assert(rec_segments(recs_view(recs@), ex, wr).subrange(0, n as int) =~= rec_segments(recs_view(recs@), ex, wr));
    v
}

/// Section masks: PE `IMAGE_SCN_MEM_EXECUTE` / `IMAGE_SCN_MEM_WRITE`, ELF `SHF_EXECINSTR` / `SHF_WRITE`.
pub const PE_EXEC: u64 = 0x2000_0000;
pub const PE_WRITE: u64 = 0x8000_0000;
pub const ELF_EXEC: u64 = 0x4;
pub const ELF_WRITE: u64 = 0x1;

/// The metadata that `parse_meta` reads for a format, as plain values: architecture, entry
/// point and segment views; `None` when the header parser rejects the bytes.
pub open spec fn meta_spec(format: FileFormat, data: Seq<u8>) -> Option<(Arch, Option<u64>, Seq<(Seq<char>, u64, u64, u64, bool, bool)>)> {
    match format {
        FileFormat::Bin => Some((Arch::Unknown, None, seq![("<raw>"@, 0u64, 0u64, data.len() as u64, false, false)])),
        FileFormat::PE => match pe_headers_spec(data) {
            Ok((m, e, recs)) => Some((arch_of_pe(m), Some(e), rec_segments(recs, PE_EXEC, PE_WRITE))),
            Err(_) => None,
        },
        FileFormat::ELF => match elf_headers_spec(data) {
            Ok((m, e, recs)) => Some((arch_of_elf(m), Some(e), rec_segments(recs, ELF_EXEC, ELF_WRITE))),
            Err(_) => None,
        },
        FileFormat::MachO => match macho_headers_spec(data) {
            Ok((_, _, recs)) => Some((Arch::Unknown, None, rec_segments(recs, 0, 0))),
            Err(_) => None,
        },
    }
}

pub open spec fn arch_of_pe(m: u16) -> Arch {
    if m == 0x014c { Arch::X86 } else if m == 0x8664 { Arch::X86_64 } else if m == 0x01c0 || m == 0x01c2 || m == 0x01c4 {
        Arch::Arm } else if m == 0xaa64 { Arch::Aarch64 } else { Arch::Unknown }
}

pub open spec fn arch_of_elf(m: u16) -> Arch {
    if m == 0x03 { Arch::X86 } else if m == 0x3e { Arch::X86_64 } else if m == 0x28 { Arch::Arm } else if m == 0xb7 {
        Arch::Aarch64 } else if m == 0x08 { Arch::Mips } else { Arch::Unknown }
}

/// Architecture, entry point and section table of a file of the given format, through
/// goblin; a parser error is a `Parse` error. Mach-O reports no architecture or entry point,
/// and a fat Mach-O no segments.
pub fn parse_meta(format: FileFormat, data: &[u8]) -> (r: Result<(Arch, Option<u64>, Vec<Segment>), RvaError>)
    requires
        data@.len() <= u64::MAX,
    ensures
        match meta_spec(format, data@) {
            Some((a, e, sv)) => r matches Ok((a2, e2, v)) && a2 == a && e2 == e && segs_view(v@) == sv,
            None => r matches Err(RvaError::Parse(_)),
        },
{
    match format {
        FileFormat::Bin => {
            let mut v: Vec<Segment> = Vec::new();
            v.push(raw_segment(data.len() as u64));
            proof {
                reveal_strlit("<raw>");
                assert(segs_view(v@) =~= seq![("<raw>"@, 0u64, 0u64, data@.len() as u64, false, false)]);
            }
            Ok((Arch::Unknown, None, v))
        },
        FileFormat::PE => match pe_headers(data) {
            Ok((m, e, recs)) => Ok((Arch::from_pe_machine(m), Some(e), to_segments(&recs, PE_EXEC, PE_WRITE))),
            Err(msg) => Err(RvaError::Parse(msg)),
        },
        FileFormat::ELF => match elf_headers(data) {
            Ok((m, e, recs)) => Ok((Arch::from_elf_machine(m), Some(e), to_segments(&recs, ELF_EXEC, ELF_WRITE))),
            Err(msg) => Err(RvaError::Parse(msg)),
        },
        FileFormat::MachO => match macho_headers(data) {
            Ok((_, _, recs)) => Ok((Arch::Unknown, None, to_segments(&recs, 0, 0))),
            Err(msg) => Err(RvaError::Parse(msg)),
        },
    }
}

impl DefaultFileLoader {
    /// Builds a loaded file from its bytes: detects the format (too short input is
    /// unsupported) and parses the metadata; when the header parser fails the file keeps
    /// an unknown architecture, no entry point and a single `<raw>` segment.
    pub fn load_from_bytes(path: String, data: Vec<u8>) -> (r: Result<LoadedFile, RvaError>)
        requires
            data@.len() <= u64::MAX,
        ensures
            match detect_spec(data@) {
                None => r matches Err(RvaError::UnsupportedFormat),
                Some(f) => r matches Ok(lf) && lf.path@ == path@ && lf.data@ == data@ && lf.meta.format == f
                    && lf.meta.size == data@.len()
                    && match meta_spec(f, data@) {
                        Some((a, e, sv)) => lf.meta.arch == a && lf.meta.entry_point == e && segs_view(lf.meta.segments@) == sv,
                        None => lf.meta.arch == Arch::Unknown && lf.meta.entry_point is None && lf.meta.segments@.len() == 1
                            && raw_segment_spec(lf.meta.segments@[0], data@.len() as u64),
                    },
            },
    {
        let format = match Self::detect_format_bytes(data.as_slice()) {
            Ok(f) => f,
            Err(e) => {
                return Err(e);
            },
        };
        let size = data.len() as u64;
        let (arch, entry_point, segments) = match parse_meta(format, data.as_slice()) {
            Ok(x) => x,
            Err(_) => {
                let mut v: Vec<Segment> = Vec::new();
                v.push(raw_segment(size));
                (Arch::Unknown, None, v)
            },
        };
        Ok(LoadedFile { path, meta: FileMeta { format, arch, entry_point, segments, size }, data })
    }
}

} // verus!
