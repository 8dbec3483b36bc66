//! The `.rvapatch` container: magic `RVPT`, a little-endian u16 version and a sequence of
//! TLV records (tag byte, u32 length, data).
//! - tag 1, metadata: source SHA-256, target SHA-256, timestamp i64, engine version u32,
//!   strategy u8, entry count u32 (81 bytes);
//! - tag 2, the serialized patch;
//! - tag 3, one signature: key fingerprint (32) and Ed25519 signature (64); repeatable;
//! - tag 4, rollback snapshot: segments of old bytes, each old_start u64, len u32, bytes.
//! The signed content is everything but the signature records, so adding a signature
//! never invalidates an earlier one.

use vstd::prelude::*;
use vstd::bytes::*;
use crate::RvaError;
use crate::patch_engine::{Patch, PatchOp, OpView, ops_view};
use crate::hashing::{sha256_raw, spec_sha256};
use crate::util::{copy_range, extend};

verus! {

pub const PACK_MAGIC: [u8; 4] = [0x52, 0x56, 0x50, 0x54];
pub const PACK_VERSION: u16 = 1;
pub const TAG_META: u8 = 0x01;
pub const TAG_PATCH: u8 = 0x02;
pub const TAG_SIG: u8 = 0x03;
pub const TAG_REVERT: u8 = 0x04;

pub open spec fn magic_spec() -> Seq<u8> {
    seq![0x52u8, 0x56u8, 0x50u8, 0x54u8]
}

/// Rollback snapshot segment: old bytes of the source file that were replaced or removed.
#[derive(Debug, Clone)]
pub struct RevertSegment {
    pub old_start: u64,
    pub len: u32,
    pub bytes: Vec<u8>,
}

pub struct SegView {
    pub old_start: u64,
    pub len: u32,
    pub bytes: Seq<u8>,
}

impl View for RevertSegment {
    type V = SegView;

    open spec fn view(&self) -> SegView {
        SegView { old_start: self.old_start, len: self.len, bytes: self.bytes@ }
    }
}

/// Container metadata.
#[derive(Debug, Clone)]
pub struct PatchMeta {
    pub source_sha256: [u8; 32],
    pub target_sha256: [u8; 32],
    /// Unix time of generation, in seconds.
    pub timestamp: i64,
    pub engine_version: u32,
    /// Diff strategy id (0 chunked hash, 1 sliding window, 2 structure matching).
    pub strategy: u8,
    pub entry_count: u32,
}

pub struct MetaView {
    pub source: Seq<u8>,
    pub target: Seq<u8>,
    pub timestamp: i64,
    pub engine_version: u32,
    pub strategy: u8,
    pub entry_count: u32,
}

impl View for PatchMeta {
    type V = MetaView;

    open spec fn view(&self) -> MetaView {
        MetaView {
            source: self.source_sha256@,
            target: self.target_sha256@,
            timestamp: self.timestamp,
            engine_version: self.engine_version,
            strategy: self.strategy,
            entry_count: self.entry_count,
        }
    }
}

/// One signature record: fingerprint (SHA-256 of the public key) and Ed25519 signature.
#[derive(Debug, Clone)]
pub struct PatchSignature {
    pub fingerprint: [u8; 32],
    pub signature: [u8; 64],
}

pub struct SigView {
    pub fingerprint: Seq<u8>,
    pub signature: Seq<u8>,
}

impl View for PatchSignature {
    type V = SigView;

    open spec fn view(&self) -> SigView {
        SigView { fingerprint: self.fingerprint@, signature: self.signature@ }
    }
}

/// Little-endian u32 at `b[at..at+4]`.
pub open spec fn le32_at(b: Seq<u8>, at: int) -> u32 {
    spec_u32_from_le_bytes(b.subrange(at, at + 4))
}

pub open spec fn seg_enc(s: SegView) -> Seq<u8> {
    spec_u64_to_le_bytes(s.old_start) + spec_u32_to_le_bytes(s.len) + s.bytes
}

/// The segment at the front of `d` and the number of bytes it takes.
pub open spec fn seg_dec(d: Seq<u8>) -> Option<(SegView, int)> {
    if d.len() < 12 {
        None
    } else {
        let len = le32_at(d, 8);
        if 12 + len > d.len() {
            None
        } else {
            Some((SegView { old_start: spec_u64_from_le_bytes(d.subrange(0, 8)), len, bytes: d.subrange(12, 12 + len) }, 12 + len))
        }
    }
}

pub open spec fn meta_enc(m: MetaView) -> Seq<u8> {
    m.source + m.target + spec_u64_to_le_bytes(m.timestamp as u64) + spec_u32_to_le_bytes(m.engine_version)
        + seq![m.strategy] + spec_u32_to_le_bytes(m.entry_count)
}

pub open spec fn meta_dec(d: Seq<u8>) -> Option<MetaView> {
    if d.len() != 81 {
        None
    } else {
        Some(MetaView {
            source: d.subrange(0, 32),
            target: d.subrange(32, 64),
            timestamp: spec_u64_from_le_bytes(d.subrange(64, 72)) as i64,
            engine_version: spec_u32_from_le_bytes(d.subrange(72, 76)),
            strategy: d[76],
            entry_count: spec_u32_from_le_bytes(d.subrange(77, 81)),
        })
    }
}

pub open spec fn sig_enc(s: SigView) -> Seq<u8> {
    s.fingerprint + s.signature
}

pub open spec fn sig_dec(d: Seq<u8>) -> Option<SigView> {
    if d.len() != 96 {
        None
    } else {
        Some(SigView { fingerprint: d.subrange(0, 32), signature: d.subrange(32, 96) })
    }
}

/// Copies `d[s..s+32]` into an array.
pub(crate) fn array32(d: &[u8], s: usize) -> (a: [u8; 32])
    requires
        s + 32 <= d@.len(),
    ensures
        a@ == d@.subrange(s as int, s + 32),
{
    let mut a = [0u8; 32];
    let mut i: usize = 0;
    while i < 32
        invariant
            s + 32 <= d.len(),
            i <= 32,
            forall|k: int| 0 <= k < i ==> a@[k] == d@[s + k],
        decreases 32 - i,
    {
        a[i] = d[s + i];
        i = i + 1;
    }
    assert(a@ =~= d@.subrange(s as int, s + 32));
    a
}

/// Copies `d[s..s+64]` into an array.
fn array64(d: &[u8], s: usize) -> (a: [u8; 64])
    requires
        s + 64 <= d@.len(),
    ensures
        a@ == d@.subrange(s as int, s + 64),
{
    let mut a = [0u8; 64];
    let mut i: usize = 0;
    while i < 64
        invariant
            s + 64 <= d.len(),
            i <= 64,
            forall|k: int| 0 <= k < i ==> a@[k] == d@[s + k],
        decreases 64 - i,
    {
        a[i] = d[s + i];
        i = i + 1;
    }
    assert(a@ =~= d@.subrange(s as int, s + 64));
    a
}

impl RevertSegment {
    /// `old_start` (u64 LE), `len` (u32 LE), then the bytes.
    pub fn encode(&self) -> (b: Vec<u8>)
        ensures
            b@ == seg_enc(self@),
    {
        let mut b = u64_to_le_bytes(self.old_start);
        let l = u32_to_le_bytes(self.len);
        extend(&mut b, l.as_slice());
        extend(&mut b, self.bytes.as_slice());
        b
    }

    /// Reads one segment from the front of `data`: fails when the 12-byte header or the
    /// announced bytes do not fit.
    pub fn decode(data: &[u8]) -> (r: Result<RevertSegment, RvaError>)
        ensures
            match seg_dec(data@) {
                Some((s, _)) => r matches Ok(x) && x@ == s,
                None => r matches Err(RvaError::Parse(_)),
            },
    {
        if data.len() < 12 {
            return Err(RvaError::Parse(String::from_str("revert segment too short")));
        }
        let old_start = u64_from_le_bytes(&data[0..8]);
        let len = u32_from_le_bytes(&data[8..12]);
        if len as usize > data.len() - 12 {
            return Err(RvaError::Parse(String::from_str("revert segment bytes out of range")));
        }
        let bytes = copy_range(data, 12, 12 + len as usize);
        Ok(RevertSegment { old_start, len, bytes })
    }
}

impl PatchMeta {
    /// The fixed 81-byte metadata layout.
    pub fn encode(&self) -> (b: Vec<u8>)
        ensures
            b@ == meta_enc(self@),
            b@.len() == 81,
    {
        proof {
            lemma_auto_spec_u64_to_from_le_bytes();
            lemma_auto_spec_u32_to_from_le_bytes();
        }
        let mut b: Vec<u8> = Vec::new();
        extend(&mut b, self.source_sha256.as_slice());
        extend(&mut b, self.target_sha256.as_slice());
        let t = u64_to_le_bytes(self.timestamp as u64);
        extend(&mut b, t.as_slice());
        let v = u32_to_le_bytes(self.engine_version);
        extend(&mut b, v.as_slice());
        b.push(self.strategy);
        let c = u32_to_le_bytes(self.entry_count);
        extend(&mut b, c.as_slice());
        proof {
            assert(b@ =~= meta_enc(self@));
        }
        b
    }

    /// Reads the 81-byte metadata layout; any other length is an error.
    pub fn decode(data: &[u8]) -> (r: Result<PatchMeta, RvaError>)
        ensures
            match meta_dec(data@) {
                Some(m) => r matches Ok(x) && x@ == m,
                None => r matches Err(RvaError::Parse(_)),
            },
    {
        if data.len() != 81 {
            return Err(RvaError::Parse(String::from_str("metadata length is not 81")));
        }
        let source_sha256 = array32(data, 0);
        let target_sha256 = array32(data, 32);
        let ts = u64_from_le_bytes(&data[64..72]);
        let engine_version = u32_from_le_bytes(&data[72..76]);
        let strategy = data[76];
        let entry_count = u32_from_le_bytes(&data[77..81]);
        Ok(PatchMeta { source_sha256, target_sha256, timestamp: ts as i64, engine_version, strategy, entry_count })
    }
}

impl PatchSignature {
    /// Fingerprint then signature, 96 bytes.
    pub fn encode(&self) -> (b: Vec<u8>)
        ensures
            b@ == sig_enc(self@),
            b@.len() == 96,
    {
        let mut b: Vec<u8> = Vec::new();
        extend(&mut b, self.fingerprint.as_slice());
        extend(&mut b, self.signature.as_slice());
        b
    }

    /// Reads a 96-byte signature record; any other length is an error.
    pub fn decode(data: &[u8]) -> (r: Result<PatchSignature, RvaError>)
        ensures
            match sig_dec(data@) {
                Some(s) => r matches Ok(x) && x@ == s,
                None => r matches Err(RvaError::Parse(_)),
            },
    {
        if data.len() != 96 {
            return Err(RvaError::Parse(String::from_str("signature record length is not 96")));
        }
        let fingerprint = array32(data, 0);
        let signature = array64(data, 32);
        Ok(PatchSignature { fingerprint, signature })
    }
}

} // verus!

verus! {

/// The complete container in memory.
#[derive(Debug, Clone)]
pub struct PackedPatch {
    pub version: u16,
    pub metadata: PatchMeta,
    /// The serialized patch.
    pub patch_bytes: Vec<u8>,
    /// Old bytes of the replaced / removed ranges, for rolling back to the source file.
    pub revert_segments: Vec<RevertSegment>,
    pub signatures: Vec<PatchSignature>,
}

pub struct PackView {
    pub version: u16,
    pub meta: MetaView,
    pub patch: Seq<u8>,
    pub segs: Seq<SegView>,
    pub sigs: Seq<SigView>,
}

pub open spec fn segs_view(v: Seq<RevertSegment>) -> Seq<SegView> {
    v.map_values(|s: RevertSegment| s@)
}

pub open spec fn sigs_view(v: Seq<PatchSignature>) -> Seq<SigView> {
    v.map_values(|s: PatchSignature| s@)
}

impl View for PackedPatch {
    type V = PackView;

    open spec fn view(&self) -> PackView {
        PackView {
            version: self.version,
            meta: self.metadata@,
            patch: self.patch_bytes@,
            segs: segs_view(self.revert_segments@),
            sigs: sigs_view(self.signatures@),
        }
    }
}

/// One TLV record: tag, u32 LE length (the low 32 bits of the data length), data.
pub open spec fn tlv(tag: u8, d: Seq<u8>) -> Seq<u8> {
    seq![tag] + spec_u32_to_le_bytes(d.len() as u32) + d
}

pub open spec fn segs_enc(ss: Seq<SegView>) -> Seq<u8>
    decreases ss.len(),
{
    if ss.len() == 0 {
        Seq::empty()
    } else {
        segs_enc(ss.drop_last()) + seg_enc(ss.last())
    }
}

pub open spec fn sigs_tlvs(ss: Seq<SigView>) -> Seq<u8>
    decreases ss.len(),
{
    if ss.len() == 0 {
        Seq::empty()
    } else {
        sigs_tlvs(ss.drop_last()) + tlv(TAG_SIG, sig_enc(ss.last()))
    }
}

/// The signed content: header, metadata, patch and (when there are segments) the snapshot.
pub open spec fn content_spec(p: PackView) -> Seq<u8> {
    magic_spec() + spec_u16_to_le_bytes(p.version) + tlv(TAG_META, meta_enc(p.meta)) + tlv(TAG_PATCH, p.patch)
        + if p.segs.len() > 0 { tlv(TAG_REVERT, segs_enc(p.segs)) } else { Seq::<u8>::empty() }
}

/// The whole container: the content followed by one record per signature.
pub open spec fn bytes_spec(p: PackView) -> Seq<u8> {
    content_spec(p) + sigs_tlvs(p.sigs)
}

/// The TLV record at `at`: tag, data and the position after it.
pub open spec fn read_tlv_spec(b: Seq<u8>, at: int) -> Option<(u8, Seq<u8>, int)> {
    if at < 0 || at + 5 > b.len() {
        None
    } else {
        let end = at + 5 + le32_at(b, at + 1);
        if end > b.len() {
            None
        } else {
            Some((b[at], b.subrange(at + 5, end), end))
        }
    }
}

/// The records from `at` to the end, or `None` when one does not fit.
pub open spec fn tlv_list(b: Seq<u8>, at: int) -> Option<Seq<(u8, Seq<u8>)>>
    decreases b.len() - at,
{
    if at < 0 || at >= b.len() {
        Some(Seq::empty())
    } else {
        match read_tlv_spec(b, at) {
            None => None,
            Some((t, d, n)) => match tlv_list(b, n) {
                None => None,
                Some(rest) => Some(seq![(t, d)] + rest),
            },
        }
    }
}

/// The segments packed one after another in `d`.
pub open spec fn segs_dec(d: Seq<u8>) -> Option<Seq<SegView>>
    decreases d.len(),
{
    if d.len() == 0 {
        Some(Seq::empty())
    } else {
        match seg_dec(d) {
            None => None,
            Some((s, n)) => match segs_dec(d.subrange(n, d.len() as int)) {
                None => None,
                Some(rest) => Some(seq![s] + rest),
            },
        }
    }
}

pub struct ParseState {
    pub meta: Option<MetaView>,
    pub patch: Option<Seq<u8>>,
    pub segs: Seq<SegView>,
    pub sigs: Seq<SigView>,
}

pub open spec fn init_state() -> ParseState {
    ParseState { meta: None, patch: None, segs: Seq::empty(), sigs: Seq::empty() }
}

/// The state after one record; `None` when the record is malformed or its tag unknown.
pub open spec fn step(st: ParseState, rec: (u8, Seq<u8>)) -> Option<ParseState> {
    let (t, d) = rec;
    if t == TAG_META {
        match meta_dec(d) {
            None => None,
            Some(m) => Some(ParseState { meta: Some(m), ..st }),
        }
    } else if t == TAG_PATCH {
        Some(ParseState { patch: Some(d), ..st })
    } else if t == TAG_REVERT {
        match segs_dec(d) {
            None => None,
            Some(ss) => Some(ParseState { segs: st.segs + ss, ..st }),
        }
    } else if t == TAG_SIG {
        match sig_dec(d) {
            None => None,
            Some(s) => Some(ParseState { sigs: st.sigs.push(s), ..st }),
        }
    } else {
        None
    }
}

pub open spec fn apply_from(st: ParseState, recs: Seq<(u8, Seq<u8>)>) -> Option<ParseState>
    decreases recs.len(),
{
    if recs.len() == 0 {
        Some(st)
    } else {
        match step(st, recs[0]) {
            None => None,
            Some(s2) => apply_from(s2, recs.drop_first()),
        }
    }
}

/// What `from_bytes` reads out of `b`, or `None` when it rejects `b`.
pub open spec fn parse_spec(b: Seq<u8>) -> Option<PackView> {
    if b.len() < 6 || b.subrange(0, 4) != magic_spec() {
        None
    } else {
        let version = spec_u16_from_le_bytes(b.subrange(4, 6));
        if version != PACK_VERSION {
            None
        } else {
            match tlv_list(b, 6) {
                None => None,
                Some(recs) => match apply_from(init_state(), recs) {
                    None => None,
                    Some(st) => if st.meta is Some && st.patch is Some {
                        Some(PackView { version, meta: st.meta->0, patch: st.patch->0, segs: st.segs, sigs: st.sigs })
                    } else {
                        None
                    },
                },
            }
        }
    }
}

/// Appends one TLV record.
fn push_tlv(out: &mut Vec<u8>, tag: u8, data: &[u8])
    ensures
        final(out)@ == old(out)@ + tlv(tag, data@),
{
    out.push(tag);
    let l = u32_to_le_bytes(data.len() as u32);
    extend(out, l.as_slice());
    extend(out, data);
}

/// Reads the TLV record at `at`.
fn read_tlv(bytes: &[u8], at: usize) -> (r: Result<(u8, &[u8], usize), RvaError>)
    ensures
        match read_tlv_spec(bytes@, at as int) {
            Some((t, d, n)) => r matches Ok((t2, d2, n2)) && t2 == t && d2@ == d && n2 == n,
            None => r matches Err(RvaError::Parse(_)),
        },
{
    if bytes.len() < 5 || at > bytes.len() - 5 {
        return Err(RvaError::Parse(String::from_str("TLV header out of range")));
    }
    let tag = bytes[at];
    let len = u32_from_le_bytes(&bytes[at + 1..at + 5]);
    if len as usize > bytes.len() - at - 5 {
        return Err(RvaError::Parse(String::from_str("TLV data out of range")));
    }
    let end = at + 5 + len as usize;
    Ok((tag, &bytes[at + 5..end], end))
}

impl PackedPatch {
    /// A container of the current version, without signatures.
    pub fn new(metadata: PatchMeta, patch_bytes: Vec<u8>, revert_segments: Vec<RevertSegment>) -> (r: Result<PackedPatch, RvaError>)
        ensures
            r matches Ok(p) && p.version == PACK_VERSION && p.metadata@ == metadata@ && p.patch_bytes@ == patch_bytes@
                && p.revert_segments@ == revert_segments@ && p.signatures@.len() == 0,
    {
        Ok(PackedPatch { version: PACK_VERSION, metadata, patch_bytes, revert_segments, signatures: Vec::new() })
    }

    /// The bytes that signatures cover: everything but the signature records.
    pub fn content_bytes(&self) -> (b: Vec<u8>)
        ensures
            b@ == content_spec(self@),
    {
        let mut b: Vec<u8> = Vec::new();
        extend(&mut b, PACK_MAGIC.as_slice());
        let v = u16_to_le_bytes(self.version);
        extend(&mut b, v.as_slice());
        let meta = self.metadata.encode();
        push_tlv(&mut b, TAG_META, meta.as_slice());
        push_tlv(&mut b, TAG_PATCH, self.patch_bytes.as_slice());
        let ghost head = b@;
        if self.revert_segments.len() > 0 {
            let mut seg: Vec<u8> = Vec::new();
            let n = self.revert_segments.len();
            let mut i: usize = 0;
            while i < n
                invariant
                    n == self.revert_segments@.len(),
                    i <= n,
                    seg@ == segs_enc(segs_view(self.revert_segments@).subrange(0, i as int)),
                decreases n - i,
            {
                let e = self.revert_segments[i].encode();
                proof {
                    let sv = segs_view(self.revert_segments@);
                    assert(sv.subrange(0, i + 1).drop_last() =~= sv.subrange(0, i as int));
                }
                extend(&mut seg, e.as_slice());
                i = i + 1;
            }
            assert(segs_view(self.revert_segments@).subrange(0, n as int) =~= segs_view(self.revert_segments@));
            push_tlv(&mut b, TAG_REVERT, seg.as_slice());
        }
        proof {
            assert(magic_spec() =~= PACK_MAGIC@);
            if self.revert_segments@.len() > 0 {
                assert(b@ =~= content_spec(self@));
            } else {
                assert(b@ =~= content_spec(self@));
            }
        }
        b
    }

    /// The whole container: the content, then one record per signature.
    pub fn to_bytes(&self) -> (b: Vec<u8>)
        ensures
            b@ == bytes_spec(self@),
    {
        let mut b = self.content_bytes();
        let n = self.signatures.len();
        let mut i: usize = 0;
        while i < n
            invariant
                n == self.signatures@.len(),
                i <= n,
                b@ == content_spec(self@) + sigs_tlvs(sigs_view(self.signatures@).subrange(0, i as int)),
            decreases n - i,
        {
            let e = self.signatures[i].encode();
            proof {
                let sv = sigs_view(self.signatures@);
                assert(sv.subrange(0, i + 1).drop_last() =~= sv.subrange(0, i as int));
            }
            push_tlv(&mut b, TAG_SIG, e.as_slice());
            i = i + 1;
        }
        assert(sigs_view(self.signatures@).subrange(0, n as int) =~= sigs_view(self.signatures@));
        b
    }

    /// Adds one signature record; the signed content does not change.
    pub fn add_signature(&mut self, sig: PatchSignature)
        ensures
            final(self)@ == (PackView { sigs: old(self)@.sigs.push(sig@), ..old(self)@ }),
    {
        self.signatures.push(sig);
        proof {
            assert(sigs_view(self.signatures@) =~= sigs_view(old(self).signatures@).push(sig@));
        }
    }
}

} // verus!

verus! {

pub open spec fn opt_meta_view(m: Option<PatchMeta>) -> Option<MetaView> {
    match m {
        Some(x) => Some(x@),
        None => None,
    }
}

pub open spec fn opt_bytes_view(m: Option<Vec<u8>>) -> Option<Seq<u8>> {
    match m {
        Some(x) => Some(x@),
        None => None,
    }
}

/// The outcome of reading the records from `at` on in state `st`.
pub open spec fn rest_result(b: Seq<u8>, at: int, st: ParseState) -> Option<ParseState> {
    match tlv_list(b, at) {
        None => None,
        Some(rest) => apply_from(st, rest),
    }
}

proof fn lemma_rest_step(b: Seq<u8>, at: int, st: ParseState)
    requires
        0 <= at < b.len(),
        read_tlv_spec(b, at) is Some,
    ensures
        ({
            let (t, d, n) = read_tlv_spec(b, at)->0;
            rest_result(b, at, st) == match step(st, (t, d)) {
                None => None,
                Some(s2) => rest_result(b, n, s2),
            }
        }),
{
    let (t, d, n) = read_tlv_spec(b, at)->0;
    match tlv_list(b, n) {
        None => {},
        Some(rest) => {
            let recs = seq![(t, d)] + rest;
            assert(recs[0] == (t, d));
            assert(recs.drop_first() =~= rest);
        },
    }
}

/// Reads the segments of one snapshot record, appending them to `segs`.
fn read_segments(data: &[u8], segs: &mut Vec<RevertSegment>) -> (ok: bool)
    ensures
        ok <==> segs_dec(data@) is Some,
        ok ==> segs_view(final(segs)@) == segs_view(old(segs)@) + segs_dec(data@)->0,
{
    let ghost s0 = segs_view(segs@);
    let mut off: usize = 0;
    let len = data.len();
    assert(data@.subrange(0, len as int) =~= data@);
    while off < len
        invariant
            len == data@.len(),
            off <= len,
            (match segs_dec(data@) {
                None => None::<Seq<SegView>>,
                Some(all) => Some(s0 + all),
            }) == (match segs_dec(data@.subrange(off as int, len as int)) {
                None => None::<Seq<SegView>>,
                Some(rest) => Some(segs_view(segs@) + rest),
            }),
        decreases len - off,
    {
        let ghost suffix = data@.subrange(off as int, len as int);
        match RevertSegment::decode(&data[off..len]) {
            Err(_) => {
                return false;
            },
            Ok(seg) => {
                proof {
                    let (sv, n) = seg_dec(suffix)->0;
                    assert(suffix.subrange(n, suffix.len() as int) =~= data@.subrange(off + n, len as int));
                    assert(segs_view(segs@.push(seg)) =~= segs_view(segs@).push(seg@));
                    match segs_dec(data@.subrange(off + n, len as int)) {
                        None => {},
                        Some(rest) => {
                            assert(segs_view(segs@) + (seq![sv] + rest) =~= segs_view(segs@).push(seg@) + rest);
                        },
                    }
                }
                off = off + 12 + seg.bytes.len();
                segs.push(seg);
            },
        }
    }
    proof {
        assert(data@.subrange(len as int, len as int) =~= Seq::<u8>::empty());
    }
    true
}

impl PackedPatch {
    /// Parses a container: checks the magic and the version, reads every TLV record (an
    /// unknown tag, a record that does not fit or a malformed payload is an error) and
    /// requires the metadata and the patch body.
    pub fn from_bytes(bytes: &[u8]) -> (r: Result<PackedPatch, RvaError>)
        ensures
            match parse_spec(bytes@) {
                Some(v) => r matches Ok(p) && p@ == v,
                None => r matches Err(RvaError::Parse(_)),
            },
    {
        if bytes.len() < 6 || !(bytes[0] == PACK_MAGIC[0] && bytes[1] == PACK_MAGIC[1] && bytes[2] == PACK_MAGIC[2] && bytes[3] == PACK_MAGIC[3]) {
            proof {
                if bytes@.len() >= 6 && bytes@.subrange(0, 4) == magic_spec() {
                    assert(bytes@[0] == bytes@.subrange(0, 4)[0]);
                    assert(bytes@[1] == bytes@.subrange(0, 4)[1]);
                    assert(bytes@[2] == bytes@.subrange(0, 4)[2]);
                    assert(bytes@[3] == bytes@.subrange(0, 4)[3]);
                }
            }
            return Err(RvaError::Parse(String::from_str("not a valid patch container (magic mismatch); the file may be corrupted or tampered with")));
        }
        assert(bytes@.subrange(0, 4) =~= magic_spec());
        let version = u16_from_le_bytes(&bytes[4..6]);
        if version != PACK_VERSION {
            return Err(RvaError::Parse(String::from_str("patch container version check failed; the file may be corrupted or tampered with")));
        }
        let mut cur: usize = 6;
        let mut metadata: Option<PatchMeta> = None;
        let mut patch_bytes: Option<Vec<u8>> = None;
        let mut revert_segments: Vec<RevertSegment> = Vec::new();
        let mut signatures: Vec<PatchSignature> = Vec::new();
        let len = bytes.len();
        assert(segs_view(revert_segments@) =~= Seq::<SegView>::empty());
        assert(sigs_view(signatures@) =~= Seq::<SigView>::empty());
        while cur < len
            invariant
                len == bytes@.len(),
                6 <= cur <= len,
                rest_result(bytes@, 6, init_state()) == rest_result(bytes@, cur as int, ParseState {
                    meta: opt_meta_view(metadata),
                    patch: opt_bytes_view(patch_bytes),
                    segs: segs_view(revert_segments@),
                    sigs: sigs_view(signatures@),
                }),
            decreases len - cur,
        {
            let ghost st = ParseState {
                meta: opt_meta_view(metadata),
                patch: opt_bytes_view(patch_bytes),
                segs: segs_view(revert_segments@),
                sigs: sigs_view(signatures@),
            };
            let (tag, data, next) = match read_tlv(bytes, cur) {
                Err(e) => {
                    return Err(e);
                },
                Ok(x) => x,
            };
            proof {
                lemma_rest_step(bytes@, cur as int, st);
            }
            if tag == TAG_META {
                match PatchMeta::decode(data) {
                    Err(e) => {
                        return Err(e);
                    },
                    Ok(m) => {
                        metadata = Some(m);
                    },
                }
            } else if tag == TAG_PATCH {
                patch_bytes = Some(copy_range(data, 0, data.len()));
                assert(data@.subrange(0, data@.len() as int) =~= data@);
            } else if tag == TAG_REVERT {
                if !read_segments(data, &mut revert_segments) {
                    return Err(RvaError::Parse(String::from_str("malformed revert snapshot segment")));
                }
            } else if tag == TAG_SIG {
                match PatchSignature::decode(data) {
                    Err(e) => {
                        return Err(e);
                    },
                    Ok(s) => {
                        signatures.push(s);
                        proof {
                            assert(sigs_view(signatures@) =~= st.sigs.push(s@));
                        }
                    },
                }
            } else {
                return Err(RvaError::Parse(String::from_str("unknown TLV tag")));
            }
            cur = next;
        }
        match (metadata, patch_bytes) {
            (Some(metadata), Some(patch_bytes)) => Ok(PackedPatch { version, metadata, patch_bytes, revert_segments, signatures }),
            _ => Err(RvaError::Parse(String::from_str("missing metadata or patch body"))),
        }
    }
}

} // verus!

verus! {

/// Records laid out one after another.
pub open spec fn tlvs_enc(recs: Seq<(u8, Seq<u8>)>) -> Seq<u8>
    decreases recs.len(),
{
    if recs.len() == 0 {
        Seq::empty()
    } else {
        tlv(recs[0].0, recs[0].1) + tlvs_enc(recs.drop_first())
    }
}

pub open spec fn sig_recs(ss: Seq<SigView>) -> Seq<(u8, Seq<u8>)> {
    ss.map_values(|s: SigView| (TAG_SIG, sig_enc(s)))
}

/// The records of a container, in the order `to_bytes` writes them.
pub open spec fn pack_recs(p: PackView) -> Seq<(u8, Seq<u8>)> {
    seq![(TAG_META, meta_enc(p.meta)), (TAG_PATCH, p.patch)]
        + (if p.segs.len() > 0 { seq![(TAG_REVERT, segs_enc(p.segs))] } else { Seq::empty() })
        + sig_recs(p.sigs)
}

proof fn lemma_read_tlv_at(pre: Seq<u8>, t: u8, d: Seq<u8>, post: Seq<u8>)
    requires
        d.len() <= u32::MAX,
    ensures
        read_tlv_spec(pre + tlv(t, d) + post, pre.len() as int) == Some((t, d, (pre.len() + 5 + d.len()) as int)),
{
    lemma_auto_spec_u32_to_from_le_bytes();
    let b = pre + tlv(t, d) + post;
    let at = pre.len() as int;
    let l = spec_u32_to_le_bytes(d.len() as u32);
    assert(b.subrange(at + 1, at + 5) =~= l);
    assert(b.subrange(at + 5, at + 5 + d.len()) =~= d);
    assert(b[at] == t);
}

proof fn lemma_tlv_list_enc(pre: Seq<u8>, recs: Seq<(u8, Seq<u8>)>)
    requires
        forall|k: int| 0 <= k < recs.len() ==> (#[trigger] recs[k]).1.len() <= u32::MAX,
    ensures
        tlv_list(pre + tlvs_enc(recs), pre.len() as int) == Some(recs),
    decreases recs.len(),
{
    if recs.len() == 0 {
        assert(pre + tlvs_enc(recs) =~= pre);
    } else {
        let (t, d) = recs[0];
        let rest = recs.drop_first();
        assert(recs[0].1.len() <= u32::MAX);
        lemma_read_tlv_at(pre, t, d, tlvs_enc(rest));
        assert(pre + tlvs_enc(recs) =~= pre + tlv(t, d) + tlvs_enc(rest));
        let pre2 = pre + tlv(t, d);
        lemma_auto_spec_u32_to_from_le_bytes();
        assert(pre2.len() == pre.len() + 5 + d.len());
        assert(pre2 + tlvs_enc(rest) =~= pre + tlvs_enc(recs));
        assert forall|k: int| 0 <= k < rest.len() implies (#[trigger] rest[k]).1.len() <= u32::MAX by {
            assert(rest[k] == recs[k + 1]);
        }
        lemma_tlv_list_enc(pre2, rest);
        assert(seq![(t, d)] + rest =~= recs);
    }
}

proof fn lemma_tlvs_enc_append(a: Seq<(u8, Seq<u8>)>, b: Seq<(u8, Seq<u8>)>)
    ensures
        tlvs_enc(a + b) == tlvs_enc(a) + tlvs_enc(b),
    decreases a.len(),
{
    if a.len() == 0 {
        assert(a + b =~= b);
    } else {
        assert((a + b).drop_first() =~= a.drop_first() + b);
        assert((a + b)[0] == a[0]);
        lemma_tlvs_enc_append(a.drop_first(), b);
    }
}

proof fn lemma_sigs_tlvs(ss: Seq<SigView>)
    ensures
        sigs_tlvs(ss) == tlvs_enc(sig_recs(ss)),
    decreases ss.len(),
{
    if ss.len() > 0 {
        lemma_sigs_tlvs(ss.drop_last());
        let last = seq![(TAG_SIG, sig_enc(ss.last()))];
        assert(sig_recs(ss) =~= sig_recs(ss.drop_last()) + last);
        lemma_tlvs_enc_append(sig_recs(ss.drop_last()), last);
        assert(tlvs_enc(last) =~= tlv(TAG_SIG, sig_enc(ss.last())) + tlvs_enc(last.drop_first()));
        assert(last.drop_first() =~= Seq::<(u8, Seq<u8>)>::empty());
    } else {
        assert(sig_recs(ss) =~= Seq::<(u8, Seq<u8>)>::empty());
    }
}

proof fn lemma_one_tlv(t: u8, d: Seq<u8>)
    ensures
        tlvs_enc(seq![(t, d)]) == tlv(t, d),
{
    let one = seq![(t, d)];
    assert(one.drop_first() =~= Seq::<(u8, Seq<u8>)>::empty());
    assert(tlvs_enc(one.drop_first()) =~= Seq::<u8>::empty());
    assert(one[0] == (t, d));
    assert(tlvs_enc(one) =~= tlv(t, d));
}

proof fn lemma_bytes_layout(p: PackView)
    ensures
        bytes_spec(p) == magic_spec() + spec_u16_to_le_bytes(p.version) + tlvs_enc(pack_recs(p)),
{
    let r1 = seq![(TAG_META, meta_enc(p.meta)), (TAG_PATCH, p.patch)];
    let r2: Seq<(u8, Seq<u8>)> = if p.segs.len() > 0 { seq![(TAG_REVERT, segs_enc(p.segs))] } else { Seq::empty() };
    let r3 = sig_recs(p.sigs);
    assert(pack_recs(p) == r1 + r2 + r3);
    lemma_tlvs_enc_append(r1 + r2, r3);
    lemma_tlvs_enc_append(r1, r2);
    lemma_sigs_tlvs(p.sigs);
    assert(r1 =~= seq![(TAG_META, meta_enc(p.meta))] + seq![(TAG_PATCH, p.patch)]);
    lemma_tlvs_enc_append(seq![(TAG_META, meta_enc(p.meta))], seq![(TAG_PATCH, p.patch)]);
    lemma_one_tlv(TAG_META, meta_enc(p.meta));
    lemma_one_tlv(TAG_PATCH, p.patch);
    if p.segs.len() > 0 {
        lemma_one_tlv(TAG_REVERT, segs_enc(p.segs));
    } else {
        assert(tlvs_enc(r2) =~= Seq::<u8>::empty());
    }
    assert(bytes_spec(p) =~= magic_spec() + spec_u16_to_le_bytes(p.version) + tlvs_enc(pack_recs(p)));
}

proof fn lemma_meta_roundtrip(m: MetaView)
    requires
        m.source.len() == 32,
        m.target.len() == 32,
    ensures
        meta_dec(meta_enc(m)) == Some(m),
{
    lemma_auto_spec_u64_to_from_le_bytes();
    lemma_auto_spec_u32_to_from_le_bytes();
    let e = meta_enc(m);
    assert(e.len() == 81);
    assert(e.subrange(0, 32) =~= m.source);
    assert(e.subrange(32, 64) =~= m.target);
    assert(e.subrange(64, 72) =~= spec_u64_to_le_bytes(m.timestamp as u64));
    assert(e.subrange(72, 76) =~= spec_u32_to_le_bytes(m.engine_version));
    assert(e[76] == m.strategy);
    assert(e.subrange(77, 81) =~= spec_u32_to_le_bytes(m.entry_count));
    let ts = m.timestamp;
    assert((ts as u64) as i64 == ts) by (bit_vector);
}

proof fn lemma_segs_enc_front(ss: Seq<SegView>)
    requires
        ss.len() > 0,
    ensures
        segs_enc(ss) == seg_enc(ss[0]) + segs_enc(ss.drop_first()),
    decreases ss.len(),
{
    if ss.len() == 1 {
        assert(ss.drop_last() =~= Seq::<SegView>::empty());
        assert(ss.drop_first() =~= Seq::<SegView>::empty());
        assert(segs_enc(ss.drop_last()) =~= Seq::<u8>::empty());
        assert(ss.last() == ss[0]);
        assert(segs_enc(ss) =~= seg_enc(ss[0]));
        assert(seg_enc(ss[0]) + segs_enc(ss.drop_first()) =~= seg_enc(ss[0]));
    } else {
        lemma_segs_enc_front(ss.drop_last());
        assert(ss.drop_last().drop_first() =~= ss.drop_first().drop_last());
        assert(ss.drop_first().last() == ss.last());
        assert(ss.drop_last()[0] == ss[0]);
        assert(segs_enc(ss) =~= seg_enc(ss[0]) + segs_enc(ss.drop_first()));
    }
}

proof fn lemma_segs_roundtrip(ss: Seq<SegView>)
    requires
        forall|k: int| 0 <= k < ss.len() ==> (#[trigger] ss[k]).bytes.len() == ss[k].len,
    ensures
        segs_dec(segs_enc(ss)) == Some(ss),
    decreases ss.len(),
{
    lemma_auto_spec_u64_to_from_le_bytes();
    lemma_auto_spec_u32_to_from_le_bytes();
    if ss.len() == 0 {
        assert(segs_enc(ss) =~= Seq::<u8>::empty());
    } else {
        lemma_segs_enc_front(ss);
        let s = ss[0];
        let rest = ss.drop_first();
        let d = segs_enc(ss);
        let e = seg_enc(s);
        assert(s.bytes.len() == s.len);
        assert(d.subrange(8, 12) =~= spec_u32_to_le_bytes(s.len));
        assert(d.subrange(0, 8) =~= spec_u64_to_le_bytes(s.old_start));
        assert(d.subrange(12, 12 + s.len) =~= s.bytes);
        assert(d.subrange(12 + s.len, d.len() as int) =~= segs_enc(rest));
        assert forall|k: int| 0 <= k < rest.len() implies (#[trigger] rest[k]).bytes.len() == rest[k].len by {
            assert(rest[k] == ss[k + 1]);
        }
        lemma_segs_roundtrip(rest);
        assert(seq![s] + rest =~= ss);
    }
}

proof fn lemma_apply_append(st: ParseState, a: Seq<(u8, Seq<u8>)>, b: Seq<(u8, Seq<u8>)>)
    ensures
        apply_from(st, a + b) == match apply_from(st, a) {
            None => None,
            Some(s2) => apply_from(s2, b),
        },
    decreases a.len(),
{
    if a.len() == 0 {
        assert(a + b =~= b);
    } else {
        assert((a + b)[0] == a[0]);
        assert((a + b).drop_first() =~= a.drop_first() + b);
        match step(st, a[0]) {
            None => {},
            Some(s2) => {
                lemma_apply_append(s2, a.drop_first(), b);
            },
        }
    }
}

proof fn lemma_apply_sigs(st: ParseState, ss: Seq<SigView>)
    requires
        forall|k: int| 0 <= k < ss.len() ==> (#[trigger] ss[k]).fingerprint.len() == 32 && ss[k].signature.len() == 64,
    ensures
        apply_from(st, sig_recs(ss)) == Some(ParseState { sigs: st.sigs + ss, ..st }),
    decreases ss.len(),
{
    if ss.len() == 0 {
        assert(st.sigs + ss =~= st.sigs);
    } else {
        let s = ss[0];
        assert(s.fingerprint.len() == 32 && s.signature.len() == 64);
        let e = sig_enc(s);
        assert(e.subrange(0, 32) =~= s.fingerprint);
        assert(e.subrange(32, 96) =~= s.signature);
        assert(sig_recs(ss)[0] == (TAG_SIG, e));
        assert(sig_recs(ss).drop_first() =~= sig_recs(ss.drop_first()));
        let s2 = ParseState { sigs: st.sigs.push(s), ..st };
        assert forall|k: int| 0 <= k < ss.drop_first().len() implies (#[trigger] ss.drop_first()[k]).fingerprint.len() == 32
            && ss.drop_first()[k].signature.len() == 64 by {
            assert(ss.drop_first()[k] == ss[k + 1]);
        }
        lemma_apply_sigs(s2, ss.drop_first());
        assert(st.sigs.push(s) + ss.drop_first() =~= st.sigs + ss);
    }
}

/// A container value that its byte form can carry: the current version, a patch body and a
/// snapshot record whose lengths fit in the u32 length field, and segments whose length
/// field matches their bytes.
pub open spec fn pack_valid(p: PackView) -> bool {
    &&& p.version == PACK_VERSION
    &&& p.meta.source.len() == 32
    &&& p.meta.target.len() == 32
    &&& p.patch.len() <= u32::MAX
    &&& segs_enc(p.segs).len() <= u32::MAX
    &&& forall|k: int| 0 <= k < p.segs.len() ==> (#[trigger] p.segs[k]).bytes.len() == p.segs[k].len
    &&& forall|k: int| 0 <= k < p.sigs.len() ==> (#[trigger] p.sigs[k]).fingerprint.len() == 32 && p.sigs[k].signature.len() == 64
}

/// Reading a container back from its bytes gives the same container: `from_bytes` of
/// `to_bytes(p)` is `p`, for every container whose lengths fit the format.
pub proof fn law_container_roundtrip(p: PackView)
    requires
        pack_valid(p),
    ensures
        parse_spec(bytes_spec(p)) == Some(p),
{
    lemma_auto_spec_u16_to_from_le_bytes();
    lemma_auto_spec_u32_to_from_le_bytes();
    lemma_bytes_layout(p);
    let head = magic_spec() + spec_u16_to_le_bytes(p.version);
    let recs = pack_recs(p);
    let b = bytes_spec(p);
    assert(b =~= head + tlvs_enc(recs));
    assert(b.subrange(0, 4) =~= magic_spec());
    assert(b.subrange(4, 6) =~= spec_u16_to_le_bytes(p.version));
    assert(head.len() == 6);
    let r1 = seq![(TAG_META, meta_enc(p.meta)), (TAG_PATCH, p.patch)];
    let r2: Seq<(u8, Seq<u8>)> = if p.segs.len() > 0 { seq![(TAG_REVERT, segs_enc(p.segs))] } else { Seq::empty() };
    let r3 = sig_recs(p.sigs);
    assert(recs == r1 + r2 + r3);
    lemma_auto_spec_u64_to_from_le_bytes();
    assert(spec_u64_to_le_bytes(p.meta.timestamp as u64).len() == 8);
    assert(spec_u32_to_le_bytes(p.meta.engine_version).len() == 4);
    assert(spec_u32_to_le_bytes(p.meta.entry_count).len() == 4);
    assert(meta_enc(p.meta).len() == 81);
    assert forall|k: int| 0 <= k < recs.len() implies (#[trigger] recs[k]).1.len() <= u32::MAX by {
        if k == 0 {
            assert(recs[k] == (TAG_META, meta_enc(p.meta)));
        } else if k == 1 {
            assert(recs[k] == (TAG_PATCH, p.patch));
        } else if k < r1.len() + r2.len() {
            assert(recs[k] == (TAG_REVERT, segs_enc(p.segs)));
        } else {
            assert(recs[k] == r3[k - r1.len() - r2.len()]);
            assert(p.sigs[k - r1.len() - r2.len()].fingerprint.len() == 32);
        }
    }
    lemma_tlv_list_enc(head, recs);
    assert(b.len() > 6);
    lemma_meta_roundtrip(p.meta);
    lemma_apply_append(init_state(), r1 + r2, r3);
    lemma_apply_append(init_state(), r1, r2);
    let s_meta = ParseState { meta: Some(p.meta), ..init_state() };
    let s_patch = ParseState { patch: Some(p.patch), ..s_meta };
    assert(r1[0] == (TAG_META, meta_enc(p.meta)));
    assert(r1.drop_first() =~= seq![(TAG_PATCH, p.patch)]);
    let rp = seq![(TAG_PATCH, p.patch)];
    assert(rp.drop_first() =~= Seq::<(u8, Seq<u8>)>::empty());
    assert(rp[0] == (TAG_PATCH, p.patch));
    assert(step(init_state(), r1[0]) == Some(s_meta));
    assert(step(s_meta, rp[0]) == Some(s_patch));
    assert(apply_from(s_patch, rp.drop_first()) == Some(s_patch));
    assert(apply_from(s_meta, rp) == Some(s_patch));
    assert(apply_from(init_state(), r1) == Some(s_patch));
    let s_segs = ParseState { segs: p.segs, ..s_patch };
    if p.segs.len() > 0 {
        lemma_segs_roundtrip(p.segs);
        assert(r2[0] == (TAG_REVERT, segs_enc(p.segs)));
        assert(r2.drop_first() =~= Seq::<(u8, Seq<u8>)>::empty());
        assert(s_patch.segs + p.segs =~= p.segs);
        assert(step(s_patch, r2[0]) == Some(s_segs));
        assert(apply_from(s_segs, r2.drop_first()) == Some(s_segs));
        assert(apply_from(s_patch, r2) == Some(s_segs));
    } else {
        assert(p.segs =~= Seq::<SegView>::empty());
        assert(s_segs == s_patch);
        assert(r2.len() == 0);
        assert(apply_from(s_patch, r2) == Some(s_segs));
    }
    lemma_apply_sigs(s_segs, p.sigs);
    assert(s_segs.sigs + p.sigs =~= p.sigs);
}

/// Adding a signature leaves the signed content unchanged.
pub proof fn law_signature_keeps_content(p: PackView, s: SigView)
    ensures
        content_spec(PackView { sigs: p.sigs.push(s), ..p }) == content_spec(p),
{
}

} // verus!

verus! {

/// SHA-256 of `data`.
pub fn sha256_of(data: &[u8]) -> (d: [u8; 32])
    ensures
        d@ == spec_sha256(data@),
{
    sha256_raw(data)
}

/// Snapshot state after one operation: a Copy that starts past the cursor records the
/// skipped old bytes (clipped to the old file) and moves the cursor past the copied range.
pub open spec fn revert_step(old: Seq<u8>, st: (Seq<SegView>, u64), op: OpView) -> (Seq<SegView>, u64) {
    match op {
        OpView::Copy { from, len } => {
            let pos = st.1;
            let e = if from < old.len() { from as int } else { old.len() as int };
            let segs = if from > pos && e > pos {
                st.0.push(SegView { old_start: pos, len: (e - pos) as u32, bytes: old.subrange(pos as int, e) })
            } else {
                st.0
            };
            (segs, (from + len) as u64)
        },
        OpView::Insert { .. } => st,
    }
}

pub open spec fn revert_fold(old: Seq<u8>, ops: Seq<OpView>) -> (Seq<SegView>, u64)
    decreases ops.len(),
{
    if ops.len() == 0 {
        (Seq::empty(), 0)
    } else {
        revert_step(old, revert_fold(old, ops.drop_last()), ops.last())
    }
}

/// The snapshot segments: the gaps between Copy ranges and the old tail after the last one.
pub open spec fn revert_spec(old: Seq<u8>, ops: Seq<OpView>) -> Seq<SegView> {
    let (segs, pos) = revert_fold(old, ops);
    if pos < old.len() {
        segs.push(SegView { old_start: pos, len: (old.len() - pos) as u32, bytes: old.subrange(pos as int, old.len() as int) })
    } else {
        segs
    }
}

/// Every Copy's end fits in a u64.
pub open spec fn copies_fit_u64(ops: Seq<OpView>) -> bool {
    forall|k: int| 0 <= k < ops.len() ==> (#[trigger] ops[k] matches OpView::Copy { from, len } ==> from + len <= u64::MAX)
}

/// Derives the rollback snapshot from the patch operations and the source bytes: the old
/// bytes between Copy ranges (replaced or removed content) and after the last one.
pub fn build_revert_segments(old: &[u8], patch: &Patch) -> (segs: Vec<RevertSegment>)
    requires
        copies_fit_u64(ops_view(patch.ops@)),
        old@.len() <= u64::MAX,
    ensures
        segs_view(segs@) == revert_spec(old@, ops_view(patch.ops@)),
{
    let ghost ov = ops_view(patch.ops@);
    let olen = old.len();
    let mut segs: Vec<RevertSegment> = Vec::new();
    let mut old_pos: u64 = 0;
    let n = patch.ops.len();
    let mut i: usize = 0;
    while i < n
        invariant
            n == patch.ops@.len(),
            ov == ops_view(patch.ops@),
            olen == old@.len(),
            olen <= u64::MAX,
            copies_fit_u64(ov),
            i <= n,
            (segs_view(segs@), old_pos) == revert_fold(old@, ov.subrange(0, i as int)),
        decreases n - i,
    {
        proof {
            assert(ov.subrange(0, i + 1).drop_last() =~= ov.subrange(0, i as int));
            assert(ov.subrange(0, i + 1).last() == ov[i as int]);
        }
        match &patch.ops[i] {
            PatchOp::Copy { from, len } => {
                proof {
                    assert(ov[i as int] matches OpView::Copy { from, len } ==> from + len <= u64::MAX);
                }
                if *from > old_pos {
                    let e = if *from < olen as u64 { *from as usize } else { olen };
                    if e as u64 > old_pos {
                        let s = old_pos as usize;
                        let seg = RevertSegment { old_start: old_pos, len: (e - s) as u32, bytes: copy_range(old, s, e) };
                        proof {
                            assert(segs_view(segs@.push(seg)) =~= segs_view(segs@).push(seg@));
                        }
                        segs.push(seg);
                    }
                }
                old_pos = *from + *len;
            },
            PatchOp::Insert { .. } => {},
        }
        i = i + 1;
    }
    assert(ov.subrange(0, n as int) =~= ov);
    if old_pos < olen as u64 {
        let s = old_pos as usize;
        let seg = RevertSegment { old_start: old_pos, len: (olen - s) as u32, bytes: copy_range(old, s, olen) };
        proof {
            assert(segs_view(segs@.push(seg)) =~= segs_view(segs@).push(seg@));
        }
        segs.push(seg);
    }
    segs
}

} // verus!
