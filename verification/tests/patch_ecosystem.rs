use rva_core::apply::{batch_start, rebuild_new, rebuild_old};
use rva_core::diff_engine::{ChangeType, DefaultDiffEngine, DiffEngine, DiffEntry, DiffStrategy};
use rva_core::file_loader::{DefaultFileLoader, LoadedFile};
use rva_core::patch_engine::{DefaultPatchEngine, PatchEngine, Patch, PatchFormat, PatchOp};
use rva_core::patch_pack::{
    build_revert_segments, sha256_of, PackedPatch, PatchMeta, PatchSignature, RevertSegment, PACK_MAGIC, PACK_VERSION,
    TAG_META, TAG_PATCH, TAG_REVERT, TAG_SIG,
};
use rva_core::RvaError;
use serde_json::Value;
use std::ops::Range;

/// The patch body as the container carries it: the patch's JSON.
fn patch_json(p: &Patch) -> Vec<u8> {
    let mut root = serde_json::Map::new();
    let fmt = match p.format {
        PatchFormat::Custom => "Custom",
        PatchFormat::Xdelta3 => "Xdelta3",
    };
    root.insert("format".to_string(), Value::String(fmt.to_string()));
    root.insert("old_size".to_string(), Value::from(p.old_size));
    root.insert("new_size".to_string(), Value::from(p.new_size));
    let mut ops = Vec::new();
    for op in &p.ops {
        let mut inner = serde_json::Map::new();
        let mut outer = serde_json::Map::new();
        match op {
            PatchOp::Copy { from, len } => {
                inner.insert("from".to_string(), Value::from(*from));
                inner.insert("len".to_string(), Value::from(*len));
                outer.insert("Copy".to_string(), Value::Object(inner));
            }
            PatchOp::Insert { data } => {
                inner.insert("data".to_string(), Value::Array(data.iter().map(|b| Value::from(*b)).collect()));
                outer.insert("Insert".to_string(), Value::Object(inner));
            }
        }
        ops.push(Value::Object(outer));
    }
    root.insert("ops".to_string(), Value::Array(ops));
    serde_json::to_vec(&Value::Object(root)).unwrap()
}

fn op_count(patch_bytes: &[u8]) -> usize {
    let v: Value = serde_json::from_slice(patch_bytes).unwrap();
    v.get("ops").and_then(|o| o.as_array()).map(|a| a.len()).unwrap()
}

fn sample_meta() -> PatchMeta {
    PatchMeta {
        source_sha256: [1u8; 32],
        target_sha256: [2u8; 32],
        timestamp: 1_752_000_000,
        engine_version: 1,
        strategy: 1,
        entry_count: 2,
    }
}

fn sample_patch() -> Patch {
    Patch {
        format: PatchFormat::Custom,
        old_size: 64,
        new_size: 72,
        ops: vec![
            PatchOp::Copy { from: 0, len: 16 },
            PatchOp::Insert { data: vec![0xAB; 8] },
            PatchOp::Copy { from: 24, len: 32 },
        ],
    }
}

fn sample_container() -> PackedPatch {
    let revert = build_revert_segments(&vec![0u8; 64], &sample_patch());
    PackedPatch::new(sample_meta(), patch_json(&sample_patch()), revert).unwrap()
}

#[test]
fn format_anchors_stable() {
    assert_eq!(&PACK_MAGIC, b"RVPT");
    assert_eq!(PACK_VERSION, 1);
    assert_eq!(TAG_META, 0x01);
    assert_eq!(TAG_PATCH, 0x02);
    assert_eq!(TAG_SIG, 0x03);
    assert_eq!(TAG_REVERT, 0x04);
}

#[test]
fn metadata_layout_fixed() {
    let enc = sample_meta().encode();
    assert_eq!(enc.len(), 81);
    assert_eq!(&enc[0..32], &[1u8; 32]);
    assert_eq!(&enc[32..64], &[2u8; 32]);
    assert_eq!(i64::from_le_bytes(enc[64..72].try_into().unwrap()), 1_752_000_000);
    assert_eq!(u32::from_le_bytes(enc[72..76].try_into().unwrap()), 1);
    assert_eq!(enc[76], 1);
    assert_eq!(u32::from_le_bytes(enc[77..81].try_into().unwrap()), 2);
}

#[test]
fn roundtrip_preserves_all() {
    let c = sample_container();
    let c2 = PackedPatch::from_bytes(&c.to_bytes()).unwrap();
    assert_eq!(c2.version, c.version);
    assert_eq!(c2.metadata.source_sha256, c.metadata.source_sha256);
    assert_eq!(c2.metadata.target_sha256, c.metadata.target_sha256);
    assert_eq!(c2.metadata.entry_count, c.metadata.entry_count);
    assert_eq!(c2.patch_bytes, c.patch_bytes);
    assert_eq!(c2.revert_segments.len(), c.revert_segments.len());
    assert_eq!(op_count(&c2.patch_bytes), op_count(&c.patch_bytes));
}

#[test]
fn content_bytes_excludes_signatures() {
    let mut c = sample_container();
    let before = c.content_bytes();
    c.add_signature(PatchSignature { fingerprint: [3u8; 32], signature: [4u8; 64] });
    assert_eq!(c.content_bytes(), before, "追加签名不得改变签名目标");
    let bytes = c.to_bytes();
    let c2 = PackedPatch::from_bytes(&bytes).unwrap();
    assert_eq!(c2.signatures.len(), 1);
}

#[test]
fn corrupted_container_rejected() {
    let mut bytes = sample_container().to_bytes();
    bytes[0] ^= 0xFF;
    assert!(PackedPatch::from_bytes(&bytes).is_err());
    let mut bytes = sample_container().to_bytes();
    bytes[5] = 0x02;
    assert!(PackedPatch::from_bytes(&bytes).is_err());
    let mut bytes = sample_container().to_bytes();
    bytes[6] = 0xFF;
    assert!(PackedPatch::from_bytes(&bytes).is_err());
    let bytes = &sample_container().to_bytes()[..8];
    assert!(PackedPatch::from_bytes(bytes).is_err());
}

#[test]
fn revert_segment_roundtrip() {
    let seg = RevertSegment { old_start: 10, len: 5, bytes: vec![7u8; 5] };
    let dec = RevertSegment::decode(&seg.encode()).unwrap();
    assert_eq!(dec.old_start, 10);
    assert_eq!(dec.bytes, vec![7u8; 5]);
    assert!(RevertSegment::decode(&[0u8; 4]).is_err());
}

fn make_patch(old: &[u8], new: &[u8]) -> Patch {
    Patch {
        format: PatchFormat::Custom,
        old_size: old.len() as u64,
        new_size: new.len() as u64,
        ops: vec![
            PatchOp::Copy { from: 0, len: 10 },
            PatchOp::Insert { data: new[10..20].to_vec() },
            PatchOp::Copy { from: 20, len: (old.len() - 20) as u64 },
        ],
    }
}

fn make_packed(old: &[u8], new: &[u8], patch: &Patch) -> PackedPatch {
    let meta = PatchMeta {
        source_sha256: sha256_of(old),
        target_sha256: sha256_of(new),
        timestamp: 1_752_000_000,
        engine_version: 1,
        strategy: 0,
        entry_count: patch.ops.len() as u32,
    };
    let revert = vec![RevertSegment { old_start: 10, len: 10, bytes: old[10..20].to_vec() }];
    PackedPatch::new(meta, patch_json(patch), revert).unwrap()
}

#[test]
fn pack_tlv_roundtrip() {
    let old = (0u8..100).collect::<Vec<_>>();
    let mut new = old.clone();
    new[10..20].fill(0xFF);
    let patch = make_patch(&old, &new);
    let packed = make_packed(&old, &new, &patch);

    let bytes = packed.to_bytes();
    assert_eq!(&bytes[0..4], b"RVPT");

    let back = PackedPatch::from_bytes(&bytes).unwrap();
    assert_eq!(back.version, 1);
    assert_eq!(back.metadata.target_sha256, sha256_of(&new));
    assert_eq!(back.metadata.entry_count, 3);
    assert_eq!(op_count(&back.patch_bytes), patch.ops.len());

    let c0 = packed.content_bytes();
    let mut signed = packed;
    signed.add_signature(PatchSignature { fingerprint: [0u8; 32], signature: [0u8; 64] });
    assert_eq!(c0, signed.content_bytes());

    let mut bad = bytes.clone();
    bad[2] ^= 0xFF;
    assert!(PackedPatch::from_bytes(&bad).is_err());
    let trunc = bytes[..bytes.len() - 10].to_vec();
    assert!(PackedPatch::from_bytes(&trunc).is_err());
}

fn load(bytes: &[u8], name: &str) -> LoadedFile {
    DefaultFileLoader::load_from_bytes(name.to_string(), bytes.to_vec()).unwrap()
}

fn roundtrip(name: &str, a: &[u8], b: &[u8]) {
    let fa = load(a, &format!("pe_a_{}.bin", name));
    let fb = load(b, &format!("pe_b_{}.bin", name));
    let diffs = DefaultDiffEngine.diff(&fa, &fb, DiffStrategy::SlidingWindow { window: 8, min_match: 8 }).unwrap();
    let patch = DefaultPatchEngine::generate(&fa, &fb, &diffs, PatchFormat::Custom).unwrap();
    let got = DefaultPatchEngine::apply(&fa.data, &patch).unwrap();
    assert_eq!(got, b, "roundtrip mismatch for {}", name);
}

#[test]
fn roundtrip_identical() {
    let a: Vec<u8> = (0..64).collect();
    roundtrip("ident", &a.clone(), &a);
}

#[test]
fn roundtrip_head_insert() {
    let a: Vec<u8> = (0..64).collect();
    let mut b = vec![100, 101, 102, 103];
    b.extend_from_slice(&a);
    roundtrip("head", &a, &b);
}

#[test]
fn roundtrip_tail_delete() {
    let a: Vec<u8> = (0..64).collect();
    let b = a[..60].to_vec();
    roundtrip("tail", &a, &b);
}

#[test]
fn roundtrip_modify_one() {
    let a: Vec<u8> = (0..64).collect();
    let mut b = a.clone();
    b[30] = 255;
    roundtrip("mod", &a, &b);
}

#[test]
fn xdelta3_rejected() {
    let a: Vec<u8> = (0..16).collect();
    let fa = load(&a, "pe_xd_a.bin");
    let fb = load(&a, "pe_xd_b.bin");
    let r = DefaultPatchEngine::generate(&fa, &fb, &[], PatchFormat::Xdelta3);
    assert!(r.is_err());
}

#[test]
fn diff_entry_shape_compiles() {
    let _e = DiffEntry {
        offset: 0,
        length: 1,
        change: ChangeType::Added,
        old: None,
        new: Some(Range { start: 0, end: 1 }),
    };
}

// Further tests.

fn apply_then_rollback(old: &[u8], new: &[u8], strategy: DiffStrategy) {
    let fa = load(old, "a.bin");
    let fb = load(new, "b.bin");
    let diffs = DefaultDiffEngine.diff(&fa, &fb, strategy).unwrap();
    let patch = DefaultPatchEngine::generate(&fa, &fb, &diffs, PatchFormat::Custom).unwrap();
    let rebuilt = rebuild_new(old, &patch).unwrap();
    assert_eq!(rebuilt, new);
    let revert = build_revert_segments(old, &patch);
    let back = rebuild_old(&rebuilt, &patch, &revert).unwrap();
    assert_eq!(back, old);
}

#[test]
fn apply_then_rollback_restores_source() {
    let old: Vec<u8> = (0..=255u8).cycle().take(512).collect();
    let mut modified = old.clone();
    modified[100..120].fill(0xEE);
    apply_then_rollback(&old, &modified, DiffStrategy::ChunkedHash { chunk_size: 32 });
    let mut spliced = old.clone();
    spliced.splice(100..120, vec![0xEE; 5]);
    spliced.extend_from_slice(&[1, 2, 3]);
    apply_then_rollback(&old, &spliced, DiffStrategy::SlidingWindow { window: 8, min_match: 8 });
}

#[test]
fn rebuild_new_rejects_copy_past_end() {
    let old = vec![0u8; 8];
    let patch = Patch { format: PatchFormat::Custom, old_size: 8, new_size: 16, ops: vec![PatchOp::Copy { from: 4, len: 12 }] };
    assert!(matches!(rebuild_new(&old, &patch), Err(RvaError::Patch(_))));
}

#[test]
fn rebuild_new_rejects_wrong_length() {
    let old = vec![0u8; 8];
    let patch = Patch { format: PatchFormat::Custom, old_size: 8, new_size: 9, ops: vec![PatchOp::Copy { from: 0, len: 8 }] };
    assert!(matches!(rebuild_new(&old, &patch), Err(RvaError::Patch(_))));
}

#[test]
fn build_revert_segments_snapshots_replaced_bytes() {
    let old: Vec<u8> = (0..100u8).collect();
    let mut new = old.clone();
    new[10..20].fill(0xFF);
    let segs = build_revert_segments(&old, &make_patch(&old, &new));
    assert_eq!(segs.len(), 1);
    assert_eq!(segs[0].old_start, 10);
    assert_eq!(segs[0].len, 10);
    assert_eq!(segs[0].bytes, old[10..20].to_vec());
}

#[test]
fn sha256_of_known_value() {
    let d = sha256_of(b"abc");
    assert_eq!(d[0], 0xba);
    assert_eq!(d[1], 0x78);
    assert_eq!(d[31], 0xad);
}

fn chain() -> (Vec<u8>, Vec<u8>, Vec<u8>, Vec<PackedPatch>) {
    let a: Vec<u8> = (0..100u8).collect();
    let mut b = a.clone();
    b[10..20].fill(0xFF);
    let mut c = b.clone();
    c[10..20].fill(0x11);
    let p1 = make_packed(&a, &b, &make_patch(&a, &b));
    let p2 = make_packed(&b, &c, &make_patch(&b, &c));
    (a, b, c, vec![p1, p2])
}

#[test]
fn batch_start_decisions() {
    let (a, b, c, ps) = chain();
    assert_eq!(batch_start(&sha256_of(&a), &ps).unwrap(), Some(0));
    assert_eq!(batch_start(&sha256_of(&b), &ps).unwrap(), Some(1));
    assert_eq!(batch_start(&sha256_of(&c), &ps).unwrap(), None);
    assert!(batch_start(&sha256_of(b"other"), &ps).is_err());
    assert!(batch_start(&sha256_of(&a), &[]).is_err());
    let reversed = vec![ps[1].clone(), ps[0].clone()];
    assert!(batch_start(&sha256_of(&a), &reversed).is_err());
}

#[test]
fn from_bytes_rejects_missing_patch_body() {
    let mut bytes = Vec::new();
    bytes.extend_from_slice(b"RVPT");
    bytes.extend_from_slice(&1u16.to_le_bytes());
    bytes.push(0x01);
    bytes.extend_from_slice(&81u32.to_le_bytes());
    bytes.extend_from_slice(&sample_meta().encode());
    assert!(PackedPatch::from_bytes(&bytes).is_err());
}

#[test]
fn rollback_copy_outside_source_size_is_an_error() {
    let patch = Patch { format: PatchFormat::Custom, old_size: 2, new_size: 4, ops: vec![PatchOp::Copy { from: 0, len: 4 }] };
    let r = rebuild_old(&[1u8, 2, 3, 4], &patch, &[]);
    assert!(matches!(r, Err(RvaError::Patch(_))));
}
