use rva_core::apply::{apply_chain, apply_checked, rollback_checked};
use rva_core::diff_engine::{DefaultDiffEngine, DiffEngine, DiffStrategy};
use rva_core::file_loader::DefaultFileLoader;
use rva_core::patch_engine::{DefaultPatchEngine, PatchEngine, Patch, PatchFormat, PatchOp};
use rva_core::patch_pack::{build_revert_segments, sha256_of, PackedPatch, PatchMeta, RevertSegment};
use rva_core::signing::{
    fingerprint, import_checked, new_key_info, public_key_from, sign_content, validate_name, verify_by_fingerprint, verify_signed,
};
use rva_core::RvaError;

const SEED: [u8; 32] = [7u8; 32];

fn make_patch(old: &[u8], new: &[u8]) -> Patch {
    Patch {
        format: PatchFormat::Custom,
        old_size: old.len() as u64,
        new_size: new.len() as u64,
        ops: vec![
            PatchOp::Copy { from: 0, len: 10 },
            PatchOp::Insert { data: new[10..20].to_vec() },
            PatchOp::Copy { from: 20, len: (old.len() - 20) as u64 },
        ],
    }
}

fn make_packed(old: &[u8], new: &[u8], patch: &Patch, revert: Vec<RevertSegment>) -> PackedPatch {
    let meta = PatchMeta {
        source_sha256: sha256_of(old),
        target_sha256: sha256_of(new),
        timestamp: 1_752_000_000,
        engine_version: 1,
        strategy: 0,
        entry_count: patch.ops.len() as u32,
    };
    // The body bytes are opaque to the container; the parsed patch is handed over beside it.
    PackedPatch::new(meta, vec![b'{', b'}'], revert).unwrap()
}

fn hex_decode32(s: &str) -> [u8; 32] {
    let mut out = [0u8; 32];
    for i in 0..32 {
        out[i] = u8::from_str_radix(&s[i * 2..i * 2 + 2], 16).unwrap();
    }
    out
}

#[test]
fn sign_verify_apply_rollback_chain() {
    let (dev_pk, k1) = new_key_info("dev", &SEED).unwrap();
    assert!(k1.has_private);
    assert_eq!(k1.fingerprint_hex.len(), 64);
    let imported = import_checked("vendor", &dev_pk).unwrap();
    assert!(!imported.has_private);
    assert_eq!(imported.fingerprint_hex, k1.fingerprint_hex);

    let old = (0u8..100).collect::<Vec<_>>();
    let mut new = old.clone();
    new[10..20].fill(0xFF);
    let patch = make_patch(&old, &new);
    let revert = vec![RevertSegment { old_start: 10, len: 10, bytes: old[10..20].to_vec() }];
    let mut packed = make_packed(&old, &new, &patch, revert);

    let sig = sign_content(&SEED, &packed.content_bytes());
    assert_eq!(sig.fingerprint, hex_decode32(&k1.fingerprint_hex));
    packed.add_signature(sig);

    let bytes = packed.to_bytes();
    let packed2 = PackedPatch::from_bytes(&bytes).unwrap();
    assert_eq!(packed2.signatures.len(), 1);
    let content = packed2.content_bytes();
    let keys = vec![dev_pk, dev_pk];
    assert!(verify_by_fingerprint(&keys, &content, &packed2.signatures[0]));

    let mut tampered = content.clone();
    tampered[6] ^= 1;
    assert!(!verify_by_fingerprint(&keys, &tampered, &packed2.signatures[0]));

    assert!(!verify_by_fingerprint(&[], &content, &packed2.signatures[0]));

    let (out, res) = apply_checked(&old, &packed2, &keys, &Ok(patch.clone())).unwrap();
    assert!(res.ok, "{}", res.message);
    assert_eq!(out, new);
    assert_eq!(res.signed_by.as_deref(), Some(k1.fingerprint_hex.as_str()));

    let (back, res2) = rollback_checked(&out, &packed2, &keys, &Ok(patch.clone())).unwrap();
    assert!(res2.ok, "{}", res2.message);
    assert_eq!(back, old);

    let mut unsigned = packed2.clone();
    unsigned.signatures.clear();
    assert!(apply_checked(&old, &unsigned, &keys, &Ok(patch.clone())).is_err());

    let tampered_src = b"tampered content that breaks sha256".to_vec();
    assert!(apply_checked(&tampered_src, &packed2, &keys, &Ok(patch.clone())).is_err());
    assert!(rollback_checked(&tampered_src, &packed2, &keys, &Ok(patch.clone())).is_err());
}

fn load(bytes: &[u8], name: &str) -> rva_core::file_loader::LoadedFile {
    DefaultFileLoader::load_from_bytes(name.to_string(), bytes.to_vec()).unwrap()
}

fn signed_real(old: &[u8], new: &[u8], ts: i64) -> (PackedPatch, Patch) {
    let fa = load(old, "a.bin");
    let fb = load(new, "b.bin");
    let diffs = DefaultDiffEngine.diff(&fa, &fb, DiffStrategy::SlidingWindow { window: 8, min_match: 8 }).unwrap();
    assert!(!diffs.is_empty(), "构造的差异不应为空");
    let patch = DefaultPatchEngine::generate(&fa, &fb, &diffs, PatchFormat::Custom).unwrap();
    let meta = PatchMeta {
        source_sha256: sha256_of(old),
        target_sha256: sha256_of(new),
        timestamp: ts,
        engine_version: 1,
        strategy: 0,
        entry_count: patch.ops.len() as u32,
    };
    let revert = build_revert_segments(old, &patch);
    assert!(!revert.is_empty(), "回滚段不应为空");
    let mut packed = PackedPatch::new(meta, vec![b'{', b'}'], revert).unwrap();
    let sig = sign_content(&SEED, &packed.content_bytes());
    packed.add_signature(sig);
    (packed, patch)
}

#[test]
fn patch_chain_rediff_is_empty() {
    let old: Vec<u8> = (0u8..=255).cycle().take(512).collect();
    let mut new = old.clone();
    new.splice(32..32, [0xEE, 0xEE, 0xEE, 0xEE]);
    new[100..120].fill(0xAB);
    assert_ne!(old, new);
    let (packed, patch) = signed_real(&old, &new, 1_752_100_000);
    let (pk, _) = new_key_info("dev", &SEED).unwrap();
    let keys = vec![pk];
    assert!(verify_by_fingerprint(&keys, &packed.content_bytes(), &packed.signatures[0]));

    let (out, res) = apply_checked(&old, &packed, &keys, &Ok(patch.clone())).unwrap();
    assert!(res.ok, "{}", res.message);
    let rediff = DefaultDiffEngine
        .diff(&load(&out, "out.bin"), &load(&new, "b.bin"), DiffStrategy::SlidingWindow { window: 8, min_match: 8 })
        .unwrap();
    assert!(rediff.is_empty(), "apply 后重新 diff 应无差异，实际 {} 条: {rediff:?}", rediff.len());

    let (back, res2) = rollback_checked(&out, &packed, &keys, &Ok(patch)).unwrap();
    assert!(res2.ok, "{}", res2.message);
    let rediff2 = DefaultDiffEngine
        .diff(&load(&back, "back.bin"), &load(&old, "a.bin"), DiffStrategy::SlidingWindow { window: 8, min_match: 8 })
        .unwrap();
    assert!(rediff2.is_empty(), "回滚后重新 diff 应无差异，实际 {} 条: {rediff2:?}", rediff2.len());
}

#[test]
fn patch_batch_apply_chain() {
    let (pk, _) = new_key_info("dev", &SEED).unwrap();
    let keys = vec![pk];
    let a: Vec<u8> = (0u8..=255).cycle().take(1024).collect();
    let mut b = a.clone();
    b[1000..1004].fill(0x11);
    b.splice(0..0, [0xEE, 0xEE, 0xEE]);
    let mut c = b.clone();
    c[500..540].fill(0xAB);
    let (p1, q1) = signed_real(&a, &b, 1_752_200_000);
    let (p2, q2) = signed_real(&b, &c, 1_752_200_000);
    let ps = vec![p1.clone(), p2.clone()];
    let parsed = vec![Ok(q1.clone()), Ok(q2.clone())];

    let (out, res) = apply_chain(&a, &ps, &keys, &parsed).unwrap();
    assert!(res.ok, "{}", res.message);
    assert_eq!(out.unwrap(), c, "批量应用结果应为 C");

    let (out2, res2) = apply_chain(&c, &ps, &keys, &parsed).unwrap();
    assert!(res2.ok, "幂等应成功: {}", res2.message);
    assert!(res2.message.contains("幂等"), "应提示幂等跳过, 实际: {}", res2.message);
    assert!(out2.is_none(), "幂等不应改变文件");

    let (out3, res3) = apply_chain(&b, &ps, &keys, &parsed).unwrap();
    assert!(res3.ok, "{}", res3.message);
    assert_eq!(out3.unwrap(), c, "断点续传结果应为 C");
    assert!(res3.message.contains("1 个补丁"), "应从 p2 续传, 实际: {}", res3.message);

    let reversed = vec![p2, p1];
    let parsed_rev = vec![Ok(q2), Ok(q1)];
    assert!(apply_chain(&a, &reversed, &keys, &parsed_rev).is_err(), "乱序补丁链必须拒绝");
}

// Further tests.

#[test]
fn key_names_are_checked() {
    assert!(validate_name("dev").is_ok());
    assert!(validate_name("").is_err());
    assert!(validate_name("a/b").is_err());
    assert!(validate_name("what?").is_err());
    assert!(validate_name(&"k".repeat(64)).is_ok());
    assert!(validate_name(&"k".repeat(65)).is_err());
    assert!(import_checked("ok", &[0u8; 31]).is_err());
    assert!(import_checked("a|b", &[0u8; 32]).is_err());
}

#[test]
fn fingerprint_is_sha256_of_public_key() {
    let (pk, k) = new_key_info("dev", &SEED).unwrap();
    assert_eq!(fingerprint(&pk), sha256_of(&pk));
    assert_eq!(hex_decode32(&k.fingerprint_hex), sha256_of(&pk));
}

#[test]
fn signer_is_first_accepted_signature() {
    let other_seed = [9u8; 32];
    let (pk_dev, k_dev) = new_key_info("dev", &SEED).unwrap();
    let (_pk_other, _) = new_key_info("other", &other_seed).unwrap();
    let old = (0u8..100).collect::<Vec<_>>();
    let mut new = old.clone();
    new[10..20].fill(0xFF);
    let patch = make_patch(&old, &new);
    let mut packed = make_packed(&old, &new, &patch, Vec::new());
    let content = packed.content_bytes();
    packed.add_signature(sign_content(&other_seed, &content));
    packed.add_signature(sign_content(&SEED, &content));
    // Only the dev key is trusted: the second signature admits the container.
    assert_eq!(verify_signed(&[pk_dev], &packed).unwrap(), k_dev.fingerprint_hex);
    assert!(matches!(verify_signed(&[], &packed), Err(RvaError::Patch(_))));
}

#[test]
fn parse_error_is_reported_after_signature_check() {
    let (pk, _) = new_key_info("dev", &SEED).unwrap();
    let old = (0u8..100).collect::<Vec<_>>();
    let mut new = old.clone();
    new[10..20].fill(0xFF);
    let patch = make_patch(&old, &new);
    let mut packed = make_packed(&old, &new, &patch, Vec::new());
    let sig = sign_content(&SEED, &packed.content_bytes());
    packed.add_signature(sig);
    let bad: Result<Patch, String> = Err("bad body".to_string());
    match apply_checked(&old, &packed, &[pk], &bad) {
        Err(RvaError::Patch(m)) => assert_eq!(m, "bad body"),
        other => panic!("unexpected {:?}", other.map(|_| ())),
    }
    // Without a trusted key the signature check fails first.
    match apply_checked(&old, &packed, &[], &bad) {
        Err(RvaError::Patch(m)) => assert_ne!(m, "bad body"),
        other => panic!("unexpected {:?}", other.map(|_| ())),
    }
}

#[test]
fn target_digest_mismatch_is_refused() {
    let (pk, _) = new_key_info("dev", &SEED).unwrap();
    let old = (0u8..100).collect::<Vec<_>>();
    let mut new = old.clone();
    new[10..20].fill(0xFF);
    let patch = make_patch(&old, &new);
    // The container claims another target than the patch produces.
    let mut packed = make_packed(&old, b"something else", &patch, Vec::new());
    let sig = sign_content(&SEED, &packed.content_bytes());
    packed.add_signature(sig);
    assert!(apply_checked(&old, &packed, &[pk], &Ok(patch)).is_err());
}

#[test]
fn public_key_from_takes_exactly_32_bytes() {
    let data: Vec<u8> = (0u8..32).collect();
    let k = public_key_from(&data).unwrap();
    assert_eq!(k.to_vec(), data);
    assert!(matches!(public_key_from(&data[..31]), Err(RvaError::Other(_))));
    assert!(matches!(public_key_from(&[0u8; 33]), Err(RvaError::Other(_))));
}
