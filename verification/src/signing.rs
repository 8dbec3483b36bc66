//! Ed25519 patch signing: key names, fingerprints (SHA-256 of the public key), signing with
//! a stored seed, and finding the signer of a container among the trusted public keys.

use vstd::prelude::*;
use crate::RvaError;
use crate::hashing::spec_sha256;
use crate::patch_pack::{array32, sha256_of, PackedPatch, PatchSignature, SigView, sigs_view, content_spec};
use crate::util::{hex_lower, hex_lower_spec};
use vstd::string::StringSliceAdditionalSpecFns;

verus! {

/// One key of the keystore: its name, the hex text of its fingerprint, and whether its
/// private half is held too.
#[derive(Debug, Clone)]
pub struct KeyInfo {
    pub name: String,
    pub fingerprint_hex: String,
    pub has_private: bool,
}

/// Whether the 32 bytes are an Ed25519 public key (a point that decompresses).
pub uninterp spec fn ed25519_key_valid(pk: Seq<u8>) -> bool;

/// Whether `sig` is a valid Ed25519 signature of `msg` under the public key `pk`.
pub uninterp spec fn ed25519_accepts(pk: Seq<u8>, msg: Seq<u8>, sig: Seq<u8>) -> bool;

/// The public key of the Ed25519 signing key with secret `seed`.
pub uninterp spec fn ed25519_public(seed: Seq<u8>) -> Seq<u8>;

/// The Ed25519 signature of `msg` by the signing key with secret `seed`.
pub uninterp spec fn ed25519_sign(seed: Seq<u8>, msg: Seq<u8>) -> Seq<u8>;

/// Calls `ed25519_dalek::VerifyingKey::from_bytes`. Trusted: it succeeds exactly when the
/// bytes are a valid public key, which `ed25519_key_valid` names.
#[verifier::external_body]
fn key_is_valid(pk: &[u8; 32]) -> (ok: bool)
    ensures
        ok == ed25519_key_valid(pk@),
{
    ed25519_dalek::VerifyingKey::from_bytes(pk).is_ok()
}

/// Calls `ed25519_dalek::Verifier::verify` on the key decoded from `pk`. Trusted: the
/// answer is `ed25519_accepts` of the three byte strings, and it is false for bytes that are
/// no valid key.
#[verifier::external_body]
fn signature_verifies(pk: &[u8; 32], msg: &[u8], sig: &[u8; 64]) -> (ok: bool)
    ensures
        ok == ed25519_accepts(pk@, msg@, sig@),
        ok ==> ed25519_key_valid(pk@),
{
    match ed25519_dalek::VerifyingKey::from_bytes(pk) {
        Ok(vk) => ed25519_dalek::Verifier::verify(&vk, msg, &ed25519_dalek::Signature::from_bytes(sig)).is_ok(),
        Err(_) => false,
    }
}

/// Calls `ed25519_dalek::SigningKey::verifying_key` for the key with secret `seed`.
/// Trusted: the result is `ed25519_public` of the seed, and the crate documents that a
/// verifying key's bytes decode again to a verifying key.
#[verifier::external_body]
fn public_of_seed(seed: &[u8; 32]) -> (pk: [u8; 32])
    ensures
        pk@ == ed25519_public(seed@),
        ed25519_key_valid(pk@),
{
    ed25519_dalek::SigningKey::from_bytes(seed).verifying_key().to_bytes()
}

/// Calls `ed25519_dalek::Signer::sign` with the key of secret `seed`. Trusted: the result
/// is `ed25519_sign` of the seed and the message (Ed25519 signing is deterministic), and,
/// as the crate documents, it verifies under the key's public half.
#[verifier::external_body]
fn sign_with_seed(seed: &[u8; 32], msg: &[u8]) -> (sig: [u8; 64])
    ensures
        sig@ == ed25519_sign(seed@, msg@),
        ed25519_accepts(ed25519_public(seed@), msg@, sig@),
{
    ed25519_dalek::Signer::sign(&ed25519_dalek::SigningKey::from_bytes(seed), msg).to_bytes()
}

/// The bytes that may not occur in a key name: path and wildcard characters.
pub open spec fn forbidden_byte(b: u8) -> bool {
    b == 0x2f || b == 0x5c || b == 0x3a || b == 0x2a || b == 0x3f || b == 0x22 || b == 0x3c || b == 0x3e || b == 0x7c
}

/// A key name is 1 to 64 bytes long (UTF-8) and holds none of `/ \ : * ? " < > |`.
pub open spec fn name_ok(b: Seq<u8>) -> bool {
    &&& 1 <= b.len() <= 64
    &&& forall|i: int| 0 <= i < b.len() ==> !forbidden_byte(#[trigger] b[i])
}

/// Checks a key name before it becomes a keystore file name.
pub fn validate_name(name: &str) -> (r: Result<(), RvaError>)
    ensures
        r is Ok <==> name_ok(name.spec_bytes()),
        r matches Err(e) ==> e is Other,
{
    let b = name.as_bytes();
    let n = b.len();
    if n == 0 || n > 64 {
        return Err(RvaError::Other(String::from_str("invalid key name (1-64 characters, no path characters)")));
    }
    let mut i: usize = 0;
    while i < n
        invariant
            n == b@.len(),
            b@ == name.spec_bytes(),
            i <= n,
            forall|k: int| 0 <= k < i ==> !forbidden_byte(#[trigger] b@[k]),
        decreases n - i,
    {
        let c = b[i];
        if c == 0x2f || c == 0x5c || c == 0x3a || c == 0x2a || c == 0x3f || c == 0x22 || c == 0x3c || c == 0x3e || c == 0x7c {
            assert(forbidden_byte(b@[i as int]));
            return Err(RvaError::Other(String::from_str("invalid key name (1-64 characters, no path characters)")));
        }
        i = i + 1;
    }
    Ok(())
}

/// The fingerprint of a public key: its SHA-256 digest.
pub fn fingerprint(pub_key: &[u8]) -> (fp: [u8; 32])
    ensures
        fp@ == spec_sha256(pub_key@),
{
    sha256_of(pub_key)
}

/// The description of a key: its name, the hex text of its fingerprint, whether the
/// private half is held.
pub fn key_info(name: &str, pub_key: &[u8; 32], has_private: bool) -> (k: KeyInfo)
    ensures
        k.name@ == name@,
        k.fingerprint_hex@ == hex_lower_spec(spec_sha256(pub_key@)),
        k.has_private == has_private,
{
    let fp = fingerprint(pub_key);
    KeyInfo { name: name.to_string(), fingerprint_hex: hex_lower(&fp), has_private }
}

/// Checks a public key offered for import under `name`: the name must be valid and the key
/// exactly 32 bytes long; the result describes the imported key (no private half).
pub fn import_checked(name: &str, public_key: &[u8]) -> (r: Result<KeyInfo, RvaError>)
    ensures
        !name_ok(name.spec_bytes()) ==> r matches Err(RvaError::Other(_)),
        name_ok(name.spec_bytes()) && public_key@.len() != 32 ==> r matches Err(RvaError::Other(_)),
        name_ok(name.spec_bytes()) && public_key@.len() == 32 ==> (r matches Ok(k) && k.name@ == name@
            && k.fingerprint_hex@ == hex_lower_spec(spec_sha256(public_key@)) && !k.has_private),
{
    validate_name(name)?;
    if public_key.len() != 32 {
        return Err(RvaError::Other(String::from_str("invalid public key length (expected 32)")));
    }
    let fp = fingerprint(public_key);
    Ok(KeyInfo { name: name.to_string(), fingerprint_hex: hex_lower(&fp), has_private: false })
}

/// The public key held in the bytes of a key file: exactly 32 bytes, else an error.
pub fn public_key_from(data: &[u8]) -> (r: Result<[u8; 32], RvaError>)
    ensures
        data@.len() == 32 ==> (r matches Ok(k) && k@ == data@),
        data@.len() != 32 ==> r matches Err(RvaError::Other(_)),
{
    if data.len() != 32 {
        return Err(RvaError::Other(String::from_str("公钥长度非法")));
    }
    let k = array32(data, 0);
    assert(data@.subrange(0, 32) =~= data@);
    Ok(k)
}

/// The description of a freshly generated key pair with secret `seed`.
pub fn new_key_info(name: &str, seed: &[u8; 32]) -> (r: Result<([u8; 32], KeyInfo), RvaError>)
    ensures
        !name_ok(name.spec_bytes()) ==> r matches Err(RvaError::Other(_)),
        name_ok(name.spec_bytes()) ==> (r matches Ok((pk, k)) && pk@ == ed25519_public(seed@) && k.name@ == name@
            && k.fingerprint_hex@ == hex_lower_spec(spec_sha256(pk@)) && k.has_private),
{
    validate_name(name)?;
    let pk = public_of_seed(seed);
    let k = key_info(name, &pk, true);
    Ok((pk, k))
}

/// Signs `content` with the key of secret `seed`: the signature record carries the
/// fingerprint of the key's public half.
pub fn sign_content(seed: &[u8; 32], content: &[u8]) -> (s: PatchSignature)
    ensures
        s.fingerprint@ == spec_sha256(ed25519_public(seed@)),
        s.signature@ == ed25519_sign(seed@, content@),
        ed25519_accepts(ed25519_public(seed@), content@, s.signature@),
{
    let pk = public_of_seed(seed);
    let signature = sign_with_seed(seed, content);
    PatchSignature { fingerprint: fingerprint(&pk), signature }
}

/// `k` is a valid public key whose fingerprint is `fp`.
pub open spec fn key_match(k: Seq<u8>, fp: Seq<u8>) -> bool {
    spec_sha256(k) == fp && ed25519_key_valid(k)
}

/// The first trusted key that matches the fingerprint `fp`.
pub open spec fn first_key(keys: Seq<[u8; 32]>, fp: Seq<u8>) -> Option<int>
    decreases keys.len(),
{
    if keys.len() == 0 {
        None
    } else {
        match first_key(keys.drop_last(), fp) {
            Some(i) => Some(i),
            None => if key_match(keys.last()@, fp) { Some(keys.len() - 1) } else { None },
        }
    }
}

/// A signature record is accepted: the first trusted key with its fingerprint verifies it.
pub open spec fn sig_ok(keys: Seq<[u8; 32]>, content: Seq<u8>, s: SigView) -> bool {
    match first_key(keys, s.fingerprint) {
        Some(i) => ed25519_accepts(keys[i]@, content, s.signature),
        None => false,
    }
}

/// The first accepted signature record.
pub open spec fn first_sig(keys: Seq<[u8; 32]>, content: Seq<u8>, sigs: Seq<SigView>) -> Option<int>
    decreases sigs.len(),
{
    if sigs.len() == 0 {
        None
    } else {
        match first_sig(keys, content, sigs.drop_last()) {
            Some(i) => Some(i),
            None => if sig_ok(keys, content, sigs.last()) { Some(sigs.len() - 1) } else { None },
        }
    }
}

proof fn lemma_first_key_range(keys: Seq<[u8; 32]>, fp: Seq<u8>)
    ensures
        first_key(keys, fp) matches Some(i) ==> 0 <= i < keys.len() && key_match(keys[i]@, fp),
    decreases keys.len(),
{
    if keys.len() > 0 {
        lemma_first_key_range(keys.drop_last(), fp);
    }
}

proof fn lemma_first_sig_range(keys: Seq<[u8; 32]>, content: Seq<u8>, sigs: Seq<SigView>)
    ensures
        first_sig(keys, content, sigs) matches Some(i) ==> 0 <= i < sigs.len() && sig_ok(keys, content, sigs[i]),
    decreases sigs.len(),
{
    if sigs.len() > 0 {
        lemma_first_sig_range(keys, content, sigs.drop_last());
    }
}

/// The first trusted key that is valid and has the fingerprint `fp`.
pub fn find_key(keys: &[[u8; 32]], fp: &[u8; 32]) -> (r: Option<usize>)
    ensures
        r matches Some(i) ==> first_key(keys@, fp@) == Some(i as int),
        r is None ==> first_key(keys@, fp@) is None,
{
    let n = keys.len();
    let mut k: usize = 0;
    while k < n
        invariant
            n == keys@.len(),
            k <= n,
            first_key(keys@.take(k as int), fp@) is None,
        decreases n - k,
    {
        proof {
            assert(keys@.take(k + 1).drop_last() =~= keys@.take(k as int));
        }
        let d = fingerprint(&keys[k]);
        if crate::apply::same_digest(&d, fp) && key_is_valid(&keys[k]) {
            proof {
                lemma_first_key_prefix(keys@, fp@, k as int + 1);
            }
            return Some(k);
        }
        k = k + 1;
    }
    proof {
        assert(keys@.take(n as int) =~= keys@);
    }
    None
}

proof fn lemma_first_key_prefix(keys: Seq<[u8; 32]>, fp: Seq<u8>, k: int)
    requires
        0 <= k <= keys.len(),
        first_key(keys.take(k), fp) is Some,
    ensures
        first_key(keys, fp) == first_key(keys.take(k), fp),
    decreases keys.len() - k,
{
    if k < keys.len() {
        assert(keys.take(k + 1).drop_last() =~= keys.take(k));
        lemma_first_key_prefix(keys, fp, k + 1);
    } else {
        assert(keys.take(k) =~= keys);
    }
}

proof fn lemma_first_sig_prefix(keys: Seq<[u8; 32]>, content: Seq<u8>, sigs: Seq<SigView>, k: int)
    requires
        0 <= k <= sigs.len(),
        first_sig(keys, content, sigs.take(k)) is Some,
    ensures
        first_sig(keys, content, sigs) == first_sig(keys, content, sigs.take(k)),
    decreases sigs.len() - k,
{
    if k < sigs.len() {
        assert(sigs.take(k + 1).drop_last() =~= sigs.take(k));
        lemma_first_sig_prefix(keys, content, sigs, k + 1);
    } else {
        assert(sigs.take(k) =~= sigs);
    }
}

/// Looks up the trusted key with the signature's fingerprint and checks the signature with
/// it; an unknown fingerprint is no valid signature.
pub fn verify_by_fingerprint(keys: &[[u8; 32]], content: &[u8], sig: &PatchSignature) -> (ok: bool)
    ensures
        ok == sig_ok(keys@, content@, sig@),
{
    match find_key(keys, &sig.fingerprint) {
        None => false,
        Some(i) => {
            proof {
                lemma_first_key_range(keys@, sig.fingerprint@);
            }
            signature_verifies(&keys[i], content, &sig.signature)
        },
    }
}

/// The issuer of a container: the hex fingerprint of its first signature that a trusted key
/// accepts over the container's content. An unsigned container, or one with no accepted
/// signature, is refused.
pub fn verify_signed(keys: &[[u8; 32]], packed: &PackedPatch) -> (r: Result<String, RvaError>)
    ensures
        match first_sig(keys@, content_spec(packed@), sigs_view(packed.signatures@)) {
            Some(i) => r matches Ok(s) && s@ == hex_lower_spec(packed.signatures@[i].fingerprint@),
            None => r matches Err(RvaError::Patch(_)),
        },
{
    let n = packed.signatures.len();
    if n == 0 {
        return Err(RvaError::Patch(String::from_str("patch is not signed; refusing to apply")));
    }
    let content = packed.content_bytes();
    let ghost sv = sigs_view(packed.signatures@);
    let mut k: usize = 0;
    while k < n
        invariant
            n == packed.signatures@.len(),
            sv == sigs_view(packed.signatures@),
            sv.len() == n,
            content@ == content_spec(packed@),
            k <= n,
            first_sig(keys@, content@, sv.take(k as int)) is None,
        decreases n - k,
    {
        let s = &packed.signatures[k];
        proof {
            assert(sv.take(k + 1).drop_last() =~= sv.take(k as int));
            assert(sv[k as int] == s@);
        }
        if verify_by_fingerprint(keys, content.as_slice(), s) {
            proof {
                lemma_first_sig_prefix(keys@, content@, sv, k as int + 1);
            }
            return Ok(hex_lower(&s.fingerprint));
        }
        k = k + 1;
    }
    proof {
        assert(sv.take(n as int) =~= sv);
    }
    Err(RvaError::Patch(String::from_str("patch signature verification failed: no trusted key accepts any signature")))
}

/// A container signed with the key of secret `seed` is accepted by a keystore that trusts
/// that key's public half, provided no other valid trusted key shares its fingerprint.
pub proof fn law_signed_is_accepted(keys: Seq<[u8; 32]>, seed: Seq<u8>, content: Seq<u8>, s: SigView)
    requires
        s.fingerprint == spec_sha256(ed25519_public(seed)),
        ed25519_accepts(ed25519_public(seed), content, s.signature),
        exists|j: int| 0 <= j < keys.len() && keys[j]@ == ed25519_public(seed) && ed25519_key_valid(keys[j]@),
        forall|j: int| 0 <= j < keys.len() && key_match(#[trigger] keys[j]@, s.fingerprint) ==> keys[j]@ == ed25519_public(seed),
    ensures
        sig_ok(keys, content, s),
{
    let j = choose|j: int| 0 <= j < keys.len() && keys[j]@ == ed25519_public(seed) && ed25519_key_valid(keys[j]@);
    lemma_first_key_found(keys, s.fingerprint, j);
    lemma_first_key_range(keys, s.fingerprint);
}

proof fn lemma_first_key_found(keys: Seq<[u8; 32]>, fp: Seq<u8>, j: int)
    requires
        0 <= j < keys.len(),
        key_match(keys[j]@, fp),
    ensures
        first_key(keys, fp) is Some,
    decreases keys.len(),
{
    if j < keys.len() - 1 {
        assert(keys.drop_last()[j] == keys[j]);
        lemma_first_key_found(keys.drop_last(), fp, j);
    }
}

/// Appending a signature never invalidates the earlier ones: the signed content does not
/// change, so every earlier signature record keeps its verdict, and a container that a
/// trusted key already admitted stays admitted.
pub proof fn law_append_keeps_signatures(keys: Seq<[u8; 32]>, p: crate::patch_pack::PackView, s: SigView)
    ensures
        forall|i: int| 0 <= i < p.sigs.len() ==> sig_ok(keys, content_spec(crate::patch_pack::PackView { sigs: p.sigs.push(s), ..p }), #[trigger] p.sigs.push(s)[i])
            == sig_ok(keys, content_spec(p), p.sigs[i]),
        first_sig(keys, content_spec(p), p.sigs) is Some
            ==> first_sig(keys, content_spec(crate::patch_pack::PackView { sigs: p.sigs.push(s), ..p }), p.sigs.push(s))
                == first_sig(keys, content_spec(p), p.sigs),
{
    crate::patch_pack::law_signature_keeps_content(p, s);
    let q = crate::patch_pack::PackView { sigs: p.sigs.push(s), ..p };
    assert(p.sigs.push(s).drop_last() =~= p.sigs);
    assert forall|i: int| 0 <= i < p.sigs.len() implies #[trigger] p.sigs.push(s)[i] == p.sigs[i] by {
    }
}

} // verus!
