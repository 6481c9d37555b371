//! The persistence envelope: the serialized snapshot sealed under
//! AES-256-GCM with a fresh nonce per save, the nonce prepended to the
//! ciphertext. A forged or corrupted envelope is rejected whole.

use vstd::prelude::*;
use vstd::slice::{slice_subrange, slice_to_vec};
use ring::rand::SecureRandom;
use crate::errors::DatabaseError;
use crate::codec::{Snapshot, SnapshotView, encode_snapshot, decode_snapshot, enc_snapshot,
    sd_snapshot, snapshot_enc_wf, lemma_snapshot_roundtrip};

verus! {

/// The byte length of the symmetric key.
pub const KEY_LENGTH: usize = 32;

/// The byte length of the per-save nonce.
pub const NONCE_LENGTH: usize = 12;

/// The largest plaintext AES-256-GCM seals: the 32-bit block counter's
/// bound of ((1 << 39) - 256) / 8 bytes.
pub const GCM_MAX_PLAINTEXT_LEN: u64 = 68_719_476_704;

/// What AES-256-GCM sealing produces for a key, nonce and plaintext: the
/// ciphertext with its tag appended. A function of the three alone.
pub uninterp spec fn sealed_of(key: Seq<u8>, nonce: Seq<u8>, pt: Seq<u8>) -> Seq<u8>;

/// What AES-256-GCM opening returns for a key, nonce and ciphertext: the
/// plaintext when the tag authenticates, nothing otherwise. A function of
/// the three alone.
pub uninterp spec fn opened_of(key: Seq<u8>, nonce: Seq<u8>, ct: Seq<u8>) -> Option<Seq<u8>>;

/// Relies on ring::aead's AES_256_GCM through
/// LessSafeKey::seal_in_place_append_tag: deterministic sealing that
/// appends a 16-byte tag, and that open_in_place reverses under the same
/// key and nonce. Its only failure is the input-length cap its block
/// counter imposes, so sealing succeeds for every plaintext within it.
#[verifier::external_body]
fn aead_seal(key: &[u8; 32], nonce: &[u8; 12], plaintext: &Vec<u8>) -> (r: Option<Vec<u8>>)
    ensures
        r matches Some(c) ==> c@ == sealed_of(key@, nonce@, plaintext@) && c@.len()
            == plaintext@.len() + 16 && opened_of(key@, nonce@, c@) == Some(plaintext@),
        plaintext@.len() <= GCM_MAX_PLAINTEXT_LEN ==> r is Some,
{
    let unbound = match ring::aead::UnboundKey::new(&ring::aead::AES_256_GCM, key) {
        Ok(k) => k,
        Err(_) => return None,
    };
    let sealing = ring::aead::LessSafeKey::new(unbound);
    let n = ring::aead::Nonce::assume_unique_for_key(*nonce);
    let mut buf = plaintext.clone();
    match sealing.seal_in_place_append_tag(n, ring::aead::Aad::empty(), &mut buf) {
        Ok(()) => Some(buf),
        Err(_) => None,
    }
}

/// Relies on ring::aead's AES_256_GCM through LessSafeKey::open_in_place:
/// deterministic opening that fails exactly when the tag does not
/// authenticate the ciphertext under the key and nonce.
#[verifier::external_body]
fn aead_open(key: &[u8; 32], nonce: &[u8; 12], ciphertext: &Vec<u8>) -> (r: Option<Vec<u8>>)
    ensures
        r matches Some(p) ==> opened_of(key@, nonce@, ciphertext@) == Some(p@),
        r is None ==> opened_of(key@, nonce@, ciphertext@) is None,
{
    let unbound = match ring::aead::UnboundKey::new(&ring::aead::AES_256_GCM, key) {
        Ok(k) => k,
        Err(_) => return None,
    };
    let opening = ring::aead::LessSafeKey::new(unbound);
    let n = ring::aead::Nonce::assume_unique_for_key(*nonce);
    let mut buf = ciphertext.clone();
    match opening.open_in_place(n, ring::aead::Aad::empty(), &mut buf) {
        Ok(pt) => Some(pt.to_vec()),
        Err(_) => None,
    }
}

/// Relies on ring::rand::SystemRandom: fills the key with random bytes.
/// Nothing is promised of the value.
#[verifier::external_body]
pub fn generate_key() -> (r: Result<[u8; 32], DatabaseError>)
    ensures
        r matches Err(e) ==> e is Other,
{
    let rng = ring::rand::SystemRandom::new();
    let mut key = [0u8; 32];
    match rng.fill(&mut key) {
        Ok(()) => Ok(key),
        Err(_) => Err(DatabaseError::Other(String::from("random generator failed"))),
    }
}

/// Relies on ring::rand::SystemRandom: fills the nonce with random bytes.
/// Nothing is promised of the value.
#[verifier::external_body]
fn generate_nonce() -> (r: Result<[u8; 12], DatabaseError>)
    ensures
        r matches Err(e) ==> e is Other,
{
    let rng = ring::rand::SystemRandom::new();
    let mut nonce = [0u8; 12];
    match rng.fill(&mut nonce) {
        Ok(()) => Ok(nonce),
        Err(_) => Err(DatabaseError::Other(String::from("random generator failed"))),
    }
}

/// What an envelope yields under a key: the leading bytes are the nonce,
/// the rest the sealed snapshot; too-short envelopes yield nothing.
pub open spec fn envelope_opens(env: Seq<u8>, key: Seq<u8>) -> Option<Seq<u8>> {
    if env.len() >= 12 {
        opened_of(key, env.take(12), env.skip(12))
    } else {
        None
    }
}

/// Seals a snapshot under the key with the given nonce: the envelope is
/// that nonce followed by the sealed serialization, it opens under the
/// same key to exactly the snapshot's encoding, and sealing succeeds for
/// every snapshot whose encoding is within the cipher's input cap.
pub fn encrypt_config(config: &Snapshot, key: &[u8; 32], nonce: &[u8; 12]) -> (r: Result<
    Vec<u8>,
    DatabaseError,
>)
    ensures
        r matches Ok(env) ==> env@ == nonce@ + sealed_of(key@, nonce@, enc_snapshot(config@))
            && env@.len() == 12 + enc_snapshot(config@).len() + 16 && envelope_opens(env@, key@)
            == Some(enc_snapshot(config@)) && snapshot_enc_wf(config@),
        enc_snapshot(config@).len() <= GCM_MAX_PLAINTEXT_LEN ==> r is Ok,
        r matches Err(e) ==> e is Other,
{
    let pt = encode_snapshot(config);
    match aead_seal(key, nonce, &pt) {
        Some(ct) => {
            let mut env: Vec<u8> = Vec::new();
            env.extend_from_slice(nonce.as_slice());
            env.extend_from_slice(ct.as_slice());
            proof {
                assert(env@ =~= nonce@ + ct@);
                assert(env@.take(12) =~= nonce@);
                assert(env@.skip(12) =~= ct@);
            }
            Ok(env)
        },
        None => {
            proof {
                reveal_strlit("encryption failed");
            }
            Err(DatabaseError::Other(String::from_str("encryption failed")))
        },
    }
}

/// Seals a snapshot under a fresh random nonce, as one save of the
/// persisted state.
pub fn seal_snapshot(config: &Snapshot, key: &[u8; 32]) -> (r: Result<Vec<u8>, DatabaseError>)
    ensures
        r matches Ok(env) ==> envelope_opens(env@, key@) == Some(enc_snapshot(config@))
            && snapshot_enc_wf(config@),
        r matches Err(e) ==> e is Other,
{
    match generate_nonce() {
        Ok(nonce) => encrypt_config(config, key, &nonce),
        Err(e) => Err(e),
    }
}

/// Opens a nonce-prefixed envelope and decodes the snapshot it carries.
/// Fails with `DecryptionFailed` exactly when the envelope is too short
/// to hold a nonce or its tag does not authenticate: a wrong key, a
/// corrupted file or broken nonce framing. No partial result is returned.
pub fn decrypt_config(key: &[u8; 32], encrypted_config: &[u8]) -> (r: Result<
    Snapshot,
    DatabaseError,
>)
    ensures
        match envelope_opens(encrypted_config@, key@) {
            Some(pt) => match sd_snapshot(pt) {
                Some(sv) => r matches Ok(s) && s@ == sv,
                None => r matches Err(e) && e is Other,
            },
            None => r matches Err(e) && e is DecryptionFailed,
        },
{
    if encrypted_config.len() < 12 {
        return Err(DatabaseError::DecryptionFailed);
    }
    let mut nonce: [u8; 12] = [0u8; 12];
    let mut i: usize = 0;
    while i < 12
        invariant
            i <= 12,
            encrypted_config@.len() >= 12,
            forall|k: int| 0 <= k < i ==> nonce@[k] == encrypted_config@[k],
        decreases 12 - i,
    {
        nonce[i] = encrypted_config[i];
        i += 1;
    }
    let ct = slice_to_vec(slice_subrange(encrypted_config, 12, encrypted_config.len()));
    proof {
        assert(nonce@ =~= encrypted_config@.take(12));
        assert(ct@ =~= encrypted_config@.skip(12));
    }
    match aead_open(key, &nonce, &ct) {
        Some(pt) => decode_snapshot(pt.as_slice()),
        None => Err(DatabaseError::DecryptionFailed),
    }
}

/// Round trip: an envelope sealed over a well-formed snapshot opens to
/// bytes that decode back to exactly that snapshot. Together with
/// `encrypt_config`'s postcondition this says decrypting an encrypted
/// snapshot under the same key returns the snapshot unchanged;
/// `decrypt_config`'s postcondition rejects any envelope whose tag does
/// not authenticate.
pub proof fn lemma_envelope_roundtrip(env: Seq<u8>, key: Seq<u8>, sv: SnapshotView)
    requires
        snapshot_enc_wf(sv),
        envelope_opens(env, key) == Some(enc_snapshot(sv)),
    ensures
        sd_snapshot(envelope_opens(env, key).unwrap()) == Some(sv),
{
    lemma_snapshot_roundtrip(sv);
}

} // verus!
