//! The hybrid symmetric envelope: a SHA3-256 key-derivation of the
//! group-element secret, then AES-256-GCM with a fresh 96-bit nonce.
//! The payload layout is `nonce (12 bytes) ‖ ciphertext ‖ tag`.
use vstd::prelude::*;

use aes_gcm::aead::{Aead, KeyInit};
use sha3::Digest;

use crate::errors::abe_error::AbeError;

verus! {

/// The SHA3-256 digest of a byte string.
pub uninterp spec fn sha3_256(data: Seq<u8>) -> Seq<u8>;

/// The AES-256-GCM sealing of a plaintext under a 32-byte key and a
/// 12-byte nonce: the ciphertext with the 16-byte tag appended.
pub uninterp spec fn gcm_seal(key: Seq<u8>, nonce: Seq<u8>, plaintext: Seq<u8>) -> Seq<u8>;

/// The AES-256-GCM opening of sealed bytes; `Some` exactly when the
/// authentication tag verifies.
pub uninterp spec fn gcm_open(key: Seq<u8>, nonce: Seq<u8>, data: Seq<u8>) -> Option<Seq<u8>>;

/// Whether a plaintext is within AES-GCM's length bound of
/// 2^36 - 32 bytes; the cipher refuses anything longer.
pub open spec fn gcm_plaintext_fits(n: nat) -> bool {
    n <= 68719476704
}

/// Key derivation: the 32-byte SHA3-256 digest of the given bytes.
/// Relies on `sha3::Sha3_256`: the digest is a function of the input
/// bytes alone and is 32 bytes long.
#[verifier::external_body]
pub(crate) fn kdf(data: &Vec<u8>) -> (r: Vec<u8>)
    ensures
        r@ == sha3_256(data@),
        r@.len() == 32,
{
    sha3::Sha3_256::digest(data.as_slice()).to_vec()
}

/// Relies on `thread_rng`'s `fill_bytes` for 12 fresh nonce bytes;
/// nothing is promised of their values.
#[verifier::external_body]
fn sample_nonce() -> (r: Vec<u8>)
    ensures
        r@.len() == 12,
{
    let mut nonce = vec![0u8; 12];
    rand::RngCore::fill_bytes(&mut rand::thread_rng(), &mut nonce);
    nonce
}

/// Relies on `Aes256Gcm::encrypt`: under a 32-byte key and a 12-byte
/// nonce it returns the ciphertext with the 16-byte tag appended, a
/// function of key, nonce and plaintext alone. It succeeds whenever
/// the plaintext is within the cipher's bound of 2^36 - 32 bytes (the
/// associated data is empty, always within its own bound).
#[verifier::external_body]
fn gcm_seal_call(key: &Vec<u8>, nonce: &Vec<u8>, plaintext: &Vec<u8>) -> (r: Result<
    Vec<u8>,
    AbeError,
>)
    requires
        key@.len() == 32,
        nonce@.len() == 12,
    ensures
        r matches Ok(c) ==> c@ == gcm_seal(key@, nonce@, plaintext@) && gcm_open(
            key@,
            nonce@,
            c@,
        ) == Some(plaintext@) && c@.len() == plaintext@.len() + 16,
        gcm_plaintext_fits(plaintext@.len()) ==> r is Ok,
{
    let key_arr = aes_gcm::Key::<aes_gcm::Aes256Gcm>::try_from(key.as_slice()).unwrap();
    let cipher = aes_gcm::Aes256Gcm::new(&key_arr);
    let nonce_arr = aes_gcm::Nonce::try_from(nonce.as_slice()).unwrap();
    match cipher.encrypt(&nonce_arr, plaintext.as_slice()) {
        Ok(ct) => Ok(ct),
        Err(e) => Err(AbeError::new(&format!("{:?}", e.to_string()))),
    }
}

/// Relies on `Aes256Gcm::decrypt`: it recovers exactly the plaintext
/// that `encrypt` sealed under the same key and nonce, and fails when
/// the authentication tag does not verify.
#[verifier::external_body]
fn gcm_open_call(key: &Vec<u8>, nonce: &Vec<u8>, data: &Vec<u8>) -> (r: Option<Vec<u8>>)
    requires
        key@.len() == 32,
        nonce@.len() == 12,
    ensures
        r matches Some(m) ==> gcm_open(key@, nonce@, data@) == Some(m@),
        r is None ==> gcm_open(key@, nonce@, data@) is None,
{
    let key_arr = aes_gcm::Key::<aes_gcm::Aes256Gcm>::try_from(key.as_slice()).unwrap();
    let cipher = aes_gcm::Aes256Gcm::new(&key_arr);
    let nonce_arr = aes_gcm::Nonce::try_from(nonce.as_slice()).unwrap();
    cipher.decrypt(&nonce_arr, data.as_slice()).ok()
}

/// Seals a payload under the key derived from the secret bytes: a
/// fresh random 12-byte nonce, then the GCM ciphertext and tag.
/// Succeeds whenever the payload is within the cipher's length bound.
pub fn encrypt_symmetric(secret_bytes: &Vec<u8>, plaintext: &Vec<u8>) -> (r: Result<
    Vec<u8>,
    AbeError,
>)
    ensures
        r matches Ok(v) ==> v@.len() == plaintext@.len() + 28 && v@.skip(12) == gcm_seal(
            sha3_256(secret_bytes@),
            v@.take(12),
            plaintext@,
        ) && gcm_open(sha3_256(secret_bytes@), v@.take(12), v@.skip(12)) == Some(plaintext@),
        gcm_plaintext_fits(plaintext@.len()) ==> r is Ok,
{
    let key = kdf(secret_bytes);
    let mut out = sample_nonce();
    let mut ct = match gcm_seal_call(&key, &out, plaintext) {
        Ok(c) => c,
        Err(e) => {
            return Err(e);
        },
    };
    let ghost nonce_view = out@;
    let ghost ct_view = ct@;
    out.append(&mut ct);
    proof {
        assert(out@.take(12) =~= nonce_view);
        assert(out@.skip(12) =~= ct_view);
    }
    Ok(out)
}

/// Opens a sealed payload: the first 12 bytes are the nonce, the rest
/// the GCM ciphertext and tag. Fails when the payload is shorter than
/// a nonce or when authentication fails; returns exactly the payload
/// that was sealed under the same secret.
pub fn decrypt_symmetric(secret_bytes: &Vec<u8>, nonce_ct: &Vec<u8>) -> (r: Result<
    Vec<u8>,
    AbeError,
>)
    ensures
        nonce_ct@.len() < 12 ==> (r matches Err(e) && e.message@
            == "Error extracting IV from ciphertext: Expected an IV of 16 bytes"@),
        nonce_ct@.len() >= 12 && r is Err ==> (r matches Err(e) && e.message@
            == "decryption error"@),
        r matches Ok(m) ==> nonce_ct@.len() >= 12 && gcm_open(
            sha3_256(secret_bytes@),
            nonce_ct@.take(12),
            nonce_ct@.skip(12),
        ) == Some(m@),
        nonce_ct@.len() >= 12 && r is Err ==> gcm_open(
            sha3_256(secret_bytes@),
            nonce_ct@.take(12),
            nonce_ct@.skip(12),
        ) is None,
{
    if nonce_ct.len() < 12 {
        return Err(
            AbeError::new("Error extracting IV from ciphertext: Expected an IV of 16 bytes"),
        );
    }
    let key = kdf(secret_bytes);
    let mut nonce: Vec<u8> = Vec::new();
    let mut i: usize = 0;
    while i < 12
        invariant
            i <= 12,
            nonce_ct@.len() >= 12,
            nonce@ == nonce_ct@.take(i as int),
        decreases 12 - i,
    {
        nonce.push(nonce_ct[i]);
        proof {
            assert(nonce@ =~= nonce_ct@.take(i + 1));
        }
        i += 1;
    }
    let mut ct: Vec<u8> = Vec::new();
    let mut j: usize = 12;
    while j < nonce_ct.len()
        invariant
            12 <= j <= nonce_ct@.len(),
            ct@ == nonce_ct@.subrange(12, j as int),
        decreases nonce_ct.len() - j,
    {
        ct.push(nonce_ct[j]);
        proof {
            assert(ct@ =~= nonce_ct@.subrange(12, j + 1));
        }
        j += 1;
    }
    proof {
        assert(nonce@ =~= nonce_ct@.take(12));
        assert(ct@ =~= nonce_ct@.skip(12));
    }
    match gcm_open_call(&key, &nonce, &ct) {
        Some(m) => Ok(m),
        None => Err(AbeError::new("decryption error")),
    }
}

} // verus!
