//! The primitives from outside: random bytes, XChaCha20-Poly1305 and Argon2id.

use chacha20poly1305::aead::{Aead, KeyInit};
use rand::Rng;
use vstd::prelude::*;

verus! {

/// Calls `fill_bytes` on `rand::rng()`. Gives as many bytes as asked for; which
/// ones is left to chance.
#[verifier::external_body]
pub(crate) fn random_bytes(n: usize) -> (r: Vec<u8>)
    ensures
        r@.len() == n,
{
    let mut out = vec![0u8; n];
    rand::rng().fill_bytes(&mut out);
    out
}

/// The XChaCha20-Poly1305 ciphertext of a message, the tag at its end.
pub uninterp spec fn xchacha_seal(key: Seq<u8>, nonce: Seq<u8>, message: Seq<u8>) -> Seq<u8>;

/// The message of an XChaCha20-Poly1305 ciphertext; `None` where its tag does
/// not fit.
pub uninterp spec fn xchacha_open(key: Seq<u8>, nonce: Seq<u8>, sealed: Seq<u8>) -> Option<
    Seq<u8>,
>;

/// Whether a message is short enough for the cipher's block counter: of its
/// 2^32 - 1 blocks of 64 bytes the first goes into the tag.
pub open spec fn fits_cipher(len: nat) -> bool {
    len <= 64 * 0xffff_fffe
}

/// Calls `XChaCha20Poly1305::encrypt` without associated data. The ciphertext
/// depends on key, nonce and message alone. It is as long as the message and a
/// tag of sixteen bytes, and decrypts to the message under the same key and
/// nonce. On longer messages than the block counter admits the cipher fails or
/// panics; they are left out here.
#[verifier::external_body]
pub(crate) fn xchacha_encrypt(key: &[u8; 32], nonce: &[u8], message: &[u8]) -> (r: Vec<u8>)
    requires
        nonce@.len() == 24,
        message@.len() <= 64 * 0xffff_fffe,
    ensures
        r@ == xchacha_seal(key@, nonce@, message@),
        r@.len() == message@.len() + 16,
        xchacha_open(key@, nonce@, r@) == Some(message@),
{
    let cipher = chacha20poly1305::XChaCha20Poly1305::new(&(*key).into());
    let nonce = chacha20poly1305::XNonce::try_from(nonce).unwrap();
    cipher.encrypt(&nonce, message).unwrap()
}

/// Calls `XChaCha20Poly1305::decrypt` without associated data. The answer
/// depends on key, nonce and ciphertext alone: the message, sixteen bytes
/// shorter, or `None` where the tag does not fit. On longer messages than the
/// block counter admits the cipher fails or panics; they are left out here.
#[verifier::external_body]
pub(crate) fn xchacha_decrypt(key: &[u8; 32], nonce: &[u8], sealed: &[u8]) -> (r: Option<Vec<u8>>)
    requires
        nonce@.len() == 24,
        sealed@.len() <= 64 * 0xffff_fffe + 16,
    ensures
        match r {
            Some(m) => xchacha_open(key@, nonce@, sealed@) == Some(m@) && m@.len() + 16
                == sealed@.len(),
            None => xchacha_open(key@, nonce@, sealed@) is None,
        },
{
    let cipher = chacha20poly1305::XChaCha20Poly1305::new(&(*key).into());
    let nonce = chacha20poly1305::XNonce::try_from(nonce).unwrap();
    cipher.decrypt(&nonce, sealed).ok()
}

/// The costs of an Argon2id computation: memory in KiB, passes, lanes.
pub struct Costs {
    pub memory: u32,
    pub passes: u32,
    pub lanes: u32,
}

/// The 32-byte Argon2id digest, version 0x13, of a password and a salt at the
/// given costs.
pub uninterp spec fn argon2id_of(
    password: Seq<u8>,
    salt: Seq<u8>,
    memory: u32,
    passes: u32,
    lanes: u32,
) -> Seq<u8>;

/// Calls `Argon2::hash_password_into` with Argon2id, version 0x13. A digest
/// depends on password, salt and costs alone; none is given for a salt of less
/// than eight bytes, or for a password or salt whose length does not fit in 32
/// bits. Otherwise it may fail for want of memory, so success is not stated;
/// nor is the text of an error. The lanes are computed on threads, which the
/// machine has to provide.
#[verifier::external_body]
pub(crate) fn argon2id(password: &[u8], salt: &[u8], costs: Costs) -> (r: Result<Vec<u8>, String>)
    ensures
        r matches Ok(h) ==> h@ == argon2id_of(
            password@,
            salt@,
            costs.memory,
            costs.passes,
            costs.lanes,
        ) && h@.len() == 32 && 8 <= salt@.len() <= 0xffff_ffff && password@.len() <= 0xffff_ffff,
{
    let params = argon2::Params::new(costs.memory, costs.passes, costs.lanes, Some(32))
        .map_err(|e| e.to_string())?;
    let argon2 = argon2::Argon2::new(argon2::Algorithm::Argon2id, argon2::Version::V0x13, params);
    let mut out = vec![0u8; 32];
    argon2.hash_password_into(password, salt, &mut out).map_err(|e| e.to_string())?;
    Ok(out)
}

/// The first 32 bytes of a slice.
pub fn array32(s: &[u8]) -> (r: [u8; 32])
    requires
        s@.len() == 32,
    ensures
        r@ == s@,
{
    let mut out: [u8; 32] = [0u8; 32];
    let mut i: usize = 0;
    while i < 32
        invariant
            i <= 32,
            s@.len() == 32,
            forall|k: int| 0 <= k < i ==> #[trigger] out@[k] == s@[k],
        decreases 32 - i,
    {
        out[i] = s[i];
        i = i + 1;
    }
    assert(out@ =~= s@);
    out
}

/// A random key.
pub fn random_key() -> (r: [u8; 32]) {
    let b: Vec<u8> = random_bytes(32);
    array32(b.as_slice())
}

} // verus!
