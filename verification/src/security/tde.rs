//! Transparent data encryption of pages with XChaCha20-Poly1305 under a key
//! that is given or derived with Argon2id.
//!
//! An encrypted page is a random nonce of 24 bytes and the ciphertext with its
//! tag of sixteen bytes.

use vstd::prelude::*;
use vstd::slice::slice_subrange;
use vstd::utf8::encode_utf8;

use crate::bytes::{copy_range, push_bytes};
use crate::security::cipher::{
    argon2id, argon2id_of, array32, fits_cipher, random_bytes, xchacha_decrypt, xchacha_encrypt,
    xchacha_open, xchacha_seal, Costs,
};

verus! {

/// Memory of a key derivation, in KiB.
pub const KDF_MEMORY: u32 = 65536;

/// Passes of a key derivation.
pub const KDF_PASSES: u32 = 3;

/// Lanes of a key derivation.
pub const KDF_LANES: u32 = 4;

/// The key that is derived from a passphrase and a salt.
pub open spec fn derived_key(passphrase: Seq<char>, salt: Seq<u8>) -> Seq<u8> {
    argon2id_of(encode_utf8(passphrase), salt, KDF_MEMORY, KDF_PASSES, KDF_LANES)
}

/// The key, and whether pages are encrypted at all.
#[derive(Clone, Copy, Debug)]
pub struct TdeConfig {
    pub key: [u8; 32],
    pub enabled: bool,
}

/// The salt of [`TdeConfig::from_passphrase_insecure_fixed_salt`].
pub open spec fn fixed_salt() -> Seq<u8> {
    encode_utf8("cendb_fixed_salt!"@)
}

impl TdeConfig {
    /// Derives a key from a passphrase with Argon2id: 64 MiB of memory, three
    /// passes, four lanes. The salt has at least eight bytes. Whether the
    /// memory is to be had is up to the machine, so success is not stated.
    pub fn from_passphrase(passphrase: &str, salt: &[u8]) -> (r: Result<Self, TdeError>)
        ensures
            match r {
                Ok(c) => c.enabled && c.key@ == derived_key(passphrase@, salt@) && 8 <= salt@.len(),
                Err(e) => e is KeyDerivationFailed,
            },
    {
        let costs: Costs = Costs { memory: KDF_MEMORY, passes: KDF_PASSES, lanes: KDF_LANES };
        match argon2id(passphrase.as_bytes(), salt, costs) {
            Ok(h) => Ok(TdeConfig { key: array32(h.as_slice()), enabled: true }),
            Err(text) => Err(TdeError::KeyDerivationFailed(text)),
        }
    }

    /// Derives a key from a passphrase with a fixed salt. For tests only.
    pub fn from_passphrase_insecure_fixed_salt(passphrase: &str) -> (r: Result<Self, TdeError>)
        ensures
            match r {
                Ok(c) => c.enabled && c.key@ == derived_key(passphrase@, fixed_salt()),
                Err(e) => e is KeyDerivationFailed,
            },
    {
        TdeConfig::from_passphrase(passphrase, "cendb_fixed_salt!".as_bytes())
    }

    /// A config with a given key.
    pub fn from_raw_key(key: [u8; 32]) -> (res: Self)
        ensures
            res == (TdeConfig { key, enabled: true }),
    {
        TdeConfig { key, enabled: true }
    }

    /// A config without encryption.
    pub fn disabled() -> (res: Self)
        ensures
            !res.enabled,
            forall|i: int| 0 <= i < 32 ==> #[trigger] res.key@[i] == 0,
    {
        TdeConfig { key: [0u8; 32], enabled: false }
    }

    /// Sixteen random bytes.
    pub fn generate_salt() -> (r: Vec<u8>)
        ensures
            r@.len() == 16,
    {
        random_bytes(16)
    }
}

/// Why encryption or decryption failed.
#[derive(Debug)]
pub enum TdeError {
    /// The tag does not fit: the ciphertext was changed, or the key is another.
    AuthenticationFailed,
    /// The key could not be derived.
    KeyDerivationFailed(String),
    /// The cipher refused its input.
    CipherError(String),
    /// Encryption is switched off but was asked for.
    EncryptionDisabled,
    /// The input is too short for a nonce and a tag.
    InputTooShort,
}

/// The mathematical value of a [`TdeError`].
#[verifier::ext_equal]
pub enum TdeErrorView {
    AuthenticationFailed,
    KeyDerivationFailed(Seq<char>),
    CipherError(Seq<char>),
    EncryptionDisabled,
    InputTooShort,
}

impl View for TdeError {
    type V = TdeErrorView;

    open spec fn view(&self) -> TdeErrorView {
        match *self {
            TdeError::AuthenticationFailed => TdeErrorView::AuthenticationFailed,
            TdeError::KeyDerivationFailed(s) => TdeErrorView::KeyDerivationFailed(s@),
            TdeError::CipherError(s) => TdeErrorView::CipherError(s@),
            TdeError::EncryptionDisabled => TdeErrorView::EncryptionDisabled,
            TdeError::InputTooShort => TdeErrorView::InputTooShort,
        }
    }
}

impl TdeErrorView {
    /// What an error says.
    pub open spec fn text(self) -> Seq<char> {
        match self {
            TdeErrorView::AuthenticationFailed =>
                "TDE authentication failed (ciphertext tampered or wrong key)"@,
            TdeErrorView::KeyDerivationFailed(s) => "TDE key derivation failed: "@ + s,
            TdeErrorView::CipherError(s) => "TDE cipher error: "@ + s,
            TdeErrorView::EncryptionDisabled => "TDE encryption is disabled"@,
            TdeErrorView::InputTooShort =>
                "TDE input too short (must be at least 24 + 16 = 40 bytes for nonce + tag)"@,
        }
    }
}

impl TdeError {
    /// What the error says.
    pub fn message(&self) -> (r: String)
        ensures
            r@ == self@.text(),
    {
        match self {
            TdeError::AuthenticationFailed =>
                "TDE authentication failed (ciphertext tampered or wrong key)".to_owned(),
            TdeError::KeyDerivationFailed(s) => {
                let mut out: String = "TDE key derivation failed: ".to_owned();
                out.append(s.as_str());
                out
            },
            TdeError::CipherError(s) => {
                let mut out: String = "TDE cipher error: ".to_owned();
                out.append(s.as_str());
                out
            },
            TdeError::EncryptionDisabled => "TDE encryption is disabled".to_owned(),
            TdeError::InputTooShort =>
                "TDE input too short (must be at least 24 + 16 = 40 bytes for nonce + tag)".to_owned(),
        }
    }
}

/// A page as it is stored: the nonce, then the ciphertext.
pub open spec fn sealed_page(key: Seq<u8>, nonce: Seq<u8>, page: Seq<u8>) -> Seq<u8> {
    nonce + xchacha_seal(key, nonce, page)
}

/// The page that stored bytes stand for; `None` where they are too short or too
/// long, or their tag does not fit.
pub open spec fn opened_page(key: Seq<u8>, stored: Seq<u8>) -> Option<Seq<u8>> {
    if stored.len() < 40 || !fits_cipher((stored.len() - 40) as nat) {
        None
    } else {
        xchacha_open(key, stored.take(24), stored.skip(24))
    }
}

/// What decryption gives.
pub open spec fn decrypted(config: TdeConfig, stored: Seq<u8>) -> Result<Seq<u8>, TdeErrorView> {
    if !config.enabled {
        Ok(stored)
    } else if stored.len() < 40 {
        Err(TdeErrorView::InputTooShort)
    } else {
        match opened_page(config.key@, stored) {
            Some(page) => Ok(page),
            None => Err(TdeErrorView::AuthenticationFailed),
        }
    }
}

/// Encrypts a page under a key and a nonce.
pub fn seal_page(key: &[u8; 32], nonce: &[u8], page: &[u8]) -> (r: Option<Vec<u8>>)
    requires
        nonce@.len() == 24,
    ensures
        match r {
            Some(out) => fits_cipher(page@.len()) && out@ == sealed_page(key@, nonce@, page@)
                && out@.len() == page@.len() + 40 && opened_page(key@, out@) == Some(page@),
            None => !fits_cipher(page@.len()),
        },
{
    if page.len() as u64 > 64 * 0xffff_fffe {
        return None;
    }
    let ct: Vec<u8> = xchacha_encrypt(key, nonce, page);
    let mut out: Vec<u8> = Vec::new();
    push_bytes(&mut out, nonce);
    push_bytes(&mut out, ct.as_slice());
    proof {
        assert(out@ =~= nonce@ + ct@);
        assert(out@.take(24) =~= nonce@);
        assert(out@.skip(24) =~= ct@);
    }
    Some(out)
}

/// Decrypts a stored page.
pub fn open_page(key: &[u8; 32], stored: &[u8]) -> (r: Option<Vec<u8>>)
    ensures
        match r {
            Some(page) => opened_page(key@, stored@) == Some(page@) && stored@.len()
                == page@.len() + 40,
            None => opened_page(key@, stored@) is None,
        },
{
    let n: usize = stored.len();
    if n < 40 || (n - 40) as u64 > 64 * 0xffff_fffe {
        return None;
    }
    let nonce: &[u8] = slice_subrange(stored, 0, 24);
    let ct: &[u8] = slice_subrange(stored, 24, n);
    proof {
        assert(nonce@ =~= stored@.take(24));
        assert(ct@ =~= stored@.skip(24));
    }
    xchacha_decrypt(key, nonce, ct)
}

/// Encrypts and decrypts pages.
pub struct TdeCipher {
    config: TdeConfig,
}

impl TdeCipher {
    /// The config that the cipher was made with.
    pub closed spec fn config(&self) -> TdeConfig {
        self.config
    }

    /// A cipher. With a disabled config it leaves pages as they are.
    pub fn new(config: TdeConfig) -> (res: Self)
        ensures
            res.config() == config,
    {
        TdeCipher { config }
    }

    /// Encrypts a page under the given nonce. A page that was encrypted
    /// decrypts to itself.
    pub fn encrypt_with(&self, plaintext: &[u8], nonce: &[u8]) -> (r: Result<Vec<u8>, TdeError>)
        requires
            nonce@.len() == 24,
        ensures
            match r {
                Ok(out) => out@ == (if self.config().enabled {
                    sealed_page(self.config().key@, nonce@, plaintext@)
                } else {
                    plaintext@
                }) && decrypted(self.config(), out@) == Ok::<Seq<u8>, TdeErrorView>(plaintext@),
                Err(e) => e@ == TdeErrorView::CipherError("aead::Error"@),
            },
            r is Ok <==> !self.config().enabled || fits_cipher(plaintext@.len()),
            r matches Ok(out) ==> self.config().enabled ==> out@.len() == plaintext@.len() + 40,
    {
        if !self.config.enabled {
            let out: Vec<u8> = copy_range(plaintext, 0, plaintext.len());
            assert(out@ =~= plaintext@);
            return Ok(out);
        }
        match seal_page(&self.config.key, nonce, plaintext) {
            Some(out) => Ok(out),
            None => Err(TdeError::CipherError("aead::Error".to_owned())),
        }
    }

    /// Encrypts a page under a random nonce. A page that was encrypted decrypts
    /// to itself.
    pub fn encrypt(&self, plaintext: &[u8]) -> (r: Result<Vec<u8>, TdeError>)
        ensures
            match r {
                Ok(out) => decrypted(self.config(), out@) == Ok::<Seq<u8>, TdeErrorView>(
                    plaintext@,
                ) && (if self.config().enabled {
                    out@.len() == plaintext@.len() + 40 && out@ == sealed_page(
                        self.config().key@,
                        out@.take(24),
                        plaintext@,
                    )
                } else {
                    out@ == plaintext@
                }),
                Err(e) => e@ == TdeErrorView::CipherError("aead::Error"@),
            },
            r is Ok <==> !self.config().enabled || fits_cipher(plaintext@.len()),
    {
        let nonce: Vec<u8> = random_bytes(24);
        let r: Result<Vec<u8>, TdeError> = self.encrypt_with(plaintext, nonce.as_slice());
        assert(r is Ok && self.config().enabled ==> r->Ok_0@.take(24) =~= nonce@);
        r
    }

    /// Decrypts a page.
    pub fn decrypt(&self, ciphertext: &[u8]) -> (r: Result<Vec<u8>, TdeError>)
        ensures
            match r {
                Ok(out) => decrypted(self.config(), ciphertext@) == Ok::<Seq<u8>, TdeErrorView>(
                    out@,
                ),
                Err(e) => decrypted(self.config(), ciphertext@) == Err::<Seq<u8>, TdeErrorView>(
                    e@,
                ),
            },
    {
        if !self.config.enabled {
            let out: Vec<u8> = copy_range(ciphertext, 0, ciphertext.len());
            assert(out@ =~= ciphertext@);
            return Ok(out);
        }
        if ciphertext.len() < 40 {
            return Err(TdeError::InputTooShort);
        }
        match open_page(&self.config.key, ciphertext) {
            Some(out) => Ok(out),
            None => Err(TdeError::AuthenticationFailed),
        }
    }

    /// Whether pages are encrypted.
    pub fn is_enabled(&self) -> (r: bool)
        ensures
            r == self.config().enabled,
    {
        self.config.enabled
    }
}

} // verus!
