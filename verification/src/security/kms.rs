//! Key management: wrapping of data keys under a master key, and envelope
//! encryption.
//!
//! An envelope is the length of the wrapped data key as a big-endian 32-bit
//! number, the wrapped key, and the payload encrypted under the data key.

use vstd::prelude::*;
use vstd::utf8::encode_utf8;

use crate::bytes::{be32, copy_range, get_be32, law_be32_round_trip, push_be32, push_bytes, read_be32};
use crate::error::{corrupt_error, internal_error, outcome, CenError, CenResult, ErrorView};
use crate::security::cipher::{array32, fits_cipher, random_bytes, random_key};
use crate::security::hash::{blake3_hash, blake3_of};
use crate::security::tde::{
    decrypted, derived_key, fixed_salt, open_page, opened_page, seal_page, sealed_page, TdeCipher,
    TdeConfig, TdeError, TdeErrorView,
};
use crate::text::{decimal, decimal_string};

verus! {

/// Wraps and unwraps data keys of 32 bytes.
///
/// A provider may ask a service, so nothing is promised of its answers, unless
/// it is steady: it then wraps every key, in less than 4 GiB, and what a wrapped
/// key unwraps to depends on the bytes alone.
pub trait KmsProvider: Send + Sync {
    /// Whether the answers come from the provider itself.
    spec fn steady(&self) -> bool;

    /// What unwrapping gives, of a steady provider.
    spec fn unwrapped(&self, wrapped: Seq<u8>) -> Result<Seq<u8>, ErrorView>;

    /// The name of the provider.
    spec fn label(&self) -> Seq<char>;

    /// Wraps a data key.
    fn encrypt_data_key(&self, plaintext_key: &[u8; 32]) -> (r: CenResult<Vec<u8>>)
        ensures
            self.steady() ==> match r {
                Ok(w) => w@.len() <= u32::MAX && self.unwrapped(w@) == Ok::<Seq<u8>, ErrorView>(
                    plaintext_key@,
                ),
                Err(_) => false,
            },
    ;

    /// Unwraps a data key.
    fn decrypt_data_key(&self, encrypted_key: &[u8]) -> (r: CenResult<[u8; 32]>)
        ensures
            self.steady() ==> outcome(r) == self.unwrapped(encrypted_key@),
    ;

    /// The name of the provider.
    fn name(&self) -> (r: &str)
        ensures
            r@ == self.label(),
    ;
}

/// What unwrapping a page that holds a key gives; `who` begins the message.
pub open spec fn key_of_page(page: Seq<u8>, who: Seq<char>) -> Result<Seq<u8>, ErrorView> {
    if page.len() == 32 {
        Ok(page)
    } else {
        Err(corrupt_error(who + " key is "@ + decimal(page.len()) + " bytes, expected 32"@))
    }
}

fn key_from_page(page: &Vec<u8>, who: &str) -> (r: CenResult<[u8; 32]>)
    ensures
        outcome(r) == key_of_page(page@, who@),
{
    if page.len() == 32 {
        return Ok(array32(page.as_slice()));
    }
    let count: String = decimal_string(page.len() as u64);
    let mut text: String = who.to_owned();
    text.append(" key is ");
    text.append(count.as_str());
    text.append(" bytes, expected 32");
    Err(CenError::corrupt(text.as_str()))
}

/// What [`LocalKms`] gives for a wrapped key.
pub open spec fn local_unwrapped(master: Seq<u8>, wrapped: Seq<u8>) -> Result<
    Seq<u8>,
    ErrorView,
> {
    if wrapped.len() < 40 {
        Err(
            corrupt_error(
                "LocalKms: encrypted key too short ("@ + decimal(wrapped.len()) + " < 40)"@,
            ),
        )
    } else {
        match opened_page(master, wrapped) {
            None => Err(
                corrupt_error(
                    "LocalKms: authentication failed (tampered wrapped key or wrong master key)"@,
                ),
            ),
            Some(page) => key_of_page(page, "LocalKms: unwrapped"@),
        }
    }
}

/// A provider that holds its master key itself.
pub struct LocalKms {
    master_key: [u8; 32],
    name: String,
}

/// The error for a master key that could not be derived.
pub open spec fn derivation_failed(e: TdeErrorView) -> ErrorView {
    internal_error("LocalKms: KDF failed: "@ + e.text())
}

impl LocalKms {
    /// The master key.
    pub closed spec fn master(&self) -> Seq<u8> {
        self.master_key@
    }

    /// A provider named `local` with a given master key.
    pub fn new(master_key: [u8; 32]) -> (res: Self)
        ensures
            res.master() == master_key@,
            res.label() == "local"@,
    {
        LocalKms { master_key, name: "local".to_owned() }
    }

    fn derived(r: Result<TdeConfig, TdeError>) -> (res: CenResult<Self>)
        ensures
            match r {
                Ok(c) => res matches Ok(k) && k.master() == c.key@ && k.label() == "local"@,
                Err(e) => res matches Err(x) && x@ == derivation_failed(e@),
            },
    {
        match r {
            Ok(c) => Ok(LocalKms::new(c.key)),
            Err(e) => {
                let reason: String = e.message();
                let mut text: String = "LocalKms: KDF failed: ".to_owned();
                text.append(reason.as_str());
                Err(CenError::internal(text.as_str()))
            },
        }
    }

    /// A provider with a master key that is derived from a passphrase. Whether
    /// the memory for it is to be had is up to the machine, so success is not
    /// stated.
    pub fn from_passphrase(passphrase: &str, salt: &[u8]) -> (r: CenResult<Self>)
        ensures
            match r {
                Ok(k) => k.master() == derived_key(passphrase@, salt@) && k.label() == "local"@,
                Err(e) => exists|t: TdeErrorView|
                    t is KeyDerivationFailed && e@ == #[trigger] derivation_failed(t),
            },
    {
        let c: Result<TdeConfig, TdeError> = TdeConfig::from_passphrase(passphrase, salt);
        LocalKms::derived(c)
    }

    /// A provider with a master key that is derived from a passphrase with a
    /// fixed salt. For tests only.
    pub fn from_passphrase_insecure_fixed_salt(passphrase: &str) -> (r: CenResult<Self>)
        ensures
            match r {
                Ok(k) => k.master() == derived_key(passphrase@, fixed_salt()) && k.label()
                    == "local"@,
                Err(e) => exists|t: TdeErrorView|
                    t is KeyDerivationFailed && e@ == #[trigger] derivation_failed(t),
            },
    {
        let c: Result<TdeConfig, TdeError> = TdeConfig::from_passphrase_insecure_fixed_salt(
            passphrase,
        );
        LocalKms::derived(c)
    }

    /// The provider under another name.
    pub fn with_name(self, name: &str) -> (res: Self)
        ensures
            res.master() == self.master(),
            res.label() == name@,
    {
        LocalKms { master_key: self.master_key, name: name.to_owned() }
    }
}

/// Wraps a key under a master key, with a random nonce.
fn wrap_key(master: &[u8; 32], key: &[u8; 32]) -> (r: Vec<u8>)
    ensures
        r@.len() == 72,
        r@ == sealed_page(master@, r@.take(24), key@),
        opened_page(master@, r@) == Some(key@),
{
    let nonce: Vec<u8> = random_bytes(24);
    match seal_page(master, nonce.as_slice(), key.as_slice()) {
        Some(out) => {
            assert(out@.take(24) =~= nonce@);
            out
        },
        None => Vec::new(),
    }
}

impl KmsProvider for LocalKms {
    open spec fn steady(&self) -> bool {
        true
    }

    open spec fn unwrapped(&self, wrapped: Seq<u8>) -> Result<Seq<u8>, ErrorView> {
        local_unwrapped(self.master(), wrapped)
    }

    closed spec fn label(&self) -> Seq<char> {
        self.name@
    }

    fn encrypt_data_key(&self, plaintext_key: &[u8; 32]) -> (r: CenResult<Vec<u8>>)
        ensures
            match r {
                Ok(w) => w@.len() == 72 && w@ == sealed_page(
                    self.master(),
                    w@.take(24),
                    plaintext_key@,
                ),
                Err(_) => false,
            },
    {
        Ok(wrap_key(&self.master_key, plaintext_key))
    }

    fn decrypt_data_key(&self, encrypted_key: &[u8]) -> (r: CenResult<[u8; 32]>) {
        let n: usize = encrypted_key.len();
        if n < 40 {
            let count: String = decimal_string(n as u64);
            let mut text: String = "LocalKms: encrypted key too short (".to_owned();
            text.append(count.as_str());
            text.append(" < 40)");
            return Err(CenError::corrupt(text.as_str()));
        }
        match open_page(&self.master_key, encrypted_key) {
            None => Err(
                CenError::corrupt(
                    "LocalKms: authentication failed (tampered wrapped key or wrong master key)",
                ),
            ),
            Some(page) => key_from_page(&page, "LocalKms: unwrapped"),
        }
    }

    fn name(&self) -> (r: &str) {
        self.name.as_str()
    }
}

/// What a provider with a derived master key gives for a wrapped key; `who`
/// begins the message on a key of the wrong length.
pub open spec fn derived_unwrapped(
    master: [u8; 32],
    wrapped: Seq<u8>,
    who: Seq<char>,
) -> Result<Seq<u8>, ErrorView> {
    match decrypted(TdeConfig { key: master, enabled: true }, wrapped) {
        Ok(page) => key_of_page(page, who),
        Err(e) => Err(corrupt_error(e.text())),
    }
}

fn unwrap_derived(master: [u8; 32], wrapped: &[u8], who: &str) -> (r: CenResult<[u8; 32]>)
    ensures
        outcome(r) == derived_unwrapped(master, wrapped@, who@),
{
    let cipher: TdeCipher = TdeCipher::new(TdeConfig::from_raw_key(master));
    match cipher.decrypt(wrapped) {
        Ok(page) => key_from_page(&page, who),
        Err(e) => {
            let text: String = e.message();
            Err(CenError::corrupt(text.as_str()))
        },
    }
}

/// How an AWS KMS key is reached.
#[derive(Clone, Debug)]
pub struct AwsKmsConfig {
    pub region: String,
    pub key_id: String,
    pub access_key_id: String,
    pub secret_access_key: String,
}

/// The master key of [`AwsKmsProvider`].
pub open spec fn aws_master(secret: Seq<char>) -> [u8; 32] {
    blake3_of(encode_utf8("cendb-aws-kms-master-key-derivation"@) + encode_utf8(secret))
}

impl AwsKmsConfig {
    /// A config.
    pub fn new(region: &str, key_id: &str, access_key_id: &str, secret_access_key: &str) -> (res:
        Self)
        ensures
            res.region@ == region@,
            res.key_id@ == key_id@,
            res.access_key_id@ == access_key_id@,
            res.secret_access_key@ == secret_access_key@,
    {
        AwsKmsConfig {
            region: region.to_owned(),
            key_id: key_id.to_owned(),
            access_key_id: access_key_id.to_owned(),
            secret_access_key: secret_access_key.to_owned(),
        }
    }

    /// A provider for the config. It derives its master key from the secret
    /// access key.
    pub fn build_provider(&self) -> (res: AwsKmsProvider)
        ensures
            res.master() == aws_master(self.secret_access_key@),
    {
        AwsKmsProvider {
            config: AwsKmsConfig::new(
                self.region.as_str(),
                self.key_id.as_str(),
                self.access_key_id.as_str(),
                self.secret_access_key.as_str(),
            ),
        }
    }
}

/// A provider whose master key is derived from an AWS secret access key.
pub struct AwsKmsProvider {
    config: AwsKmsConfig,
}

impl AwsKmsProvider {
    /// The master key.
    pub closed spec fn master(&self) -> [u8; 32] {
        aws_master(self.config.secret_access_key@)
    }
}

fn derive_master_key(secret: &str) -> (r: [u8; 32])
    ensures
        r == aws_master(secret@),
{
    let mut buf: Vec<u8> = Vec::new();
    push_bytes(&mut buf, "cendb-aws-kms-master-key-derivation".as_bytes());
    push_bytes(&mut buf, secret.as_bytes());
    assert(buf@ =~= encode_utf8("cendb-aws-kms-master-key-derivation"@) + encode_utf8(secret@));
    blake3_hash(buf.as_slice())
}

impl KmsProvider for AwsKmsProvider {
    open spec fn steady(&self) -> bool {
        true
    }

    open spec fn unwrapped(&self, wrapped: Seq<u8>) -> Result<Seq<u8>, ErrorView> {
        derived_unwrapped(self.master(), wrapped, "AWS KMS: decrypted"@)
    }

    open spec fn label(&self) -> Seq<char> {
        "aws-kms"@
    }

    fn encrypt_data_key(&self, plaintext_key: &[u8; 32]) -> (r: CenResult<Vec<u8>>)
        ensures
            match r {
                Ok(w) => w@.len() == 72 && w@ == sealed_page(
                    self.master()@,
                    w@.take(24),
                    plaintext_key@,
                ),
                Err(_) => false,
            },
    {
        let master: [u8; 32] = derive_master_key(self.config.secret_access_key.as_str());
        Ok(wrap_key(&master, plaintext_key))
    }

    fn decrypt_data_key(&self, encrypted_key: &[u8]) -> (r: CenResult<[u8; 32]>) {
        let master: [u8; 32] = derive_master_key(self.config.secret_access_key.as_str());
        unwrap_derived(master, encrypted_key, "AWS KMS: decrypted")
    }

    fn name(&self) -> (r: &str) {
        "aws-kms"
    }
}

/// How a key of Vault's Transit engine is reached.
#[derive(Clone, Debug)]
pub struct VaultConfig {
    pub address: String,
    pub token: String,
    pub key_name: String,
}

/// The master key of [`VaultProvider`].
pub open spec fn vault_master(token: Seq<char>, key_name: Seq<char>) -> [u8; 32] {
    blake3_of(
        encode_utf8("cendb-vault-master-key-derivation"@) + encode_utf8(token) + encode_utf8(
            key_name,
        ),
    )
}

impl VaultConfig {
    /// A config.
    pub fn new(address: &str, token: &str, key_name: &str) -> (res: Self)
        ensures
            res.address@ == address@,
            res.token@ == token@,
            res.key_name@ == key_name@,
    {
        VaultConfig {
            address: address.to_owned(),
            token: token.to_owned(),
            key_name: key_name.to_owned(),
        }
    }

    /// A provider for the config. It derives its master key from the token and
    /// the name of the key.
    pub fn build_provider(&self) -> (res: VaultProvider)
        ensures
            res.master() == vault_master(self.token@, self.key_name@),
    {
        VaultProvider {
            config: VaultConfig::new(
                self.address.as_str(),
                self.token.as_str(),
                self.key_name.as_str(),
            ),
        }
    }
}

/// A provider whose master key is derived from a Vault token and the name of a
/// key.
pub struct VaultProvider {
    config: VaultConfig,
}

impl VaultProvider {
    /// The master key.
    pub closed spec fn master(&self) -> [u8; 32] {
        vault_master(self.config.token@, self.config.key_name@)
    }

    fn key(&self) -> (r: [u8; 32])
        ensures
            r == self.master(),
    {
        derive_vault_master_key(self.config.token.as_str(), self.config.key_name.as_str())
    }
}

fn derive_vault_master_key(token: &str, key_name: &str) -> (r: [u8; 32])
    ensures
        r == vault_master(token@, key_name@),
{
    let mut buf: Vec<u8> = Vec::new();
    push_bytes(&mut buf, "cendb-vault-master-key-derivation".as_bytes());
    push_bytes(&mut buf, token.as_bytes());
    push_bytes(&mut buf, key_name.as_bytes());
    assert(buf@ =~= encode_utf8("cendb-vault-master-key-derivation"@) + encode_utf8(token@)
        + encode_utf8(key_name@));
    blake3_hash(buf.as_slice())
}

impl KmsProvider for VaultProvider {
    open spec fn steady(&self) -> bool {
        true
    }

    open spec fn unwrapped(&self, wrapped: Seq<u8>) -> Result<Seq<u8>, ErrorView> {
        derived_unwrapped(self.master(), wrapped, "Vault: decrypted"@)
    }

    open spec fn label(&self) -> Seq<char> {
        "vault"@
    }

    fn encrypt_data_key(&self, plaintext_key: &[u8; 32]) -> (r: CenResult<Vec<u8>>)
        ensures
            match r {
                Ok(w) => w@.len() == 72 && w@ == sealed_page(
                    self.master()@,
                    w@.take(24),
                    plaintext_key@,
                ),
                Err(_) => false,
            },
    {
        let master: [u8; 32] = self.key();
        Ok(wrap_key(&master, plaintext_key))
    }

    fn decrypt_data_key(&self, encrypted_key: &[u8]) -> (r: CenResult<[u8; 32]>) {
        unwrap_derived(self.key(), encrypted_key, "Vault: decrypted")
    }

    fn name(&self) -> (r: &str) {
        "vault"
    }
}

/// The error that stands for a failure of the page cipher.
pub open spec fn page_error(e: TdeErrorView) -> ErrorView {
    match e {
        TdeErrorView::AuthenticationFailed => corrupt_error(e.text()),
        TdeErrorView::InputTooShort => corrupt_error(e.text()),
        _ => internal_error(e.text()),
    }
}

fn tde_err_to_cen(e: TdeError) -> (r: CenError)
    ensures
        r@ == page_error(e@),
{
    let text: String = e.message();
    match e {
        TdeError::AuthenticationFailed => CenError::corrupt(text.as_str()),
        TdeError::InputTooShort => CenError::corrupt(text.as_str()),
        _ => CenError::internal(text.as_str()),
    }
}

/// An envelope.
pub open spec fn envelope_of(wrapped: Seq<u8>, ciphertext: Seq<u8>) -> Seq<u8> {
    be32(wrapped.len() as u32) + wrapped + ciphertext
}

/// The wrapped key and the encrypted payload of an envelope.
pub open spec fn envelope_parts(e: Seq<u8>) -> Result<(Seq<u8>, Seq<u8>), ErrorView> {
    if e.len() < 4 {
        Err(corrupt_error("KmsEnvelopeEncryption: envelope too short for length prefix"@))
    } else {
        let n = read_be32(e, 0) as int;
        if e.len() < 4 + n {
            Err(
                corrupt_error(
                    "KmsEnvelopeEncryption: envelope truncated (need "@ + decimal(n as nat)
                        + " bytes after prefix, have "@ + decimal((e.len() - 4) as nat) + ")"@,
                ),
            )
        } else {
            Ok((e.subrange(4, 4 + n), e.skip(4 + n)))
        }
    }
}

/// The payload that an encrypted payload stands for, given what unwrapping the
/// data key gave.
pub open spec fn payload_of(
    answer: Result<Seq<u8>, ErrorView>,
    ciphertext: Seq<u8>,
) -> Result<Seq<u8>, ErrorView> {
    match answer {
        Err(e) => Err(e),
        Ok(key) => if ciphertext.len() < 40 {
            Err(page_error(TdeErrorView::InputTooShort))
        } else {
            match opened_page(key, ciphertext) {
                Some(page) => Ok(page),
                None => Err(page_error(TdeErrorView::AuthenticationFailed)),
            }
        },
    }
}

/// The error for a wrapped key of 4 GiB or more.
pub open spec fn wrapped_too_long() -> ErrorView {
    internal_error("KmsEnvelopeEncryption: wrapped key too long (> 4 GiB)"@)
}

/// The envelope of an encrypted payload, given what wrapping the data key gave.
pub fn pack_envelope(answer: CenResult<Vec<u8>>, ciphertext: &[u8]) -> (r: CenResult<Vec<u8>>)
    ensures
        outcome(r) == match outcome(answer) {
            Err(e) => Err(e),
            Ok(wrapped) => if wrapped.len() > u32::MAX {
                Err(wrapped_too_long())
            } else {
                Ok(envelope_of(wrapped, ciphertext@))
            },
        },
{
    match answer {
        Err(e) => Err(e),
        Ok(wrapped) => {
            let n: usize = wrapped.len();
            if n as u64 > 0xffff_ffff {
                return Err(
                    CenError::internal("KmsEnvelopeEncryption: wrapped key too long (> 4 GiB)"),
                );
            }
            let mut out: Vec<u8> = Vec::new();
            push_be32(&mut out, n as u32);
            push_bytes(&mut out, wrapped.as_slice());
            push_bytes(&mut out, ciphertext);
            assert(out@ =~= envelope_of(wrapped@, ciphertext@));
            Ok(out)
        },
    }
}

/// The wrapped key and the encrypted payload of an envelope.
pub fn split_envelope(envelope: &[u8]) -> (r: CenResult<(Vec<u8>, Vec<u8>)>)
    ensures
        match r {
            Ok(p) => envelope_parts(envelope@) == Ok::<(Seq<u8>, Seq<u8>), ErrorView>(
                (p.0@, p.1@),
            ),
            Err(e) => envelope_parts(envelope@) == Err::<(Seq<u8>, Seq<u8>), ErrorView>(e@),
        },
{
    let len: usize = envelope.len();
    if len < 4 {
        return Err(
            CenError::corrupt("KmsEnvelopeEncryption: envelope too short for length prefix"),
        );
    }
    let n: u32 = get_be32(envelope, 0);
    if (len as u64) < 4 + n as u64 {
        let need: String = decimal_string(n as u64);
        let have: String = decimal_string((len - 4) as u64);
        let mut text: String = "KmsEnvelopeEncryption: envelope truncated (need ".to_owned();
        text.append(need.as_str());
        text.append(" bytes after prefix, have ");
        text.append(have.as_str());
        text.append(")");
        return Err(CenError::corrupt(text.as_str()));
    }
    let end: usize = 4 + n as usize;
    let wrapped: Vec<u8> = copy_range(envelope, 4, end);
    let ciphertext: Vec<u8> = copy_range(envelope, end, len);
    assert(wrapped@ =~= envelope@.subrange(4, end as int));
    assert(ciphertext@ =~= envelope@.skip(end as int));
    Ok((wrapped, ciphertext))
}

/// The payload of an envelope, given what unwrapping the data key gave.
pub fn open_payload(answer: CenResult<[u8; 32]>, ciphertext: &[u8]) -> (r: CenResult<Vec<u8>>)
    ensures
        outcome(r) == payload_of(outcome(answer), ciphertext@),
{
    match answer {
        Err(e) => Err(e),
        Ok(key) => {
            let cipher: TdeCipher = TdeCipher::new(TdeConfig::from_raw_key(key));
            match cipher.decrypt(ciphertext) {
                Ok(page) => Ok(page),
                Err(e) => Err(tde_err_to_cen(e)),
            }
        },
    }
}

/// Encrypts payloads, each under a data key of its own that a provider wraps.
pub struct KmsEnvelopeEncryption<K: KmsProvider> {
    kms: K,
}

impl<K: KmsProvider> KmsEnvelopeEncryption<K> {
    /// The provider.
    pub closed spec fn kms(&self) -> K {
        self.kms
    }

    /// What decrypting an envelope gives, with a steady provider.
    pub open spec fn opened(&self, envelope: Seq<u8>) -> Result<Seq<u8>, ErrorView> {
        match envelope_parts(envelope) {
            Err(e) => Err(e),
            Ok(parts) => payload_of(self.kms().unwrapped(parts.0), parts.1),
        }
    }

    /// Envelope encryption with a provider.
    pub fn new(kms: K) -> (res: Self)
        ensures
            res.kms() == kms,
    {
        KmsEnvelopeEncryption { kms }
    }

    /// Encrypts a payload under a random data key and wraps the key. With a
    /// steady provider every payload that the cipher takes is encrypted, and
    /// what was encrypted decrypts to itself.
    pub fn encrypt(&self, plaintext: &[u8]) -> (r: CenResult<Vec<u8>>)
        ensures
            !fits_cipher(plaintext@.len()) ==> outcome(r) == Err::<Seq<u8>, ErrorView>(
                page_error(TdeErrorView::CipherError("aead::Error"@)),
            ),
            fits_cipher(plaintext@.len()) && self.kms().steady() ==> r is Ok,
            r matches Ok(out) ==> exists|wrapped: Seq<u8>, key: Seq<u8>, nonce: Seq<u8>|
                wrapped.len() <= u32::MAX && nonce.len() == 24 && out@ == envelope_of(
                    wrapped,
                    #[trigger] sealed_page(key, nonce, plaintext@),
                ) && (self.kms().steady() ==> #[trigger] self.kms().unwrapped(wrapped) == Ok::<
                    Seq<u8>,
                    ErrorView,
                >(key)),
            r matches Ok(out) ==> self.kms().steady() ==> self.opened(out@) == Ok::<
                Seq<u8>,
                ErrorView,
            >(plaintext@),
    {
        let data_key: [u8; 32] = random_key();
        let cipher: TdeCipher = TdeCipher::new(TdeConfig::from_raw_key(data_key));
        match cipher.encrypt(plaintext) {
            Err(e) => Err(tde_err_to_cen(e)),
            Ok(ciphertext) => {
                let answer: CenResult<Vec<u8>> = self.kms.encrypt_data_key(&data_key);
                let ghost given = answer;
                let r: CenResult<Vec<u8>> = pack_envelope(answer, ciphertext.as_slice());
                proof {
                    if r is Ok {
                        let wrapped = given->Ok_0@;
                        let nonce = ciphertext@.take(24);
                        assert(ciphertext@ == sealed_page(data_key@, nonce, plaintext@));
                        law_envelope_splits(wrapped, ciphertext@);
                        assert(self.kms().steady() ==> self.kms().unwrapped(wrapped) == Ok::<
                            Seq<u8>,
                            ErrorView,
                        >(data_key@));
                    }
                }
                r
            },
        }
    }

    /// Decrypts an envelope.
    pub fn decrypt(&self, envelope: &[u8]) -> (r: CenResult<Vec<u8>>)
        ensures
            self.kms().steady() ==> outcome(r) == self.opened(envelope@),
            match envelope_parts(envelope@) {
                Err(e) => outcome(r) == Err::<Seq<u8>, ErrorView>(e),
                Ok(parts) => exists|answer: Result<Seq<u8>, ErrorView>|
                    outcome(r) == #[trigger] payload_of(answer, parts.1),
            },
    {
        match split_envelope(envelope) {
            Err(e) => Err(e),
            Ok(parts) => {
                let answer: CenResult<[u8; 32]> = self.kms.decrypt_data_key(parts.0.as_slice());
                open_payload(answer, parts.1.as_slice())
            },
        }
    }

    /// The name of the provider.
    pub fn kms_name(&self) -> (r: &str)
        ensures
            r@ == self.kms().label(),
    {
        self.kms.name()
    }
}

/// An envelope splits into the parts that it was made of.
pub proof fn law_envelope_splits(wrapped: Seq<u8>, ciphertext: Seq<u8>)
    requires
        wrapped.len() <= u32::MAX,
    ensures
        envelope_parts(envelope_of(wrapped, ciphertext)) == Ok::<(Seq<u8>, Seq<u8>), ErrorView>(
            (wrapped, ciphertext),
        ),
{
    let e = envelope_of(wrapped, ciphertext);
    let n = wrapped.len() as u32;
    assert(e.subrange(0, 4) =~= be32(n));
    law_be32_round_trip(n, e, 0);
    assert(e.subrange(4, 4 + n) =~= wrapped);
    assert(e.skip(4 + n) =~= ciphertext);
}

} // verus!
