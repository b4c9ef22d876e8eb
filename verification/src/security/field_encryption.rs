//! Encryption of single columns, each under a key of its own.
//!
//! Columns without a key pass through unchanged. An encrypted field is a random
//! nonce of 24 bytes and the ciphertext with its tag of sixteen bytes.

use vstd::prelude::*;

use crate::bytes::copy_range;
use crate::error::{corrupt_error, internal_error, CenError, CenResult, ErrorView};
use crate::security::cipher::{fits_cipher, random_bytes, random_key};
use crate::security::tde::{open_page, opened_page, seal_page, sealed_page};
use crate::strmap::StrMap;
use crate::text::{debug_of_text, debug_text, decimal, decimal_string};

verus! {

/// The keys of the encrypted columns.
#[derive(Debug)]
pub struct FieldEncryptionConfig {
    keys: StrMap<[u8; 32]>,
}

impl FieldEncryptionConfig {
    /// The key of each encrypted column.
    pub closed spec fn keys(&self) -> Map<Seq<char>, [u8; 32]> {
        self.keys@
    }

    /// The encrypted columns in the order in which they came.
    pub closed spec fn columns(&self) -> Seq<Seq<char>> {
        self.keys.key_seq()
    }

    /// No column has two keys.
    pub closed spec fn wf(&self) -> bool {
        self.keys.wf()
    }

    /// A config without columns.
    pub fn new() -> (res: Self)
        ensures
            res.wf(),
            res.keys() == Map::<Seq<char>, [u8; 32]>::empty(),
            res.columns() == Seq::<Seq<char>>::empty(),
    {
        FieldEncryptionConfig { keys: StrMap::new() }
    }

    /// Gives a column a key. An earlier one is replaced.
    pub fn set_column_key(&mut self, column: &str, key: [u8; 32])
        requires
            old(self).wf(),
        ensures
            final(self).wf(),
            final(self).keys() == old(self).keys().insert(column@, key),
            final(self).columns() == (if old(self).keys().dom().contains(column@) {
                old(self).columns()
            } else {
                old(self).columns().push(column@)
            }),
    {
        self.keys.insert(column.to_owned(), key);
    }

    /// The key of a column.
    pub fn key_for(&self, column: &str) -> (r: Option<&[u8; 32]>)
        requires
            self.wf(),
        ensures
            match r {
                Some(k) => self.keys().dom().contains(column@) && *k == self.keys()[column@],
                None => !self.keys().dom().contains(column@),
            },
    {
        self.keys.get(column)
    }

    /// Whether no column has a key.
    pub fn is_empty(&self) -> (r: bool)
        ensures
            r == (self.columns().len() == 0),
    {
        self.keys.len() == 0
    }

    /// The number of columns with a key.
    pub fn len(&self) -> (r: usize)
        ensures
            r == self.columns().len(),
    {
        self.keys.len()
    }

    /// The columns with their keys, in the order in which the columns came.
    pub fn iter(&self) -> (r: Vec<(String, [u8; 32])>)
        requires
            self.wf(),
        ensures
            r@.len() == self.columns().len(),
            forall|i: int|
                0 <= i < r@.len() ==> (#[trigger] r@[i]).0@ == self.columns()[i] && r@[i].1
                    == self.keys()[self.columns()[i]],
    {
        let mut out: Vec<(String, [u8; 32])> = Vec::new();
        let mut i: usize = 0;
        while i < self.keys.len()
            invariant
                i <= self.keys.key_seq().len(),
                self.keys.wf(),
                out@.len() == i,
                forall|k: int|
                    0 <= k < i ==> (#[trigger] out@[k]).0@ == self.columns()[k] && out@[k].1
                        == self.keys()[self.columns()[k]],
            decreases self.keys.key_seq().len() - i,
        {
            proof {
                self.keys.lemma_at(i as int);
            }
            out.push((self.keys.key_at(i).as_str().to_owned(), *self.keys.value_at(i)));
            i = i + 1;
        }
        out
    }

    /// A random key.
    pub fn generate_key() -> (r: [u8; 32]) {
        random_key()
    }
}

impl Default for FieldEncryptionConfig {
    fn default() -> (res: Self)
        ensures
            res.wf(),
            res.keys() == Map::<Seq<char>, [u8; 32]>::empty(),
            res.columns() == Seq::<Seq<char>>::empty(),
    {
        FieldEncryptionConfig::new()
    }
}

/// The error for a field that is too short.
pub open spec fn short_field(column: Seq<char>, len: nat) -> ErrorView {
    corrupt_error(
        "field_encryption: ciphertext for column "@ + debug_text(column) + " too short ("@
            + decimal(len) + " < 40)"@,
    )
}

/// The error for a field whose tag does not fit.
pub open spec fn forged_field(column: Seq<char>) -> ErrorView {
    corrupt_error(
        "field_encryption: authentication failed for column "@ + debug_text(column)
            + " (tampered ciphertext or wrong key)"@,
    )
}

/// The error for a value that is too long for the cipher.
pub open spec fn long_field() -> ErrorView {
    internal_error("field_encryption: encrypt failed: aead::Error"@)
}

/// What decrypting a field gives.
pub open spec fn decrypted_field(
    keys: Map<Seq<char>, [u8; 32]>,
    column: Seq<char>,
    stored: Seq<u8>,
) -> Result<Seq<u8>, ErrorView> {
    if !keys.dom().contains(column) {
        Ok(stored)
    } else if stored.len() < 40 {
        Err(short_field(column, stored.len()))
    } else {
        match opened_page(keys[column]@, stored) {
            Some(v) => Ok(v),
            None => Err(forged_field(column)),
        }
    }
}

/// Whether the bytes are what encrypting a field may give: the value itself
/// for a column without a key, else its encryption under some nonce, which
/// decrypts to the value.
pub open spec fn encrypts_to(
    keys: Map<Seq<char>, [u8; 32]>,
    column: Seq<char>,
    value: Seq<u8>,
    stored: Seq<u8>,
) -> bool {
    &&& decrypted_field(keys, column, stored) == Ok::<Seq<u8>, ErrorView>(value)
    &&& if keys.dom().contains(column) {
        stored.len() == value.len() + 40 && stored == sealed_page(
            keys[column]@,
            stored.take(24),
            value,
        )
    } else {
        stored == value
    }
}

/// Encrypts and decrypts fields.
pub struct FieldEncryptor {
    config: FieldEncryptionConfig,
}

impl FieldEncryptor {
    /// The keys of the encrypted columns.
    pub closed spec fn keys(&self) -> Map<Seq<char>, [u8; 32]> {
        self.config.keys()
    }

    /// The config is well formed.
    pub closed spec fn wf(&self) -> bool {
        self.config.wf()
    }

    /// An encryptor with the given keys.
    pub fn new(config: FieldEncryptionConfig) -> (res: Self)
        requires
            config.wf(),
        ensures
            res.wf(),
            res.keys() == config.keys(),
    {
        FieldEncryptor { config }
    }

    /// The config.
    pub fn config(&self) -> (r: &FieldEncryptionConfig)
        ensures
            r.keys() == self.keys(),
            r.wf() == self.wf(),
    {
        &self.config
    }

    /// Encrypts a field under the given nonce; a field of a column without a
    /// key stays as it is.
    pub fn encrypt_field_with(&self, column: &str, plaintext: &[u8], nonce: &[u8]) -> (r: CenResult<
        Vec<u8>,
    >)
        requires
            self.wf(),
            nonce@.len() == 24,
        ensures
            match r {
                Ok(out) => encrypts_to(self.keys(), column@, plaintext@, out@) && (
                self.keys().dom().contains(column@) ==> out@ == sealed_page(
                    self.keys()[column@]@,
                    nonce@,
                    plaintext@,
                )),
                Err(e) => e@ == long_field(),
            },
            r is Ok <==> !self.keys().dom().contains(column@) || fits_cipher(plaintext@.len()),
    {
        match self.config.key_for(column) {
            Some(key) => match seal_page(key, nonce, plaintext) {
                Some(out) => {
                    assert(out@.take(24) =~= nonce@);
                    Ok(out)
                },
                None => Err(
                    CenError::internal("field_encryption: encrypt failed: aead::Error"),
                ),
            },
            None => {
                let out: Vec<u8> = copy_range(plaintext, 0, plaintext.len());
                assert(out@ =~= plaintext@);
                Ok(out)
            },
        }
    }

    /// Encrypts a field under a random nonce; a field of a column without a key
    /// stays as it is. What was encrypted decrypts to itself.
    pub fn encrypt_field(&self, column: &str, plaintext: &[u8]) -> (r: CenResult<Vec<u8>>)
        requires
            self.wf(),
        ensures
            match r {
                Ok(out) => encrypts_to(self.keys(), column@, plaintext@, out@),
                Err(e) => e@ == long_field(),
            },
            r is Ok <==> !self.keys().dom().contains(column@) || fits_cipher(plaintext@.len()),
    {
        let nonce: Vec<u8> = random_bytes(24);
        self.encrypt_field_with(column, plaintext, nonce.as_slice())
    }

    /// Decrypts a field; a field of a column without a key stays as it is.
    pub fn decrypt_field(&self, column: &str, ciphertext: &[u8]) -> (r: CenResult<Vec<u8>>)
        requires
            self.wf(),
        ensures
            match r {
                Ok(out) => decrypted_field(self.keys(), column@, ciphertext@) == Ok::<
                    Seq<u8>,
                    ErrorView,
                >(out@),
                Err(e) => decrypted_field(self.keys(), column@, ciphertext@) == Err::<
                    Seq<u8>,
                    ErrorView,
                >(e@),
            },
    {
        match self.config.key_for(column) {
            Some(key) => {
                let n: usize = ciphertext.len();
                if n < 40 {
                    let mut text: String = "field_encryption: ciphertext for column ".to_owned();
                    let name: String = debug_of_text(column);
                    let count: String = decimal_string(n as u64);
                    text.append(name.as_str());
                    text.append(" too short (");
                    text.append(count.as_str());
                    text.append(" < 40)");
                    return Err(CenError::corrupt(text.as_str()));
                }
                match open_page(key, ciphertext) {
                    Some(out) => Ok(out),
                    None => {
                        let mut text: String =
                            "field_encryption: authentication failed for column ".to_owned();
                        let name: String = debug_of_text(column);
                        text.append(name.as_str());
                        text.append(" (tampered ciphertext or wrong key)");
                        Err(CenError::corrupt(text.as_str()))
                    },
                }
            },
            None => {
                let out: Vec<u8> = copy_range(ciphertext, 0, ciphertext.len());
                assert(out@ =~= ciphertext@);
                Ok(out)
            },
        }
    }

    /// Encrypts the fields of a row, column by column. Fails with the first
    /// value that is too long for the cipher.
    pub fn encrypt_row(&self, row: &StrMap<Vec<u8>>) -> (r: CenResult<StrMap<Vec<u8>>>)
        requires
            self.wf(),
            row.wf(),
        ensures
            match r {
                Ok(out) => out.wf() && out.key_seq() == row.key_seq() && forall|i: int|
                    0 <= i < row.key_seq().len() ==> encrypts_to(
                        self.keys(),
                        #[trigger] row.key_seq()[i],
                        row.value_seq()[i]@,
                        out.value_seq()[i]@,
                    ),
                Err(e) => e@ == long_field(),
            },
            r is Ok <==> forall|i: int|
                0 <= i < row.key_seq().len() ==> !self.keys().dom().contains(
                    #[trigger] row.key_seq()[i],
                ) || fits_cipher(row.value_seq()[i]@.len()),
    {
        let mut out: StrMap<Vec<u8>> = StrMap::new();
        let mut i: usize = 0;
        assert(out.key_seq() =~= row.key_seq().take(0));
        while i < row.len()
            invariant
                i <= row.key_seq().len(),
                self.wf(),
                row.wf(),
                out.wf(),
                out.key_seq() == row.key_seq().take(i as int),
                forall|k: int|
                    0 <= k < i ==> encrypts_to(
                        self.keys(),
                        #[trigger] row.key_seq()[k],
                        row.value_seq()[k]@,
                        out.value_seq()[k]@,
                    ),
                forall|k: int|
                    0 <= k < i ==> !self.keys().dom().contains(#[trigger] row.key_seq()[k])
                        || fits_cipher(row.value_seq()[k]@.len()),
            decreases row.key_seq().len() - i,
        {
            let column: &str = row.key_at(i).as_str();
            let value: &Vec<u8> = row.value_at(i);
            match self.encrypt_field(column, value.as_slice()) {
                Ok(v) => {
                    let ghost before = out;
                    assert(!before@.dom().contains(column@)) by {
                        if before.key_seq().contains(column@) {
                            let k = choose|k: int|
                                0 <= k < before.key_seq().len() && before.key_seq()[k] == column@;
                            assert(row.key_seq()[k] == row.key_seq()[i as int]);
                        }
                    }
                    out.insert(column.to_owned(), v);
                    assert(out.key_seq() =~= row.key_seq().take(i + 1));
                    assert forall|k: int| 0 <= k < i + 1 implies encrypts_to(
                        self.keys(),
                        #[trigger] row.key_seq()[k],
                        row.value_seq()[k]@,
                        out.value_seq()[k]@,
                    ) by {
                        if k < i {
                            assert(out.value_seq()[k] == before.value_seq()[k]);
                        }
                    }
                },
                Err(e) => {
                    assert(self.keys().dom().contains(row.key_seq()[i as int]));
                    return Err(e);
                },
            }
            i = i + 1;
        }
        assert(row.key_seq().take(i as int) =~= row.key_seq());
        Ok(out)
    }

    /// Decrypts the fields of a row, column by column. Fails with the error of
    /// the first field that does not decrypt.
    pub fn decrypt_row(&self, row: &StrMap<Vec<u8>>) -> (r: CenResult<StrMap<Vec<u8>>>)
        requires
            self.wf(),
            row.wf(),
        ensures
            match r {
                Ok(out) => out.wf() && out.key_seq() == row.key_seq() && forall|i: int|
                    0 <= i < row.key_seq().len() ==> decrypted_field(
                        self.keys(),
                        #[trigger] row.key_seq()[i],
                        row.value_seq()[i]@,
                    ) == Ok::<Seq<u8>, ErrorView>(out.value_seq()[i]@),
                Err(e) => exists|i: int|
                    0 <= i < row.key_seq().len() && #[trigger] decrypted_field(
                        self.keys(),
                        row.key_seq()[i],
                        row.value_seq()[i]@,
                    ) == Err::<Seq<u8>, ErrorView>(e@) && forall|k: int|
                        0 <= k < i ==> decrypted_field(
                            self.keys(),
                            #[trigger] row.key_seq()[k],
                            row.value_seq()[k]@,
                        ) is Ok,
            },
    {
        let mut out: StrMap<Vec<u8>> = StrMap::new();
        let mut i: usize = 0;
        assert(out.key_seq() =~= row.key_seq().take(0));
        while i < row.len()
            invariant
                i <= row.key_seq().len(),
                self.wf(),
                row.wf(),
                out.wf(),
                out.key_seq() == row.key_seq().take(i as int),
                forall|k: int|
                    0 <= k < i ==> decrypted_field(
                        self.keys(),
                        #[trigger] row.key_seq()[k],
                        row.value_seq()[k]@,
                    ) == Ok::<Seq<u8>, ErrorView>(out.value_seq()[k]@),
            decreases row.key_seq().len() - i,
        {
            let column: &str = row.key_at(i).as_str();
            let value: &Vec<u8> = row.value_at(i);
            match self.decrypt_field(column, value.as_slice()) {
                Ok(v) => {
                    let ghost before = out;
                    assert(!before@.dom().contains(column@)) by {
                        if before.key_seq().contains(column@) {
                            let k = choose|k: int|
                                0 <= k < before.key_seq().len() && before.key_seq()[k] == column@;
                            assert(row.key_seq()[k] == row.key_seq()[i as int]);
                        }
                    }
                    out.insert(column.to_owned(), v);
                    assert(out.key_seq() =~= row.key_seq().take(i + 1));
                    assert forall|k: int| 0 <= k < i + 1 implies decrypted_field(
                        self.keys(),
                        #[trigger] row.key_seq()[k],
                        row.value_seq()[k]@,
                    ) == Ok::<Seq<u8>, ErrorView>(out.value_seq()[k]@) by {
                        if k < i {
                            assert(out.value_seq()[k] == before.value_seq()[k]);
                        }
                    }
                },
                Err(e) => {
                    assert(decrypted_field(
                        self.keys(),
                        row.key_seq()[i as int],
                        row.value_seq()[i as int]@,
                    ) == Err::<Seq<u8>, ErrorView>(e@));
                    return Err(e);
                },
            }
            i = i + 1;
        }
        assert(row.key_seq().take(i as int) =~= row.key_seq());
        Ok(out)
    }
}

} // verus!
