//! Crypt filters: how the strings and streams of a document are decrypted.

use vstd::prelude::*;
use vstd::slice::slice_subrange;

use crate::bytes::{key as key_bytes, to_vec};
use crate::encryption::cbc_mode::{cbc_decrypted, decrypt_blocks};
use crate::encryption::pkcs5::{unpadded, unpadded_len};
use crate::encryption::rc4::{crypted, keystream_start, Rc4};
use crate::error::DecryptionError;

verus! {

/// Decrypts the content of a string or a stream.
pub trait CryptFilter {
    /// The name of the filter's method.
    spec fn method_name(&self) -> Seq<u8>;

    /// What the filter decrypts `ciphertext` to with an object's `key`.
    spec fn decrypted(&self, key: Seq<u8>, ciphertext: Seq<u8>) -> std::result::Result<
        Seq<u8>,
        DecryptionError,
    >;

    /// The keys that the filter takes.
    spec fn takes(&self, key: Seq<u8>) -> bool;

    fn method(&self) -> (r: Vec<u8>)
        ensures
            r@ == self.method_name(),
    ;

    fn decrypt(&self, key: &[u8], ciphertext: &[u8]) -> (r: std::result::Result<
        Vec<u8>,
        DecryptionError,
    >)
        requires
            self.takes(key@),
        ensures
            match r {
                Ok(plaintext) => self.decrypted(key@, ciphertext@) == Ok::<
                    Seq<u8>,
                    DecryptionError,
                >(plaintext@),
                Err(error) => self.decrypted(key@, ciphertext@) == Err::<Seq<u8>, DecryptionError>(
                    error,
                ),
            },
    ;
}

/// Leaves content as it is.
#[derive(Clone, Copy, Debug)]
pub struct IdentityCryptFilter;

/// RC4.
#[derive(Clone, Copy, Debug)]
pub struct Rc4CryptFilter;

/// AES in CBC mode with a 128-bit key.
#[derive(Clone, Copy, Debug)]
pub struct Aes128CryptFilter;

/// AES in CBC mode with a 256-bit key.
#[derive(Clone, Copy, Debug)]
pub struct Aes256CryptFilter;

impl CryptFilter for IdentityCryptFilter {
    open spec fn method_name(&self) -> Seq<u8> {
        key_bytes("Identity"@)
    }

    open spec fn decrypted(&self, key: Seq<u8>, ciphertext: Seq<u8>) -> std::result::Result<
        Seq<u8>,
        DecryptionError,
    > {
        Ok(ciphertext)
    }

    open spec fn takes(&self, key: Seq<u8>) -> bool {
        true
    }

    fn method(&self) -> (r: Vec<u8>) {
        to_vec("Identity".as_bytes())
    }

    fn decrypt(&self, key: &[u8], ciphertext: &[u8]) -> (r: std::result::Result<
        Vec<u8>,
        DecryptionError,
    >) {
        Ok(to_vec(ciphertext))
    }
}

impl CryptFilter for Rc4CryptFilter {
    open spec fn method_name(&self) -> Seq<u8> {
        key_bytes("V2"@)
    }

    open spec fn decrypted(&self, key: Seq<u8>, ciphertext: Seq<u8>) -> std::result::Result<
        Seq<u8>,
        DecryptionError,
    > {
        Ok(crypted(keystream_start(key), ciphertext))
    }

    open spec fn takes(&self, key: Seq<u8>) -> bool {
        1 <= key.len() <= 256
    }

    fn method(&self) -> (r: Vec<u8>) {
        to_vec("V2".as_bytes())
    }

    fn decrypt(&self, key: &[u8], ciphertext: &[u8]) -> (r: std::result::Result<
        Vec<u8>,
        DecryptionError,
    >) {
        Ok(Rc4::new(key).decrypt(ciphertext))
    }
}

/// What AES in CBC mode decrypts `ciphertext` to: the first block is the initialization vector, and
/// the last block ends in padding. Nothing, or an initialization vector alone, decrypts to nothing.
pub open spec fn aes_decrypted(key_len: nat, key: Seq<u8>, ciphertext: Seq<u8>) -> std::result::Result<
    Seq<u8>,
    DecryptionError,
> {
    if key.len() != key_len {
        Err(DecryptionError::InvalidKeyLength)
    } else if ciphertext.len() % 16 != 0 {
        Err(DecryptionError::InvalidCipherTextLength)
    } else if ciphertext.len() <= 16 {
        Ok(Seq::empty())
    } else {
        let padded = cbc_decrypted(key, ciphertext.take(16), ciphertext.skip(16));
        let last = padded.len() - 16;
        match unpadded(padded.skip(last)) {
            Some(rest) => Ok(padded.take(last) + rest),
            None => Err(DecryptionError::Padding),
        }
    }
}

fn aes_decrypt(key_len: usize, key: &[u8], ciphertext: &[u8]) -> (r: std::result::Result<
    Vec<u8>,
    DecryptionError,
>)
    requires
        key_len == 16 || key_len == 32,
    ensures
        match r {
            Ok(plaintext) => aes_decrypted(key_len as nat, key@, ciphertext@) == Ok::<
                Seq<u8>,
                DecryptionError,
            >(plaintext@),
            Err(error) => aes_decrypted(key_len as nat, key@, ciphertext@) == Err::<
                Seq<u8>,
                DecryptionError,
            >(error),
        },
{
    if key.len() != key_len {
        return Err(DecryptionError::InvalidKeyLength);
    }
    if ciphertext.len() % 16 != 0 {
        return Err(DecryptionError::InvalidCipherTextLength);
    }
    if ciphertext.len() <= 16 {
        let nothing: Vec<u8> = Vec::new();
        assert(nothing@ =~= Seq::<u8>::empty());
        return Ok(nothing);
    }
    let iv = slice_subrange(ciphertext, 0, 16);
    let rest = slice_subrange(ciphertext, 16, ciphertext.len());
    proof {
        assert(iv@ =~= ciphertext@.take(16));
        assert(rest@ =~= ciphertext@.skip(16));
    }
    let mut padded = decrypt_blocks(key, iv, rest);
    let last = padded.len() - 16;
    let block = slice_subrange(padded.as_slice(), last, padded.len());
    assert(block@ =~= padded@.skip(last as int));
    match unpadded_len(block) {
        Some(len) => {
            let ghost whole = padded@;
            padded.truncate(last + len);
            assert(padded@ =~= whole.take(last as int) + whole.skip(last as int).take(len as int));
            Ok(padded)
        },
        None => Err(DecryptionError::Padding),
    }
}

impl CryptFilter for Aes128CryptFilter {
    open spec fn method_name(&self) -> Seq<u8> {
        key_bytes("AESV2"@)
    }

    open spec fn decrypted(&self, key: Seq<u8>, ciphertext: Seq<u8>) -> std::result::Result<
        Seq<u8>,
        DecryptionError,
    > {
        aes_decrypted(16, key, ciphertext)
    }

    open spec fn takes(&self, key: Seq<u8>) -> bool {
        true
    }

    fn method(&self) -> (r: Vec<u8>) {
        to_vec("AESV2".as_bytes())
    }

    fn decrypt(&self, key: &[u8], ciphertext: &[u8]) -> (r: std::result::Result<
        Vec<u8>,
        DecryptionError,
    >) {
        aes_decrypt(16, key, ciphertext)
    }
}

impl CryptFilter for Aes256CryptFilter {
    open spec fn method_name(&self) -> Seq<u8> {
        key_bytes("AESV3"@)
    }

    open spec fn decrypted(&self, key: Seq<u8>, ciphertext: Seq<u8>) -> std::result::Result<
        Seq<u8>,
        DecryptionError,
    > {
        aes_decrypted(32, key, ciphertext)
    }

    open spec fn takes(&self, key: Seq<u8>) -> bool {
        true
    }

    fn method(&self) -> (r: Vec<u8>) {
        to_vec("AESV3".as_bytes())
    }

    fn decrypt(&self, key: &[u8], ciphertext: &[u8]) -> (r: std::result::Result<
        Vec<u8>,
        DecryptionError,
    >) {
        aes_decrypt(32, key, ciphertext)
    }
}

} // verus!
