//! AES in CBC mode, a run of whole blocks at a time.

use aes::cipher::{BlockModeDecrypt, KeyIvInit};
use vstd::prelude::*;

verus! {

/// How many bytes a block has.
pub const BLOCK: usize = 16;

/// What AES with a 128-bit key decrypts a block to.
pub uninterp spec fn aes128_block(key: Seq<u8>, block: Seq<u8>) -> Seq<u8>;

/// What AES with a 256-bit key decrypts a block to.
pub uninterp spec fn aes256_block(key: Seq<u8>, block: Seq<u8>) -> Seq<u8>;

/// The whole block of `data` that byte `n` is in.
pub open spec fn block_around(data: Seq<u8>, n: int) -> Seq<u8> {
    data.subrange(n / 16 * 16, n / 16 * 16 + 16)
}

/// The byte of the block before that byte `n` is combined with: of the initialization vector, for
/// the first block.
pub open spec fn chained(iv: Seq<u8>, data: Seq<u8>, n: int) -> u8 {
    if n < 16 {
        iv[n]
    } else {
        data[n - 16]
    }
}

/// What AES decrypts a block to, with a key of either length.
pub open spec fn aes_block(key: Seq<u8>, block: Seq<u8>) -> Seq<u8> {
    if key.len() == 16 {
        aes128_block(key, block)
    } else {
        aes256_block(key, block)
    }
}

/// What AES in CBC mode decrypts whole blocks to: each block decrypted and combined with the one
/// before it.
pub open spec fn cbc_decrypted(key: Seq<u8>, iv: Seq<u8>, data: Seq<u8>) -> Seq<u8> {
    Seq::new(
        data.len(),
        |n: int| aes_block(key, block_around(data, n))[n % 16] ^ chained(iv, data, n),
    )
}

/// The block to go on from after whole blocks of `data`: the last one, or the initialization vector
/// without any.
pub open spec fn chain_after(iv: Seq<u8>, data: Seq<u8>) -> Seq<u8> {
    if data.len() == 0 {
        iv
    } else {
        data.skip(data.len() - 16)
    }
}

/// Whole blocks decrypted in two runs give what they give in one.
pub proof fn lemma_cbc_pieces(key: Seq<u8>, iv: Seq<u8>, first: Seq<u8>, second: Seq<u8>)
    requires
        iv.len() == 16,
        first.len() % 16 == 0,
        second.len() % 16 == 0,
    ensures
        cbc_decrypted(key, iv, first + second) == cbc_decrypted(key, iv, first) + cbc_decrypted(
            key,
            chain_after(iv, first),
            second,
        ),
        chain_after(iv, first + second) == chain_after(chain_after(iv, first), second),
{
    let whole = cbc_decrypted(key, iv, first + second);
    let next = chain_after(iv, first);
    let pieces = cbc_decrypted(key, iv, first) + cbc_decrypted(key, next, second);
    let len = first.len() as int;
    assert forall|n: int| 0 <= n < whole.len() implies whole[n] == pieces[n] by {
        if n < len {
            assert(n / 16 * 16 + 16 <= len);
            assert(block_around(first + second, n) =~= block_around(first, n));
        } else {
            let m = n - len;
            assert(n / 16 * 16 == len + m / 16 * 16);
            assert(n % 16 == m % 16);
            assert(m / 16 * 16 + 16 <= second.len());
            assert(block_around(first + second, n) =~= block_around(second, m));
        }
    }
    assert(whole =~= pieces);
    if second.len() > 0 {
        assert((first + second).skip(first.len() + second.len() - 16) =~= second.skip(
            second.len() - 16,
        ));
    } else {
        assert(first + second =~= first);
    }
}

/// `cbc::Decryptor` over `aes::Aes128`, set up with a key and an initialization vector, decrypts
/// each block with AES and combines it with the block before, or with the initialization vector.
#[verifier::external_body]
fn decrypt_128(key: &[u8], iv: &[u8], data: &[u8]) -> (r: Vec<u8>)
    requires
        key@.len() == 16,
        iv@.len() == 16,
        data@.len() % 16 == 0,
    ensures
        r@.len() == data@.len(),
        forall|n: int|
            0 <= n < data@.len() ==> #[trigger] r@[n] == aes128_block(
                key@,
                block_around(data@, n),
            )[n % 16] ^ chained(iv@, data@, n),
{
    let mut output = data.to_vec();
    let mut decryptor = cbc::Decryptor::<aes::Aes128>::new_from_slices(key, iv).unwrap();
    decryptor.decrypt_blocks(aes::Block::slice_as_chunks_mut(&mut output).0);
    output
}

/// `cbc::Decryptor` over `aes::Aes256`, set up with a key and an initialization vector, decrypts
/// each block with AES and combines it with the block before, or with the initialization vector.
#[verifier::external_body]
fn decrypt_256(key: &[u8], iv: &[u8], data: &[u8]) -> (r: Vec<u8>)
    requires
        key@.len() == 32,
        iv@.len() == 16,
        data@.len() % 16 == 0,
    ensures
        r@.len() == data@.len(),
        forall|n: int|
            0 <= n < data@.len() ==> #[trigger] r@[n] == aes256_block(
                key@,
                block_around(data@, n),
            )[n % 16] ^ chained(iv@, data@, n),
{
    let mut output = data.to_vec();
    let mut decryptor = cbc::Decryptor::<aes::Aes256>::new_from_slices(key, iv).unwrap();
    decryptor.decrypt_blocks(aes::Block::slice_as_chunks_mut(&mut output).0);
    output
}

/// Decrypts `data`, whole blocks, with a key of either length.
pub fn decrypt_blocks(key: &[u8], iv: &[u8], data: &[u8]) -> (r: Vec<u8>)
    requires
        key@.len() == 16 || key@.len() == 32,
        iv@.len() == 16,
        data@.len() % 16 == 0,
    ensures
        r@ == cbc_decrypted(key@, iv@, data@),
{
    let output = if key.len() == 16 {
        decrypt_128(key, iv, data)
    } else {
        decrypt_256(key, iv, data)
    };
    assert(output@ =~= cbc_decrypted(key@, iv@, data@));
    output
}

} // verus!
