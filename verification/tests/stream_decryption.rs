//! Streams decrypted as they are read.

use aes::cipher::{BlockModeEncrypt, KeyIvInit};
use lopdf::encryption::crypt_filters::{
    Aes128CryptFilter, Aes256CryptFilter, CryptFilter, IdentityCryptFilter, Rc4CryptFilter,
};
use lopdf::encryption::rc4::Rc4;
use lopdf::encryption::stream_decryption::StreamDecryption;
use lopdf::error::DecryptionError;

const IV: [u8; 16] = [7; 16];

/// `plaintext` padded to whole blocks.
fn padded(plaintext: &[u8]) -> Vec<u8> {
    let mut data = plaintext.to_vec();
    let pad = 16 - data.len() % 16;
    data.extend(std::iter::repeat(pad as u8).take(pad));
    data
}

fn encrypt_aes(key: &[u8], plaintext: &[u8]) -> Vec<u8> {
    let mut out = IV.to_vec();
    let mut data = padded(plaintext);
    if key.len() == 16 {
        let key: [u8; 16] = key.try_into().unwrap();
        let mut encryptor = cbc::Encryptor::<aes::Aes128>::new(&key.into(), &IV.into());
        for block in data.chunks_mut(16) {
            let mut whole: [u8; 16] = (&*block).try_into().unwrap();
            encryptor.encrypt_block((&mut whole).into());
            block.copy_from_slice(&whole);
        }
    } else {
        let key: [u8; 32] = key.try_into().unwrap();
        let mut encryptor = cbc::Encryptor::<aes::Aes256>::new(&key.into(), &IV.into());
        for block in data.chunks_mut(16) {
            let mut whole: [u8; 16] = (&*block).try_into().unwrap();
            encryptor.encrypt_block((&mut whole).into());
            block.copy_from_slice(&whole);
        }
    }
    out.extend_from_slice(&data);
    out
}

fn decrypt_in_pieces<F: CryptFilter>(
    filter: F,
    key: &[u8],
    ciphertext: &[u8],
    piece: usize,
) -> Result<Vec<u8>, DecryptionError> {
    let mut decryption = StreamDecryption::new(filter, key.to_vec(), ciphertext.len())?;
    let mut output = Vec::new();
    for chunk in ciphertext.chunks(piece.max(1)) {
        decryption.update(chunk, &mut output);
    }
    decryption.finish(&mut output)?;
    Ok(output)
}

fn check_pieces<F: CryptFilter + Copy>(filter: F, key: &[u8], encrypt: &dyn Fn(&[u8], &[u8]) -> Vec<u8>) {
    for len in [0, 1, 15, 16, 17, 31, 32, 33, 1000, 4096] {
        let plaintext: Vec<u8> = (0..len).map(|i| (i * 7 % 251) as u8).collect();
        let ciphertext = encrypt(key, &plaintext);
        let whole = filter.decrypt(key, &ciphertext).unwrap();
        assert_eq!(whole, plaintext);
        for piece in [1, 5, 16, 17, 100, ciphertext.len()] {
            let method = String::from_utf8_lossy(&filter.method()).into_owned();
            assert_eq!(
                decrypt_in_pieces(filter, key, &ciphertext, piece).unwrap(),
                whole,
                "{method}, {len} bytes in pieces of {piece}"
            );
        }
    }
}

#[test]
fn every_filter_decrypts_in_pieces_as_it_does_whole() {
    let short: Vec<u8> = (1..=16).collect();
    let long: Vec<u8> = (1..=32).collect();
    check_pieces(IdentityCryptFilter, &[1; 16], &|_, plaintext| plaintext.to_vec());
    check_pieces(Rc4CryptFilter, &short, &|key, plaintext| Rc4::new(key).encrypt(plaintext));
    check_pieces(Aes128CryptFilter, &short, &encrypt_aes);
    check_pieces(Aes256CryptFilter, &long, &encrypt_aes);
}

#[test]
fn aes_fails_as_whole_decryption_does_before_reading() {
    let filter = Aes128CryptFilter;
    let key: Vec<u8> = (1..=16).collect();
    assert!(matches!(
        StreamDecryption::new(filter, key.clone(), 33),
        Err(DecryptionError::InvalidCipherTextLength)
    ));
    assert!(matches!(
        StreamDecryption::new(filter, key[..8].to_vec(), 32),
        Err(DecryptionError::InvalidKeyLength)
    ));
    assert!(decrypt_in_pieces(filter, &key, &[], 4).unwrap().is_empty());
    assert!(decrypt_in_pieces(filter, &key, &[9; 16], 4).unwrap().is_empty());
}

#[test]
fn aes_padding_that_does_not_check_out_keeps_the_last_block() {
    let filter = Aes128CryptFilter;
    let key: Vec<u8> = (1..=16).collect();
    let plaintext = vec![b'x'; 40];
    let mut ciphertext = encrypt_aes(&key, &plaintext);
    let last = ciphertext.len() - 1;
    ciphertext[last] ^= 0xff;
    assert!(filter.decrypt(&key, &ciphertext).is_err());

    let output = decrypt_in_pieces(filter, &key, &ciphertext, 7).unwrap();

    assert_eq!(output.len(), 48);
    assert_eq!(output[..32], plaintext[..32]);
}

#[test]
fn whole_aes_decryption_says_what_is_wrong() {
    let key: Vec<u8> = (1..=16).collect();
    let ciphertext = encrypt_aes(&key, b"some text");
    assert_eq!(
        Aes128CryptFilter.decrypt(&key[..8], &ciphertext),
        Err(DecryptionError::InvalidKeyLength)
    );
    assert_eq!(
        Aes128CryptFilter.decrypt(&key, &ciphertext[..17]),
        Err(DecryptionError::InvalidCipherTextLength)
    );
    assert_eq!(
        Aes256CryptFilter.decrypt(&key, &ciphertext),
        Err(DecryptionError::InvalidKeyLength)
    );
    // A block of zeros is no padding.
    let mut broken = IV.to_vec();
    let mut block = [0u8; 16];
    let key_block: [u8; 16] = key.as_slice().try_into().unwrap();
    let mut encryptor = cbc::Encryptor::<aes::Aes128>::new(&key_block.into(), &IV.into());
    encryptor.encrypt_block((&mut block).into());
    broken.extend_from_slice(&block);
    assert_eq!(Aes128CryptFilter.decrypt(&key, &broken), Err(DecryptionError::Padding));
}

#[test]
fn rc4_gives_its_published_keystream_and_undoes_itself() {
    // The keystream of the key "Key" on "Plaintext".
    let cipher = Rc4::new(b"Key").encrypt(b"Plaintext");
    assert_eq!(cipher, [0xBB, 0xF3, 0x16, 0xE8, 0xD9, 0x40, 0xAF, 0x0A, 0xD3]);
    assert_eq!(Rc4::new(b"Key").decrypt(&cipher), b"Plaintext");
    let cipher = Rc4::new(b"Wiki").encrypt(b"pedia");
    assert_eq!(cipher, [0x10, 0x21, 0xBF, 0x04, 0x20]);
}

#[test]
fn rc4_goes_on_where_the_last_piece_ended() {
    let key: Vec<u8> = (1..=16).collect();
    let whole = Rc4::new(&key).encrypt(b"two pieces of text");
    let mut keystream = Rc4::new(&key).keystream();
    let mut first = b"two pie".to_vec();
    let mut second = b"ces of text".to_vec();
    keystream.apply(&mut first);
    keystream.apply(&mut second);
    first.extend_from_slice(&second);
    assert_eq!(first, whole);
}


#[test]
fn each_filter_names_its_method() {
    assert_eq!(IdentityCryptFilter.method(), b"Identity");
    assert_eq!(Rc4CryptFilter.method(), b"V2");
    assert_eq!(Aes128CryptFilter.method(), b"AESV2");
    assert_eq!(Aes256CryptFilter.method(), b"AESV3");
}
