//! Decryption of strings and streams.

pub mod cbc_mode;
pub mod crypt_filters;
pub mod password;
pub mod pkcs5;
pub mod rc4;
pub mod security;
pub mod stream_decryption;
