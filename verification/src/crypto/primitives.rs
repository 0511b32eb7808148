//! The calls into the cryptographic crates.

use aes::cipher::generic_array::GenericArray;
use aes::cipher::{BlockDecrypt, BlockEncrypt, KeyInit};
use aes::Aes256;
use hmac::Hmac;
use ripemd::Ripemd160;
use sha2::{Sha256, Sha512};
use streebog::Streebog512;
use vstd::prelude::*;
use whirlpool::Whirlpool;

verus! {

/// The sixteen bytes that AES-256 under `key` turns `block` into.
pub uninterp spec fn aes256_encryption(key: Seq<u8>, block: Seq<u8>) -> Seq<u8>;

/// The sixteen bytes that AES-256 under `key` turns back from `block`.
pub uninterp spec fn aes256_decryption(key: Seq<u8>, block: Seq<u8>) -> Seq<u8>;

/// Whether two blocks hold the same sixteen bytes.
pub open spec fn same_block(a: Seq<u8>, b: Seq<u8>) -> bool {
    forall|k: int| #![trigger a[k]] #![trigger b[k]] 0 <= k < 16 ==> a[k] == b[k]
}

/// Whether `out` is what was encrypted, if `block` is the encryption of anything.
pub open spec fn undoes_encryption(key: Seq<u8>, block: Seq<u8>, out: Seq<u8>) -> bool {
    forall|plain: Seq<u8>|
        plain.len() == 16 && same_block(block, #[trigger] aes256_encryption(key, plain)) ==> out
            == plain
}

/// Whether `block` is the one block that decrypts to `out`.
pub open spec fn comes_from_one_block(key: Seq<u8>, block: Seq<u8>, out: Seq<u8>) -> bool {
    forall|other: Seq<u8>|
        other.len() == 16 && same_block(#[trigger] aes256_decryption(key, other), out) ==> other
            == block
}

/// Encrypts one block with `Aes256::encrypt_block` of the crate `aes`. The result
/// depends on the key and the block alone; the cipher itself is not spelled out.
#[verifier::external_body]
pub(crate) fn aes256_encrypt_block(key: &[u8; 32], block: &[u8; 16]) -> (out: [u8; 16])
    ensures
        out@ == aes256_encryption(key@, block@),
{
    let mut out = *block;
    Aes256::new(GenericArray::from_slice(key)).encrypt_block(GenericArray::from_mut_slice(&mut out));
    out
}

/// Decrypts one block with `Aes256::decrypt_block` of the crate `aes`. The result
/// depends on the key and the block alone; the cipher itself is not spelled out.
/// Encryption and decryption under one key undo each other: a block that encryption
/// gave is turned back into what was encrypted, and no other block is turned into the
/// same result.
#[verifier::external_body]
pub(crate) fn aes256_decrypt_block(key: &[u8; 32], block: &[u8; 16]) -> (out: [u8; 16])
    ensures
        out@ == aes256_decryption(key@, block@),
        undoes_encryption(key@, block@, out@),
        comes_from_one_block(key@, block@, out@),
{
    let mut out = *block;
    Aes256::new(GenericArray::from_slice(key)).decrypt_block(GenericArray::from_mut_slice(&mut out));
    out
}

/// What the shift register of CRC-32 holds after `n` further zero bits.
pub open spec fn crc32_shifted(register: u32, n: nat) -> u32
    decreases n,
{
    if n == 0 {
        register
    } else if register & 1 == 1 {
        crc32_shifted((register >> 1) ^ 0xedb8_8320, (n - 1) as nat)
    } else {
        crc32_shifted(register >> 1, (n - 1) as nat)
    }
}

/// What the shift register of CRC-32 holds once `data` has gone through it.
pub open spec fn crc32_register(data: Seq<u8>) -> u32
    decreases data.len(),
{
    if data.len() == 0 {
        0xffff_ffff
    } else {
        crc32_shifted(crc32_register(data.drop_last()) ^ (data.last() as u32), 8)
    }
}

/// The CRC-32 of `data`: the IEEE polynomial, bits taken least significant first,
/// all ones to start with and the register inverted at the end.
pub open spec fn crc32(data: Seq<u8>) -> u32 {
    crc32_register(data) ^ 0xffff_ffff
}

/// `crc32fast::hash` computes the CRC-32 (IEEE) of the bytes.
#[verifier::external_body]
pub(crate) fn crc32_of(data: &[u8]) -> (sum: u32)
    ensures
        sum == crc32(data@),
{
    crc32fast::hash(data)
}

/// The 64 bytes that PBKDF2 with HMAC-SHA-512 derives.
pub uninterp spec fn pbkdf2_sha512(password: Seq<u8>, salt: Seq<u8>, rounds: u32) -> Seq<u8>;

/// The 64 bytes that PBKDF2 with HMAC-SHA-256 derives.
pub uninterp spec fn pbkdf2_sha256(password: Seq<u8>, salt: Seq<u8>, rounds: u32) -> Seq<u8>;

/// The 64 bytes that PBKDF2 with HMAC-RIPEMD-160 derives.
pub uninterp spec fn pbkdf2_ripemd160(password: Seq<u8>, salt: Seq<u8>, rounds: u32) -> Seq<u8>;

/// The 64 bytes that PBKDF2 with HMAC-Whirlpool derives.
pub uninterp spec fn pbkdf2_whirlpool(password: Seq<u8>, salt: Seq<u8>, rounds: u32) -> Seq<u8>;

/// The 64 bytes that PBKDF2 with HMAC-Streebog-512 derives.
pub uninterp spec fn pbkdf2_streebog512(password: Seq<u8>, salt: Seq<u8>, rounds: u32) -> Seq<u8>;

/// Fills a 64-byte key with `pbkdf2::pbkdf2` over HMAC-SHA-512. HMAC takes a key of
/// any length, so the call does not fail; the key depends on the arguments alone.
#[verifier::external_body]
pub(crate) fn derive_sha512(password: &[u8], salt: &[u8], rounds: u32) -> (key: [u8; 64])
    ensures
        key@ == pbkdf2_sha512(password@, salt@, rounds),
{
    let mut key = [0u8; 64];
    pbkdf2::pbkdf2::<Hmac<Sha512>>(password, salt, rounds, &mut key).expect("PBKDF2-SHA512 failed");
    key
}

/// Fills a 64-byte key with `pbkdf2::pbkdf2` over HMAC-SHA-256. HMAC takes a key of
/// any length, so the call does not fail; the key depends on the arguments alone.
#[verifier::external_body]
pub(crate) fn derive_sha256(password: &[u8], salt: &[u8], rounds: u32) -> (key: [u8; 64])
    ensures
        key@ == pbkdf2_sha256(password@, salt@, rounds),
{
    let mut key = [0u8; 64];
    pbkdf2::pbkdf2::<Hmac<Sha256>>(password, salt, rounds, &mut key).expect("PBKDF2-SHA256 failed");
    key
}

/// Fills a 64-byte key with `pbkdf2::pbkdf2` over HMAC-RIPEMD-160. HMAC takes a key of
/// any length, so the call does not fail; the key depends on the arguments alone.
#[verifier::external_body]
pub(crate) fn derive_ripemd160(password: &[u8], salt: &[u8], rounds: u32) -> (key: [u8; 64])
    ensures
        key@ == pbkdf2_ripemd160(password@, salt@, rounds),
{
    let mut key = [0u8; 64];
    pbkdf2::pbkdf2::<Hmac<Ripemd160>>(password, salt, rounds, &mut key)
        .expect("PBKDF2-RIPEMD160 failed");
    key
}

/// Fills a 64-byte key with `pbkdf2::pbkdf2` over HMAC-Whirlpool. HMAC takes a key of
/// any length, so the call does not fail; the key depends on the arguments alone.
#[verifier::external_body]
pub(crate) fn derive_whirlpool(password: &[u8], salt: &[u8], rounds: u32) -> (key: [u8; 64])
    ensures
        key@ == pbkdf2_whirlpool(password@, salt@, rounds),
{
    let mut key = [0u8; 64];
    pbkdf2::pbkdf2::<Hmac<Whirlpool>>(password, salt, rounds, &mut key)
        .expect("PBKDF2-Whirlpool failed");
    key
}

/// Fills a 64-byte key with `pbkdf2::pbkdf2` over HMAC-Streebog-512. HMAC takes a key of
/// any length, so the call does not fail; the key depends on the arguments alone.
#[verifier::external_body]
pub(crate) fn derive_streebog512(password: &[u8], salt: &[u8], rounds: u32) -> (key: [u8; 64])
    ensures
        key@ == pbkdf2_streebog512(password@, salt@, rounds),
{
    let mut key = [0u8; 64];
    pbkdf2::pbkdf2::<Hmac<Streebog512>>(password, salt, rounds, &mut key)
        .expect("PBKDF2-Streebog512 failed");
    key
}

} // verus!
