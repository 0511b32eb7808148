//! XTS, its tweaks and the bytes of a header.

use vc_reader::bytes::{be_u16, be_u32, be_u64, starts_at};
use vc_reader::crypto::gf128::gf128_mul_x;
use vc_reader::crypto::kdf::Kdf;
use vc_reader::crypto::xts::{aes256_xts_decrypt, unit_bytes, xor_blocks};
use vc_reader::veracrypt::{parse_header, VolumeError};

fn bytes(hex: &str) -> Vec<u8> {
    (0..hex.len() / 2).map(|i| u8::from_str_radix(&hex[2 * i..2 * i + 2], 16).unwrap()).collect()
}

fn key(hex: &str) -> [u8; 32] {
    let mut key = [0u8; 32];
    key.copy_from_slice(&bytes(hex));
    key
}

fn key1() -> [u8; 32] {
    key("2718281828459045235360287471352662497757247093699959574966967627")
}

fn key2() -> [u8; 32] {
    key("3141592653589793238462643383279502884197169399375105820974944592")
}

#[test]
fn xts_vector() {
    // The first 64 bytes of the tenth test vector of IEEE 1619.
    let mut data = bytes(
        "1c3b3a102f770386e4836c99e370cf9bea00803f5e482357a4ae12d414a3e63b\
         5d31e276f8fe4a8d66b317f9ac683f44680a86ac35adfc3345befecb4bb188fd",
    );
    aes256_xts_decrypt(&key1(), &key2(), 0xff, &mut data);
    let plain: Vec<u8> = (0..64).collect();
    assert_eq!(data, plain);
}

#[test]
fn xts_uses_the_whole_unit_number() {
    let mut data = bytes(
        "1d003dc96544e1703855257377a8158dbc101660a351a1647e92f0d2ba7ce46d\
         04ae2231fc7160e99f3c631edc2461f1",
    );
    aes256_xts_decrypt(&key1(), &key2(), 0x1234_5678_9abc_def0, &mut data);
    let plain: Vec<u8> = (0..48).collect();
    assert_eq!(data, plain);
}

#[test]
fn xts_blocks_stand_alone() {
    let mut one: Vec<u8> = (0..64).collect();
    let mut other: Vec<u8> = (0..64).collect();
    other[20] ^= 0x40;
    aes256_xts_decrypt(&key1(), &key2(), 7, &mut one);
    aes256_xts_decrypt(&key1(), &key2(), 7, &mut other);
    assert_eq!(one[..16], other[..16]);
    assert_ne!(one[16..32], other[16..32]);
    assert_eq!(one[32..], other[32..]);
}

#[test]
fn xts_of_nothing() {
    let mut nothing: [u8; 0] = [];
    aes256_xts_decrypt(&key1(), &key2(), 1, &mut nothing);
    assert!(nothing.is_empty());
}

#[test]
fn tweaks_double() {
    let mut t = [0u8; 16];
    t[0] = 0x81;
    gf128_mul_x(&mut t);
    assert_eq!(u128::from_le_bytes(t), 0x102);
    let mut t = [0u8; 16];
    t[15] = 0x80;
    gf128_mul_x(&mut t);
    assert_eq!(u128::from_le_bytes(t), 0x87);
    let mut t = [0xffu8; 16];
    gf128_mul_x(&mut t);
    assert_eq!(u128::from_le_bytes(t), (u128::MAX << 1) ^ 0x87);
}

#[test]
fn doubling_adds_and_tells_apart() {
    let double = |value: u128| {
        let mut t = value.to_le_bytes();
        gf128_mul_x(&mut t);
        u128::from_le_bytes(t)
    };
    let values = [0u128, 1, 0x87, 1 << 127, u128::MAX, 0x0123_4567_89ab_cdef << 60];
    for a in values {
        for b in values {
            assert_eq!(double(a ^ b), double(a) ^ double(b));
            assert_eq!(double(a) == double(b), a == b);
        }
    }
}

#[test]
fn unit_numbers_and_masks() {
    assert_eq!(
        unit_bytes(0x0807_0605_0403_0201),
        [1, 2, 3, 4, 5, 6, 7, 8, 0, 0, 0, 0, 0, 0, 0, 0]
    );
    let mut mask = [0x0fu8; 16];
    mask[3] = 0xff;
    let mut out = [0xf0u8; 16];
    out[3] = 0;
    assert_eq!(xor_blocks(&[0xff; 16], &mask), out);
}

#[test]
fn big_endian_numbers() {
    let data = [9u8, 1, 2, 3, 4, 5, 6, 7, 8, 9];
    assert_eq!(be_u16(&data, 1), 0x0102);
    assert_eq!(be_u32(&data, 1), 0x0102_0304);
    assert_eq!(be_u64(&data, 1), 0x0102_0304_0506_0708);
    assert_eq!(be_u64(&[0xff; 8], 0), u64::MAX);
    assert!(starts_at(&data, 2, &[2, 3]));
    assert!(!starts_at(&data, 2, &[2, 4]));
}

#[test]
fn header_checksum() {
    // 188 zero bytes but for the magic; the sum is that of zlib.
    let mut plain = [0u8; 448];
    plain[..4].copy_from_slice(b"VERA");
    plain[188..192].copy_from_slice(&CRC_OF_BARE_HEADER.to_be_bytes());
    let volume = parse_header(&plain, Kdf::Ripemd160).expect("checksum should match");
    assert_eq!(volume.kdf_name(), "PBKDF2-HMAC-RIPEMD-160");
    assert_eq!(volume.volume_size(), 0);
    plain[191] ^= 1;
    assert!(parse_header(&plain, Kdf::Ripemd160).is_none());
}

const CRC_OF_BARE_HEADER: u32 = 0x72e2_a539;

#[test]
fn io_errors_are_told() {
    let error = VolumeError::from(std::io::Error::new(std::io::ErrorKind::Other, "disk on fire"));
    assert!(matches!(error, VolumeError::Io(_)));
    assert_eq!(error.message(), "I/O error: disk on fire");
    assert_eq!(VolumeError::io_message("gone"), "I/O error: gone");
}
