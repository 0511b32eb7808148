//! The header keys.

use vc_reader::crypto::kdf::{derive_key, Kdf, KDF_COUNT};

fn salt() -> [u8; 64] {
    let mut salt = [0u8; 64];
    for (i, byte) in salt.iter_mut().enumerate() {
        *byte = (i * 7 + 3) as u8;
    }
    salt
}

fn hex(key: &[u8; 64]) -> String {
    key.iter().map(|byte| format!("{byte:02x}")).collect()
}

#[test]
fn sha512_header_key() {
    assert_eq!(
        hex(&derive_key(b"1", &salt(), Kdf::Sha512)),
        "332a010bcd1716b889200c08c43e3687a376bb0d914997f9a67dc738f81f5875\
         3bb328c0e3621e4192ec5eb6e5106177b93ac61a2fedc719116b830c56c197ff"
    );
}

#[test]
fn sha256_header_key() {
    assert_eq!(
        hex(&derive_key(b"1", &salt(), Kdf::Sha256)),
        "2fd12c19b3b9982f2e6797ceefa23f618c28237b5d2417739179a2539072c5d9\
         f6c425d8b008b05a4db823ed8d36f6b7a8a6343f1305195d336db9da77137dbd"
    );
}

#[test]
fn ripemd160_header_key() {
    assert_eq!(
        hex(&derive_key(b"1", &salt(), Kdf::Ripemd160)),
        "faa8ace2ca3053eda9effc1f80b84846ac5171a6c6ce998b79415948a5bb86cf\
         2eceaed5d4262eb4b0911570df3d6a21ff6b9c771df7c89314a12d357320dbe1"
    );
}

#[test]
fn thousand_rounds() {
    let expected = [
        (
            Kdf::Sha512,
            "247b91109d4a728c78251963611168601a491596e9bdabba3ad784341e0ed3df\
             660c48e6894e6ba1ebf57939f69d5d964239c7e38097728691dda8bd956377ff",
        ),
        (
            Kdf::Sha256,
            "3c0aed268807c82e67eeb4627a42310c50ed34483b8466955b4ba2980e0f585c\
             f387a02049c0468ca27dbabc40645fa8c491ee9746fab2779655d71fd026239c",
        ),
        (
            Kdf::Ripemd160,
            "3eebf8c292d9081b005e961ab666c8db1301a7d2270bf87d0e16ed8a4af4a144\
             8ad885b73807a8a7acb862db508566fed44e3a72d07700736b14f134202a98c1",
        ),
        (
            Kdf::Whirlpool,
            "77ad94cf543f670960fe04db548423d1a868727c5de0a650b213ad8290466891\
             09dd61fdd9dcbc49ed9de81e2c532d46c46c13a9f45474adaa649211f259ba3f",
        ),
    ];
    for (kdf, key) in expected {
        assert_eq!(hex(&kdf.derive(b"1", &salt(), 1000)), key, "{}", kdf.name());
    }
}

#[test]
fn streebog512_is_its_own() {
    let mut key = [0u8; 64];
    pbkdf2::pbkdf2::<hmac::Hmac<streebog::Streebog512>>(b"1", &salt(), 300, &mut key).unwrap();
    assert_eq!(Kdf::Streebog512.derive(b"1", &salt(), 300), key);
    assert_ne!(Kdf::Streebog512.derive(b"2", &salt(), 300), key);
    assert_ne!(Kdf::Streebog512.derive(b"1", &salt()[1..], 300), key);
    assert_ne!(Kdf::Streebog512.derive(b"1", &salt(), 301), key);
}

#[test]
fn rounds_of_each_kdf() {
    let rounds: Vec<u32> = (0..KDF_COUNT).map(|i| Kdf::nth(i).rounds()).collect();
    assert_eq!(rounds, vec![500_000, 500_000, 655_331, 500_000, 500_000]);
}

#[test]
fn kdfs_in_order() {
    let names: Vec<&str> = (0..KDF_COUNT).map(|i| Kdf::nth(i).name()).collect();
    assert_eq!(
        names,
        vec![
            "PBKDF2-HMAC-SHA-512",
            "PBKDF2-HMAC-SHA-256",
            "PBKDF2-HMAC-RIPEMD-160",
            "PBKDF2-HMAC-Whirlpool",
            "PBKDF2-HMAC-Streebog-512",
        ]
    );
}
