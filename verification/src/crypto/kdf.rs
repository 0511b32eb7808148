//! The key derivation functions that may lock a header.

use super::primitives::{
    derive_ripemd160, derive_sha256, derive_sha512, derive_streebog512, derive_whirlpool,
    pbkdf2_ripemd160, pbkdf2_sha256, pbkdf2_sha512, pbkdf2_streebog512, pbkdf2_whirlpool,
};
use vstd::prelude::*;

verus! {

/// Rounds of PBKDF2 on volumes that are not a system partition.
pub const ITER_SHA512: u32 = 500_000;

pub const ITER_SHA256: u32 = 500_000;

pub const ITER_RIPEMD160: u32 = 655_331;

pub const ITER_WHIRLPOOL: u32 = 500_000;

pub const ITER_STREEBOG: u32 = 500_000;

/// A key derivation function: PBKDF2 over the HMAC of one hash.
#[derive(Debug, Clone, Copy, PartialEq, Eq, Structural)]
pub enum Kdf {
    Sha512,
    Sha256,
    Ripemd160,
    Whirlpool,
    Streebog512,
}

/// How many key derivation functions there are.
pub const KDF_COUNT: usize = 5;

/// The key derivation functions, in the order in which they are tried.
pub open spec fn all_kdfs() -> Seq<Kdf> {
    seq![Kdf::Sha512, Kdf::Sha256, Kdf::Ripemd160, Kdf::Whirlpool, Kdf::Streebog512]
}

impl Kdf {
    /// The name that the user is shown.
    pub open spec fn spec_name(self) -> Seq<char> {
        match self {
            Kdf::Sha512 => "PBKDF2-HMAC-SHA-512"@,
            Kdf::Sha256 => "PBKDF2-HMAC-SHA-256"@,
            Kdf::Ripemd160 => "PBKDF2-HMAC-RIPEMD-160"@,
            Kdf::Whirlpool => "PBKDF2-HMAC-Whirlpool"@,
            Kdf::Streebog512 => "PBKDF2-HMAC-Streebog-512"@,
        }
    }

    /// How many rounds of PBKDF2 this function makes.
    pub open spec fn spec_rounds(self) -> u32 {
        match self {
            Kdf::Sha512 => ITER_SHA512,
            Kdf::Sha256 => ITER_SHA256,
            Kdf::Ripemd160 => ITER_RIPEMD160,
            Kdf::Whirlpool => ITER_WHIRLPOOL,
            Kdf::Streebog512 => ITER_STREEBOG,
        }
    }

    /// The key that so many rounds of PBKDF2 over this function's hash derive.
    pub open spec fn derived(self, password: Seq<u8>, salt: Seq<u8>, rounds: u32) -> Seq<u8> {
        match self {
            Kdf::Sha512 => pbkdf2_sha512(password, salt, rounds),
            Kdf::Sha256 => pbkdf2_sha256(password, salt, rounds),
            Kdf::Ripemd160 => pbkdf2_ripemd160(password, salt, rounds),
            Kdf::Whirlpool => pbkdf2_whirlpool(password, salt, rounds),
            Kdf::Streebog512 => pbkdf2_streebog512(password, salt, rounds),
        }
    }

    /// The header key that this function derives.
    pub open spec fn header_key(self, password: Seq<u8>, salt: Seq<u8>) -> Seq<u8> {
        self.derived(password, salt, self.spec_rounds())
    }

    /// The `index`-th function to try.
    pub fn nth(index: usize) -> (kdf: Kdf)
        requires
            index < KDF_COUNT,
        ensures
            kdf == all_kdfs()[index as int],
    {
        if index == 0 {
            Kdf::Sha512
        } else if index == 1 {
            Kdf::Sha256
        } else if index == 2 {
            Kdf::Ripemd160
        } else if index == 3 {
            Kdf::Whirlpool
        } else {
            Kdf::Streebog512
        }
    }

    /// The name that the user is shown.
    pub fn name(self) -> (name: &'static str)
        ensures
            name@ == self.spec_name(),
    {
        match self {
            Kdf::Sha512 => "PBKDF2-HMAC-SHA-512",
            Kdf::Sha256 => "PBKDF2-HMAC-SHA-256",
            Kdf::Ripemd160 => "PBKDF2-HMAC-RIPEMD-160",
            Kdf::Whirlpool => "PBKDF2-HMAC-Whirlpool",
            Kdf::Streebog512 => "PBKDF2-HMAC-Streebog-512",
        }
    }

    /// How many rounds of PBKDF2 this function makes.
    pub fn rounds(self) -> (rounds: u32)
        ensures
            rounds == self.spec_rounds(),
    {
        match self {
            Kdf::Sha512 => ITER_SHA512,
            Kdf::Sha256 => ITER_SHA256,
            Kdf::Ripemd160 => ITER_RIPEMD160,
            Kdf::Whirlpool => ITER_WHIRLPOOL,
            Kdf::Streebog512 => ITER_STREEBOG,
        }
    }

    /// Derive a key with a number of rounds of one's own.
    pub fn derive(self, password: &[u8], salt: &[u8], rounds: u32) -> (key: [u8; 64])
        ensures
            key@ == self.derived(password@, salt@, rounds),
    {
        match self {
            Kdf::Sha512 => derive_sha512(password, salt, rounds),
            Kdf::Sha256 => derive_sha256(password, salt, rounds),
            Kdf::Ripemd160 => derive_ripemd160(password, salt, rounds),
            Kdf::Whirlpool => derive_whirlpool(password, salt, rounds),
            Kdf::Streebog512 => derive_streebog512(password, salt, rounds),
        }
    }
}

/// Derive the header key from the password and the salt of the container.
pub fn derive_key(password: &[u8], salt: &[u8], kdf: Kdf) -> (key: [u8; 64])
    ensures
        key@ == kdf.header_key(password@, salt@),
{
    kdf.derive(password, salt, kdf.rounds())
}

} // verus!
