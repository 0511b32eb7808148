//! The cryptography that a container is locked with: key derivation, AES-256 in
//! XTS mode and the header checksum.
//!
//! The primitives come from the RustCrypto crates and from `crc32fast`; the
//! items of [`primitives`] say what is taken from them on trust.

pub mod gf128;
pub mod kdf;
pub mod primitives;
pub mod xts;
