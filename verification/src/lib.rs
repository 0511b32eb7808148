//! Reading VeraCrypt containers.
//!
//! [`veracrypt::Volume`] unlocks the header of a container and turns its data area into
//! a seekable block device, with the cryptography in [`crypto`]. The module [`fs`] sits
//! on top of that block device: it recognises the filesystem that it holds and decides
//! how an exFAT or NTFS volume is listed and searched. The module [`tui`] makes a tree
//! of what was listed and lets the user browse it and extract from it.
//!
//! The library does no input or output of its own. Where bytes have to be fetched or
//! a terminal is to be read, it says what it needs and is handed the answer.

pub mod bytes;
pub mod crypto;
pub mod failure;
pub mod format;
pub mod fs;
pub mod path;
pub mod text;
pub mod tui;
pub mod veracrypt;
