//! The filesystem layer: which filesystem a decrypted volume holds, and how it is
//! listed and searched.
//!
//! The bytes of a filesystem are taken apart by a backend of the caller's. The
//! modules [`exfat`] and [`ntfs`] decide what a backend does with what it finds:
//! they are told one thing after the other and answer what to look at next.

pub mod exfat;
pub mod exfat_laws;
pub mod ntfs;
pub mod ntfs_laws;

use crate::bytes::starts_at;
use crate::failure::{Failure, FailureKind};
use crate::text::concat;
use vstd::prelude::*;

verus! {

broadcast use vstd::string::group_string_axioms;

/// A single file or directory discovered while listing a filesystem.
#[derive(Debug, Clone)]
pub struct Entry {
    /// Slash-separated path from the volume root (no leading slash).
    pub path: String,
    /// Size in bytes; `0` for directories.
    pub size: u64,
    /// Whether this entry is a directory.
    pub is_dir: bool,
}

/// An entry, as contracts speak of it.
pub struct EntryView {
    pub path: Seq<char>,
    pub size: u64,
    pub is_dir: bool,
}

impl View for Entry {
    type V = EntryView;

    open spec fn view(&self) -> EntryView {
        EntryView { path: self.path@, size: self.size, is_dir: self.is_dir }
    }
}

/// What a list of entries holds.
pub open spec fn entry_views(entries: Seq<Entry>) -> Seq<EntryView> {
    Seq::new(entries.len(), |i: int| entries[i]@)
}

/// Where the contents of a file go.
pub trait Sink {
    /// Take the next bytes.
    fn write_all(&mut self, bytes: &[u8]) -> Result<(), Failure>;
}

/// A browsable filesystem backed by a decrypted volume.
pub trait Filesystem {
    /// The volume label, if the filesystem records one.
    fn label(&mut self) -> Option<String>;

    /// Every file and directory in the volume, in depth-first order.
    fn list(&mut self) -> Result<Vec<Entry>, Failure>;

    /// Stream the contents of the file at `path` into `out`.
    fn extract<W: Sink>(&mut self, path: &str, out: &mut W) -> Result<(), Failure>;
}

/// A filesystem we can recognise from the boot sector.
#[derive(Debug, Clone, Copy, PartialEq, Eq, Structural)]
pub enum FsKind {
    Exfat,
    Ntfs,
    Fat32,
    Fat16,
    Fat12,
    Unknown,
}

/// A filesystem that can be browsed.
#[derive(Debug, Clone, Copy, PartialEq, Eq, Structural)]
pub enum Backend {
    Exfat,
    Ntfs,
}

impl FsKind {
    /// Human-readable name, as printed to the user.
    pub open spec fn spec_name(self) -> Seq<char> {
        match self {
            FsKind::Exfat => "exFAT"@,
            FsKind::Ntfs => "NTFS"@,
            FsKind::Fat32 => "FAT32"@,
            FsKind::Fat16 => "FAT16"@,
            FsKind::Fat12 => "FAT12"@,
            FsKind::Unknown => "unknown"@,
        }
    }

    /// Human-readable name, as printed to the user.
    pub fn name(self) -> (name: &'static str)
        ensures
            name@ == self.spec_name(),
    {
        match self {
            FsKind::Exfat => "exFAT",
            FsKind::Ntfs => "NTFS",
            FsKind::Fat32 => "FAT32",
            FsKind::Fat16 => "FAT16",
            FsKind::Fat12 => "FAT12",
            FsKind::Unknown => "unknown",
        }
    }

    /// Whether [`open`] has a backend for this filesystem.
    pub open spec fn has_backend(self) -> bool {
        self is Exfat || self is Ntfs
    }

    /// Whether [`open`] has a backend for this filesystem.
    pub fn is_supported(self) -> (supported: bool)
        ensures
            supported == self.has_backend(),
    {
        match self {
            FsKind::Exfat => true,
            FsKind::Ntfs => true,
            _ => false,
        }
    }
}

/// `EXFAT` and three spaces.
pub open spec fn exfat_name() -> Seq<u8> {
    seq![0x45u8, 0x58, 0x46, 0x41, 0x54, 0x20, 0x20, 0x20]
}

/// `NTFS` and four spaces.
pub open spec fn ntfs_name() -> Seq<u8> {
    seq![0x4eu8, 0x54, 0x46, 0x53, 0x20, 0x20, 0x20, 0x20]
}

/// `FAT32` and three spaces.
pub open spec fn fat32_name() -> Seq<u8> {
    seq![0x46u8, 0x41, 0x54, 0x33, 0x32, 0x20, 0x20, 0x20]
}

/// `FAT16` and three spaces.
pub open spec fn fat16_name() -> Seq<u8> {
    seq![0x46u8, 0x41, 0x54, 0x31, 0x36, 0x20, 0x20, 0x20]
}

/// `FAT12` and three spaces.
pub open spec fn fat12_name() -> Seq<u8> {
    seq![0x46u8, 0x41, 0x54, 0x31, 0x32, 0x20, 0x20, 0x20]
}

/// The filesystem that a boot sector belongs to. exFAT and NTFS carry their name at
/// offset 3, the FAT variants carry theirs at offsets of their own.
pub open spec fn kind_of(sector: Seq<u8>) -> FsKind {
    if sector.subrange(3, 11) == exfat_name() {
        FsKind::Exfat
    } else if sector.subrange(3, 11) == ntfs_name() {
        FsKind::Ntfs
    } else if sector.subrange(82, 90) == fat32_name() {
        FsKind::Fat32
    } else if sector.subrange(54, 62) == fat16_name() {
        FsKind::Fat16
    } else if sector.subrange(54, 62) == fat12_name() {
        FsKind::Fat12
    } else {
        FsKind::Unknown
    }
}

/// Identify the filesystem by inspecting the volume's first sector.
pub fn detect(sector: &[u8; 512]) -> (kind: FsKind)
    ensures
        kind == kind_of(sector@),
{
    let exfat: [u8; 8] = [0x45u8, 0x58, 0x46, 0x41, 0x54, 0x20, 0x20, 0x20];
    let ntfs: [u8; 8] = [0x4eu8, 0x54, 0x46, 0x53, 0x20, 0x20, 0x20, 0x20];
    let fat32: [u8; 8] = [0x46u8, 0x41, 0x54, 0x33, 0x32, 0x20, 0x20, 0x20];
    let fat16: [u8; 8] = [0x46u8, 0x41, 0x54, 0x31, 0x36, 0x20, 0x20, 0x20];
    let fat12: [u8; 8] = [0x46u8, 0x41, 0x54, 0x31, 0x32, 0x20, 0x20, 0x20];
    assert(exfat@ =~= exfat_name());
    assert(ntfs@ =~= ntfs_name());
    assert(fat32@ =~= fat32_name());
    assert(fat16@ =~= fat16_name());
    assert(fat12@ =~= fat12_name());
    if starts_at(sector, 3, &exfat) {
        FsKind::Exfat
    } else if starts_at(sector, 3, &ntfs) {
        FsKind::Ntfs
    } else if starts_at(sector, 82, &fat32) {
        FsKind::Fat32
    } else if starts_at(sector, 54, &fat16) {
        FsKind::Fat16
    } else if starts_at(sector, 54, &fat12) {
        FsKind::Fat12
    } else {
        FsKind::Unknown
    }
}

/// Choose the backend for an already detected filesystem.
pub fn open(kind: FsKind) -> (backend: Result<Backend, Failure>)
    ensures
        backend is Ok <==> kind.has_backend(),
        match kind {
            FsKind::Exfat => backend == Ok::<Backend, Failure>(Backend::Exfat),
            FsKind::Ntfs => backend == Ok::<Backend, Failure>(Backend::Ntfs),
            _ => backend matches Err(e) && e.says(
                FailureKind::Unsupported,
                "unsupported filesystem: "@ + kind.spec_name(),
            ),
        },
{
    match kind {
        FsKind::Exfat => Ok(Backend::Exfat),
        FsKind::Ntfs => Ok(Backend::Ntfs),
        unsupported => Err(
            Failure {
                kind: FailureKind::Unsupported,
                message: concat("unsupported filesystem: ", unsupported.name()),
            },
        ),
    }
}

} // verus!
