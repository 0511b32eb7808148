//! Boot sectors, and walks and searches through directories.

use vc_reader::failure::{not_found, to_io, Failure, FailureKind};
use vc_reader::fs::exfat;
use vc_reader::fs::ntfs;
use vc_reader::fs::{detect, open, Backend, Entry, FsKind};

fn sector(offset: usize, name: &[u8]) -> [u8; 512] {
    let mut sector = [0u8; 512];
    sector[offset..offset + name.len()].copy_from_slice(name);
    sector
}

#[test]
fn boot_sectors_are_recognised() {
    assert_eq!(detect(&sector(3, b"EXFAT   ")), FsKind::Exfat);
    assert_eq!(detect(&sector(3, b"NTFS    ")), FsKind::Ntfs);
    assert_eq!(detect(&sector(82, b"FAT32   ")), FsKind::Fat32);
    assert_eq!(detect(&sector(54, b"FAT16   ")), FsKind::Fat16);
    assert_eq!(detect(&sector(54, b"FAT12   ")), FsKind::Fat12);
    assert_eq!(detect(&sector(3, b"NTFS   ")), FsKind::Unknown);
    assert_eq!(detect(&sector(4, b"NTFS    ")), FsKind::Unknown);
    assert_eq!(detect(&[0; 512]), FsKind::Unknown);
    // The OEM name goes before the type of a FAT.
    let mut both = sector(3, b"NTFS    ");
    both[82..90].copy_from_slice(b"FAT32   ");
    assert_eq!(detect(&both), FsKind::Ntfs);
}

#[test]
fn backends_are_chosen() {
    assert_eq!(open(FsKind::Exfat).unwrap(), Backend::Exfat);
    assert_eq!(open(FsKind::Ntfs).unwrap(), Backend::Ntfs);
    let kinds = [
        (FsKind::Exfat, "exFAT"),
        (FsKind::Ntfs, "NTFS"),
        (FsKind::Fat32, "FAT32"),
        (FsKind::Fat16, "FAT16"),
        (FsKind::Fat12, "FAT12"),
        (FsKind::Unknown, "unknown"),
    ];
    for (kind, name) in kinds {
        assert_eq!(kind.name(), name);
        assert_eq!(kind.is_supported(), open(kind).is_ok());
        if let Err(refused) = open(kind) {
            assert_eq!(refused.kind, FailureKind::Unsupported);
            assert_eq!(refused.message, format!("unsupported filesystem: {name}"));
        }
    }
}

#[test]
fn failures_are_told() {
    let other = to_io("bad cluster");
    assert_eq!((other.kind, other.message.as_str()), (FailureKind::Other, "bad cluster"));
    let missing = not_found("a/b");
    assert_eq!(missing.kind, FailureKind::NotFound);
    assert_eq!(missing.message, "path not found in volume: a/b");
    let missing = exfat::file_not_found();
    assert_eq!(missing.kind, FailureKind::NotFound);
    assert_eq!(missing.message, "file not found in volume");
    let refused = Failure::new(FailureKind::InvalidInput, "no");
    assert_eq!((refused.kind, refused.message.as_str()), (FailureKind::InvalidInput, "no"));
}

fn shown(entries: &[Entry]) -> Vec<(String, u64, bool)> {
    entries.iter().map(|e| (e.path.clone(), e.size, e.is_dir)).collect()
}

fn row(path: &str, size: u64, is_dir: bool) -> (String, u64, bool) {
    (path.to_string(), size, is_dir)
}

// --- exFAT ---

enum Item {
    File(&'static str, u64),
    /// A directory; without items, one that is not open.
    Directory(&'static str, Result<Vec<Item>, exfat::Opening>),
}

fn opening(below: &Result<Vec<Item>, exfat::Opening>) -> exfat::Opening {
    match below {
        Ok(_) => exfat::Opening::Opened,
        Err(opening) => *opening,
    }
}

fn exfat_volume() -> Vec<Item> {
    vec![
        Item::File("a.txt", 3),
        Item::Directory(
            "sub",
            Ok(vec![
                Item::Directory("inner", Ok(vec![Item::File("deep.bin", 70_000)])),
                Item::File("a.txt", 5),
            ]),
        ),
        Item::Directory("void", Ok(vec![])),
        Item::Directory("vacant", Err(exfat::Opening::NoClusters)),
        Item::File("z", 0),
    ]
}

fn exfat_walk(items: &[Item], walk: &mut exfat::Walk) -> Result<(), String> {
    for item in items {
        match item {
            Item::File(name, length) => {
                let action = walk.step(exfat::Event::File(name.to_string(), *length));
                assert_eq!(action, exfat::Action::NextItem);
            }
            Item::Directory(name, below) => {
                let action = walk.step(exfat::Event::Directory(name.to_string()));
                assert_eq!(action, exfat::Action::OpenDirectory);
                let action = walk.step(exfat::Event::Opened(opening(below)));
                match below {
                    Ok(below) => {
                        assert_eq!(action, exfat::Action::EnterDirectory);
                        exfat_walk(below, walk)?;
                    }
                    Err(exfat::Opening::NoClusters) => {
                        assert_eq!(action, exfat::Action::NextItem);
                    }
                    Err(_) => {
                        assert_eq!(action, exfat::Action::GiveUp);
                        return Err("barred".to_string());
                    }
                }
            }
        }
    }
    assert_eq!(walk.step(exfat::Event::End), exfat::Action::LeaveDirectory);
    Ok(())
}

fn exfat_find(items: &[Item], search: &mut exfat::Search) -> Result<u64, String> {
    for item in items {
        match item {
            Item::File(name, length) => {
                match search.step(exfat::Event::File(name.to_string(), *length)) {
                    exfat::Action::CopyFile => return Ok(*length),
                    action => assert_eq!(action, exfat::Action::NextItem),
                }
            }
            Item::Directory(name, below) => {
                match search.step(exfat::Event::Directory(name.to_string())) {
                    exfat::Action::OpenDirectory => {
                        let action = search.step(exfat::Event::Opened(opening(below)));
                        let Ok(below) = below else {
                            assert_eq!(action, exfat::Action::GiveUp);
                            return Err("barred".to_string());
                        };
                        assert_eq!(action, exfat::Action::EnterDirectory);
                        return exfat_find(below, search);
                    }
                    action => assert_eq!(action, exfat::Action::NextItem),
                }
            }
        }
    }
    assert_eq!(search.step(exfat::Event::End), exfat::Action::NotFound);
    Err(exfat::file_not_found().message)
}

#[test]
fn exfat_listing() {
    let mut walk = exfat::Walk::new();
    assert!(!walk.is_done());
    exfat_walk(&exfat_volume(), &mut walk).unwrap();
    assert!(walk.is_done());
    assert_eq!(
        shown(&walk.into_entries()),
        vec![
            row("a.txt", 3, false),
            row("sub", 0, true),
            row("sub/inner", 0, true),
            row("sub/inner/deep.bin", 70_000, false),
            row("sub/a.txt", 5, false),
            row("void", 0, true),
            row("vacant", 0, true),
            row("z", 0, false),
        ]
    );
}

#[test]
fn exfat_listed_files_are_found() {
    let volume = exfat_volume();
    let mut walk = exfat::Walk::new();
    exfat_walk(&volume, &mut walk).unwrap();
    for entry in walk.into_entries() {
        assert!(!entry.path.starts_with('/'));
        let found = exfat_find(&volume, &mut exfat::Search::new(&entry.path));
        if entry.is_dir {
            assert_eq!(found, Err("file not found in volume".to_string()), "{}", entry.path);
        } else {
            assert_eq!(found, Ok(entry.size), "{}", entry.path);
        }
    }
}

#[test]
fn exfat_wrong_paths() {
    let volume = exfat_volume();
    for path in ["", "nope", "sub/nope", "a.txt/x", "sub/", "/a.txt", "sub//a.txt", "A.TXT"] {
        let found = exfat_find(&volume, &mut exfat::Search::new(path));
        assert_eq!(found, Err("file not found in volume".to_string()), "{path}");
    }
    // A slash at the end is no part of the way.
    assert_eq!(exfat_find(&volume, &mut exfat::Search::new("a.txt/")), Ok(3));
}

#[test]
fn exfat_barred_directories() {
    let volume = vec![
        Item::File("a.txt", 3),
        Item::Directory(
            "sub",
            Ok(vec![
                Item::Directory("vacant", Err(exfat::Opening::NoClusters)),
                Item::Directory("barred", Err(exfat::Opening::Failed)),
            ]),
        ),
        Item::File("z", 0),
    ];
    // A listing without what lies in the directory would not be whole.
    let mut walk = exfat::Walk::new();
    assert_eq!(exfat_walk(&volume, &mut walk), Err("barred".to_string()));
    assert!(!walk.is_done());
    // A search is stopped only by what is on its way.
    let found = |path: &str| exfat_find(&volume, &mut exfat::Search::new(path));
    assert_eq!(found("sub/barred/x"), Err("barred".to_string()));
    assert_eq!(found("sub/vacant/x"), Err("barred".to_string()));
    assert_eq!(found("sub/x"), Err("file not found in volume".to_string()));
    assert_eq!(found("z"), Ok(0));
}

#[test]
fn exfat_listing_runs() {
    let mut walk = exfat::Walk::new();
    exfat_walk(&exfat_volume(), &mut walk).unwrap();
    check_runs(&walk.into_entries());
}

/// What lies below a directory is one run right behind it, no path comes twice, and a
/// parent comes before its children.
fn check_runs(entries: &[Entry]) {
    for (i, dir) in entries.iter().enumerate() {
        let below = format!("{}/", dir.path);
        let run = entries[i + 1..].iter().take_while(|e| e.path.starts_with(&below)).count();
        let all = entries.iter().filter(|e| e.path.starts_with(&below)).count();
        assert_eq!(run, all, "{}", dir.path);
        assert_eq!(entries.iter().filter(|e| e.path == dir.path).count(), 1);
        if let Some((parent, _)) = dir.path.rsplit_once('/') {
            assert!(entries[..i].iter().any(|e| e.is_dir && e.path == parent));
        }
    }
}

// --- NTFS ---

enum IndexItem {
    Unnamed,
    File(ntfs::Namespace, &'static str, u64, Option<u64>),
    Directory(ntfs::Namespace, &'static str, u64, Vec<IndexItem>),
}

fn ntfs_volume() -> Vec<IndexItem> {
    vec![
        IndexItem::File(ntfs::Namespace::Win32AndDos, "$MFT", 0, Some(1 << 20)),
        IndexItem::Directory(ntfs::Namespace::Win32AndDos, ".", 5, vec![]),
        IndexItem::Directory(
            ntfs::Namespace::Win32AndDos,
            "$Extend",
            11,
            vec![IndexItem::File(ntfs::Namespace::Win32, "inside", 30, Some(1))],
        ),
        IndexItem::Unnamed,
        IndexItem::File(ntfs::Namespace::Dos, "LONGFI~1.TXT", 40, Some(9)),
        IndexItem::File(ntfs::Namespace::Win32, "long file.txt", 40, Some(9)),
        IndexItem::File(ntfs::Namespace::Win32, "$notes.txt", 24, Some(4)),
        IndexItem::File(ntfs::Namespace::Win32, "$last.txt", 23, Some(4)),
        IndexItem::Directory(
            ntfs::Namespace::Posix,
            "sub",
            41,
            vec![
                IndexItem::File(ntfs::Namespace::Posix, ".hidden", 42, None),
                IndexItem::File(ntfs::Namespace::Posix, "a$b", 7, Some(2)),
                IndexItem::File(ntfs::Namespace::Posix, "$", 43, Some(1)),
            ],
        ),
    ]
}

fn ntfs_key(item: &IndexItem) -> ntfs::Event {
    match item {
        IndexItem::Unnamed => ntfs::Event::Key(None),
        IndexItem::File(namespace, _, _, _) => ntfs::Event::Key(Some(*namespace)),
        IndexItem::Directory(namespace, _, _, _) => ntfs::Event::Key(Some(*namespace)),
    }
}

fn ntfs_name(item: &IndexItem) -> ntfs::Event {
    match item {
        IndexItem::Unnamed => panic!("an entry without a name"),
        IndexItem::File(_, name, record, _) => ntfs::Event::Name(name.to_string(), *record),
        IndexItem::Directory(_, name, record, _) => ntfs::Event::Name(name.to_string(), *record),
    }
}

fn ntfs_walk(items: &[IndexItem], walk: &mut ntfs::Walk) {
    for item in items {
        let mut action = walk.step(ntfs_key(item));
        if action == ntfs::Action::ReadName {
            action = walk.step(ntfs_name(item));
        }
        if action == ntfs::Action::OpenFile {
            match item {
                IndexItem::Directory(_, _, _, below) => {
                    let action = walk.step(ntfs::Event::Opened(true));
                    assert_eq!(action, ntfs::Action::EnterDirectory);
                    ntfs_walk(below, walk);
                    continue;
                }
                IndexItem::File(_, _, _, length) => {
                    let action = walk.step(ntfs::Event::Opened(false));
                    assert_eq!(action, ntfs::Action::MeasureData);
                    let action = walk.step(ntfs::Event::Length(*length));
                    assert_eq!(action, ntfs::Action::NextEntry);
                    continue;
                }
                IndexItem::Unnamed => panic!("an entry without a name"),
            }
        }
        assert_eq!(action, ntfs::Action::NextEntry);
    }
    assert_eq!(walk.step(ntfs::Event::End), ntfs::Action::LeaveDirectory);
}

/// The length of the file that is found, and whether it is a directory.
fn ntfs_find(items: &[IndexItem], search: &mut ntfs::Search) -> Option<(u64, bool)> {
    for item in items {
        if search.step(ntfs_key(item)) != ntfs::Action::ReadName {
            continue;
        }
        if search.step(ntfs_name(item)) != ntfs::Action::OpenFile {
            continue;
        }
        let is_dir = matches!(item, IndexItem::Directory(_, _, _, _));
        return match (search.step(ntfs::Event::Opened(is_dir)), item) {
            (ntfs::Action::ReadData, IndexItem::File(_, _, _, length)) => {
                Some((length.unwrap_or(0), false))
            }
            (ntfs::Action::ReadData, _) => Some((0, true)),
            (ntfs::Action::EnterDirectory, IndexItem::Directory(_, _, _, below)) => {
                ntfs_find(below, search)
            }
            (action, _) => {
                assert_eq!(action, ntfs::Action::NotFound);
                None
            }
        };
    }
    assert_eq!(search.step(ntfs::Event::End), ntfs::Action::NotFound);
    None
}

#[test]
fn ntfs_listing() {
    let mut walk = ntfs::Walk::new();
    assert!(!walk.is_done());
    ntfs_walk(&ntfs_volume(), &mut walk);
    assert!(walk.is_done());
    assert_eq!(
        shown(&walk.into_entries()),
        vec![
            row("long file.txt", 9, false),
            row("$notes.txt", 4, false),
            row("sub", 0, true),
            row("sub/.hidden", 0, false),
            row("sub/a$b", 2, false),
            row("sub/$", 1, false),
        ]
    );
}

#[test]
fn ntfs_listed_paths_are_found() {
    let volume = ntfs_volume();
    let mut walk = ntfs::Walk::new();
    ntfs_walk(&volume, &mut walk);
    for entry in walk.into_entries() {
        assert!(!entry.path.starts_with('/'));
        let found = ntfs_find(&volume, &mut ntfs::Search::new(&entry.path));
        assert_eq!(found, Some((entry.size, entry.is_dir)), "{}", entry.path);
    }
}

#[test]
fn ntfs_listing_runs() {
    let mut walk = ntfs::Walk::new();
    ntfs_walk(&ntfs_volume(), &mut walk);
    check_runs(&walk.into_entries());
}

#[test]
fn ntfs_unlisted_paths() {
    let volume = ntfs_volume();
    // What is hidden from listings can be asked for by name.
    assert_eq!(ntfs_find(&volume, &mut ntfs::Search::new("$MFT")), Some((1 << 20, false)));
    assert_eq!(ntfs_find(&volume, &mut ntfs::Search::new("$Extend/inside")), Some((1, false)));
    assert_eq!(ntfs_find(&volume, &mut ntfs::Search::new(".")), Some((0, true)));
    for path in ["", "LONGFI~1.TXT", "sub/", "sub/nope", "long file.txt/x", "/sub", "SUB"] {
        assert_eq!(ntfs_find(&volume, &mut ntfs::Search::new(path)), None, "{path}");
    }
}

#[test]
fn empty_volumes() {
    let mut walk = ntfs::Walk::new();
    ntfs_walk(&[], &mut walk);
    assert!(walk.is_done());
    assert!(walk.into_entries().is_empty());
    let mut walk = exfat::Walk::new();
    exfat_walk(&[], &mut walk).unwrap();
    assert!(walk.into_entries().is_empty());
    assert_eq!(ntfs_find(&[], &mut ntfs::Search::new("a")), None);
    assert!(exfat_find(&[], &mut exfat::Search::new("a")).is_err());
}
