//! A whole container: unlocked by its password, read block by block, recognised,
//! listed and searched. The container is put together in memory: an NTFS volume with
//! the tree
//!
//! ```text
//! root_file.txt              (file, > 32 bytes)
//! empty_file.txt             (empty file)
//! empty_dir/                 (empty directory)
//! dir_a/
//!   inside_a.txt             (file, > 32 bytes)
//!   empty_inside.txt         (empty file)
//!   dir_b/
//!     deep.txt               (file, > 32 bytes)
//! ```
//!
//! and a file `$notes.txt`, encrypted under a header that the password `1` opens.

use std::collections::BTreeMap;
use std::io::{self, ErrorKind, Read, Seek};

use aes::cipher::generic_array::GenericArray;
use aes::cipher::{BlockEncrypt, KeyInit};
use aes::Aes256;
use ntfs::structured_values::NtfsFileNamespace;
use ntfs::{Ntfs, NtfsFile, NtfsReadSeek};

use vc_reader::failure::{not_found, to_io, Failure, FailureKind};
use vc_reader::fs::ntfs::{Action, Event, Namespace, Search, Walk};
use vc_reader::fs::{detect, open, Backend, Entry, Filesystem, FsKind, Sink};
use vc_reader::veracrypt::{SeekFrom, Volume, VolumeError};

/// What each file that is not empty holds, but for a newline at its end.
const BIG: &str = "The quick brown fox jumps over the lazy dog 0123456789.";

fn big_contents() -> Vec<u8> {
    format!("{BIG}\n").into_bytes()
}

#[test]
fn ntfs_container() {
    check_container(container(), b"1");
}

#[test]
fn wrong_password_is_refused() {
    let container = container();
    let mut header = [0u8; 512];
    header.copy_from_slice(&container[..512]);
    // A key that the password does not give: one bit off.
    let mut key = header_key();
    key[0] ^= 1;
    assert!(Volume::unlock(&header, vc_reader::crypto::kdf::Kdf::Sha512, &key).is_none());
    assert!(Volume::unlock(&header, vc_reader::crypto::kdf::Kdf::Sha512, &header_key()).is_some());
    assert_eq!(
        VolumeError::DecryptionFailed.message(),
        "header decryption failed with all KDFs (AES-256 only)"
    );
}

#[test]
fn header_fields_are_read() {
    let container = container();
    let mut header = [0u8; 512];
    header.copy_from_slice(&container[..512]);
    let volume = Volume::unlock(&header, vc_reader::crypto::kdf::Kdf::Sha512, &header_key())
        .expect("header should unlock");
    assert_eq!(volume.kdf_name(), "PBKDF2-HMAC-SHA-512");
    assert_eq!(volume.format_version(), 5);
    assert_eq!(volume.volume_size(), IMAGE_SIZE as u64);
    assert_eq!(volume.encrypted_area_offset(), AREA_OFFSET as u64);
    assert_eq!(volume.encrypted_area_size(), IMAGE_SIZE as u64);
    assert_eq!(volume.sector_size(), 512);
    assert_eq!(volume.master_key(), &master_key());
    assert_eq!(volume.num_blocks(), (IMAGE_SIZE / 512) as u64);
    assert_eq!(volume.block_offset(3), (AREA_OFFSET + 3 * 512) as u64);
}

#[test]
fn one_volume_for_a_header() {
    let (one, other) = (mounted().volume, mounted().volume);
    assert_eq!(format!("{one:?}"), format!("{other:?}"));
}

#[test]
fn damaged_header_is_refused() {
    let mut plain = plain_header();
    let kdf = vc_reader::crypto::kdf::Kdf::Whirlpool;
    let volume = vc_reader::veracrypt::parse_header(&plain, kdf).expect("header is sound");
    assert_eq!(volume.kdf_name(), "PBKDF2-HMAC-Whirlpool");
    plain[100] ^= 0x10;
    assert!(vc_reader::veracrypt::parse_header(&plain, kdf).is_none());
    plain[100] ^= 0x10;
    plain[0] = b'v';
    assert!(vc_reader::veracrypt::parse_header(&plain, kdf).is_none());
}

#[test]
fn blocks_decrypt_to_the_image() {
    let image = image();
    let device = mounted();
    for index in [0u64, 1, 7, (IMAGE_SIZE / 512 - 1) as u64] {
        assert!(device.volume.has_offset(index));
        let from = device.volume.block_offset(index) as usize;
        let mut block = [0u8; 512];
        block.copy_from_slice(&device.container[from..from + 512]);
        device.volume.read_block(index, &mut block);
        let at = index as usize * 512;
        assert_eq!(block[..], image[at..at + 512]);
    }
}

#[test]
fn reads_join() {
    let image = image();
    let mut device = mounted();
    // One read over several blocks, from the middle of one to the middle of another.
    device.seek(io::SeekFrom::Start(300)).unwrap();
    let mut whole = vec![0u8; 1500];
    device.read_exact(&mut whole).unwrap();
    assert_eq!(whole[..], image[300..1800]);
    // The same bytes in two reads.
    device.seek(io::SeekFrom::Start(300)).unwrap();
    let mut first = vec![0u8; 333];
    let mut second = vec![0u8; 1167];
    assert_eq!(device.read(&mut first).unwrap(), 333);
    assert_eq!(device.read(&mut second).unwrap(), 1167);
    first.extend(second);
    assert_eq!(first, whole);
    // The end of the data area cuts a read short; past it nothing is read.
    device.seek(io::SeekFrom::End(-10)).unwrap();
    let mut tail = vec![0u8; 64];
    assert_eq!(device.read(&mut tail).unwrap(), 10);
    assert_eq!(tail[..10], image[IMAGE_SIZE - 10..]);
    assert_eq!(device.read(&mut tail).unwrap(), 0);
    device.seek(io::SeekFrom::Current(1000)).unwrap();
    assert_eq!(device.read(&mut tail).unwrap(), 0);
    // What a read does not fill, it leaves alone.
    let mut marked = vec![0x5au8; 64];
    device.seek(io::SeekFrom::End(-20)).unwrap();
    assert_eq!(device.read(&mut marked).unwrap(), 20);
    assert!(marked[20..].iter().all(|&byte| byte == 0x5a));
    // A read of nothing.
    device.seek(io::SeekFrom::Start(5)).unwrap();
    assert_eq!(device.read(&mut []).unwrap(), 0);
    assert_eq!(device.seek(io::SeekFrom::Current(0)).unwrap(), 5);
}

#[test]
fn seeks_move_the_cursor() {
    let mut device = mounted();
    let volume = &mut device.volume;
    assert_eq!(volume.seek(SeekFrom::Start(700)).unwrap(), 700);
    assert_eq!(volume.seek(SeekFrom::Current(-200)).unwrap(), 500);
    assert_eq!(volume.seek(SeekFrom::End(24)).unwrap(), IMAGE_SIZE as u64 + 24);
    assert_eq!(volume.seek(SeekFrom::End(-24)).unwrap(), IMAGE_SIZE as u64 - 24);
    let refused = volume.seek(SeekFrom::End(-(IMAGE_SIZE as i64) - 1)).unwrap_err();
    assert_eq!(refused.kind, FailureKind::InvalidInput);
    assert_eq!(refused.message, "seek before start");
    // A refused seek leaves the cursor alone.
    assert_eq!(volume.seek(SeekFrom::Current(0)).unwrap(), IMAGE_SIZE as u64 - 24);
    // A start beyond the signed range counts as negative.
    assert!(volume.seek(SeekFrom::Start(u64::MAX)).is_err());
    assert!(volume.can_seek(SeekFrom::Start(u64::MAX)));
    assert!(!volume.can_seek(SeekFrom::Current(i64::MAX)));
    assert!(!volume.can_seek(SeekFrom::End(i64::MAX)));
    assert!(volume.can_seek(SeekFrom::End(i64::MIN)));
}

#[test]
fn label_of_the_volume() {
    assert_eq!(mount_known().label(), Some("VC TEST".to_string()));
}

#[test]
fn listing_is_depth_first_and_tidy() {
    let paths: Vec<String> = mount_known().list().unwrap().into_iter().map(|e| e.path).collect();
    assert_eq!(
        paths,
        vec![
            "$notes.txt",
            "dir_a",
            "dir_a/dir_b",
            "dir_a/dir_b/deep.txt",
            "dir_a/empty_inside.txt",
            "dir_a/inside_a.txt",
            "empty_dir",
            "empty_file.txt",
            "root_file.txt",
        ]
    );
}

#[test]
fn listed_files_are_found() {
    let mut volume = mount_known();
    for entry in volume.list().unwrap() {
        let mut out = Bytes(Vec::new());
        volume.extract(&entry.path, &mut out).expect("listed path should be found");
        assert_eq!(out.0.len() as u64, entry.size, "size of {}", entry.path);
    }
}

#[test]
fn hidden_and_wrong_paths() {
    let mut volume = mount_known();
    let mut out = Bytes(Vec::new());
    // Metafiles are not listed, but they can be asked for by name.
    volume.extract("$Label", &mut out).expect("metafile should be found");
    assert_eq!(out.0, b"meta");
    // A name does not make a metafile.
    let mut notes = Bytes(Vec::new());
    volume.extract("$notes.txt", &mut notes).expect("file should be found");
    assert_eq!(notes.0, b"mine");
    // The DOS name of a file does not count.
    let missing = volume.extract("ROOT_F~1.TXT", &mut Bytes(Vec::new())).unwrap_err();
    assert_eq!(missing.kind, FailureKind::NotFound);
    assert_eq!(missing.message, "path not found in volume: ROOT_F~1.TXT");
    // A file is no directory, and an empty component names nothing.
    for path in ["root_file.txt/x", "dir_a/", "/dir_a", "", "dir_a//inside_a.txt"] {
        let missing = volume.extract(path, &mut Bytes(Vec::new())).unwrap_err();
        assert_eq!(missing.kind, FailureKind::NotFound, "{path}");
    }
    // A directory has no data to stream.
    let mut none = Bytes(Vec::new());
    volume.extract("dir_a", &mut none).expect("directory should be found");
    assert!(none.0.is_empty());
}

/// Decrypt and mount the container, and check the tree and what extraction gives.
fn check_container(container: Vec<u8>, password: &[u8]) {
    let mut volume = mount(container, password);
    check_tree(&mut volume);
    check_content_extraction(&mut volume);
    check_empty_extraction(&mut volume);
    check_nested_extraction(&mut volume);
    check_missing_file(&mut volume);
}

/// The directory tree is listed with the right files, directories, and sizes.
fn check_tree(volume: &mut NtfsVolume) {
    let tree: BTreeMap<String, Entry> = volume
        .list()
        .expect("listing should succeed")
        .into_iter()
        .map(|e| (e.path.clone(), e))
        .collect();

    let big_size = big_contents().len() as u64;
    assert!(big_size > 32, "test content must exceed the AES block size");

    let dir = |path: &str| {
        let e = tree.get(path).unwrap_or_else(|| panic!("missing directory {path}"));
        assert!(e.is_dir, "{path} should be a directory");
    };
    let file = |path: &str, size: u64| {
        let e = tree.get(path).unwrap_or_else(|| panic!("missing file {path}"));
        assert!(!e.is_dir, "{path} should be a file");
        assert_eq!(e.size, size, "size of {path}");
    };

    file("root_file.txt", big_size);
    file("empty_file.txt", 0);
    dir("empty_dir");
    dir("dir_a");
    file("dir_a/inside_a.txt", big_size);
    file("dir_a/empty_inside.txt", 0);
    dir("dir_a/dir_b");
    file("dir_a/dir_b/deep.txt", big_size);
}

/// Files with content extract to exactly the bytes that were written.
fn check_content_extraction(volume: &mut NtfsVolume) {
    for path in ["root_file.txt", "dir_a/inside_a.txt", "dir_a/dir_b/deep.txt"] {
        let mut buf = Bytes(Vec::new());
        volume.extract(path, &mut buf).expect("extraction should succeed");
        assert_eq!(buf.0, big_contents(), "contents of {path}");
    }
}

/// Empty files extract to nothing.
fn check_empty_extraction(volume: &mut NtfsVolume) {
    for path in ["empty_file.txt", "dir_a/empty_inside.txt"] {
        let mut buf = Bytes(Vec::new());
        volume.extract(path, &mut buf).expect("extraction should succeed");
        assert!(buf.0.is_empty(), "{path} should extract to nothing");
    }
}

/// Extracting through two directory levels resolves the path correctly.
fn check_nested_extraction(volume: &mut NtfsVolume) {
    let mut buf = Bytes(Vec::new());
    volume
        .extract("dir_a/dir_b/deep.txt", &mut buf)
        .expect("nested extraction should succeed");
    assert_eq!(buf.0, big_contents());
}

/// Extracting a path that does not exist is reported as `NotFound`.
fn check_missing_file(volume: &mut NtfsVolume) {
    let mut buf = Bytes(Vec::new());
    let err = volume
        .extract("dir_a/nope.txt", &mut buf)
        .expect_err("missing file should error");
    assert_eq!(err.kind, FailureKind::NotFound);
}

// --- the volume as a block device ---

/// A container in memory, with its decrypted volume as the reader.
struct Device {
    container: Vec<u8>,
    volume: Volume,
}

impl Read for Device {
    fn read(&mut self, buf: &mut [u8]) -> io::Result<usize> {
        let mut request = self.volume.begin_read(buf.len());
        while let Some(index) = request.next_block() {
            assert!(self.volume.has_offset(index));
            let from = self.volume.block_offset(index) as usize;
            let raw = self
                .container
                .get(from..from + 512)
                .ok_or_else(|| io::Error::from(ErrorKind::UnexpectedEof))?;
            let mut block = [0u8; 512];
            block.copy_from_slice(raw);
            self.volume.take_block(&mut request, &mut block, buf);
        }
        Ok(self.volume.end_read(request))
    }
}

impl Seek for Device {
    fn seek(&mut self, pos: io::SeekFrom) -> io::Result<u64> {
        let pos = match pos {
            io::SeekFrom::Start(n) => SeekFrom::Start(n),
            io::SeekFrom::End(n) => SeekFrom::End(n),
            io::SeekFrom::Current(n) => SeekFrom::Current(n),
        };
        assert!(self.volume.can_seek(pos));
        self.volume.seek(pos).map_err(|e| io::Error::new(ErrorKind::InvalidInput, e.message))
    }
}

// --- the NTFS backend ---

struct Bytes(Vec<u8>);

impl Sink for Bytes {
    fn write_all(&mut self, bytes: &[u8]) -> Result<(), Failure> {
        self.0.extend_from_slice(bytes);
        Ok(())
    }
}

struct NtfsVolume {
    device: Device,
    ntfs: Ntfs,
}

fn failed(e: ntfs::NtfsError) -> Failure {
    to_io(&e.to_string())
}

impl Filesystem for NtfsVolume {
    fn label(&mut self) -> Option<String> {
        let name = self.ntfs.volume_name(&mut self.device)?.ok()?;
        name.name().to_string().ok()
    }

    fn list(&mut self) -> Result<Vec<Entry>, Failure> {
        let root = self.ntfs.root_directory(&mut self.device).map_err(failed)?;
        let mut walk = Walk::new();
        walk_directory(&self.ntfs, &mut self.device, &root, &mut walk)?;
        assert!(walk.is_done());
        Ok(walk.into_entries())
    }

    fn extract<W: Sink>(&mut self, path: &str, out: &mut W) -> Result<(), Failure> {
        let file = find(&self.ntfs, &mut self.device, path)?;
        let Some(item) = file.data(&mut self.device, "") else { return Ok(()) };
        let item = item.map_err(failed)?;
        let attribute = item.to_attribute().map_err(failed)?;
        let mut value = attribute.value(&mut self.device).map_err(failed)?;
        let mut buf = [0u8; 48];
        loop {
            let read = value.read(&mut self.device, &mut buf).map_err(failed)?;
            if read == 0 {
                return Ok(());
            }
            out.write_all(&buf[..read])?;
        }
    }
}

fn namespace(namespace: NtfsFileNamespace) -> Namespace {
    match namespace {
        NtfsFileNamespace::Posix => Namespace::Posix,
        NtfsFileNamespace::Win32 => Namespace::Win32,
        NtfsFileNamespace::Dos => Namespace::Dos,
        NtfsFileNamespace::Win32AndDos => Namespace::Win32AndDos,
    }
}

fn walk_directory(
    ntfs: &Ntfs,
    fs: &mut Device,
    dir: &NtfsFile<'_>,
    walk: &mut Walk,
) -> Result<(), Failure> {
    let index = dir.directory_index(fs).map_err(failed)?;
    let mut entries = index.entries();
    while let Some(entry) = entries.next(fs) {
        let entry = entry.map_err(failed)?;
        let key = entry.key().map(|key| key.expect("key should parse"));
        let mut action = walk.step(Event::Key(key.as_ref().map(|key| namespace(key.namespace()))));
        if action == Action::ReadName {
            let name = key.unwrap().name().to_string().expect("name should be UTF-16");
            let record = entry.file_reference().file_record_number();
            action = walk.step(Event::Name(name, record));
        }
        if action == Action::OpenFile {
            let file = entry.to_file(ntfs, fs).map_err(failed)?;
            action = walk.step(Event::Opened(file.is_directory()));
            if action == Action::EnterDirectory {
                walk_directory(ntfs, fs, &file, walk)?;
                continue;
            }
            assert_eq!(action, Action::MeasureData);
            let length = file.data(fs, "").map(|item| {
                item.unwrap().to_attribute().unwrap().value_length()
            });
            action = walk.step(Event::Length(length));
        }
        assert_eq!(action, Action::NextEntry);
    }
    assert_eq!(walk.step(Event::End), Action::LeaveDirectory);
    Ok(())
}

fn find<'n>(ntfs: &'n Ntfs, fs: &mut Device, path: &str) -> Result<NtfsFile<'n>, Failure> {
    let mut search = Search::new(path);
    let mut current = ntfs.root_directory(fs).map_err(failed)?;
    loop {
        let child = {
            let index = current.directory_index(fs).map_err(failed)?;
            let mut entries = index.entries();
            loop {
                let Some(entry) = entries.next(fs) else {
                    assert_eq!(search.step(Event::End), Action::NotFound);
                    return Err(not_found(path));
                };
                let entry = entry.map_err(failed)?;
                let key = entry.key().map(|key| key.expect("key should parse"));
                let step = Event::Key(key.as_ref().map(|key| namespace(key.namespace())));
                if search.step(step) != Action::ReadName {
                    continue;
                }
                let name = key.unwrap().name().to_string().expect("name should be UTF-16");
                let record = entry.file_reference().file_record_number();
                if search.step(Event::Name(name, record)) != Action::OpenFile {
                    continue;
                }
                let file = entry.to_file(ntfs, fs).map_err(failed)?;
                match search.step(Event::Opened(file.is_directory())) {
                    Action::EnterDirectory => break file,
                    Action::ReadData => return Ok(file),
                    _ => return Err(not_found(path)),
                }
            }
        };
        current = child;
    }
}

/// Decrypt the container and mount the filesystem that it holds.
fn mount(container: Vec<u8>, password: &[u8]) -> NtfsVolume {
    let mut header = [0u8; 512];
    header.copy_from_slice(&container[..512]);
    let volume = Volume::open(&header, password).expect("container should decrypt");
    mount_device(Device { container, volume })
}

/// Mount the container by its key, which saves the derivation.
fn mount_known() -> NtfsVolume {
    mount_device(mounted())
}

fn mounted() -> Device {
    let container = container();
    let mut header = [0u8; 512];
    header.copy_from_slice(&container[..512]);
    let volume = Volume::unlock(&header, vc_reader::crypto::kdf::Kdf::Sha512, &header_key())
        .expect("header should unlock");
    Device { container, volume }
}

fn mount_device(mut device: Device) -> NtfsVolume {
    let mut sector = [0u8; 512];
    device.read_exact(&mut sector).unwrap();
    let kind = detect(&sector);
    assert!(kind.is_supported(), "unsupported filesystem: {}", kind.name());
    assert_eq!(kind, FsKind::Ntfs);
    assert_eq!(open(kind).unwrap(), Backend::Ntfs);
    let ntfs = Ntfs::new(&mut device).expect("filesystem should mount");
    NtfsVolume { device, ntfs }
}

// --- the making of the container ---

/// Where the data area starts in the container.
const AREA_OFFSET: usize = 0x20000;

/// Bytes of the volume: the boot cluster, the file records and one cluster of data.
const IMAGE_SIZE: usize = (1 + RECORDS + 1) * CLUSTER;

const CLUSTER: usize = 4096;
const RECORDS: usize = 25;

fn salt() -> [u8; 64] {
    let mut salt = [0u8; 64];
    for (i, byte) in salt.iter_mut().enumerate() {
        *byte = (i * 7 + 3) as u8;
    }
    salt
}

/// PBKDF2-HMAC-SHA-512 of the password `1` and the salt, 500000 rounds.
fn header_key() -> [u8; 64] {
    [
        0x33, 0x2a, 0x01, 0x0b, 0xcd, 0x17, 0x16, 0xb8, 0x89, 0x20, 0x0c, 0x08, 0xc4, 0x3e, 0x36,
        0x87, 0xa3, 0x76, 0xbb, 0x0d, 0x91, 0x49, 0x97, 0xf9, 0xa6, 0x7d, 0xc7, 0x38, 0xf8, 0x1f,
        0x58, 0x75, 0x3b, 0xb3, 0x28, 0xc0, 0xe3, 0x62, 0x1e, 0x41, 0x92, 0xec, 0x5e, 0xb6, 0xe5,
        0x10, 0x61, 0x77, 0xb9, 0x3a, 0xc6, 0x1a, 0x2f, 0xed, 0xc7, 0x19, 0x11, 0x6b, 0x83, 0x0c,
        0x56, 0xc1, 0x97, 0xff,
    ]
}

fn master_key() -> [u8; 64] {
    let mut key = [0u8; 64];
    for (i, byte) in key.iter_mut().enumerate() {
        *byte = (i * 5 + 1) as u8;
    }
    key
}

/// XTS encryption of one data unit.
fn xts_encrypt(key: &[u8; 64], unit: u64, data: &mut [u8]) {
    let data_cipher = Aes256::new(GenericArray::from_slice(&key[..32]));
    let tweak_cipher = Aes256::new(GenericArray::from_slice(&key[32..]));
    let mut tweak = [0u8; 16];
    tweak[..8].copy_from_slice(&unit.to_le_bytes());
    tweak_cipher.encrypt_block(GenericArray::from_mut_slice(&mut tweak));
    let mut value = u128::from_le_bytes(tweak);
    for block in data.chunks_mut(16) {
        let mask = value.to_le_bytes();
        for i in 0..16 {
            block[i] ^= mask[i];
        }
        data_cipher.encrypt_block(GenericArray::from_mut_slice(block));
        for i in 0..16 {
            block[i] ^= mask[i];
        }
        value = (value << 1) ^ if value >> 127 == 1 { 0x87 } else { 0 };
    }
}

fn plain_header() -> [u8; 448] {
    let mut plain = [0u8; 448];
    plain[..4].copy_from_slice(b"VERA");
    plain[4..6].copy_from_slice(&5u16.to_be_bytes());
    plain[36..44].copy_from_slice(&(IMAGE_SIZE as u64).to_be_bytes());
    plain[44..52].copy_from_slice(&(AREA_OFFSET as u64).to_be_bytes());
    plain[52..60].copy_from_slice(&(IMAGE_SIZE as u64).to_be_bytes());
    plain[64..68].copy_from_slice(&512u32.to_be_bytes());
    let sum = crc32fast::hash(&plain[..188]);
    plain[188..192].copy_from_slice(&sum.to_be_bytes());
    plain[192..256].copy_from_slice(&master_key());
    plain
}

fn container() -> Vec<u8> {
    let mut container = vec![0u8; AREA_OFFSET];
    container[..64].copy_from_slice(&salt());
    let mut header = plain_header();
    xts_encrypt(&header_key(), 0, &mut header);
    container[64..512].copy_from_slice(&header);
    let mut area = image();
    for (i, unit) in area.chunks_mut(512).enumerate() {
        xts_encrypt(&master_key(), (AREA_OFFSET / 512 + i) as u64, unit);
    }
    container.extend(area);
    container
}

// --- the making of the NTFS volume ---

const POSIX: u8 = 0;
const WIN32: u8 = 1;
const DOS: u8 = 2;
const WIN32_AND_DOS: u8 = 3;

fn put(bytes: &mut Vec<u8>, more: &[u8]) {
    bytes.extend_from_slice(more);
    while bytes.len() % 8 != 0 {
        bytes.push(0);
    }
}

/// An attribute whose value lies in the file record.
fn resident(kind: u32, name: &str, value: &[u8]) -> Vec<u8> {
    let name: Vec<u8> = name.encode_utf16().flat_map(|unit| unit.to_le_bytes()).collect();
    let value_at = (24 + name.len() + 7) / 8 * 8;
    let length = (value_at + value.len() + 7) / 8 * 8;
    let mut bytes = Vec::new();
    bytes.extend(kind.to_le_bytes());
    bytes.extend((length as u32).to_le_bytes());
    bytes.push(0);
    bytes.push((name.len() / 2) as u8);
    bytes.extend(if name.is_empty() { 0u16 } else { 24 }.to_le_bytes());
    bytes.extend([0u8; 4]);
    bytes.extend((value.len() as u32).to_le_bytes());
    bytes.extend((value_at as u16).to_le_bytes());
    bytes.extend([0u8; 2]);
    put(&mut bytes, &name);
    put(&mut bytes, value);
    assert_eq!(bytes.len(), length);
    bytes
}

/// A data attribute whose value lies in `clusters` clusters from `lcn` on.
fn non_resident(lcn: u8, clusters: u8, size: usize) -> Vec<u8> {
    let mut bytes = Vec::new();
    bytes.extend(0x80u32.to_le_bytes());
    bytes.extend(72u32.to_le_bytes());
    bytes.push(1);
    bytes.push(0);
    bytes.extend([0u8; 6]);
    bytes.extend(0u64.to_le_bytes());
    bytes.extend((clusters as u64 - 1).to_le_bytes());
    bytes.extend(64u16.to_le_bytes());
    bytes.extend([0u8; 6]);
    bytes.extend((clusters as u64 * CLUSTER as u64).to_le_bytes());
    bytes.extend((size as u64).to_le_bytes());
    bytes.extend((size as u64).to_le_bytes());
    put(&mut bytes, &[0x11, clusters, lcn]);
    assert_eq!(bytes.len(), 72);
    bytes
}

/// A file record with its attributes, and the update sequence at the sector ends.
fn record(is_dir: bool, attributes: &[Vec<u8>]) -> Vec<u8> {
    let mut bytes = Vec::new();
    bytes.extend(b"FILE");
    bytes.extend(48u16.to_le_bytes());
    bytes.extend(9u16.to_le_bytes());
    bytes.extend(0u64.to_le_bytes());
    bytes.extend(1u16.to_le_bytes());
    bytes.extend(1u16.to_le_bytes());
    bytes.extend(72u16.to_le_bytes());
    bytes.extend(if is_dir { 3u16 } else { 1 }.to_le_bytes());
    bytes.extend([0u8; 8]);
    bytes.extend(0u64.to_le_bytes());
    bytes.extend([0u8; 8]);
    bytes.extend([0u8; 24]);
    for attribute in attributes {
        bytes.extend(attribute);
    }
    bytes.extend(0xffff_ffffu32.to_le_bytes());
    put(&mut bytes, &[]);
    let used = bytes.len() as u32;
    bytes[24..28].copy_from_slice(&used.to_le_bytes());
    bytes[28..32].copy_from_slice(&(CLUSTER as u32).to_le_bytes());
    assert!(bytes.len() <= CLUSTER);
    bytes.resize(CLUSTER, 0);
    bytes[48..50].copy_from_slice(&[0xa5, 0x5a]);
    for sector in 0..8 {
        let end = sector * 512 + 510;
        let kept = [bytes[end], bytes[end + 1]];
        bytes[50 + 2 * sector..52 + 2 * sector].copy_from_slice(&kept);
        bytes[end..end + 2].copy_from_slice(&[0xa5, 0x5a]);
    }
    bytes
}

/// An entry of a directory's index.
fn index_entry(number: u64, name: &str, namespace: u8) -> Vec<u8> {
    let name: Vec<u8> = name.encode_utf16().flat_map(|unit| unit.to_le_bytes()).collect();
    let mut key = vec![0u8; 64];
    key.push((name.len() / 2) as u8);
    key.push(namespace);
    key.extend(&name);
    let length = (16 + key.len() + 7) / 8 * 8;
    let mut bytes = Vec::new();
    bytes.extend(number.to_le_bytes());
    bytes.extend((length as u16).to_le_bytes());
    bytes.extend((key.len() as u16).to_le_bytes());
    bytes.extend([0u8; 4]);
    put(&mut bytes, &key);
    bytes
}

/// An entry without a name.
fn unnamed_entry() -> Vec<u8> {
    let mut bytes = vec![0u8; 16];
    bytes[8] = 16;
    bytes
}

/// A directory's index, with its entries.
fn index_root(entries: &[Vec<u8>]) -> Vec<u8> {
    let mut list: Vec<u8> = entries.concat();
    let mut last = vec![0u8; 16];
    last[8] = 16;
    last[12] = 2;
    list.extend(last);
    let mut value = Vec::new();
    value.extend(0x30u32.to_le_bytes());
    value.extend(1u32.to_le_bytes());
    value.extend((CLUSTER as u32).to_le_bytes());
    value.extend([1, 0, 0, 0]);
    value.extend(16u32.to_le_bytes());
    value.extend((16 + list.len() as u32).to_le_bytes());
    value.extend((16 + list.len() as u32).to_le_bytes());
    value.extend([0u8; 4]);
    value.extend(list);
    resident(0x90, "$I30", &value)
}

fn image() -> Vec<u8> {
    let big = big_contents();
    let label: Vec<u8> = "VC TEST".encode_utf16().flat_map(|unit| unit.to_le_bytes()).collect();
    let data = |value: &[u8]| resident(0x80, "", value);
    let mut records = vec![record(false, &[data(b"")]); RECORDS];
    records[0] = record(false, &[non_resident(1, RECORDS as u8, RECORDS * CLUSTER)]);
    records[3] = record(false, &[resident(0x60, "", &label)]);
    records[4] = record(false, &[data(b"meta")]);
    records[5] = record(
        true,
        &[index_root(&[
            index_entry(4, "$Label", WIN32_AND_DOS),
            index_entry(0, "$MFT", WIN32_AND_DOS),
            index_entry(24, "$notes.txt", WIN32),
            index_entry(5, ".", WIN32_AND_DOS),
            index_entry(11, "dir_a", POSIX),
            index_entry(10, "empty_dir", WIN32),
            index_entry(10, "EMPTY_~1", DOS),
            unnamed_entry(),
            index_entry(9, "empty_file.txt", WIN32),
            index_entry(8, "root_file.txt", WIN32),
            index_entry(8, "ROOT_F~1.TXT", DOS),
        ])],
    );
    records[8] = record(false, &[data(&big)]);
    records[9] = record(false, &[data(b"")]);
    records[10] = record(true, &[index_root(&[])]);
    records[11] = record(
        true,
        &[index_root(&[
            index_entry(14, "dir_b", POSIX),
            index_entry(13, "empty_inside.txt", WIN32),
            index_entry(12, "inside_a.txt", WIN32_AND_DOS),
        ])],
    );
    // The data of one file lies outside its record, another file has no data at all.
    records[12] = record(false, &[non_resident(1 + RECORDS as u8, 1, big.len())]);
    records[13] = record(false, &[]);
    records[14] = record(true, &[index_root(&[index_entry(15, "deep.txt", WIN32)])]);
    records[15] = record(false, &[data(&big)]);
    // A file of the user, whatever its name.
    records[24] = record(false, &[data(b"mine")]);

    let mut image = vec![0u8; CLUSTER];
    image[..3].copy_from_slice(&[0xeb, 0x52, 0x90]);
    image[3..11].copy_from_slice(b"NTFS    ");
    image[11..13].copy_from_slice(&512u16.to_le_bytes());
    image[13] = 8;
    image[40..48].copy_from_slice(&((IMAGE_SIZE / 512) as u64).to_le_bytes());
    image[48..56].copy_from_slice(&1u64.to_le_bytes());
    image[56..64].copy_from_slice(&1u64.to_le_bytes());
    image[64] = 0xf4;
    image[68] = 1;
    image[510..512].copy_from_slice(&[0x55, 0xaa]);
    for record in records {
        image.extend(record);
    }
    let mut cluster = big;
    cluster.resize(CLUSTER, 0xee);
    image.extend(cluster);
    assert_eq!(image.len(), IMAGE_SIZE);
    image
}
