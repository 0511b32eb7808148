//! The decrypted container: its header and the block device in its data area.
//!
//! The bytes of the container are fetched by the caller. [`Volume::open`] is given
//! the header; to read, the caller asks a [`ReadRequest`] which block it needs
//! next, fetches that block from [`Volume::block_offset`] and hands it to
//! [`Volume::take_block`].

use crate::bytes::{be_u16, be_u32, be_u64, be_value, starts_at};
use crate::crypto::kdf::{all_kdfs, derive_key, Kdf, KDF_COUNT};
use crate::crypto::primitives::{crc32, crc32_of};
use crate::crypto::xts::{aes256_xts_decrypt, xts_decrypted, xts_encrypted};
use crate::failure::{Failure, FailureKind};
use crate::text::concat;
use vstd::prelude::*;
use vstd::slice::slice_subrange;

verus! {

broadcast use vstd::string::group_string_axioms;

/// Bytes of the header.
pub const HEADER_SIZE: usize = 512;

/// Bytes of the salt, at the start of the header.
pub const HEADER_SALT_SIZE: usize = 64;

/// Bytes of the encrypted part of the header, after the salt.
pub const HEADER_ENC_SIZE: usize = 448;

/// Bytes of an XTS data unit, always 512 in VeraCrypt.
pub const BLOCK_SIZE: usize = 512;

/// `std::io::Error`, which is carried and not looked into.
#[verifier::external_type_specification]
#[verifier::external_body]
pub struct ExIoError(std::io::Error);

/// Why a container could not be opened.
#[derive(Debug)]
pub enum VolumeError {
    /// The header could not be read.
    Io(std::io::Error),
    /// No key derivation function gives a key that decrypts the header.
    DecryptionFailed,
}

impl From<std::io::Error> for VolumeError {
    fn from(e: std::io::Error) -> (error: Self) {
        VolumeError::Io(e)
    }
}

impl vstd::std_specs::convert::FromSpecImpl<std::io::Error> for VolumeError {
    open spec fn obeys_from_spec() -> bool {
        true
    }

    open spec fn from_spec(e: std::io::Error) -> Self {
        VolumeError::Io(e)
    }
}

impl VolumeError {
    /// The text for an I/O error that is described by `text`.
    pub fn io_message(text: &str) -> (message: String)
        ensures
            message@ == "I/O error: "@ + text@,
    {
        concat("I/O error: ", text)
    }

    /// The text that the user is shown. What `std` says of an I/O error is its own.
    pub fn message(&self) -> (message: String)
        ensures
            match self {
                VolumeError::Io(e) => exists|text: String|
                    #![auto]
                    vstd::string::to_string_from_display_ensures(e, text) && message@
                        == "I/O error: "@ + text@,
                VolumeError::DecryptionFailed => message@
                    == "header decryption failed with all KDFs (AES-256 only)"@,
            },
    {
        match self {
            VolumeError::Io(e) => {
                let text: String = e.to_string();
                VolumeError::io_message(text.as_str())
            },
            VolumeError::DecryptionFailed => {
                "header decryption failed with all KDFs (AES-256 only)".to_owned()
            },
        }
    }
}

/// What a volume is made of, as its contracts speak of it.
pub struct VolumeView {
    pub kdf_name: Seq<char>,
    pub format_version: u16,
    pub volume_size: u64,
    pub encrypted_area_offset: u64,
    pub encrypted_area_size: u64,
    pub sector_size: u32,
    pub master_keys: Seq<u8>,
    pub cursor: u64,
}

/// The four bytes that a decrypted header starts with, `VERA`.
pub open spec fn header_magic() -> Seq<u8> {
    seq![0x56u8, 0x45, 0x52, 0x41]
}

/// Whether `plain` is a decrypted header: it has the magic, and the checksum of its
/// first 188 bytes follows them.
pub open spec fn header_valid(plain: Seq<u8>) -> bool {
    &&& plain.subrange(0, 4) == header_magic()
    &&& be_value(plain.subrange(188, 192)) == crc32(plain.subrange(0, 188))
}

/// Whether `v` is the volume that the decrypted header `plain` describes.
pub open spec fn header_describes(plain: Seq<u8>, v: VolumeView) -> bool {
    &&& v.format_version == be_value(plain.subrange(4, 6))
    &&& v.volume_size == be_value(plain.subrange(36, 44))
    &&& v.encrypted_area_offset == be_value(plain.subrange(44, 52))
    &&& v.encrypted_area_size == be_value(plain.subrange(52, 60))
    &&& v.sector_size == be_value(plain.subrange(64, 68))
    &&& v.master_keys == plain.subrange(192, 256)
}

/// The encrypted part of `header` as the header key `key` decrypts it.
pub open spec fn header_plain(header: Seq<u8>, key: Seq<u8>) -> Seq<u8> {
    xts_decrypted(key.subrange(0, 32), key.subrange(32, 64), 0, header.subrange(64, 512))
}

/// The encrypted part of `header` as the password decrypts it under `kdf`.
pub open spec fn plain_under(header: Seq<u8>, password: Seq<u8>, kdf: Kdf) -> Seq<u8> {
    header_plain(header, kdf.header_key(password, header.subrange(0, 64)))
}

/// Whether `kdf` is the first key derivation function that unlocks `header`.
pub open spec fn first_to_unlock(header: Seq<u8>, password: Seq<u8>, k: int) -> bool {
    &&& 0 <= k < all_kdfs().len()
    &&& header_valid(plain_under(header, password, all_kdfs()[k]))
    &&& forall|j: int|
        0 <= j < k ==> !header_valid(plain_under(header, password, #[trigger] all_kdfs()[j]))
}

/// Whether `v` is the volume that the `k`-th key derivation function opens, being the
/// first that does.
pub open spec fn opens_as(header: Seq<u8>, password: Seq<u8>, k: int, v: VolumeView) -> bool {
    &&& first_to_unlock(header, password, k)
    &&& v.kdf_name == all_kdfs()[k].spec_name()
    &&& header_describes(plain_under(header, password, all_kdfs()[k]), v)
    &&& v.cursor == 0
}

/// Whether `v` is the volume that the password opens.
pub open spec fn is_opened(header: Seq<u8>, password: Seq<u8>, v: VolumeView) -> bool {
    exists|k: int| #[trigger] opens_as(header, password, k, v)
}

/// The plaintext of the `index`-th block of the data area.
pub open spec fn block_plain(v: VolumeView, index: int, raw: Seq<u8>) -> Seq<u8> {
    xts_decrypted(
        v.master_keys.subrange(0, 32),
        v.master_keys.subrange(32, 64),
        (v.encrypted_area_offset / 512 + index) as u64,
        raw,
    )
}

/// The `index`-th block of the data area as a container holds it whose plaintext there
/// is `plain`.
pub open spec fn block_sealed(v: VolumeView, index: int, plain: Seq<u8>) -> Seq<u8> {
    xts_encrypted(
        v.master_keys.subrange(0, 32),
        v.master_keys.subrange(32, 64),
        (v.encrypted_area_offset / 512 + index) as u64,
        plain,
    )
}

/// Where the `index`-th block of the data area lies in the container.
pub open spec fn block_start(v: VolumeView, index: int) -> int {
    v.encrypted_area_offset + 512 * index
}

/// The `index`-th block of the data area, as the container holds it.
pub open spec fn block_raw(v: VolumeView, container: Seq<u8>, index: int) -> Seq<u8> {
    container.subrange(block_start(v, index), block_start(v, index) + 512)
}

/// The whole data area of `container`, decrypted.
pub open spec fn area_plain(v: VolumeView, container: Seq<u8>) -> Seq<u8> {
    Seq::new(
        v.encrypted_area_size as nat,
        |p: int| block_plain(v, p / 512, block_raw(v, container, p / 512))[p % 512],
    )
}

/// Where to move the cursor; the variants are those of `std::io::SeekFrom`.
#[derive(Debug, Clone, Copy)]
pub enum SeekFrom {
    Start(u64),
    End(i64),
    Current(i64),
}

/// `n` read as a signed number of 64 bits.
pub open spec fn as_signed(n: u64) -> int {
    if n < 0x8000_0000_0000_0000 {
        n as int
    } else {
        n - 0x1_0000_0000_0000_0000
    }
}

/// The position that a seek asks for.
pub open spec fn seek_target(v: VolumeView, pos: SeekFrom) -> int {
    match pos {
        SeekFrom::Start(n) => as_signed(n),
        SeekFrom::End(n) => as_signed(v.encrypted_area_size) + n,
        SeekFrom::Current(n) => as_signed(v.cursor) + n,
    }
}

/// How many bytes a read into `len` bytes yields.
pub open spec fn read_count(v: VolumeView, len: nat) -> nat {
    if v.cursor >= v.encrypted_area_size {
        0
    } else if len < v.encrypted_area_size - v.cursor {
        len
    } else {
        (v.encrypted_area_size - v.cursor) as nat
    }
}

/// A read in progress: `done` of the `want` bytes from position `start` on are there.
#[derive(Debug)]
pub struct ReadRequest {
    pub start: u64,
    pub want: usize,
    pub done: usize,
}

impl ReadRequest {
    /// Whether this is a read of `v` that has not gone past its end.
    pub open spec fn fits(&self, v: VolumeView) -> bool {
        &&& self.done <= self.want
        &&& self.start == v.cursor
        &&& self.want > 0 ==> self.start + self.want <= v.encrypted_area_size
    }

    /// The block that the next byte lies in.
    pub open spec fn block(&self) -> int {
        (self.start + self.done) / 512
    }

    /// Where in that block the next byte lies.
    pub open spec fn offset(&self) -> int {
        (self.start + self.done) % 512
    }

    /// How many bytes that block contributes.
    pub open spec fn share(&self) -> int {
        if 512 - self.offset() < self.want - self.done {
            512 - self.offset()
        } else {
            self.want - self.done
        }
    }

    /// This read once it has taken the block that it asked for.
    pub open spec fn onward(self) -> ReadRequest {
        ReadRequest { done: (self.done + self.share()) as usize, ..self }
    }

    /// The buffer of this read once it has taken the block that it asked for, of which
    /// `plain` is the plaintext.
    pub open spec fn copied(self, buf: Seq<u8>, plain: Seq<u8>) -> Seq<u8> {
        Seq::new(
            buf.len(),
            |i: int|
                if self.done <= i < self.done + self.share() {
                    plain[self.offset() + i - self.done]
                } else {
                    buf[i]
                },
        )
    }

    /// Whether the bytes that are done are those of the decrypted data area.
    pub open spec fn filled(&self, v: VolumeView, container: Seq<u8>, buf: Seq<u8>) -> bool {
        forall|i: int|
            0 <= i < self.done ==> #[trigger] buf[i] == area_plain(v, container)[self.start + i]
    }

    /// The block to fetch next, or `None` once the read is complete.
    pub fn next_block(&self) -> (index: Option<u64>)
        requires
            self.done <= self.want,
            self.start + self.want <= u64::MAX,
        ensures
            self.done < self.want ==> index == Some(self.block() as u64),
            self.done < self.want ==> 0 <= self.block() <= u64::MAX,
            self.done == self.want ==> index is None,
    {
        if self.done < self.want {
            Some((self.start + self.done as u64) / 512)
        } else {
            None
        }
    }
}

/// A decrypted container.
#[derive(Debug)]
pub struct Volume {
    kdf_name: String,
    format_version: u16,
    volume_size: u64,
    encrypted_area_offset: u64,
    encrypted_area_size: u64,
    sector_size: u32,
    master_keys: [u8; 64],
    cursor: u64,
}

impl View for Volume {
    type V = VolumeView;

    closed spec fn view(&self) -> VolumeView {
        VolumeView {
            kdf_name: self.kdf_name@,
            format_version: self.format_version,
            volume_size: self.volume_size,
            encrypted_area_offset: self.encrypted_area_offset,
            encrypted_area_size: self.encrypted_area_size,
            sector_size: self.sector_size,
            master_keys: self.master_keys@,
            cursor: self.cursor,
        }
    }
}

/// Copy 32 bytes of a 64-byte key.
fn half_key(key: &[u8; 64], from: usize) -> (half: [u8; 32])
    requires
        from + 32 <= 64,
    ensures
        half@ == key@.subrange(from as int, from + 32),
{
    let mut half: [u8; 32] = [0u8; 32];
    let mut k: usize = 0;
    while k < 32
        invariant
            k <= 32,
            from + 32 <= 64,
            forall|j: int| 0 <= j < k ==> #[trigger] half@[j] == key@[from + j],
        decreases 32 - k,
    {
        half[k] = key[from + k];
        k = k + 1;
    }
    assert(half@ =~= key@.subrange(from as int, from + 32));
    half
}

/// Read a decrypted header: the volume that it describes, opened under `kdf`, or
/// `None` where it is no header.
pub fn parse_header(plain: &[u8], kdf: Kdf) -> (volume: Option<Volume>)
    requires
        plain@.len() == HEADER_ENC_SIZE,
    ensures
        volume is Some <==> header_valid(plain@),
        volume matches Some(v) ==> header_describes(plain@, v@) && v@.kdf_name == kdf.spec_name()
            && v@.cursor == 0,
{
    let magic: [u8; 4] = [0x56u8, 0x45, 0x52, 0x41];
    assert(magic@ =~= header_magic());
    if !starts_at(plain, 0, &magic) {
        return None;
    }
    let stored: u32 = be_u32(plain, 188);
    let computed: u32 = crc32_of(slice_subrange(plain, 0, 188));
    if stored != computed {
        return None;
    }
    let mut master_keys: [u8; 64] = [0u8; 64];
    let mut k: usize = 0;
    while k < 64
        invariant
            k <= 64,
            plain@.len() == HEADER_ENC_SIZE,
            forall|j: int| 0 <= j < k ==> #[trigger] master_keys@[j] == plain@[192 + j],
        decreases 64 - k,
    {
        master_keys[k] = plain[192 + k];
        k = k + 1;
    }
    assert(master_keys@ =~= plain@.subrange(192, 256));
    Some(
        Volume {
            kdf_name: kdf.name().to_owned(),
            format_version: be_u16(plain, 4),
            volume_size: be_u64(plain, 36),
            encrypted_area_offset: be_u64(plain, 44),
            encrypted_area_size: be_u64(plain, 52),
            sector_size: be_u32(plain, 64),
            master_keys,
            cursor: 0,
        },
    )
}

impl Volume {
    /// Try one header key, which `kdf` derived, on the header of a container.
    pub fn unlock(header: &[u8; 512], kdf: Kdf, key: &[u8; 64]) -> (volume: Option<Volume>)
        ensures
            volume is Some <==> header_valid(header_plain(header@, key@)),
            volume matches Some(v) ==> header_describes(header_plain(header@, key@), v@)
                && v@.kdf_name == kdf.spec_name() && v@.cursor == 0,
    {
        let key1: [u8; 32] = half_key(key, 0);
        let key2: [u8; 32] = half_key(key, 32);
        let mut plain: [u8; 448] = [0u8; 448];
        let mut k: usize = 0;
        while k < 448
            invariant
                k <= 448,
                forall|j: int| 0 <= j < k ==> #[trigger] plain@[j] == header@[64 + j],
            decreases 448 - k,
        {
            plain[k] = header[64 + k];
            k = k + 1;
        }
        assert(plain@ =~= header@.subrange(64, 512));
        aes256_xts_decrypt(&key1, &key2, 0, &mut plain);
        parse_header(&plain, kdf)
    }

    /// Open a container by its header, trying all key derivation functions in turn.
    pub fn open(header: &[u8; 512], password: &[u8]) -> (volume: Result<Volume, VolumeError>)
        ensures
            match volume {
                Ok(v) => is_opened(header@, password@, v@),
                Err(e) => e is DecryptionFailed && forall|k: int|
                    0 <= k < all_kdfs().len() ==> !header_valid(
                        plain_under(header@, password@, #[trigger] all_kdfs()[k]),
                    ),
            },
    {
        let salt: &[u8] = slice_subrange(header, 0, HEADER_SALT_SIZE);
        let mut k: usize = 0;
        while k < KDF_COUNT
            invariant
                k <= KDF_COUNT,
                salt@ == header@.subrange(0, 64),
                forall|j: int|
                    0 <= j < k ==> !header_valid(
                        plain_under(header@, password@, #[trigger] all_kdfs()[j]),
                    ),
            decreases KDF_COUNT - k,
        {
            let kdf: Kdf = Kdf::nth(k);
            let key: [u8; 64] = derive_key(password, salt, kdf);
            match Volume::unlock(header, kdf, &key) {
                Some(volume) => {
                    assert(opens_as(header@, password@, k as int, volume@));
                    assert(is_opened(header@, password@, volume@));
                    return Ok(volume);
                },
                None => {},
            }
            k = k + 1;
        }
        Err(VolumeError::DecryptionFailed)
    }

    pub fn kdf_name(&self) -> (name: &str)
        ensures
            name@ == self@.kdf_name,
    {
        self.kdf_name.as_str()
    }

    pub fn format_version(&self) -> (version: u16)
        ensures
            version == self@.format_version,
    {
        self.format_version
    }

    pub fn volume_size(&self) -> (size: u64)
        ensures
            size == self@.volume_size,
    {
        self.volume_size
    }

    pub fn encrypted_area_offset(&self) -> (offset: u64)
        ensures
            offset == self@.encrypted_area_offset,
    {
        self.encrypted_area_offset
    }

    pub fn encrypted_area_size(&self) -> (size: u64)
        ensures
            size == self@.encrypted_area_size,
    {
        self.encrypted_area_size
    }

    pub fn sector_size(&self) -> (size: u32)
        ensures
            size == self@.sector_size,
    {
        self.sector_size
    }

    /// The two keys of the data area: 32 bytes for the data, 32 for the tweaks.
    pub fn master_key(&self) -> (keys: &[u8; 64])
        ensures
            keys@ == self@.master_keys,
    {
        &self.master_keys
    }

    /// How many whole blocks the data area holds.
    pub fn num_blocks(&self) -> (count: u64)
        ensures
            count == self@.encrypted_area_size / 512,
    {
        self.encrypted_area_size / 512
    }

    /// Whether the `index`-th block of the data area lies where a container can reach.
    pub fn has_offset(&self, index: u64) -> (has: bool)
        ensures
            has == (block_start(self@, index as int) <= u64::MAX),
    {
        self.encrypted_area_offset as u128 + index as u128 * 512 <= u64::MAX as u128
    }

    /// Where in the container the `index`-th block of the data area lies.
    pub fn block_offset(&self, index: u64) -> (offset: u64)
        requires
            block_start(self@, index as int) <= u64::MAX,
        ensures
            offset == block_start(self@, index as int),
    {
        self.encrypted_area_offset + index * 512
    }

    /// Decrypt the `index`-th block of the data area, which the caller has fetched
    /// into `buf` from [`Volume::block_offset`].
    pub fn read_block(&self, index: u64, buf: &mut [u8; 512])
        requires
            block_start(self@, index as int) <= u64::MAX,
        ensures
            final(buf)@ == block_plain(self@, index as int, old(buf)@),
            forall|plain: Seq<u8>|
                old(buf)@ == #[trigger] block_sealed(self@, index as int, plain) ==> final(buf)@
                    == plain,
    {
        let unit: u64 = self.encrypted_area_offset / 512 + index;
        let data_key: [u8; 32] = half_key(&self.master_keys, 0);
        let tweak_key: [u8; 32] = half_key(&self.master_keys, 32);
        let ghost sealed = buf@;
        aes256_xts_decrypt(&data_key, &tweak_key, unit, buf);
        assert forall|plain: Seq<u8>|
            sealed == #[trigger] block_sealed(self@, index as int, plain) implies buf@ == plain by {
            assert(sealed == xts_encrypted(data_key@, tweak_key@, unit, plain));
        }
    }

    /// Begin to read from the cursor on into a buffer of `len` bytes.
    pub fn begin_read(&self, len: usize) -> (request: ReadRequest)
        ensures
            request.fits(self@),
            request.start == self@.cursor,
            request.want == read_count(self@, len as nat),
            request.done == 0,
            request.start + request.want <= u64::MAX,
    {
        if self.cursor >= self.encrypted_area_size {
            return ReadRequest { start: self.cursor, want: 0, done: 0 };
        }
        let remaining: u64 = self.encrypted_area_size - self.cursor;
        let want: usize = if (len as u64) < remaining {
            len
        } else {
            remaining as usize
        };
        ReadRequest { start: self.cursor, want, done: 0 }
    }

    /// Take the block that the request asked for, as the container holds it, and
    /// copy what the read needs of it into `buf`.
    pub fn take_block(&self, request: &mut ReadRequest, block: &mut [u8; 512], buf: &mut [u8])
        requires
            old(request).fits(self@),
            old(request).done < old(request).want <= old(buf)@.len(),
            block_start(self@, old(request).block()) <= u64::MAX,
        ensures
            *final(request) == old(request).onward(),
            final(request).fits(self@),
            final(request).done == old(request).done + old(request).share(),
            final(request).done > old(request).done,
            final(block)@ == block_plain(self@, old(request).block(), old(block)@),
            final(buf)@ == old(request).copied(old(buf)@, final(block)@),
    {
        let ghost before = *request;
        let pos: u64 = request.start + request.done as u64;
        let index: u64 = pos / 512;
        let off: usize = (pos % 512) as usize;
        let left: usize = request.want - request.done;
        let n: usize = if 512 - off < left {
            512 - off
        } else {
            left
        };
        self.read_block(index, block);
        let done: usize = request.done;
        let total: usize = buf.len();
        let mut k: usize = 0;
        while k < n
            invariant
                k <= n,
                off + n <= 512,
                done + n <= total,
                total == buf@.len(),
                buf@.len() == old(buf)@.len(),
                forall|i: int|
                    0 <= i < buf@.len() ==> #[trigger] buf@[i] == (if done <= i < done + k {
                        block@[off + i - done]
                    } else {
                        old(buf)@[i]
                    }),
            decreases n - k,
        {
            buf[done + k] = block[off + k];
            k = k + 1;
        }
        request.done = done + n;
        assert(buf@ =~= before.copied(old(buf)@, block@));
    }

    /// Finish a read: the cursor moves on by what was read, which is returned.
    pub fn end_read(&mut self, request: ReadRequest) -> (count: usize)
        requires
            request.fits(old(self)@),
            request.done == request.want,
        ensures
            count == request.want,
            final(self)@ == (VolumeView {
                cursor: (old(self)@.cursor + request.want) as u64,
                ..old(self)@
            }),
            old(self)@.cursor + request.want <= u64::MAX,
    {
        self.cursor = self.cursor + request.done as u64;
        request.done
    }

    /// Whether the position that a seek asks for can be held.
    pub fn can_seek(&self, pos: SeekFrom) -> (can: bool)
        ensures
            can == (i64::MIN <= seek_target(self@, pos) <= i64::MAX),
    {
        match pos {
            SeekFrom::Start(_) => true,
            SeekFrom::End(n) => to_signed(self.encrypted_area_size).checked_add(n).is_some(),
            SeekFrom::Current(n) => to_signed(self.cursor).checked_add(n).is_some(),
        }
    }

    /// Move the cursor. It may go past the end of the data area, not before its start.
    pub fn seek(&mut self, pos: SeekFrom) -> (position: Result<u64, Failure>)
        requires
            i64::MIN <= seek_target(old(self)@, pos) <= i64::MAX,
        ensures
            match position {
                Ok(p) => seek_target(old(self)@, pos) >= 0 && p == seek_target(old(self)@, pos)
                    && final(self)@ == (VolumeView { cursor: p, ..old(self)@ }),
                Err(e) => seek_target(old(self)@, pos) < 0 && e.says(
                    FailureKind::InvalidInput,
                    "seek before start"@,
                ) && final(self)@ == old(self)@,
            },
    {
        let new: i64 = match pos {
            SeekFrom::Start(n) => to_signed(n),
            SeekFrom::End(n) => to_signed(self.encrypted_area_size) + n,
            SeekFrom::Current(n) => to_signed(self.cursor) + n,
        };
        if new < 0 {
            return Err(Failure::new(FailureKind::InvalidInput, "seek before start"));
        }
        self.cursor = new as u64;
        Ok(self.cursor)
    }
}

/// `n` read as a signed number.
fn to_signed(n: u64) -> (signed: i64)
    ensures
        signed == as_signed(n),
{
    let signed: i64 = n as i64;
    assert(signed == (if n < 0x8000_0000_0000_0000 {
        n as int
    } else {
        n - 0x1_0000_0000_0000_0000
    })) by (bit_vector)
        requires
            signed == n as i64,
    ;
    signed
}

/// The header and the password determine the volume that opens.
pub proof fn law_volume_is_determined(
    header: Seq<u8>,
    password: Seq<u8>,
    v: VolumeView,
    w: VolumeView,
)
    requires
        is_opened(header, password, v),
        is_opened(header, password, w),
    ensures
        v == w,
{
    let k = choose|k: int| #[trigger] opens_as(header, password, k, v);
    let l = choose|l: int| #[trigger] opens_as(header, password, l, w);
    if k < l {
        assert(!header_valid(plain_under(header, password, all_kdfs()[k])));
    } else if l < k {
        assert(!header_valid(plain_under(header, password, all_kdfs()[l])));
    }
}

/// The buffer at the end of a read that is brought each block that it asks for, as the
/// container holds it.
pub open spec fn read_through(
    v: VolumeView,
    container: Seq<u8>,
    request: ReadRequest,
    buf: Seq<u8>,
) -> Seq<u8>
    decreases request.want - request.done,
{
    if request.done >= request.want {
        buf
    } else {
        let index = request.block();
        let plain = block_plain(v, index, block_raw(v, container, index));
        read_through(v, container, request.onward(), request.copied(buf, plain))
    }
}

/// A read under way that holds bytes of the data area ends with the bytes that it wants.
proof fn lemma_read_through(
    v: VolumeView,
    container: Seq<u8>,
    request: ReadRequest,
    buf: Seq<u8>,
)
    requires
        request.fits(v),
        request.want <= buf.len(),
        request.filled(v, container, buf),
    ensures
        ({
            let end = read_through(v, container, request, buf);
            &&& end.len() == buf.len()
            &&& forall|i: int|
                0 <= i < request.want ==> #[trigger] end[i] == area_plain(v, container)[request.start
                    + i]
            &&& forall|i: int| request.want <= i < buf.len() ==> #[trigger] end[i] == buf[i]
        }),
    decreases request.want - request.done,
{
    if request.done < request.want {
        let index = request.block();
        let plain = block_plain(v, index, block_raw(v, container, index));
        let next = request.onward();
        let copied = request.copied(buf, plain);
        assert forall|i: int| 0 <= i < next.done implies #[trigger] copied[i] == area_plain(
            v,
            container,
        )[next.start + i] by {
            if i >= request.done {
                let p = request.start + i;
                assert(p / 512 == index && p % 512 == request.offset() + i - request.done);
            }
        }
        lemma_read_through(v, container, next, copied);
    }
}

/// A read that is brought each block that it asks for gives the bytes of the decrypted
/// data area from the cursor on, as many as there are and the buffer takes, and leaves
/// the rest of the buffer alone.
pub proof fn law_read_gives_area(v: VolumeView, container: Seq<u8>, buf: Seq<u8>)
    requires
        buf.len() <= usize::MAX,
    ensures
        ({
            let want = read_count(v, buf.len());
            let request = ReadRequest { start: v.cursor, want: want as usize, done: 0 };
            let end = read_through(v, container, request, buf);
            &&& end.len() == buf.len()
            &&& want > 0 ==> end.take(want as int) == area_plain(v, container).subrange(
                v.cursor as int,
                v.cursor + want,
            )
            &&& end.skip(want as int) == buf.skip(want as int)
        }),
{
    let want = read_count(v, buf.len());
    let request = ReadRequest { start: v.cursor, want: want as usize, done: 0 };
    let end = read_through(v, container, request, buf);
    lemma_read_through(v, container, request, buf);
    if want > 0 {
        assert(end.take(want as int) =~= area_plain(v, container).subrange(
            v.cursor as int,
            v.cursor + want,
        ));
    }
    assert(end.skip(want as int) =~= buf.skip(want as int));
}

/// Two reads one after the other yield what one read of both lengths yields.
pub proof fn law_reads_join(v: VolumeView, container: Seq<u8>, n: nat, m: nat)
    ensures
        ({
            let a = read_count(v, n);
            let w = VolumeView { cursor: (v.cursor + a) as u64, ..v };
            let b = read_count(w, m);
            let whole = area_plain(v, container);
            &&& a + b == read_count(v, n + m)
            &&& area_plain(w, container) == whole
            &&& v.cursor <= v.encrypted_area_size ==> whole.subrange(v.cursor as int, v.cursor + a)
                + whole.subrange(w.cursor as int, w.cursor + b) == whole.subrange(
                v.cursor as int,
                v.cursor + read_count(v, n + m),
            )
        }),
{
    let a = read_count(v, n);
    let w = VolumeView { cursor: (v.cursor + a) as u64, ..v };
    let b = read_count(w, m);
    let whole = area_plain(v, container);
    assert(area_plain(w, container) =~= whole);
    if v.cursor <= v.encrypted_area_size {
        assert(whole.subrange(v.cursor as int, v.cursor + a) + whole.subrange(
            w.cursor as int,
            w.cursor + b,
        ) =~= whole.subrange(v.cursor as int, v.cursor + read_count(v, n + m)));
    }
}

/// The blocks that [`Volume::read_block`] gives are the data area cut into pieces.
pub proof fn law_blocks_make_area(v: VolumeView, container: Seq<u8>, index: int)
    requires
        0 <= index < v.encrypted_area_size / 512,
        block_start(v, index) + 512 <= container.len(),
    ensures
        block_plain(v, index, block_raw(v, container, index)) == area_plain(v, container).subrange(
            512 * index,
            512 * index + 512,
        ),
{
    let block = block_plain(v, index, block_raw(v, container, index));
    assert forall|q: int| 0 <= q < 512 implies #[trigger] block[q] == area_plain(v, container)[512
        * index + q] by {
        assert((512 * index + q) / 512 == index && (512 * index + q) % 512 == q);
    }
    assert(block =~= area_plain(v, container).subrange(512 * index, 512 * index + 512));
}

} // verus!
