//! AES-256 in XTS mode, decryption only.

use super::gf128::{
    block_value, gf128_mul_x, law_block_of_value, law_value_of_block, mul_x_pow, value_block,
};
use super::primitives::{
    aes256_decrypt_block, aes256_decryption, aes256_encrypt_block, aes256_encryption,
    comes_from_one_block, same_block, undoes_encryption,
};
use vstd::prelude::*;

verus! {

/// The sixteen bytes that number a data unit: its number, least significant byte
/// first, and eight zeros.
pub open spec fn unit_block(unit: u64) -> Seq<u8> {
    seq![
        unit as u8,
        (unit >> 8) as u8,
        (unit >> 16) as u8,
        (unit >> 24) as u8,
        (unit >> 32) as u8,
        (unit >> 40) as u8,
        (unit >> 48) as u8,
        (unit >> 56) as u8,
        0,
        0,
        0,
        0,
        0,
        0,
        0,
        0,
    ]
}

/// The tweak of the `i`-th block of data unit `unit`: the encrypted unit number
/// times `x^i`.
pub open spec fn xts_tweak(key2: Seq<u8>, unit: u64, i: nat) -> Seq<u8> {
    value_block(mul_x_pow(block_value(aes256_encryption(key2, unit_block(unit))), i))
}

/// Bytewise exclusive or of two blocks.
pub open spec fn xor_block(a: Seq<u8>, b: Seq<u8>) -> Seq<u8> {
    Seq::new(16, |k: int| a[k] ^ b[k])
}

/// The plaintext of one ciphertext block under its tweak.
pub open spec fn xts_block(key1: Seq<u8>, tweak: Seq<u8>, block: Seq<u8>) -> Seq<u8> {
    xor_block(aes256_decryption(key1, xor_block(block, tweak)), tweak)
}

/// The `i`-th block of `data`.
pub open spec fn nth_block(data: Seq<u8>, i: int) -> Seq<u8> {
    data.subrange(16 * i, 16 * i + 16)
}

/// The plaintext of `data`, which is whole blocks of data unit `unit`.
pub open spec fn xts_decrypted(
    key1: Seq<u8>,
    key2: Seq<u8>,
    unit: u64,
    data: Seq<u8>,
) -> Seq<u8> {
    Seq::new(
        data.len(),
        |k: int|
            xts_block(key1, xts_tweak(key2, unit, (k / 16) as nat), nth_block(data, k / 16))[k
                % 16],
    )
}

/// A block is decrypted by itself: what the other blocks of the unit hold does not matter.
pub proof fn law_xts_blocks_stand_alone(
    key1: Seq<u8>,
    key2: Seq<u8>,
    unit: u64,
    a: Seq<u8>,
    b: Seq<u8>,
    i: int,
)
    requires
        0 <= i,
        16 * i + 16 <= a.len(),
        16 * i + 16 <= b.len(),
        nth_block(a, i) == nth_block(b, i),
    ensures
        nth_block(xts_decrypted(key1, key2, unit, a), i) == nth_block(
            xts_decrypted(key1, key2, unit, b),
            i,
        ),
{
    lemma_nth_plain(key1, key2, unit, a, i);
    lemma_nth_plain(key1, key2, unit, b, i);
}

/// The ciphertext of one plaintext block under its tweak.
pub open spec fn xts_sealed_block(key1: Seq<u8>, tweak: Seq<u8>, block: Seq<u8>) -> Seq<u8> {
    xor_block(aes256_encryption(key1, xor_block(block, tweak)), tweak)
}

/// The ciphertext of `plain`, which is whole blocks of data unit `unit`.
pub open spec fn xts_encrypted(
    key1: Seq<u8>,
    key2: Seq<u8>,
    unit: u64,
    plain: Seq<u8>,
) -> Seq<u8> {
    Seq::new(
        plain.len(),
        |k: int|
            xts_sealed_block(
                key1,
                xts_tweak(key2, unit, (k / 16) as nat),
                nth_block(plain, k / 16),
            )[k % 16],
    )
}

/// The same mask twice is no mask.
proof fn lemma_xor_twice(a: Seq<u8>, mask: Seq<u8>)
    requires
        a.len() == 16,
    ensures
        xor_block(xor_block(a, mask), mask) == a,
{
    assert forall|k: int| 0 <= k < 16 implies #[trigger] xor_block(xor_block(a, mask), mask)[k]
        == a[k] by {
        let (x, m) = (a[k], mask[k]);
        assert((x ^ m) ^ m == x) by (bit_vector);
    }
    assert(xor_block(xor_block(a, mask), mask) =~= a);
}

/// One block: where the data is the ciphertext of `plain`, the block is turned back.
proof fn lemma_block_undone(
    key1: Seq<u8>,
    key2: Seq<u8>,
    unit: u64,
    plain: Seq<u8>,
    i: int,
    inner: Seq<u8>,
)
    requires
        0 <= i,
        16 * i + 16 <= plain.len(),
        inner.len() == 16,
        ({
            let tweak = xts_tweak(key2, unit, i as nat);
            let cipher = nth_block(xts_encrypted(key1, key2, unit, plain), i);
            undoes_encryption(key1, xor_block(cipher, tweak), inner)
        }),
    ensures
        xor_block(inner, xts_tweak(key2, unit, i as nat)) == nth_block(plain, i),
{
    let tweak = xts_tweak(key2, unit, i as nat);
    let block = nth_block(plain, i);
    let masked = xor_block(block, tweak);
    let sealed = aes256_encryption(key1, masked);
    let cipher = nth_block(xts_encrypted(key1, key2, unit, plain), i);
    assert forall|k: int| 0 <= k < 16 implies xor_block(cipher, tweak)[k] == sealed[k] by {
        assert((16 * i + k) / 16 == i && (16 * i + k) % 16 == k);
        let (x, m) = (sealed[k], tweak[k]);
        assert(cipher[k] == x ^ m);
        assert((x ^ m) ^ m == x) by (bit_vector);
    }
    assert(same_block(xor_block(cipher, tweak), sealed));
    lemma_xor_twice(block, tweak);
}

/// One block: another ciphertext block has another plaintext.
proof fn lemma_block_apart(
    key1: Seq<u8>,
    tweak: Seq<u8>,
    block: Seq<u8>,
    other: Seq<u8>,
    inner: Seq<u8>,
)
    requires
        block.len() == 16,
        other.len() == 16,
        inner.len() == 16,
        comes_from_one_block(key1, xor_block(block, tweak), inner),
        other != block,
    ensures
        xts_block(key1, tweak, other) != xor_block(inner, tweak),
{
    let masked = xor_block(other, tweak);
    let opened = aes256_decryption(key1, masked);
    if xts_block(key1, tweak, other) == xor_block(inner, tweak) {
        assert forall|k: int| 0 <= k < 16 implies opened[k] == inner[k] by {
            let (x, y, m) = (opened[k], inner[k], tweak[k]);
            assert(xor_block(opened, tweak)[k] == xor_block(inner, tweak)[k]);
            assert(x ^ m == y ^ m);
            assert(x ^ m == y ^ m ==> x == y) by (bit_vector);
        }
        assert(same_block(opened, inner));
        lemma_xor_twice(block, tweak);
        lemma_xor_twice(other, tweak);
    }
}

/// The `i`-th block of the plaintext is that of the `i`-th block of the data.
proof fn lemma_nth_plain(key1: Seq<u8>, key2: Seq<u8>, unit: u64, data: Seq<u8>, i: int)
    requires
        0 <= i,
        16 * i + 16 <= data.len(),
    ensures
        nth_block(xts_decrypted(key1, key2, unit, data), i) == xts_block(
            key1,
            xts_tweak(key2, unit, i as nat),
            nth_block(data, i),
        ),
{
    let plain = xts_decrypted(key1, key2, unit, data);
    let block = xts_block(key1, xts_tweak(key2, unit, i as nat), nth_block(data, i));
    assert forall|q: int| 0 <= q < 16 implies #[trigger] nth_block(plain, i)[q] == block[q] by {
        assert((16 * i + q) / 16 == i && (16 * i + q) % 16 == q);
    }
    assert(nth_block(plain, i) =~= block);
}

/// Number a data unit.
pub fn unit_bytes(unit: u64) -> (block: [u8; 16])
    ensures
        block@ == unit_block(unit),
{
    let block: [u8; 16] = [
        unit as u8,
        (unit >> 8) as u8,
        (unit >> 16) as u8,
        (unit >> 24) as u8,
        (unit >> 32) as u8,
        (unit >> 40) as u8,
        (unit >> 48) as u8,
        (unit >> 56) as u8,
        0,
        0,
        0,
        0,
        0,
        0,
        0,
        0,
    ];
    assert(block@ =~= unit_block(unit));
    block
}

/// Bytewise exclusive or.
pub fn xor_blocks(a: &[u8; 16], b: &[u8; 16]) -> (out: [u8; 16])
    ensures
        out@ == xor_block(a@, b@),
{
    let mut out: [u8; 16] = [0u8; 16];
    let mut k: usize = 0;
    while k < 16
        invariant
            k <= 16,
            forall|j: int| 0 <= j < k ==> #[trigger] out@[j] == a@[j] ^ b@[j],
        decreases 16 - k,
    {
        out[k] = a[k] ^ b[k];
        k = k + 1;
    }
    assert(out@ =~= xor_block(a@, b@));
    out
}

/// Where the `i`-th block of `data` starts.
fn first_byte(data: &[u8], i: usize) -> (start: usize)
    requires
        16 * i + 16 <= data@.len(),
    ensures
        start == 16 * i,
        data@.len() <= usize::MAX,
{
    let len: usize = data.len();
    assert(16 * i + 16 <= len);
    16 * i
}

/// Copy the `i`-th block out of `data`.
fn load_block(data: &[u8], i: usize) -> (block: [u8; 16])
    requires
        16 * i + 16 <= data@.len(),
    ensures
        block@ == nth_block(data@, i as int),
{
    let mut block: [u8; 16] = [0u8; 16];
    let start: usize = first_byte(data, i);
    let mut k: usize = 0;
    while k < 16
        invariant
            k <= 16,
            start == 16 * i,
            start + 16 <= data@.len(),
            data@.len() <= usize::MAX,
            forall|j: int| 0 <= j < k ==> #[trigger] block@[j] == data@[16 * i + j],
        decreases 16 - k,
    {
        block[k] = data[start + k];
        k = k + 1;
    }
    assert(block@ =~= nth_block(data@, i as int));
    block
}

/// Write `block` over the `i`-th block of `data`.
fn store_block(data: &mut [u8], i: usize, block: &[u8; 16])
    requires
        16 * i + 16 <= old(data)@.len(),
    ensures
        final(data)@.len() == old(data)@.len(),
        forall|j: int|
            0 <= j < old(data)@.len() ==> #[trigger] final(data)@[j] == (if 16 * i <= j < 16 * i
                + 16 {
                block@[j - 16 * i]
            } else {
                old(data)@[j]
            }),
{
    let start: usize = first_byte(data, i);
    let mut k: usize = 0;
    while k < 16
        invariant
            k <= 16,
            start == 16 * i,
            start + 16 <= data@.len(),
            data@.len() <= usize::MAX,
            data@.len() == old(data)@.len(),
            forall|j: int|
                0 <= j < data@.len() ==> #[trigger] data@[j] == (if 16 * i <= j < 16 * i + k {
                    block@[j - 16 * i]
                } else {
                    old(data)@[j]
                }),
        decreases 16 - k,
    {
        data[start + k] = block[k];
        k = k + 1;
    }
}

/// Decrypt `data`, which is whole blocks of data unit `sector`, in place. What XTS
/// encryption made is turned back into what it was, and where a block is another, so is
/// its plaintext.
pub fn aes256_xts_decrypt(key1: &[u8; 32], key2: &[u8; 32], sector: u64, data: &mut [u8])
    requires
        old(data)@.len() % 16 == 0,
    ensures
        final(data)@ == xts_decrypted(key1@, key2@, sector, old(data)@),
        forall|plain: Seq<u8>|
            old(data)@ == #[trigger] xts_encrypted(key1@, key2@, sector, plain) ==> final(data)@
                == plain,
        forall|other: Seq<u8>, i: int|
            #![trigger nth_block(xts_decrypted(key1@, key2@, sector, other), i)]
            0 <= i && 16 * i + 16 <= old(data)@.len() && other.len() == old(data)@.len()
                && nth_block(other, i) != nth_block(old(data)@, i) ==> nth_block(
                xts_decrypted(key1@, key2@, sector, other),
                i,
            ) != nth_block(final(data)@, i),
{
    let ghost cipher = data@;
    let ghost whole = xts_decrypted(key1@, key2@, sector, cipher);
    let mut tweak: [u8; 16] = aes256_encrypt_block(key2, &unit_bytes(sector));
    let blocks: usize = data.len() / 16;
    proof {
        law_block_of_value(tweak@);
    }
    let mut i: usize = 0;
    while i < blocks
        invariant
            i <= blocks,
            16 * blocks == cipher.len(),
            data@.len() == cipher.len(),
            whole == xts_decrypted(key1@, key2@, sector, cipher),
            tweak@ == xts_tweak(key2@, sector, i as nat),
            forall|k: int| 0 <= k < 16 * i ==> #[trigger] data@[k] == whole[k],
            forall|k: int| 16 * i <= k < cipher.len() ==> #[trigger] data@[k] == cipher[k],
            forall|plain: Seq<u8>, k: int|
                #![trigger xts_encrypted(key1@, key2@, sector, plain), plain[k]]
                cipher == xts_encrypted(key1@, key2@, sector, plain) && 0 <= k < 16 * i ==> whole[k]
                    == plain[k],
            forall|other: Seq<u8>, j: int|
                #![trigger nth_block(xts_decrypted(key1@, key2@, sector, other), j)]
                0 <= j < i && other.len() == cipher.len() && nth_block(other, j) != nth_block(
                    cipher,
                    j,
                ) ==> nth_block(xts_decrypted(key1@, key2@, sector, other), j) != nth_block(
                    whole,
                    j,
                ),
        decreases blocks - i,
    {
        let block: [u8; 16] = load_block(data, i);
        assert(block@ =~= nth_block(cipher, i as int));
        let inner: [u8; 16] = aes256_decrypt_block(key1, &xor_blocks(&block, &tweak));
        let plain: [u8; 16] = xor_blocks(&inner, &tweak);
        store_block(data, i, &plain);
        proof {
            let v = mul_x_pow(block_value(aes256_encryption(key2@, unit_block(sector))), i as nat);
            law_value_of_block(v);
            lemma_nth_plain(key1@, key2@, sector, cipher, i as int);
            assert(plain@ == nth_block(whole, i as int));
            assert forall|k: int| 0 <= k < 16 * (i + 1) implies #[trigger] data@[k]
                == whole[k] by {
                if k >= 16 * i {
                    assert(nth_block(whole, i as int)[k - 16 * i] == whole[k]);
                }
            }
            assert forall|text: Seq<u8>, k: int|
                #![trigger xts_encrypted(key1@, key2@, sector, text), text[k]]
                cipher == xts_encrypted(key1@, key2@, sector, text) && 0 <= k < 16 * (i
                    + 1) implies whole[k] == text[k] by {
                if k >= 16 * i {
                    lemma_block_undone(key1@, key2@, sector, text, i as int, inner@);
                    assert(nth_block(text, i as int)[k - 16 * i] == text[k]);
                    assert(nth_block(whole, i as int)[k - 16 * i] == whole[k]);
                }
            }
            assert forall|other: Seq<u8>, j: int|
                #![trigger nth_block(xts_decrypted(key1@, key2@, sector, other), j)]
                0 <= j < i + 1 && other.len() == cipher.len() && nth_block(other, j) != nth_block(
                    cipher,
                    j,
                ) implies nth_block(xts_decrypted(key1@, key2@, sector, other), j) != nth_block(
                whole,
                j,
            ) by {
                if j == i {
                    lemma_nth_plain(key1@, key2@, sector, other, j);
                    lemma_block_apart(key1@, tweak@, block@, nth_block(other, j), inner@);
                }
            }
        }
        gf128_mul_x(&mut tweak);
        i = i + 1;
    }
    assert(data@ =~= whole);
    assert forall|plain: Seq<u8>|
        cipher == #[trigger] xts_encrypted(key1@, key2@, sector, plain) implies data@ == plain by {
        assert(plain.len() == cipher.len());
        assert forall|k: int| 0 <= k < plain.len() implies data@[k] == plain[k] by {
            assert(whole[k] == plain[k]);
        }
        assert(data@ =~= plain);
    }
}

} // verus!
