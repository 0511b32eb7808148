//! Integers stored most significant byte first.

use vstd::prelude::*;

verus! {

/// The number that `bytes` stand for, the most significant byte first.
pub open spec fn be_value(bytes: Seq<u8>) -> nat
    decreases bytes.len(),
{
    if bytes.len() == 0 {
        0
    } else {
        256 * be_value(bytes.drop_last()) + bytes.last() as nat
    }
}

/// How many numbers `n` bytes can stand for.
pub open spec fn byte_range(n: nat) -> nat
    decreases n,
{
    if n == 0 {
        1
    } else {
        256 * byte_range((n - 1) as nat)
    }
}

/// `n` bytes stand for a number below `byte_range(n)`.
pub proof fn lemma_be_value_bound(bytes: Seq<u8>)
    ensures
        be_value(bytes) < byte_range(bytes.len()),
    decreases bytes.len(),
{
    if bytes.len() > 0 {
        lemma_be_value_bound(bytes.drop_last());
    }
}

/// The number in `data[from..from + len]`, at most eight bytes.
fn be_uint(data: &[u8], from: usize, len: usize) -> (value: u64)
    requires
        len <= 8,
        from + len <= data@.len(),
    ensures
        value == be_value(data@.subrange(from as int, from + len)),
        value < byte_range(len as nat),
{
    let total: usize = data.len();
    let mut value: u64 = 0;
    let mut k: usize = 0;
    assert(data@.subrange(from as int, from as int) =~= Seq::<u8>::empty());
    while k < len
        invariant
            k <= len <= 8,
            total == data@.len(),
            from + len <= total,
            value == be_value(data@.subrange(from as int, from + k)),
        decreases len - k,
    {
        let ghost head = data@.subrange(from as int, from + k);
        let ghost next = data@.subrange(from as int, from + k + 1);
        proof {
            assert(next.drop_last() =~= head);
            lemma_be_value_bound(head);
            reveal_with_fuel(byte_range, 9);
            assert(byte_range(k as nat) <= 0x100_0000_0000_0000);
        }
        value = value * 256 + data[from + k] as u64;
        k = k + 1;
    }
    proof {
        lemma_be_value_bound(data@.subrange(from as int, from + len));
    }
    value
}

/// The 16-bit number at `data[from..]`.
pub fn be_u16(data: &[u8], from: usize) -> (value: u16)
    requires
        from + 2 <= data@.len(),
    ensures
        value == be_value(data@.subrange(from as int, from + 2)),
{
    let value: u64 = be_uint(data, from, 2);
    proof {
        reveal_with_fuel(byte_range, 3);
    }
    value as u16
}

/// The 32-bit number at `data[from..]`.
pub fn be_u32(data: &[u8], from: usize) -> (value: u32)
    requires
        from + 4 <= data@.len(),
    ensures
        value == be_value(data@.subrange(from as int, from + 4)),
{
    let value: u64 = be_uint(data, from, 4);
    proof {
        reveal_with_fuel(byte_range, 5);
    }
    value as u32
}

/// The 64-bit number at `data[from..]`.
pub fn be_u64(data: &[u8], from: usize) -> (value: u64)
    requires
        from + 8 <= data@.len(),
    ensures
        value == be_value(data@.subrange(from as int, from + 8)),
{
    be_uint(data, from, 8)
}

/// Whether `data[from..]` starts with `pattern`.
pub fn starts_at(data: &[u8], from: usize, pattern: &[u8]) -> (found: bool)
    requires
        from + pattern@.len() <= data@.len(),
    ensures
        found == (data@.subrange(from as int, from + pattern@.len()) == pattern@),
{
    let total: usize = data.len();
    let len: usize = pattern.len();
    let ghost part = data@.subrange(from as int, from + pattern@.len());
    let mut k: usize = 0;
    while k < len
        invariant
            k <= len,
            len == pattern@.len(),
            total == data@.len(),
            from + len <= total,
            part == data@.subrange(from as int, from + pattern@.len()),
            forall|j: int| 0 <= j < k ==> #[trigger] part[j] == pattern@[j],
        decreases len - k,
    {
        if data[from + k] != pattern[k] {
            assert(part[k as int] != pattern@[k as int]);
            return false;
        }
        k = k + 1;
    }
    assert(part =~= pattern@);
    true
}

} // verus!
