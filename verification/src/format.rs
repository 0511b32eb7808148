//! Numbers and bytes as the user is shown them.

use vstd::prelude::*;

verus! {

broadcast use vstd::string::group_string_axioms;

/// The decimal digit `d`.
pub open spec fn digit(d: nat) -> char {
    (48 + d) as char
}

/// `n` in decimal.
pub open spec fn decimal(n: nat) -> Seq<char>
    decreases n,
{
    if n < 10 {
        seq![digit(n)]
    } else {
        decimal(n / 10).push(digit(n % 10))
    }
}

/// `n` copies of a character.
pub open spec fn repeat_char(c: char, n: int) -> Seq<char> {
    Seq::new(
        if n < 0 {
            0
        } else {
            n as nat
        },
        |i: int| c,
    )
}

/// `text` with `fill` in front of it, to at least `width` characters.
pub open spec fn right_aligned(text: Seq<char>, width: int, fill: char) -> Seq<char> {
    repeat_char(fill, width - text.len()) + text
}

/// `text` with spaces behind it, to at least `width` characters.
pub open spec fn left_aligned(text: Seq<char>, width: int) -> Seq<char> {
    text + repeat_char(' ', width - text.len())
}

/// Append `n` in decimal.
pub fn push_decimal(out: &mut String, n: u64)
    ensures
        final(out)@ == old(out)@ + decimal(n as nat),
    decreases n,
{
    if n >= 10 {
        push_decimal(out, n / 10);
    }
    let d: u8 = (n % 10) as u8;
    let c: char = (48 + d) as char;
    out.push(c);
    assert(c == digit((n % 10) as nat));
    assert(out@ =~= old(out)@ + decimal(n as nat));
}

/// `n` in decimal.
pub fn decimal_text(n: u64) -> (text: String)
    ensures
        text@ == decimal(n as nat),
{
    let mut text: String = String::new();
    push_decimal(&mut text, n);
    assert(text@ =~= decimal(n as nat));
    text
}

/// Append `count` copies of a character.
fn push_repeated(out: &mut String, c: char, count: usize)
    ensures
        final(out)@ == old(out)@ + repeat_char(c, count as int),
{
    let mut k: usize = 0;
    assert(out@ =~= old(out)@ + repeat_char(c, 0));
    while k < count
        invariant
            k <= count,
            out@ == old(out)@ + repeat_char(c, k as int),
        decreases count - k,
    {
        out.push(c);
        k = k + 1;
        assert(out@ =~= old(out)@ + repeat_char(c, k as int));
    }
}

/// Append `text` with `fill` in front of it, to at least `width` characters.
pub fn push_right_aligned(out: &mut String, text: &str, width: usize, fill: char)
    ensures
        final(out)@ == old(out)@ + right_aligned(text@, width as int, fill),
{
    let len: usize = text.unicode_len();
    if len < width {
        push_repeated(out, fill, width - len);
    }
    out.append(text);
    assert(out@ =~= old(out)@ + right_aligned(text@, width as int, fill));
}

/// Append `text` with spaces behind it, to at least `width` characters.
pub fn push_left_aligned(out: &mut String, text: &str, width: usize)
    ensures
        final(out)@ == old(out)@ + left_aligned(text@, width as int),
{
    let len: usize = text.unicode_len();
    out.append(text);
    if len < width {
        push_repeated(out, ' ', width - len);
    }
    assert(out@ =~= old(out)@ + left_aligned(text@, width as int));
}

/// The hexadecimal digit `d`, in lower case.
pub open spec fn hex_digit(d: nat) -> char {
    if d < 10 {
        (48 + d) as char
    } else {
        (87 + d) as char
    }
}

/// Bytes in hexadecimal, two digits each, with a space between them.
pub open spec fn hex(bytes: Seq<u8>) -> Seq<char>
    decreases bytes.len(),
{
    if bytes.len() == 0 {
        Seq::empty()
    } else {
        let b = bytes.last() as nat;
        let pair = seq![hex_digit(b / 16), hex_digit(b % 16)];
        if bytes.len() == 1 {
            pair
        } else {
            hex(bytes.drop_last()) + seq![' '] + pair
        }
    }
}

/// A hexadecimal digit.
fn hex_char(d: u8) -> (c: char)
    requires
        d < 16,
    ensures
        c == hex_digit(d as nat),
{
    if d < 10 {
        (48 + d) as char
    } else {
        (87 + d) as char
    }
}

/// Bytes in hexadecimal, two digits each, with a space between them.
pub fn hex_bytes(bytes: &[u8]) -> (text: String)
    ensures
        text@ == hex(bytes@),
{
    let mut text: String = String::new();
    let mut k: usize = 0;
    assert(bytes@.take(0) =~= Seq::<u8>::empty());
    while k < bytes.len()
        invariant
            k <= bytes@.len(),
            text@ == hex(bytes@.take(k as int)),
        decreases bytes@.len() - k,
    {
        let ghost before = text@;
        if k > 0 {
            text.push(' ');
        }
        text.push(hex_char(bytes[k] / 16));
        text.push(hex_char(bytes[k] % 16));
        proof {
            let next = bytes@.take(k + 1);
            assert(next.drop_last() =~= bytes@.take(k as int));
            let b = bytes@[k as int] as nat;
            let pair = seq![hex_digit(b / 16), hex_digit(b % 16)];
            if k == 0 {
                assert(text@ =~= pair);
            } else {
                assert(text@ =~= before + seq![' '] + pair);
            }
        }
        k = k + 1;
    }
    assert(bytes@.take(bytes@.len() as int) =~= bytes@);
    text
}

/// `n / d` rounded to a whole number, to the even one where it lies halfway.
pub open spec fn round_even(n: nat, d: nat) -> nat {
    let q = n / d;
    let r = n % d;
    if 2 * r < d || (2 * r == d && q % 2 == 0) {
        q
    } else {
        q + 1
    }
}

/// How far apart the numbers of 53 significant bits lie around `n`.
pub open spec fn spacing(n: nat) -> nat
    decreases n,
{
    if n < 0x20_0000_0000_0000 {
        1
    } else {
        2 * spacing(n / 2)
    }
}

/// `n` rounded to 53 significant bits, as a double-precision number holds it.
pub open spec fn double_of(n: nat) -> nat {
    round_even(n, spacing(n)) * spacing(n)
}

/// A count of at most 53 bits is not rounded.
pub proof fn law_small_counts_are_exact(n: nat)
    requires
        n < 0x20_0000_0000_0000,
    ensures
        double_of(n) == n,
{
    assert(spacing(n) == 1);
    assert(round_even(n, 1) == n);
    assert(n * 1 == n);
}

/// `1024` to the power `u`.
pub open spec fn unit_bytes(u: nat) -> nat
    decreases u,
{
    if u == 0 {
        1
    } else {
        1024 * unit_bytes((u - 1) as nat)
    }
}

/// The unit that `v` bytes are shown in, from the `u`-th on: the first of which there
/// are fewer than 1024, or the largest.
pub open spec fn unit_of(v: nat, u: nat) -> nat
    decreases 5 - u,
{
    if u < 5 && v >= unit_bytes(u + 1) {
        unit_of(v, u + 1)
    } else {
        u
    }
}

/// The names of the units.
pub open spec fn unit_name(u: nat) -> Seq<char> {
    if u == 0 {
        "B"@
    } else if u == 1 {
        "KiB"@
    } else if u == 2 {
        "MiB"@
    } else if u == 3 {
        "GiB"@
    } else if u == 4 {
        "TiB"@
    } else {
        "PiB"@
    }
}

/// A byte count in binary units: the bytes themselves below 1024, else a number with
/// one decimal. The count is taken to double precision first, so only counts of more
/// than 53 bits are touched by that.
pub open spec fn size_text(bytes: u64) -> Seq<char> {
    let v = double_of(bytes as nat);
    let u = unit_of(v, 0);
    if u == 0 {
        decimal(bytes as nat) + " B"@
    } else {
        let tenths = round_even(10 * v, unit_bytes(u));
        decimal(tenths / 10) + seq!['.', digit(tenths % 10), ' '] + unit_name(u)
    }
}

/// Round to the nearest whole number, halves to even.
fn round_half_even(n: u128, d: u128) -> (q: u128)
    requires
        0 < d < 0x8000_0000_0000_0000,
        n < 0x1000_0000_0000_0000_0000_0000,
    ensures
        q == round_even(n as nat, d as nat),
        q <= n + 1,
{
    let q: u128 = n / d;
    let r: u128 = n % d;
    assert(n as nat / d as nat <= n as nat) by (nonlinear_arith)
        requires
            d > 0,
    ;
    if 2 * r < d || (2 * r == d && q % 2 == 0) {
        q
    } else {
        q + 1
    }
}

/// Round `n` to 53 significant bits.
fn to_double(n: u64) -> (v: u128)
    ensures
        v == double_of(n as nat),
        v <= 0x1_0000_0000_0000_0000,
{
    let mut step: u128 = 1;
    let mut m: u64 = n;
    let mut e: u8 = 0;
    while m >= 0x20_0000_0000_0000
        invariant
            e <= 11,
            step * spacing(m as nat) == spacing(n as nat),
            step * m <= n < step * (m + 1),
            e == 0 ==> step == 1,
            e == 1 ==> step == 2,
            e == 2 ==> step == 4,
            e == 3 ==> step == 8,
            e == 4 ==> step == 16,
            e == 5 ==> step == 32,
            e == 6 ==> step == 64,
            e == 7 ==> step == 128,
            e == 8 ==> step == 256,
            e == 9 ==> step == 512,
            e == 10 ==> step == 1024,
            e == 11 ==> step == 2048,
        decreases m,
    {
        let ghost half = m / 2;
        proof {
            assert(e < 11) by {
                if e == 11 {
                    assert(step * m >= 2048 * 0x20_0000_0000_0000) by (nonlinear_arith)
                        requires
                            step == 2048,
                            m >= 0x20_0000_0000_0000,
                    ;
                }
            }
            assert(spacing(m as nat) == 2 * spacing(half as nat));
            assert(step * (2 * spacing(half as nat)) == (2 * step) * spacing(half as nat))
                by (nonlinear_arith);
            assert((2 * step) * half <= n < (2 * step) * (half + 1)) by (nonlinear_arith)
                requires
                    step * m <= n < step * (m + 1),
                    2 * half <= m <= 2 * half + 1,
                    step > 0,
            ;
        }
        step = step * 2;
        m = m / 2;
        e = e + 1;
    }
    assert(step * 1 == step) by (nonlinear_arith);
    assert(step == spacing(n as nat));
    let q: u128 = round_half_even(n as u128, step);
    proof {
        assert(n as nat / step as nat == m) by (nonlinear_arith)
            requires
                step * m <= n < step * (m + 1),
                step > 0,
        ;
        assert(q <= m + 1);
        assert(q * step <= (m + 1) * step) by (nonlinear_arith)
            requires
                q <= m + 1,
                step > 0,
        ;
        assert((m + 1) * step <= 0x20_0000_0000_0000 * 2048) by (nonlinear_arith)
            requires
                m + 1 <= 0x20_0000_0000_0000,
                0 < step <= 2048,
        ;
    }
    q * step
}

/// Format a byte count in binary units (KiB, MiB, ...).
pub fn human_size(bytes: u64) -> (text: String)
    ensures
        text@ == size_text(bytes),
{
    let v: u128 = to_double(bytes);
    let mut unit: u8 = 0;
    let mut scale: u128 = 1;
    while unit < 5 && v >= scale * 1024
        invariant
            unit <= 5,
            unit_of(v as nat, unit as nat) == unit_of(v as nat, 0),
            scale == unit_bytes(unit as nat),
            unit == 0 ==> scale == 1,
            unit == 1 ==> scale == 0x400,
            unit == 2 ==> scale == 0x10_0000,
            unit == 3 ==> scale == 0x4000_0000,
            unit == 4 ==> scale == 0x100_0000_0000,
            unit == 5 ==> scale == 0x4_0000_0000_0000,
        decreases 5 - unit,
    {
        scale = scale * 1024;
        unit = unit + 1;
    }
    assert(unit_of(v as nat, 0) == unit);
    let mut text: String = String::new();
    if unit == 0 {
        push_decimal(&mut text, bytes);
        text.append(" B");
        assert(text@ =~= size_text(bytes));
    } else {
        let tenths: u128 = round_half_even(10 * v, scale);
        proof {
            lemma_tenths(v as nat, scale as nat, tenths as nat);
        }
        let whole: u64 = (tenths / 10) as u64;
        let d: u8 = (tenths % 10) as u8;
        push_decimal(&mut text, whole);
        text.push('.');
        text.push((48 + d) as char);
        text.push(' ');
        if unit == 1 {
            text.append("KiB");
        } else if unit == 2 {
            text.append("MiB");
        } else if unit == 3 {
            text.append("GiB");
        } else if unit == 4 {
            text.append("TiB");
        } else {
            text.append("PiB");
        }
        assert(text@ =~= size_text(bytes));
    }
    text
}

/// The tenths that a count is shown with stay small.
proof fn lemma_tenths(v: nat, scale: nat, tenths: nat)
    requires
        v <= 0x1_0000_0000_0000_0000,
        scale >= 1024,
        tenths == round_even(10 * v, scale),
    ensures
        tenths / 10 <= u64::MAX,
{
    assert((10 * v) / scale <= 10 * v / 1024) by (nonlinear_arith)
        requires
            scale >= 1024,
    ;
}

/// A duration as minutes and seconds, two digits each at least.
pub open spec fn duration_text(secs: Option<u64>) -> Seq<char> {
    match secs {
        None => "--:--"@,
        Some(s) => right_aligned(decimal((s / 60) as nat), 2, '0') + seq![':'] + right_aligned(
            decimal((s % 60) as nat),
            2,
            '0',
        ),
    }
}

/// Format a duration in whole seconds as `MM:SS`, or `--:--` if it is not known.
pub fn human_duration(secs: Option<u64>) -> (text: String)
    ensures
        text@ == duration_text(secs),
{
    match secs {
        None => "--:--".to_owned(),
        Some(s) => {
            let mut text: String = String::new();
            let minutes: String = decimal_text(s / 60);
            let seconds: String = decimal_text(s % 60);
            push_right_aligned(&mut text, minutes.as_str(), 2, '0');
            text.push(':');
            push_right_aligned(&mut text, seconds.as_str(), 2, '0');
            assert(text@ =~= duration_text(secs));
            text
        },
    }
}

} // verus!
