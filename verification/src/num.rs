//! Numbers as they are written, and the one hash this crate computes itself.

use vstd::prelude::*;
use vstd::string::*;

use crate::text::{chars_of, is_digit, push};

verus! {

// ---------------------------------------------------------------- decimal

/// The character that writes a number below ten.
pub open spec fn digit(n: nat) -> char {
    ('0' as u32 + n) as char
}

/// A number as it is written in decimal, with no leading zeros.
pub open spec fn decimal(n: nat) -> Seq<char>
    decreases n,
{
    if n < 10 {
        seq![digit(n)]
    } else {
        decimal(n / 10).push(digit(n % 10))
    }
}

/// The number a row of digits writes.
pub open spec fn value(digits: Seq<char>) -> nat
    decreases digits.len(),
{
    if digits.len() == 0 {
        0
    } else {
        (value(digits.drop_last()) * 10 + (digits.last() as u32 - '0' as u32)) as nat
    }
}

/// Whether a text is digits and nothing else.
pub open spec fn all_digits(text: Seq<char>) -> bool {
    forall|i: int| 0 <= i < text.len() ==> is_digit(#[trigger] text[i])
}

/// The digits of a text that writes a number: all of it, or all but a plus
/// sign before them.
pub open spec fn unsigned(text: Seq<char>) -> Seq<char> {
    if text.len() > 0 && text[0] == '+' {
        text.skip(1)
    } else {
        text
    }
}

/// The number a text writes, where it writes one that is at most `max`.
pub open spec fn parse_uint(text: Seq<char>, max: nat) -> Option<nat> {
    let digits = unsigned(text);
    if digits.len() > 0 && all_digits(digits) && value(digits) <= max {
        Some(value(digits))
    } else {
        None
    }
}

/// Writes a number in decimal at the end of a text.
pub fn push_decimal(out: &mut String, n: u64)
    ensures
        final(out)@ == old(out)@ + decimal(n as nat),
    decreases n,
{
    if n >= 10 {
        push_decimal(out, n / 10);
    }
    let d: u8 = (n % 10) as u8 + 48;
    push(out, d as char);
    assert(out@ =~= old(out)@ + decimal(n as nat));
}

/// A number in decimal.
pub fn decimal_of(n: u64) -> (r: String)
    ensures
        r@ == decimal(n as nat),
{
    let mut out: String = String::new();
    push_decimal(&mut out, n);
    assert(out@ =~= decimal(n as nat));
    out
}

/// The more digits are read, the larger the number.
proof fn lemma_value_grows(digits: Seq<char>, n: int)
    requires
        all_digits(digits),
        0 <= n <= digits.len(),
    ensures
        value(digits.take(n)) <= value(digits),
    decreases digits.len() - n,
{
    if n < digits.len() {
        lemma_value_grows(digits, n + 1);
        assert(digits.take(n + 1).drop_last() =~= digits.take(n));
        assert(is_digit(digits[n]));
    } else {
        assert(digits.take(n) =~= digits);
    }
}

/// The number a text writes, where it writes one that is at most `max`.
pub fn parse_within(text: &[char], max: u64) -> (r: Option<u64>)
    ensures
        match r {
            Some(n) => parse_uint(text@, max as nat) == Some(n as nat),
            None => parse_uint(text@, max as nat) is None,
        },
{
    let from: usize = if text.len() > 0 && text[0] == '+' {
        1
    } else {
        0
    };
    let ghost digits = unsigned(text@);
    assert(digits =~= text@.skip(from as int));
    if from == text.len() {
        return None;
    }
    let mut n: u64 = 0;
    let mut i: usize = from;
    while i < text.len()
        invariant
            from <= i <= text@.len(),
            from <= 1,
            digits == unsigned(text@),
            digits == text@.skip(from as int),
            forall|k: int| 0 <= k < i - from ==> is_digit(#[trigger] digits[k]),
            n == value(digits.take(i - from)),
            n <= max,
        decreases text@.len() - i,
    {
        let c: char = text[i];
        assert(digits[i - from] == c);
        if c < '0' || c > '9' {
            assert(!is_digit(digits[i - from]));
            return None;
        }
        let d: u64 = (c as u32 - 48) as u64;
        assert(digits.take(i - from + 1).drop_last() =~= digits.take(i - from));
        let ghost next = value(digits.take(i - from + 1));
        assert(next == n * 10 + d);
        if n > max / 10 || d > max - n * 10 {
            proof {
                if all_digits(digits) {
                    lemma_value_grows(digits, i - from + 1);
                }
                assert(next > max);
            }
            return None;
        }
        n = n * 10 + d;
        i = i + 1;
    }
    assert(digits.take(i - from) =~= digits);
    Some(n)
}

/// The number a text writes, where it fits.
pub fn parse_u64(text: &str) -> (r: Option<u64>)
    ensures
        match r {
            Some(n) => parse_uint(text@, u64::MAX as nat) == Some(n as nat),
            None => parse_uint(text@, u64::MAX as nat) is None,
        },
{
    let t: Vec<char> = chars_of(text);
    parse_within(t.as_slice(), u64::MAX)
}

/// The number a text writes, where it fits.
pub fn parse_u16(text: &str) -> (r: Option<u16>)
    ensures
        match r {
            Some(n) => parse_uint(text@, u16::MAX as nat) == Some(n as nat),
            None => parse_uint(text@, u16::MAX as nat) is None,
        },
{
    let t: Vec<char> = chars_of(text);
    match parse_within(t.as_slice(), 65535) {
        Some(n) => Some(n as u16),
        None => None,
    }
}

/// What is written in decimal is made of digits and reads back as itself.
pub proof fn decimal_reads_back(n: nat)
    ensures
        decimal(n).len() > 0,
        all_digits(decimal(n)),
        value(decimal(n)) == n,
        forall|max: nat| n <= max ==> parse_uint(decimal(n), max) == Some(n),
    decreases n,
{
    if n >= 10 {
        decimal_reads_back(n / 10);
        assert(decimal(n).drop_last() =~= decimal(n / 10));
        assert(decimal(n).last() == digit(n % 10));
        assert forall|i: int| 0 <= i < decimal(n).len() implies is_digit(#[trigger] decimal(n)[i]) by {
            if i < decimal(n / 10).len() {
                assert(decimal(n)[i] == decimal(n / 10)[i]);
            }
        }
    } else {
        assert(decimal(n).drop_last() =~= Seq::<char>::empty());
        assert(value(Seq::<char>::empty()) == 0);
    }
    assert(is_digit(decimal(n)[0]));
}

/// Two numbers written alike are the same.
pub proof fn decimal_is_one_to_one(a: nat, b: nat)
    requires
        decimal(a) == decimal(b),
    ensures
        a == b,
{
    decimal_reads_back(a);
    decimal_reads_back(b);
}

// ------------------------------------------------------------ hexadecimal

/// The character that writes a number below sixteen, in lower case.
pub open spec fn hex_digit(n: nat) -> char {
    if n < 10 {
        digit(n)
    } else {
        ('a' as u32 + n - 10) as char
    }
}

/// The character that writes a number below sixteen, in upper case.
pub open spec fn upper_hex_digit(n: nat) -> char {
    if n < 10 {
        digit(n)
    } else {
        ('A' as u32 + n - 10) as char
    }
}

/// The last `width` digits of a number in hexadecimal, in lower case.
pub open spec fn hex(n: nat, width: nat) -> Seq<char>
    decreases width,
{
    if width == 0 {
        seq![]
    } else {
        hex(n / 16, (width - 1) as nat).push(hex_digit(n % 16))
    }
}

/// The last `width` digits of a number in hexadecimal, in upper case.
pub open spec fn upper_hex(n: nat, width: nat) -> Seq<char>
    decreases width,
{
    if width == 0 {
        seq![]
    } else {
        upper_hex(n / 16, (width - 1) as nat).push(upper_hex_digit(n % 16))
    }
}

/// Writes the last `width` digits of a number in hexadecimal.
pub fn push_hex(out: &mut String, n: u64, width: u8)
    ensures
        final(out)@ == old(out)@ + hex(n as nat, width as nat),
    decreases width,
{
    if width > 0 {
        push_hex(out, n / 16, width - 1);
        let d: u8 = (n % 16) as u8;
        let c: u8 = if d < 10 {
            d + 48
        } else {
            d + 87
        };
        push(out, c as char);
    }
    assert(out@ =~= old(out)@ + hex(n as nat, width as nat));
}

/// Writes the last `width` digits of a number in upper-case hexadecimal.
pub fn push_upper_hex(out: &mut String, n: u64, width: u8)
    ensures
        final(out)@ == old(out)@ + upper_hex(n as nat, width as nat),
    decreases width,
{
    if width > 0 {
        push_upper_hex(out, n / 16, width - 1);
        let d: u8 = (n % 16) as u8;
        let c: u8 = if d < 10 {
            d + 48
        } else {
            d + 55
        };
        push(out, c as char);
    }
    assert(out@ =~= old(out)@ + upper_hex(n as nat, width as nat));
}

/// Hexadecimal of a given width is as wide as it says.
pub proof fn lemma_hex_len(n: nat, width: nat)
    ensures
        hex(n, width).len() == width,
        upper_hex(n, width).len() == width,
    decreases width,
{
    if width > 0 {
        lemma_hex_len(n / 16, (width - 1) as nat);
    }
}

// ---------------------------------------------------------------- hashing

/// Where the hash of nothing starts.
pub const FNV_OFFSET: u64 = 0xcbf2_9ce4_8422_2325;

/// What every step of the hash multiplies by.
pub const FNV_PRIME: u64 = 0x100_0000_01b3;

/// One byte more.
pub open spec fn fnv_step(hash: u64, byte: u8) -> u64 {
    (hash ^ (byte as u64)).wrapping_mul(FNV_PRIME)
}

/// FNV-1a over some bytes, from a hash already begun.
pub open spec fn fnv_from(hash: u64, bytes: Seq<u8>) -> u64
    decreases bytes.len(),
{
    if bytes.len() == 0 {
        hash
    } else {
        fnv_step(fnv_from(hash, bytes.drop_last()), bytes.last())
    }
}

/// FNV-1a over some bytes.
pub open spec fn fnv(bytes: Seq<u8>) -> u64 {
    fnv_from(FNV_OFFSET, bytes)
}

/// FNV-1a over some bytes, from a hash already begun.
pub fn fnv_more(hash: u64, bytes: &[u8]) -> (r: u64)
    ensures
        r == fnv_from(hash, bytes@),
{
    let mut h: u64 = hash;
    let mut i: usize = 0;
    assert(bytes@.take(0) =~= Seq::<u8>::empty());
    while i < bytes.len()
        invariant
            i <= bytes@.len(),
            h == fnv_from(hash, bytes@.take(i as int)),
        decreases bytes@.len() - i,
    {
        h = (h ^ (bytes[i] as u64)).wrapping_mul(FNV_PRIME);
        i = i + 1;
        assert(bytes@.take(i as int).drop_last() =~= bytes@.take(i - 1));
        assert(bytes@.take(i as int).last() == bytes@[i - 1]);
    }
    assert(bytes@.take(i as int) =~= bytes@);
    h
}

/// Hashing one run of bytes after another is hashing them joined.
pub proof fn fnv_continues(hash: u64, a: Seq<u8>, b: Seq<u8>)
    ensures
        fnv_from(fnv_from(hash, a), b) == fnv_from(hash, a + b),
    decreases b.len(),
{
    if b.len() == 0 {
        assert(a + b =~= a);
    } else {
        fnv_continues(hash, a, b.drop_last());
        assert((a + b).drop_last() =~= a + b.drop_last());
        assert((a + b).last() == b.last());
    }
}

} // verus!
