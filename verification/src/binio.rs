//! Fixed-width binary primitives: little-endian 64-bit integers, the
//! two's-complement bridge between `i64` timestamps and their stored bit
//! patterns, and decimal digit strings.

use vstd::prelude::*;
use vstd::bytes::{spec_u64_to_le_bytes, spec_u64_from_le_bytes, lemma_auto_spec_u64_to_from_le_bytes, u64_to_le_bytes, u64_from_le_bytes};

verus! {

/// The unsigned bit pattern that an `i64` is stored as (two's complement).
pub open spec fn spec_i64_bits(x: i64) -> u64 {
    if x >= 0 {
        x as u64
    } else {
        (x + 0x1_0000_0000_0000_0000) as u64
    }
}

/// The `i64` whose two's-complement bit pattern is `u`.
pub open spec fn spec_i64_from_bits(u: u64) -> i64 {
    if u <= i64::MAX {
        u as i64
    } else {
        (u - 0x1_0000_0000_0000_0000) as i64
    }
}

pub proof fn lemma_i64_bits_round_trip(x: i64)
    ensures
        spec_i64_from_bits(spec_i64_bits(x)) == x,
{
}

pub proof fn lemma_i64_bits_round_trip_rev(u: u64)
    ensures
        spec_i64_bits(spec_i64_from_bits(u)) == u,
{
}

/// Two's-complement bit pattern of an `i64`, computed without overflow.
pub fn i64_bits(x: i64) -> (r: u64)
    ensures
        r == spec_i64_bits(x),
{
    if x >= 0 {
        x as u64
    } else {
        let m: i64 = -(x + 1);
        u64::MAX - (m as u64)
    }
}

/// Inverse of `i64_bits`.
pub fn i64_from_bits(u: u64) -> (r: i64)
    ensures
        r == spec_i64_from_bits(u),
{
    if u <= i64::MAX as u64 {
        u as i64
    } else {
        let m: u64 = u64::MAX - u;
        -(m as i64) - 1
    }
}

/// The 8 little-endian bytes that an `i64` is stored as.
pub open spec fn spec_i64_to_le_bytes(x: i64) -> Seq<u8> {
    spec_u64_to_le_bytes(spec_i64_bits(x))
}

/// The `i64` stored in 8 little-endian bytes.
pub open spec fn spec_i64_from_le_bytes(s: Seq<u8>) -> i64 {
    spec_i64_from_bits(spec_u64_from_le_bytes(s))
}

pub proof fn lemma_i64_le_bytes_round_trip(x: i64)
    ensures
        spec_i64_to_le_bytes(x).len() == 8,
        spec_i64_from_le_bytes(spec_i64_to_le_bytes(x)) == x,
{
    lemma_auto_spec_u64_to_from_le_bytes();
}

/// Encodes an `i64` as 8 little-endian bytes.
pub fn i64_to_le_bytes(x: i64) -> (r: Vec<u8>)
    ensures
        r@ == spec_i64_to_le_bytes(x),
        r@.len() == 8,
{
    proof {
        lemma_auto_spec_u64_to_from_le_bytes();
    }
    u64_to_le_bytes(i64_bits(x))
}

/// Decodes an `i64` from 8 little-endian bytes.
pub fn i64_from_le_bytes(s: &[u8]) -> (r: i64)
    requires
        s@.len() == 8,
    ensures
        r == spec_i64_from_le_bytes(s@),
{
    i64_from_bits(u64_from_le_bytes(s))
}

/// The decimal digit character for a value below ten.
pub open spec fn spec_digit_char(d: int) -> char {
    if d == 0 {
        '0'
    } else if d == 1 {
        '1'
    } else if d == 2 {
        '2'
    } else if d == 3 {
        '3'
    } else if d == 4 {
        '4'
    } else if d == 5 {
        '5'
    } else if d == 6 {
        '6'
    } else if d == 7 {
        '7'
    } else if d == 8 {
        '8'
    } else {
        '9'
    }
}

/// The value of a decimal digit character, or -1 if it is none.
pub open spec fn spec_digit_value(c: char) -> int {
    if c == '0' {
        0
    } else if c == '1' {
        1
    } else if c == '2' {
        2
    } else if c == '3' {
        3
    } else if c == '4' {
        4
    } else if c == '5' {
        5
    } else if c == '6' {
        6
    } else if c == '7' {
        7
    } else if c == '8' {
        8
    } else if c == '9' {
        9
    } else {
        -1
    }
}

/// The decimal digit string of `n`, without sign and without leading zeros
/// (a single `'0'` for zero).
pub open spec fn spec_dec_string(n: nat) -> Seq<char>
    decreases n,
{
    if n < 10 {
        seq![spec_digit_char(n as int)]
    } else {
        spec_dec_string(n / 10).push(spec_digit_char((n % 10) as int))
    }
}

/// The numeric value of a digit string, read left to right.
pub open spec fn spec_dec_value(s: Seq<char>) -> int
    decreases s.len(),
{
    if s.len() == 0 {
        0
    } else {
        spec_dec_value(s.drop_last()) * 10 + spec_digit_value(s.last())
    }
}

/// Whether every character of `s` is a decimal digit.
pub open spec fn spec_all_digits(s: Seq<char>) -> bool {
    forall|i: int| 0 <= i < s.len() ==> spec_digit_value(#[trigger] s[i]) >= 0
}

fn digit_char(d: u64) -> (c: char)
    requires
        d < 10,
    ensures
        c == spec_digit_char(d as int),
{
    if d == 0 {
        '0'
    } else if d == 1 {
        '1'
    } else if d == 2 {
        '2'
    } else if d == 3 {
        '3'
    } else if d == 4 {
        '4'
    } else if d == 5 {
        '5'
    } else if d == 6 {
        '6'
    } else if d == 7 {
        '7'
    } else if d == 8 {
        '8'
    } else {
        '9'
    }
}

fn digit_value(c: char) -> (d: i32)
    ensures
        d == spec_digit_value(c),
{
    if c == '0' {
        0
    } else if c == '1' {
        1
    } else if c == '2' {
        2
    } else if c == '3' {
        3
    } else if c == '4' {
        4
    } else if c == '5' {
        5
    } else if c == '6' {
        6
    } else if c == '7' {
        7
    } else if c == '8' {
        8
    } else if c == '9' {
        9
    } else {
        -1
    }
}

/// Relies on std's `String::push`: appends one character at the end.
#[verifier::external_body]
pub fn push_char(s: &mut String, c: char)
    ensures
        final(s)@ == old(s)@.push(c),
{
    s.push(c);
}

/// Formats `n` in decimal.
pub fn u64_to_dec_string(n: u64) -> (r: String)
    ensures
        r@ == spec_dec_string(n as nat),
    decreases n,
{
    if n < 10 {
        let mut s = String::new();
        push_char(&mut s, digit_char(n));
        proof {
            assert(s@ =~= spec_dec_string(n as nat));
        }
        s
    } else {
        let mut s = u64_to_dec_string(n / 10);
        push_char(&mut s, digit_char(n % 10));
        s
    }
}

/// Parses a decimal digit string into a `u64`.
///
/// Succeeds exactly on nonempty all-digit strings whose value fits.
pub fn parse_u64_dec(s: &str) -> (r: Option<u64>)
    ensures
        r matches Some(v) ==> s@.len() > 0 && spec_all_digits(s@) && v == spec_dec_value(s@),
        r is None ==> s@.len() == 0 || !spec_all_digits(s@) || spec_dec_value(s@) > u64::MAX,
{
    let n = s.unicode_len();
    if n == 0 {
        return None;
    }
    let mut acc: u64 = 0;
    let mut i: usize = 0;
    while i < n
        invariant
            0 <= i <= n,
            n == s@.len(),
            spec_all_digits(s@.subrange(0, i as int)),
            acc == spec_dec_value(s@.subrange(0, i as int)),
        decreases n - i,
    {
        let c = s.get_char(i);
        let d = digit_value(c);
        if d < 0 {
            proof {
                assert(spec_digit_value(s@[i as int]) < 0);
            }
            return None;
        }
        let step = match acc.checked_mul(10) {
            Some(t) => t.checked_add(d as u64),
            None => None,
        };
        proof {
            assert(s@.subrange(0, i + 1).drop_last() =~= s@.subrange(0, i as int));
            assert(s@.subrange(0, i + 1).last() == s@[i as int]);
            lemma_dec_value_nonneg(s@.subrange(0, i as int));
        }
        match step {
            Some(t) => {
                acc = t;
            },
            None => {
                proof {
                    if spec_all_digits(s@) {
                        lemma_dec_value_grows(s@, i + 1);
                    }
                }
                return None;
            },
        }
        i = i + 1;
    }
    proof {
        assert(s@.subrange(0, n as int) =~= s@);
    }
    Some(acc)
}

/// A digit string's value is never negative.
pub proof fn lemma_dec_value_nonneg(s: Seq<char>)
    requires
        spec_all_digits(s),
    ensures
        spec_dec_value(s) >= 0,
    decreases s.len(),
{
    if s.len() > 0 {
        assert(spec_all_digits(s.drop_last()));
        lemma_dec_value_nonneg(s.drop_last());
    }
}

/// Extending a digit string only increases its value.
proof fn lemma_dec_value_grows(s: Seq<char>, i: int)
    requires
        0 <= i <= s.len(),
        spec_all_digits(s),
    ensures
        spec_dec_value(s) >= spec_dec_value(s.subrange(0, i)),
    decreases s.len() - i,
{
    if i < s.len() {
        lemma_dec_value_grows(s, i + 1);
        assert(s.subrange(0, i + 1).drop_last() =~= s.subrange(0, i));
        lemma_dec_value_nonneg(s.subrange(0, i));
    } else {
        assert(s.subrange(0, i) =~= s);
    }
}

/// The first position of `c` in `s`, or -1 if there is none.
pub open spec fn spec_find_char(s: Seq<char>, c: char) -> int
    decreases s.len(),
{
    if s.len() == 0 {
        -1
    } else if s[0] == c {
        0
    } else {
        let r = spec_find_char(s.drop_first(), c);
        if r < 0 {
            -1
        } else {
            r + 1
        }
    }
}

/// A scan that finds `c` at `i` after none before it finds the first one.
proof fn lemma_find_char_found(s: Seq<char>, c: char, i: int)
    requires
        0 <= i < s.len(),
        s[i] == c,
        forall|j: int| 0 <= j < i ==> s[j] != c,
    ensures
        spec_find_char(s, c) == i,
    decreases i,
{
    if i > 0 {
        let tail = s.drop_first();
        assert forall|j: int| 0 <= j < i - 1 implies tail[j] != c by {
            assert(tail[j] == s[j + 1]);
        }
        assert(tail[i - 1] == s[i]);
        lemma_find_char_found(tail, c, i - 1);
    }
}

/// A scan that finds no `c` means there is none.
proof fn lemma_find_char_none(s: Seq<char>, c: char)
    requires
        forall|j: int| 0 <= j < s.len() ==> s[j] != c,
    ensures
        spec_find_char(s, c) == -1,
    decreases s.len(),
{
    if s.len() > 0 {
        let tail = s.drop_first();
        assert forall|j: int| 0 <= j < tail.len() implies tail[j] != c by {
            assert(tail[j] == s[j + 1]);
        }
        lemma_find_char_none(tail, c);
    }
}

/// The first position of `c` in `s`, scanned left to right.
pub fn find_char(s: &str, c: char) -> (r: Option<usize>)
    ensures
        r matches Some(i) ==> i < s@.len() && spec_find_char(s@, c) == i,
        r is None ==> spec_find_char(s@, c) == -1,
{
    let n = s.unicode_len();
    let mut i: usize = 0;
    while i < n
        invariant
            0 <= i <= n,
            n == s@.len(),
            forall|j: int| 0 <= j < i ==> s@[j] != c,
        decreases n - i,
    {
        if s.get_char(i) == c {
            proof {
                lemma_find_char_found(s@, c, i as int);
            }
            return Some(i);
        }
        i = i + 1;
    }
    proof {
        lemma_find_char_none(s@, c);
    }
    None
}

/// Relies on std's `String::from_utf8`: succeeds exactly on valid UTF-8,
/// and the returned string's bytes are the input bytes.
#[verifier::external_body]
pub fn bytes_to_string(v: Vec<u8>) -> (r: Option<String>)
    ensures
        r matches Some(s) ==> vstd::utf8::valid_utf8(v@) && vstd::utf8::encode_utf8(s@) == v@,
        r is None <==> !vstd::utf8::valid_utf8(v@),
{
    String::from_utf8(v).ok()
}

/// Equality of two string slices, by characters.
pub fn str_eq(a: &str, b: &str) -> (r: bool)
    ensures
        r == (a@ == b@),
{
    let an = a.unicode_len();
    let bn = b.unicode_len();
    if an != bn {
        proof {
            assert(a@.len() != b@.len());
        }
        return false;
    }
    let mut i: usize = 0;
    while i < an
        invariant
            0 <= i <= an,
            an == a@.len(),
            an == b@.len(),
            forall|j: int| 0 <= j < i ==> a@[j] == b@[j],
        decreases an - i,
    {
        if a.get_char(i) != b.get_char(i) {
            return false;
        }
        i = i + 1;
    }
    proof {
        assert(a@ =~= b@);
    }
    true
}

} // verus!
