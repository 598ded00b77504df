//! Record identifiers: 16-byte values, their hyphenated lowercase hex
//! string form, and parsing of that form.

use vstd::prelude::*;
use crate::binio::push_char;

verus! {

/// Length in bytes of a record id.
pub const RECORD_ID_BYTES: usize = 16;

/// The lowercase hex character for a value below sixteen.
pub open spec fn spec_hex_char(d: int) -> char {
    if d == 0 {
        '0'
    } else if d == 1 {
        '1'
    } else if d == 2 {
        '2'
    } else if d == 3 {
        '3'
    } else if d == 4 {
        '4'
    } else if d == 5 {
        '5'
    } else if d == 6 {
        '6'
    } else if d == 7 {
        '7'
    } else if d == 8 {
        '8'
    } else if d == 9 {
        '9'
    } else if d == 10 {
        'a'
    } else if d == 11 {
        'b'
    } else if d == 12 {
        'c'
    } else if d == 13 {
        'd'
    } else if d == 14 {
        'e'
    } else {
        'f'
    }
}

/// The value of a lowercase hex character, or -1 if it is none.
pub open spec fn spec_hex_value(c: char) -> int {
    if c == '0' {
        0
    } else if c == '1' {
        1
    } else if c == '2' {
        2
    } else if c == '3' {
        3
    } else if c == '4' {
        4
    } else if c == '5' {
        5
    } else if c == '6' {
        6
    } else if c == '7' {
        7
    } else if c == '8' {
        8
    } else if c == '9' {
        9
    } else if c == 'a' {
        10
    } else if c == 'b' {
        11
    } else if c == 'c' {
        12
    } else if c == 'd' {
        13
    } else if c == 'e' {
        14
    } else if c == 'f' {
        15
    } else {
        -1
    }
}

/// The two lowercase hex characters of one byte.
pub open spec fn spec_hex_byte(b: u8) -> Seq<char> {
    seq![spec_hex_char(b as int / 16), spec_hex_char(b as int % 16)]
}

/// The lowercase hex characters of a byte string.
pub open spec fn spec_hex_bytes(bs: Seq<u8>) -> Seq<char>
    decreases bs.len(),
{
    if bs.len() == 0 {
        Seq::empty()
    } else {
        spec_hex_bytes(bs.drop_last()) + spec_hex_byte(bs.last())
    }
}

pub proof fn lemma_hex_bytes_len(bs: Seq<u8>)
    ensures
        spec_hex_bytes(bs).len() == 2 * bs.len(),
    decreases bs.len(),
{
    if bs.len() > 0 {
        lemma_hex_bytes_len(bs.drop_last());
    }
}

pub proof fn lemma_hex_bytes_index(bs: Seq<u8>, i: int)
    requires
        0 <= i < bs.len(),
    ensures
        spec_hex_bytes(bs).len() == 2 * bs.len(),
        spec_hex_bytes(bs)[2 * i] == spec_hex_char(bs[i] as int / 16),
        spec_hex_bytes(bs)[2 * i + 1] == spec_hex_char(bs[i] as int % 16),
    decreases bs.len(),
{
    lemma_hex_bytes_len(bs);
    if i < bs.len() - 1 {
        lemma_hex_bytes_index(bs.drop_last(), i);
    }
}

/// The canonical string form of a record id: five lowercase hex groups
/// of 8, 4, 4, 4 and 12 digits, separated by hyphens.
pub open spec fn spec_uuid_string(id: Seq<u8>) -> Seq<char> {
    spec_hex_bytes(id.subrange(0, 4)) + seq!['-'] + spec_hex_bytes(id.subrange(4, 6)) + seq!['-']
        + spec_hex_bytes(id.subrange(6, 8)) + seq!['-'] + spec_hex_bytes(id.subrange(8, 10))
        + seq!['-'] + spec_hex_bytes(id.subrange(10, 16))
}

/// Whether `s` has the shape of a record id string: length 36, hyphens at
/// positions 8, 13, 18 and 23, lowercase hex digits everywhere else.
pub open spec fn spec_is_uuid_string(s: Seq<char>) -> bool {
    &&& s.len() == 36
    &&& s[8] == '-'
    &&& s[13] == '-'
    &&& s[18] == '-'
    &&& s[23] == '-'
    &&& forall|k: int|
        0 <= k < 36 && k != 8 && k != 13 && k != 18 && k != 23 ==> spec_hex_value(#[trigger] s[k])
            >= 0
}

pub(crate) fn hex_char(d: u8) -> (c: char)
    requires
        d < 16,
    ensures
        c == spec_hex_char(d as int),
{
    if d < 10 {
        (48 + d) as char
    } else {
        (87 + d) as char
    }
}

pub(crate) fn hex_value(c: char) -> (d: i32)
    ensures
        d == spec_hex_value(c),
{
    let cu = c as u32;
    if 48 <= cu && cu <= 57 {
        (cu - 48) as i32
    } else if 97 <= cu && cu <= 102 {
        (cu - 87) as i32
    } else {
        -1
    }
}

/// Appends the lowercase hex digits of `id[from..to]` to `s`.
fn push_hex_range(s: &mut String, id: &[u8], from: usize, to: usize)
    requires
        from <= to <= id@.len(),
    ensures
        final(s)@ == old(s)@ + spec_hex_bytes(id@.subrange(from as int, to as int)),
{
    let mut i = from;
    proof {
        assert(s@ + spec_hex_bytes(id@.subrange(from as int, from as int)) =~= s@);
    }
    while i < to
        invariant
            from <= i <= to <= id@.len(),
            s@ == old(s)@ + spec_hex_bytes(id@.subrange(from as int, i as int)),
        decreases to - i,
    {
        let b = id[i];
        push_char(s, hex_char(b / 16));
        push_char(s, hex_char(b % 16));
        proof {
            let sub = id@.subrange(from as int, i + 1);
            assert(sub.drop_last() =~= id@.subrange(from as int, i as int));
            assert(sub.last() == id@[i as int]);
            assert(s@ =~= old(s)@ + spec_hex_bytes(sub));
        }
        i = i + 1;
    }
}

/// Formats a record id in its canonical hyphenated lowercase hex form.
pub fn uuid_to_string(id: &[u8]) -> (r: String)
    requires
        id@.len() == 16,
    ensures
        r@ == spec_uuid_string(id@),
{
    let mut s = String::new();
    push_hex_range(&mut s, id, 0, 4);
    push_char(&mut s, '-');
    push_hex_range(&mut s, id, 4, 6);
    push_char(&mut s, '-');
    push_hex_range(&mut s, id, 6, 8);
    push_char(&mut s, '-');
    push_hex_range(&mut s, id, 8, 10);
    push_char(&mut s, '-');
    push_hex_range(&mut s, id, 10, 16);
    proof {
        assert(s@ =~= spec_uuid_string(id@));
    }
    s
}

/// Position `j`'s digit pair in `s` spells byte `v[j]`.
pub open spec fn spec_uuid_digit_pair_ok(s: Seq<char>, v: Seq<u8>, j: int) -> bool {
    &&& spec_hex_value(s[spec_uuid_pos(j)]) == v[j] as int / 16
    &&& spec_hex_value(s[spec_uuid_pos(j) + 1]) == v[j] as int % 16
    &&& spec_hex_value(s[spec_uuid_pos(j)]) >= 0
    &&& spec_hex_value(s[spec_uuid_pos(j) + 1]) >= 0
}

/// Parses a record id string of the canonical shape; succeeds exactly on
/// strings of that shape, and the result formats back to the input.
pub fn parse_uuid(s: &str) -> (r: Option<Vec<u8>>)
    ensures
        r is Some <==> spec_is_uuid_string(s@),
        r matches Some(v) ==> v@.len() == 16 && s@ == spec_uuid_string(v@),
{
    if s.unicode_len() != 36 {
        return None;
    }
    if s.get_char(8) != '-' || s.get_char(13) != '-' || s.get_char(18) != '-' || s.get_char(23)
        != '-' {
        return None;
    }
    let mut v: Vec<u8> = Vec::new();
    let mut i: usize = 0;
    while i < 16
        invariant
            0 <= i <= 16,
            s@.len() == 36,
            v@.len() == i,
            forall|j: int| 0 <= j < i ==> #[trigger] spec_uuid_digit_pair_ok(s@, v@, j),
        decreases 16 - i,
    {
        let base: usize = if i < 4 {
            2 * i
        } else if i < 6 {
            9 + 2 * (i - 4)
        } else if i < 8 {
            14 + 2 * (i - 6)
        } else if i < 10 {
            19 + 2 * (i - 8)
        } else {
            24 + 2 * (i - 10)
        };
        proof {
            assert(base == spec_uuid_pos(i as int));
        }
        let hi = hex_value(s.get_char(base));
        let lo = hex_value(s.get_char(base + 1));
        if hi < 0 || lo < 0 {
            return None;
        }
        proof {
            assert(0 <= spec_hex_value(s@[base as int]) < 16);
            assert(0 <= spec_hex_value(s@[base as int + 1]) < 16);
        }
        let b: u8 = (hi as u8) * 16 + (lo as u8);
        let ghost v_before = v@;
        v.push(b);
        proof {
            assert forall|j: int| 0 <= j < i + 1 implies #[trigger] spec_uuid_digit_pair_ok(
                s@,
                v@,
                j,
            ) by {
                if j == i as int {
                    assert(v@[j] == b);
                    assert(b as int / 16 == hi as int);
                    assert(b as int % 16 == lo as int);
                } else {
                    assert(spec_uuid_digit_pair_ok(s@, v_before, j));
                    assert(v@[j] == v_before[j]);
                }
            }
        }
        i = i + 1;
    }
    proof {
        lemma_uuid_digits_to_string(s@, v@);
    }
    Some(v)
}

/// The string position of record-id byte `i`'s first hex digit.
pub open spec fn spec_uuid_pos(i: int) -> int {
    if i < 4 {
        2 * i
    } else if i < 6 {
        9 + 2 * (i - 4)
    } else if i < 8 {
        14 + 2 * (i - 6)
    } else if i < 10 {
        19 + 2 * (i - 8)
    } else {
        24 + 2 * (i - 10)
    }
}

/// A lowercase hex character is the character of its own value.
proof fn lemma_hex_char_value(c: char)
    requires
        spec_hex_value(c) >= 0,
    ensures
        spec_hex_char(spec_hex_value(c)) == c,
{
}

/// Every non-hyphen position of a record id string belongs to the digit
/// pair of exactly one byte.
proof fn lemma_uuid_pos_cover(k: int)
    requires
        0 <= k < 36,
        k != 8,
        k != 13,
        k != 18,
        k != 23,
    ensures
        0 <= spec_uuid_byte_of_pos(k) < 16,
        spec_uuid_pos(spec_uuid_byte_of_pos(k)) == k || spec_uuid_pos(spec_uuid_byte_of_pos(k)) + 1
            == k,
{
}

/// A 36-character string whose hyphens sit at the canonical positions and
/// whose digit pairs spell the bytes of `v` is `v`'s canonical string.
#[verifier::rlimit(60)]
proof fn lemma_uuid_digits_to_string(s: Seq<char>, v: Seq<u8>)
    requires
        s.len() == 36,
        v.len() == 16,
        s[8] == '-',
        s[13] == '-',
        s[18] == '-',
        s[23] == '-',
        forall|j: int| 0 <= j < 16 ==> #[trigger] spec_uuid_digit_pair_ok(s, v, j),
    ensures
        spec_is_uuid_string(s),
        s == spec_uuid_string(v),
{
    let t = spec_uuid_string(v);
    assert forall|j: int| 0 <= j < 16 implies {
        &&& t[spec_uuid_pos(j)] == spec_hex_char(v[j] as int / 16)
        &&& t[spec_uuid_pos(j) + 1] == spec_hex_char(v[j] as int % 16)
    } by {
        lemma_uuid_string_index(v, j);
    }
    assert(t.len() == 36) by {
        lemma_hex_bytes_len(v.subrange(0, 4));
        lemma_hex_bytes_len(v.subrange(4, 6));
        lemma_hex_bytes_len(v.subrange(6, 8));
        lemma_hex_bytes_len(v.subrange(8, 10));
        lemma_hex_bytes_len(v.subrange(10, 16));
    }
    assert forall|k: int| 0 <= k < 36 implies s[k] == t[k] by {
        if k == 8 || k == 13 || k == 18 || k == 23 {
            lemma_uuid_string_hyphens(v);
        } else {
            lemma_uuid_pos_cover(k);
            let j = spec_uuid_byte_of_pos(k);
            let base = spec_uuid_pos(j);
            assert(spec_uuid_digit_pair_ok(s, v, j));
            lemma_uuid_string_index(v, j);
            lemma_hex_char_value(s[k]);
        }
    }
    assert(s =~= t);
    assert forall|k: int|
        0 <= k < 36 && k != 8 && k != 13 && k != 18 && k != 23 implies spec_hex_value(
        #[trigger] s[k],
    ) >= 0 by {
        lemma_uuid_pos_cover(k);
        let j = spec_uuid_byte_of_pos(k);
        assert(spec_uuid_digit_pair_ok(s, v, j));
        assert(spec_uuid_pos(j) == k || spec_uuid_pos(j) + 1 == k);
    }
}

/// The record-id byte index whose digits cover string position `k`.
pub open spec fn spec_uuid_byte_of_pos(k: int) -> int {
    if k < 8 {
        k / 2
    } else if k < 13 {
        4 + (k - 9) / 2
    } else if k < 18 {
        6 + (k - 14) / 2
    } else if k < 23 {
        8 + (k - 19) / 2
    } else {
        10 + (k - 24) / 2
    }
}

proof fn lemma_uuid_string_hyphens(v: Seq<u8>)
    requires
        v.len() == 16,
    ensures
        spec_uuid_string(v).len() == 36,
        spec_uuid_string(v)[8] == '-',
        spec_uuid_string(v)[13] == '-',
        spec_uuid_string(v)[18] == '-',
        spec_uuid_string(v)[23] == '-',
{
    lemma_hex_bytes_len(v.subrange(0, 4));
    lemma_hex_bytes_len(v.subrange(4, 6));
    lemma_hex_bytes_len(v.subrange(6, 8));
    lemma_hex_bytes_len(v.subrange(8, 10));
    lemma_hex_bytes_len(v.subrange(10, 16));
}

proof fn lemma_uuid_string_index(v: Seq<u8>, j: int)
    requires
        v.len() == 16,
        0 <= j < 16,
    ensures
        spec_uuid_string(v).len() == 36,
        spec_uuid_string(v)[spec_uuid_pos(j)] == spec_hex_char(v[j] as int / 16),
        spec_uuid_string(v)[spec_uuid_pos(j) + 1] == spec_hex_char(v[j] as int % 16),
{
    lemma_hex_bytes_len(v.subrange(0, 4));
    lemma_hex_bytes_len(v.subrange(4, 6));
    lemma_hex_bytes_len(v.subrange(6, 8));
    lemma_hex_bytes_len(v.subrange(8, 10));
    lemma_hex_bytes_len(v.subrange(10, 16));
    if j < 4 {
        lemma_hex_bytes_index(v.subrange(0, 4), j);
    } else if j < 6 {
        lemma_hex_bytes_index(v.subrange(4, 6), j - 4);
    } else if j < 8 {
        lemma_hex_bytes_index(v.subrange(6, 8), j - 6);
    } else if j < 10 {
        lemma_hex_bytes_index(v.subrange(8, 10), j - 8);
    } else {
        lemma_hex_bytes_index(v.subrange(10, 16), j - 10);
    }
}

/// Equality of two record ids, byte for byte.
pub fn id_eq(a: &[u8], b: &[u8]) -> (r: bool)
    ensures
        r == (a@ == b@),
{
    if a.len() != b.len() {
        proof {
            assert(a@.len() != b@.len());
        }
        return false;
    }
    let n = a.len();
    let mut i: usize = 0;
    while i < n
        invariant
            0 <= i <= n,
            n == a@.len(),
            n == b@.len(),
            forall|j: int| 0 <= j < i ==> a@[j] == b@[j],
        decreases n - i,
    {
        if a[i] != b[i] {
            return false;
        }
        i = i + 1;
    }
    proof {
        assert(a@ =~= b@);
    }
    true
}

/// Relies on uuid's `Uuid::new_v4`: a freshly drawn random UUID is 16
/// bytes long; nothing is promised of its value.
#[verifier::external_body]
pub fn fresh_record_id() -> (r: Vec<u8>)
    ensures
        r@.len() == 16,
{
    uuid::Uuid::new_v4().as_bytes().to_vec()
}

} // verus!
