//! MIME types: a validated lowercase `type/subtype` string, and the base64
//! filename encoding that names each partition file on disk.

use vstd::prelude::*;
use vstd::utf8::{encode_utf8, valid_utf8, encode_utf8_valid_utf8, encode_utf8_decode_utf8};
use vstd::string::StringSliceAdditionalSpecFns;
use crate::binio::bytes_to_string;
use base64::Engine;

verus! {

/// Shortest acceptable MIME string, in characters.
pub const MIN_MIMETYPE_LENGTH: usize = 3;

/// Longest acceptable MIME string, in characters.
pub const MAX_MIMETYPE_LENGTH: usize = 255;

/// A millisecond Unix timestamp, stored on disk as 8 little-endian bytes.
#[derive(Clone, Copy, PartialEq, Eq, Structural, Debug)]
pub struct VennTimestamp(pub i64);

impl VennTimestamp {
    /// Relies on chrono's `Utc::now().timestamp_millis()`; nothing can be
    /// promised of the clock's reading.
    #[verifier::external_body]
    pub fn now() -> VennTimestamp {
        VennTimestamp(chrono::Utc::now().timestamp_millis())
    }
}

/// Rejection of a string that is not a well-formed MIME type.
#[derive(Debug, PartialEq, Eq, Structural)]
pub struct InvalidMimeType;

/// A MIME type string, grouping records into one partition.
///
/// `from` accepts exactly the well-formed ones; a value decoded from a
/// partition's file name carries whatever string the name held, as the
/// directory format does not re-validate.
#[derive(Eq, Hash, Clone)]
pub struct MimeType(String);

impl View for MimeType {
    type V = Seq<char>;

    closed spec fn view(&self) -> Seq<char> {
        self.0@
    }
}

impl PartialEq for MimeType {
    fn eq(&self, other: &MimeType) -> (r: bool) {
        self.0 == other.0
    }
}

impl vstd::std_specs::cmp::PartialEqSpecImpl for MimeType {
    open spec fn obeys_eq_spec() -> bool {
        true
    }

    open spec fn eq_spec(&self, other: &MimeType) -> bool {
        self@ == other@
    }
}

/// ASCII uppercase letters mapped to lowercase; all else unchanged.
pub open spec fn spec_lower_char(c: char) -> char {
    if 65 <= c as u32 <= 90 {
        ((c as u32 + 32) as u8) as char
    } else {
        c
    }
}

/// The string with every ASCII uppercase letter lowercased.
pub open spec fn spec_lower(s: Seq<char>) -> Seq<char> {
    s.map(|_i: int, c: char| spec_lower_char(c))
}

/// Whether `c` may appear in a MIME type: lowercase letters, digits,
/// `-`, `+` and `/`.
pub open spec fn spec_valid_mime_char(c: char) -> bool {
    ||| 97 <= c as u32 <= 122
    ||| 48 <= c as u32 <= 57
    ||| c == '-'
    ||| c == '+'
    ||| c == '/'
}

/// How many times `c` occurs in `s`.
pub open spec fn spec_count_char(s: Seq<char>, c: char) -> int
    decreases s.len(),
{
    if s.len() == 0 {
        0
    } else {
        spec_count_char(s.drop_last(), c) + if s.last() == c {
            1int
        } else {
            0int
        }
    }
}

/// A well-formed MIME string: bounded length, permitted characters only,
/// and exactly one `/`.
pub open spec fn spec_valid_mime(s: Seq<char>) -> bool {
    &&& 3 <= s.len() <= 255
    &&& forall|i: int| 0 <= i < s.len() ==> spec_valid_mime_char(#[trigger] s[i])
    &&& spec_count_char(s, '/') == 1
}

fn lower_char(c: char) -> (r: char)
    ensures
        r == spec_lower_char(c),
{
    let cu = c as u32;
    if 65 <= cu && cu <= 90 {
        ((cu + 32) as u8) as char
    } else {
        c
    }
}

fn valid_mime_char(c: char) -> (r: bool)
    ensures
        r == spec_valid_mime_char(c),
{
    let cu = c as u32;
    (97 <= cu && cu <= 122) || (48 <= cu && cu <= 57) || c == '-' || c == '+' || c == '/'
}

impl MimeType {
    /// Validates `mimetype` after ASCII-lowercasing it.
    ///
    /// Succeeds exactly when the lowercased string is a well-formed MIME
    /// type, and then holds that string.
    pub fn from(mimetype: &str) -> (r: Result<MimeType, InvalidMimeType>)
        ensures
            r matches Ok(m) ==> m@ == spec_lower(mimetype@) && spec_valid_mime(m@),
            r is Ok <==> spec_valid_mime(spec_lower(mimetype@)),
    {
        let n = mimetype.unicode_len();
        let mut low = String::new();
        let mut i: usize = 0;
        while i < n
            invariant
                0 <= i <= n,
                n == mimetype@.len(),
                low@ =~= spec_lower(mimetype@).subrange(0, i as int),
            decreases n - i,
        {
            crate::binio::push_char(&mut low, lower_char(mimetype.get_char(i)));
            proof {
                assert(low@ =~= spec_lower(mimetype@).subrange(0, i + 1));
            }
            i = i + 1;
        }
        proof {
            assert(low@ =~= spec_lower(mimetype@));
        }
        if n < MIN_MIMETYPE_LENGTH || n > MAX_MIMETYPE_LENGTH {
            return Err(InvalidMimeType);
        }
        let mut slashes: u64 = 0;
        let mut j: usize = 0;
        while j < n
            invariant
                0 <= j <= n,
                n == low@.len(),
                low@ == spec_lower(mimetype@),
                3 <= n <= 255,
                slashes == spec_count_char(low@.subrange(0, j as int), '/'),
                slashes <= j,
                forall|k: int| 0 <= k < j ==> spec_valid_mime_char(#[trigger] low@[k]),
            decreases n - j,
        {
            let c = low.as_str().get_char(j);
            if !valid_mime_char(c) {
                return Err(InvalidMimeType);
            }
            proof {
                assert(low@.subrange(0, j + 1).drop_last() =~= low@.subrange(0, j as int));
            }
            if c == '/' {
                slashes = slashes + 1;
            }
            j = j + 1;
        }
        proof {
            assert(low@.subrange(0, n as int) =~= low@);
        }
        if slashes == 1 {
            Ok(MimeType(low))
        } else {
            Err(InvalidMimeType)
        }
    }

    /// The MIME string itself.
    pub fn as_str(&self) -> (r: &str)
        ensures
            r@ == self@,
    {
        self.0.as_str()
    }

    /// A copy of this MIME type.
    pub fn clone_mime(&self) -> (r: MimeType)
        ensures
            r@ == self@,
    {
        MimeType(self.0.clone())
    }

    /// Wraps a string without validation, as the in-memory directory format
    /// does for decoded file names.
    pub fn from_string_unchecked(s: String) -> (r: MimeType)
        ensures
            r@ == s@,
    {
        MimeType(s)
    }

    /// The file name under which this MIME type's partition is stored:
    /// standard-alphabet base64 of the UTF-8 bytes, without padding.
    pub fn to_base64_pathname(&self) -> (r: String)
        ensures
            r@ == base64_of(encode_utf8(self@)),
    {
        base64_encode_str(self.0.as_str())
    }

    /// Recovers a MIME type from a partition file name.
    ///
    /// Succeeds exactly when the name is the base64 encoding of some UTF-8
    /// string, and then returns that string; in particular it inverts
    /// `to_base64_pathname`. No MIME validation is applied.
    pub fn from_base64_filename(name: &str) -> (r: Result<MimeType, InvalidMimeType>)
        ensures
            r matches Ok(m) ==> name@ == base64_of(encode_utf8(m@)),
            forall|t: Seq<char>| name@ == base64_of(encode_utf8(t)) ==> (r matches Ok(m) && m@
                == t),
    {
        let decoded = match base64_decode(name) {
            Some(b) => b,
            None => {
                proof {
                    assert forall|t: Seq<char>| name@ != base64_of(encode_utf8(t)) by {
                        let probe = base64_of(encode_utf8(t));
                    }
                }
                return Err(InvalidMimeType);
            },
        };
        match bytes_to_string(decoded) {
            Some(s) => {
                proof {
                    assert forall|t: Seq<char>| name@ == base64_of(encode_utf8(t)) implies s@
                        == t by {
                        encode_utf8_valid_utf8(t);
                        encode_utf8_decode_utf8(t);
                        encode_utf8_decode_utf8(s@);
                    }
                }
                Ok(MimeType(s))
            },
            None => {
                proof {
                    assert forall|t: Seq<char>| name@ != base64_of(encode_utf8(t)) by {
                        if name@ == base64_of(encode_utf8(t)) {
                            encode_utf8_valid_utf8(t);
                        }
                    }
                }
                Err(InvalidMimeType)
            },
        }
    }
}

/// The base64 encoding, standard alphabet without padding, of a byte string.
pub uninterp spec fn base64_of(b: Seq<u8>) -> Seq<char>;

/// Relies on base64's `STANDARD_NO_PAD` engine `encode`: the result is a
/// function of the input bytes alone.
#[verifier::external_body]
fn base64_encode_str(s: &str) -> (r: String)
    ensures
        r@ == base64_of(s.spec_bytes()),
{
    base64::engine::general_purpose::STANDARD_NO_PAD.encode(s.as_bytes())
}

/// Relies on base64's `STANDARD_NO_PAD` engine `decode`: it accepts exactly
/// the canonical unpadded encodings (no padding allowed, trailing bits
/// checked), so it succeeds precisely on `encode`'s outputs and inverts it.
#[verifier::external_body]
fn base64_decode(s: &str) -> (r: Option<Vec<u8>>)
    ensures
        r matches Some(b) ==> s@ == base64_of(b@),
        r matches Some(b) ==> forall|c: Seq<u8>| s@ == base64_of(c) ==> c == b@,
        forall|c: Seq<u8>| s@ == base64_of(c) ==> r is Some,
{
    base64::engine::general_purpose::STANDARD_NO_PAD.decode(s).ok()
}

} // verus!
