//! Resize dimensions for on-read transcoding: a pair of axes, each a
//! positive pixel count or `auto`, parsed from a `{W}x{H}` token, and the
//! predicate for which MIME types the codec accepts.

use vstd::prelude::*;
use crate::binio::{str_eq, parse_u64_dec, find_char, spec_find_char, spec_all_digits, spec_dec_value};
use crate::mime::MimeType;

verus! {

/// One axis of a resize request: keep the aspect ratio, or a positive
/// pixel count.
#[derive(Clone, Copy, PartialEq, Eq, Structural, Debug)]
pub enum Resize {
    Auto,
    Dimension(u32),
}

/// Both axes of a resize request.
#[derive(Clone, Copy, PartialEq, Eq, Structural, Debug)]
pub struct Dimensions(pub Resize, pub Resize);

/// Rejection of a malformed dimension token.
#[derive(PartialEq, Eq, Structural, Debug)]
pub struct DimensionParsingError;

/// What one axis token denotes: `auto`, or a positive decimal that fits
/// 32 bits; `None` otherwise.
pub open spec fn spec_parse_axis(s: Seq<char>) -> Option<Resize> {
    if s == "auto"@ {
        Some(Resize::Auto)
    } else if s.len() > 0 && spec_all_digits(s) && 1 <= spec_dec_value(s) <= u32::MAX {
        Some(Resize::Dimension(spec_dec_value(s) as u32))
    } else {
        None
    }
}

/// What a `{W}x{H}` token denotes: both axes split at the first `x`;
/// `None` if there is no `x` or either axis is malformed.
pub open spec fn spec_parse_dims(s: Seq<char>) -> Option<Dimensions> {
    let xi = spec_find_char(s, 'x');
    if xi < 0 {
        None
    } else {
        match (spec_parse_axis(s.subrange(0, xi)), spec_parse_axis(
            s.subrange(xi + 1, s.len() as int),
        )) {
            (Some(w), Some(h)) => Some(Dimensions(w, h)),
            _ => None,
        }
    }
}

fn parse_axis(s: &str) -> (r: Option<Resize>)
    ensures
        r == spec_parse_axis(s@),
{
    if str_eq(s, "auto") {
        return Some(Resize::Auto);
    }
    match parse_u64_dec(s) {
        Some(v) => {
            if 1 <= v && v <= u32::MAX as u64 {
                proof {
                    crate::binio::lemma_dec_value_nonneg(s@);
                }
                Some(Resize::Dimension(v as u32))
            } else {
                None
            }
        },
        None => None,
    }
}

impl Dimensions {
    /// Parses a `{W}x{H}` token, each side `auto` or a positive decimal.
    ///
    /// Succeeds exactly on well-formed tokens and returns what they
    /// denote.
    pub fn from_dim_str(resize_str: &str) -> (r: Result<Dimensions, DimensionParsingError>)
        ensures
            r matches Ok(d) ==> spec_parse_dims(resize_str@) == Some(d),
            r is Err <==> spec_parse_dims(resize_str@) is None,
    {
        let xi = match find_char(resize_str, 'x') {
            Some(i) => i,
            None => {
                return Err(DimensionParsingError);
            },
        };
        let n = resize_str.unicode_len();
        let w = parse_axis(resize_str.substring_char(0, xi));
        let h = parse_axis(resize_str.substring_char(xi + 1, n));
        match (w, h) {
            (Some(w), Some(h)) => Ok(Dimensions(w, h)),
            _ => Err(DimensionParsingError),
        }
    }
}

/// Relies on image's `ImageFormat::from_mime_type`, whose match over the
/// MIME string is fixed in its source: of the formats it recognises, PNG,
/// JPEG, WebP and BMP are the ones the transcoder here accepts.
#[verifier::external_body]
pub fn is_resizeable_format(mimetype: &MimeType) -> (r: bool)
    ensures
        r == (mimetype@ == "image/png"@ || mimetype@ == "image/jpeg"@ || mimetype@
            == "image/webp"@ || mimetype@ == "image/bmp"@),
{
    match image::ImageFormat::from_mime_type(mimetype.as_str()) {
        Some(f) => matches!(
            f,
            image::ImageFormat::Png | image::ImageFormat::Jpeg | image::ImageFormat::WebP
                | image::ImageFormat::Bmp
        ),
        None => false,
    }
}

} // verus!
