//! The calls into other crates and into parts of the standard library that the verifier does not
//! know. Their contracts are believed, not proved.

use crate::models::opt_texts;
use crate::text::texts;
use base64::Engine;
use image::codecs::png::{CompressionType, FilterType, PngEncoder};
use image::ImageEncoder;
use sha2::Digest;
use vstd::prelude::*;

verus! {

/// What `serde_json::from_str` reads from a JSON text as a list of strings, if it is one.
pub uninterp spec fn json_read(json: Seq<char>) -> Option<Seq<Seq<char>>>;

/// What `serde_json::to_string` writes for a list of strings.
pub uninterp spec fn json_written(list: Seq<Seq<char>>) -> Seq<char>;

/// `serde_json::from_str::<Vec<String>>`: the list that the JSON text stands for, or nothing where
/// the text is no JSON array of strings.
#[verifier::external_body]
pub(crate) fn read_json(json: &str) -> (r: Option<Vec<String>>)
    ensures
        opt_texts(r) == json_read(json@),
{
    serde_json::from_str::<Vec<String>>(json).ok()
}

/// `serde_json::to_string` on a list of strings, which never fails there. Reading the text back
/// gives the same list: every character is written as itself or as an escape that stands for it.
#[verifier::external_body]
pub(crate) fn write_json(list: &Vec<String>) -> (r: String)
    ensures
        r@ == json_written(texts(list@)),
        json_read(r@) == Some(texts(list@)),
{
    serde_json::to_string(list).unwrap_or_default()
}

/// The SHA-256 digest of a byte sequence.
pub uninterp spec fn sha256(bytes: Seq<u8>) -> Seq<u8>;

/// `sha2::Sha256::digest`: the digest, which has 32 bytes.
#[verifier::external_body]
pub(crate) fn sha256_digest(bytes: &[u8]) -> (r: Vec<u8>)
    ensures
        r@ == sha256(bytes@),
        r@.len() == 32,
{
    sha2::Sha256::digest(bytes).to_vec()
}

/// The standard base64 text, with padding, of a byte sequence.
pub uninterp spec fn base64_text(bytes: Seq<u8>) -> Seq<char>;

/// `base64::engine::general_purpose::STANDARD.encode`. It allocates four characters for each three
/// bytes begun, and panics where that is more than one allocation can hold.
#[verifier::external_body]
pub(crate) fn base64_encode(bytes: &[u8]) -> (r: String)
    requires
        (bytes@.len() + 2) / 3 * 4 <= isize::MAX,
    ensures
        r@ == base64_text(bytes@),
{
    base64::engine::general_purpose::STANDARD.encode(bytes)
}

/// The first and the last microsecond, counted from 1970, that a `chrono::DateTime<Utc>` can be.
pub const UTC_FIRST: i64 = -8334601228800000000;

pub const UTC_LAST: i64 = 8210266876799999999;

/// Date and time to the millisecond, as in `2024-01-31T08:00:00.000Z`.
pub const ISO_FORMAT: &'static str = "%Y-%m-%dT%H:%M:%S%.3fZ";

/// Date and time to the microsecond, for names of files.
pub const STAMP_MICROS: &'static str = "%Y%m%d_%H%M%S%6f";

/// Date and time to the millisecond, for names of files.
pub const STAMP_MILLIS: &'static str = "%Y%m%d_%H%M%S%3f";

/// The instant `micros`, counted from 1970, written in UTC under the `chrono` format `format`.
pub uninterp spec fn utc_text(micros: i64, format: Seq<char>) -> Seq<char>;

/// `chrono::DateTime::from_timestamp_micros` and `format` on what it gives: a text that depends on
/// the instant and the format alone. Outside of the range of instants there is no `DateTime`, and
/// a format that `chrono` does not know panics: only the three formats of this module are used.
#[verifier::external_body]
pub(crate) fn format_utc(micros: i64, format: &str) -> (r: String)
    requires
        UTC_FIRST <= micros <= UTC_LAST,
        format@ == ISO_FORMAT@ || format@ == STAMP_MICROS@ || format@ == STAMP_MILLIS@,
    ensures
        r@ == utc_text(micros, format@),
{
    chrono::DateTime::from_timestamp_micros(micros).unwrap().format(format).to_string()
}

/// `chrono::Utc::now` as microseconds since 1970. What the clock says is not known, only that it is
/// an instant that `chrono` can hold.
#[verifier::external_body]
pub(crate) fn clock_micros() -> (r: i64)
    ensures
        UTC_FIRST <= r <= UTC_LAST,
{
    chrono::Utc::now().timestamp_micros()
}

/// The picture in an image file's bytes: width, height and RGBA samples.
pub uninterp spec fn decoded_image(bytes: Seq<u8>) -> Option<(u32, u32, Seq<u8>)>;

/// `image::load_from_memory` and `to_rgba8`: the format is guessed from the bytes, and nothing
/// comes back where they are no picture that the crate can read. There are four samples for each
/// pixel.
#[verifier::external_body]
pub(crate) fn decode_image(bytes: &[u8]) -> (r: Option<(u32, u32, Vec<u8>)>)
    ensures
        match r {
            Some(p) => decoded_image(bytes@) == Some((p.0, p.1, p.2@)) && p.2@.len() == p.0 * p.1
                * 4,
            None => decoded_image(bytes@) is None,
        },
{
    let rgba = image::load_from_memory(bytes).ok()?.to_rgba8();
    Some((rgba.width(), rgba.height(), rgba.into_raw()))
}

/// The PNG file of RGBA samples, written for speed.
pub uninterp spec fn png_file(width: u32, height: u32, rgba: Seq<u8>) -> Option<Seq<u8>>;

/// `image::codecs::png::PngEncoder` with fast compression and the `Sub` filter, on RGBA samples.
/// It panics where the samples do not match the size; it gives no file where the size is one that
/// PNG does not know.
#[verifier::external_body]
pub(crate) fn encode_png(width: u32, height: u32, rgba: &[u8]) -> (r: Option<Vec<u8>>)
    requires
        rgba@.len() == width * height * 4,
    ensures
        match r {
            Some(v) => png_file(width, height, rgba@) == Some(v@),
            None => png_file(width, height, rgba@) is None,
        },
{
    let mut out: Vec<u8> = Vec::new();
    PngEncoder::new_with_quality(&mut out, CompressionType::Fast, FilterType::Sub)
        .write_image(rgba, width, height, image::ExtendedColorType::Rgba8)
        .ok()?;
    Some(out)
}

/// RGBA samples of a picture of `size.0` by `size.1`, resampled with the triangle filter to
/// `target.0` by `target.1`.
pub uninterp spec fn resampled(size: (u32, u32), rgba: Seq<u8>, target: (u32, u32)) -> Seq<u8>;

/// Up to this length of a side, single precision tells the places of the pixels apart well enough
/// that each pixel of the result has one of the picture within reach of the triangle filter.
pub const SIDE_LIMIT: u32 = 4_194_304;

/// `image::imageops::resize` with the triangle filter on RGBA samples. It works through a copy of
/// sixteen bytes for each pixel of the width before and the height after, and panics where a copy
/// is more than one allocation can hold. It finds the places of pixels in single precision, and
/// panics where no pixel is within reach of one, as it can be on longer sides than the limit; a
/// picture that keeps its size is copied.
#[verifier::external_body]
pub(crate) fn resize_rgba(size: (u32, u32), rgba: Vec<u8>, target: (u32, u32)) -> (r: Vec<u8>)
    requires
        rgba@.len() == size.0 * size.1 * 4,
        size == target || (size.0 <= SIDE_LIMIT && size.1 <= SIDE_LIMIT && target.0 <= SIDE_LIMIT
            && target.1 <= SIDE_LIMIT),
        size.0 * target.1 * 16 <= isize::MAX,
        target.0 * target.1 * 4 <= isize::MAX,
    ensures
        r@ == resampled(size, rgba@, target),
        r@.len() == target.0 * target.1 * 4,
{
    let image = image::RgbaImage::from_raw(size.0, size.1, rgba).unwrap();
    image::imageops::resize(&image, target.0, target.1, image::imageops::FilterType::Triangle).into_raw()
}

/// The size and the RGBA samples of a picture of `size.0` by `size.1` that was scaled, with its
/// proportions kept, to the largest size within `bounds`, with the triangle filter.
pub uninterp spec fn fitted(
    size: (u32, u32),
    rgba: Seq<u8>,
    bounds: (u32, u32),
) -> ((u32, u32), Seq<u8>);

/// `image::DynamicImage::resize` with the triangle filter on RGBA samples. Neither side of the
/// result is longer than that of the bounds, but for a side of one pixel. It panics as
/// [`resize_rgba`] does on such a size.
#[verifier::external_body]
pub(crate) fn fit_rgba(size: (u32, u32), rgba: Vec<u8>, bounds: (u32, u32)) -> (r: (
    (u32, u32),
    Vec<u8>,
))
    requires
        rgba@.len() == size.0 * size.1 * 4,
        size == bounds || (size.0 <= SIDE_LIMIT && size.1 <= SIDE_LIMIT && bounds.0 <= SIDE_LIMIT
            && bounds.1 <= SIDE_LIMIT),
        size.0 * bounds.1 * 16 <= isize::MAX,
        bounds.0 * bounds.1 * 4 <= isize::MAX,
    ensures
        (r.0, r.1@) == fitted(size, rgba@, bounds),
        r.1@.len() == r.0.0 * r.0.1 * 4,
        r.0.0 <= bounds.0 || r.0.0 == 1,
        r.0.1 <= bounds.1 || r.0.1 == 1,
{
    let image = image::DynamicImage::ImageRgba8(
        image::RgbaImage::from_raw(size.0, size.1, rgba).unwrap(),
    );
    let small = image.resize(bounds.0, bounds.1, image::imageops::FilterType::Triangle).to_rgba8();
    ((small.width(), small.height()), small.into_raw())
}

/// A text of ASCII characters.
pub open spec fn ascii(s: Seq<char>) -> bool {
    forall|i: int| 0 <= i < s.len() ==> #[trigger] s[i] <= '\u{7F}'
}

/// The lower case of an ASCII character.
pub open spec fn ascii_lower_char(c: char) -> char {
    if 'A' <= c && c <= 'Z' {
        (c as u32 + 32) as char
    } else {
        c
    }
}

/// The lower case of a text of ASCII characters.
pub open spec fn ascii_lower(s: Seq<char>) -> Seq<char> {
    s.map_values(|c: char| ascii_lower_char(c))
}

/// The lower case of a text.
pub uninterp spec fn lower(s: Seq<char>) -> Seq<char>;

/// `str::to_lowercase` of the standard library, which changes nothing but the capital letters of a
/// text of ASCII characters.
#[verifier::external_body]
pub(crate) fn to_lower(s: &str) -> (r: String)
    ensures
        r@ == lower(s@),
        ascii(s@) ==> r@ == ascii_lower(s@),
{
    s.to_lowercase()
}

/// The text of bytes read as UTF-8, with replacement characters for what is not.
pub uninterp spec fn utf8_lossy(bytes: Seq<u8>) -> Seq<char>;

/// `String::from_utf8_lossy` of the standard library.
#[verifier::external_body]
pub(crate) fn from_utf8_lossy(bytes: &[u8]) -> (r: String)
    ensures
        r@ == utf8_lossy(bytes@),
{
    String::from_utf8_lossy(bytes).into_owned()
}

/// `char::from_u32` of the standard library: the character with that code point, where it is one.
pub assume_specification[ char::from_u32 ](u: u32) -> (r: Option<char>)
    ensures
        match r {
            Some(c) => c as u32 == u,
            None => 0xD800 <= u <= 0xDFFF || u > 0x10FFFF,
        },
;

} // verus!
