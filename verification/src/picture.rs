//! Pictures as RGBA samples: fingerprints, telling image files from others, PNG and thumbnails.

use crate::digits::{hex, hex_text, lemma_hex_injective, lemma_hex_len};
use crate::outside::{
    decode_image, decoded_image, encode_png, fit_rgba, fitted, png_file, resampled, resize_rgba,
    sha256, sha256_digest, SIDE_LIMIT,
};
use vstd::prelude::*;

verus! {

/// A picture: four samples (red, green, blue, opacity) for each pixel, row by row from the top.
#[derive(Debug)]
pub struct Picture {
    pub width: u32,
    pub height: u32,
    pub rgba: Vec<u8>,
}

impl Picture {
    /// The samples fit the size.
    pub open spec fn wf(&self) -> bool {
        self.rgba@.len() == self.width * self.height * 4
    }
}

/// The fingerprint of samples: their SHA-256 digest in hexadecimal.
pub open spec fn fingerprint(rgba: Seq<u8>) -> Seq<char> {
    hex(sha256(rgba))
}

/// The fingerprint of `bytes`.
pub fn hash_bytes(bytes: &[u8]) -> (r: String)
    ensures
        r@ == fingerprint(bytes@),
        r@.len() == 64,
{
    let digest = sha256_digest(bytes);
    proof {
        lemma_hex_len(digest@);
    }
    hex_text(&digest)
}

/// The fingerprint of a picture.
pub fn compute_image_hash(picture: &Picture) -> (r: String)
    ensures
        r@ == fingerprint(picture.rgba@),
        r@.len() == 64,
{
    hash_bytes(&picture.rgba)
}

/// Two byte sequences have the same fingerprint exactly when they have the same digest.
pub proof fn law_fingerprint_tells_digests_apart(a: Seq<u8>, b: Seq<u8>)
    ensures
        fingerprint(a) == fingerprint(b) <==> sha256(a) == sha256(b),
{
    if fingerprint(a) == fingerprint(b) {
        lemma_hex_injective(sha256(a), sha256(b));
    }
}

/// `head` begins with `sig`.
pub open spec fn begins(head: Seq<u8>, sig: Seq<u8>) -> bool {
    sig.len() <= head.len() && head.take(sig.len() as int) == sig
}

/// `head` begins as a file of one of the known image formats does.
pub open spec fn image_magic(head: Seq<u8>) -> bool {
    // PNG
    ||| begins(head, seq![0x89u8, 0x50, 0x4E, 0x47, 0x0D, 0x0A, 0x1A, 0x0A])
    // JPEG
    ||| begins(head, seq![0xFFu8, 0xD8, 0xFF])
    // GIF
    ||| begins(head, seq![0x47u8, 0x49, 0x46, 0x38])
    // BMP
    ||| begins(head, seq![0x42u8, 0x4D])
    // WebP: `RIFF`, a length, `WEBP`
    ||| head.len() >= 12 && begins(head, seq![0x52u8, 0x49, 0x46, 0x46]) && head.subrange(8, 12)
        == seq![0x57u8, 0x45, 0x42, 0x50]
    // TIFF, in either byte order
    ||| begins(head, seq![0x49u8, 0x49, 0x2A, 0x00])
    ||| begins(head, seq![0x4Du8, 0x4D, 0x00, 0x2A])
    // ICO
    ||| begins(head, seq![0x00u8, 0x00, 0x01, 0x00])
    // AVIF: a length, then `ftypavif` or `ftypavis`
    ||| head.len() >= 12 && (head.subrange(4, 12) == seq![
        0x66u8,
        0x74,
        0x79,
        0x70,
        0x61,
        0x76,
        0x69,
        0x66,
    ] || head.subrange(4, 12) == seq![0x66u8, 0x74, 0x79, 0x70, 0x61, 0x76, 0x69, 0x73])
}

fn matches_at(head: &[u8], at: usize, sig: &[u8]) -> (r: bool)
    requires
        at + sig@.len() <= usize::MAX,
    ensures
        r == (at + sig@.len() <= head@.len() && head@.subrange(at as int, at + sig@.len()) == sig@),
{
    let n: usize = head.len();
    if n < at + sig.len() {
        return false;
    }
    for i in 0..sig.len()
        invariant
            n == head@.len(),
            at + sig@.len() <= head@.len(),
            forall|j: int| 0 <= j < i ==> head@[at + j] == sig@[j],
    {
        if head[at + i] != sig[i] {
            assert(head@.subrange(at as int, at + sig@.len())[i as int] == head@[at + i]);
            return false;
        }
    }
    assert(head@.subrange(at as int, at + sig@.len()) =~= sig@);
    true
}

/// Whether the first bytes of a file are those of an image: PNG, JPEG, GIF, BMP, WebP, TIFF, ICO or
/// AVIF.
pub fn is_image_magic(head: &[u8]) -> (r: bool)
    ensures
        r == image_magic(head@),
{
    let png: [u8; 8] = [0x89, 0x50, 0x4E, 0x47, 0x0D, 0x0A, 0x1A, 0x0A];
    let jpeg: [u8; 3] = [0xFF, 0xD8, 0xFF];
    let gif: [u8; 4] = [0x47, 0x49, 0x46, 0x38];
    let bmp: [u8; 2] = [0x42, 0x4D];
    let riff: [u8; 4] = [0x52, 0x49, 0x46, 0x46];
    let webp: [u8; 4] = [0x57, 0x45, 0x42, 0x50];
    let tiff_le: [u8; 4] = [0x49, 0x49, 0x2A, 0x00];
    let tiff_be: [u8; 4] = [0x4D, 0x4D, 0x00, 0x2A];
    let ico: [u8; 4] = [0x00, 0x00, 0x01, 0x00];
    let avif: [u8; 8] = [0x66, 0x74, 0x79, 0x70, 0x61, 0x76, 0x69, 0x66];
    let avis: [u8; 8] = [0x66, 0x74, 0x79, 0x70, 0x61, 0x76, 0x69, 0x73];
    assert(png@ =~= seq![0x89u8, 0x50, 0x4E, 0x47, 0x0D, 0x0A, 0x1A, 0x0A]);
    assert(jpeg@ =~= seq![0xFFu8, 0xD8, 0xFF]);
    assert(gif@ =~= seq![0x47u8, 0x49, 0x46, 0x38]);
    assert(bmp@ =~= seq![0x42u8, 0x4D]);
    assert(riff@ =~= seq![0x52u8, 0x49, 0x46, 0x46]);
    assert(webp@ =~= seq![0x57u8, 0x45, 0x42, 0x50]);
    assert(tiff_le@ =~= seq![0x49u8, 0x49, 0x2A, 0x00]);
    assert(tiff_be@ =~= seq![0x4Du8, 0x4D, 0x00, 0x2A]);
    assert(ico@ =~= seq![0x00u8, 0x00, 0x01, 0x00]);
    assert(avif@ =~= seq![0x66u8, 0x74, 0x79, 0x70, 0x61, 0x76, 0x69, 0x66]);
    assert(avis@ =~= seq![0x66u8, 0x74, 0x79, 0x70, 0x61, 0x76, 0x69, 0x73]);
    matches_at(head, 0, &png) || matches_at(head, 0, &jpeg) || matches_at(head, 0, &gif)
        || matches_at(head, 0, &bmp) || (matches_at(head, 0, &riff) && matches_at(head, 8, &webp))
        || matches_at(head, 0, &tiff_le) || matches_at(head, 0, &tiff_be) || matches_at(
        head,
        0,
        &ico,
    ) || matches_at(head, 4, &avif) || matches_at(head, 4, &avis)
}

/// What is known of a file that may be an image.
pub enum Probe {
    /// It is this picture.
    Image(Picture),
    /// It is not an image.
    NotImage,
    /// Its first bytes must be looked at.
    NeedHead,
    /// It must be read whole.
    NeedBody,
}

/// After an attempt to open the file by its name's extension.
pub fn probe_opened(opened: Option<Picture>) -> (r: Probe)
    ensures
        r == match opened {
            Some(p) => Probe::Image(p),
            None => Probe::NeedHead,
        },
{
    match opened {
        Some(p) => Probe::Image(p),
        None => Probe::NeedHead,
    }
}

/// After its first twelve bytes, or all of fewer, were read: a large file that is no image is not
/// read whole.
pub fn probe_head(head: &[u8]) -> (r: Probe)
    ensures
        r is NeedBody <==> image_magic(head@),
        r is NotImage <==> !image_magic(head@),
{
    if is_image_magic(head) {
        Probe::NeedBody
    } else {
        Probe::NotImage
    }
}

/// After the whole file was read.
pub fn probe_body(bytes: &[u8]) -> (r: Probe)
    ensures
        match decoded_image(bytes@) {
            Some(p) => r matches Probe::Image(q) && q.wf() && q.width == p.0 && q.height == p.1
                && q.rgba@ == p.2,
            None => r is NotImage,
        },
{
    probe_decoded(decode_image(bytes))
}

/// What an attempt to decode a file's bytes says of the file.
pub fn probe_decoded(decoded: Option<(u32, u32, Vec<u8>)>) -> (r: Probe)
    ensures
        match decoded {
            Some(p) => r matches Probe::Image(q) && q.width == p.0 && q.height == p.1 && q.rgba
                == p.2,
            None => r is NotImage,
        },
{
    match decoded {
        Some(p) => Probe::Image(Picture { width: p.0, height: p.1, rgba: p.2 }),
        None => Probe::NotImage,
    }
}

/// The samples that a picture of `width` by `height` has, out of at least that many bytes.
pub open spec fn sample_count(width: nat, height: nat) -> nat {
    width * height * 4
}

/// A picture from the bytes that the clipboard hands out; nothing where they are too few. What is
/// over is left away.
pub fn picture_from_raw(width: u32, height: u32, bytes: Vec<u8>) -> (r: Option<Picture>)
    ensures
        r is Some <==> bytes@.len() >= sample_count(width as nat, height as nat),
        r matches Some(p) ==> p.wf() && p.width == width && p.height == height && p.rgba@
            == bytes@.take(sample_count(width as nat, height as nat) as int),
{
    assert(width * height * 4 <= 0xFFFF_FFFF * 0xFFFF_FFFF * 4) by (nonlinear_arith)
        requires
            width <= 0xFFFF_FFFF,
            height <= 0xFFFF_FFFF,
    ;
    assert(0 <= width * height) by (nonlinear_arith);
    let need: u128 = (width as u128) * (height as u128) * 4;
    if (bytes.len() as u128) < need {
        return None;
    }
    let mut rgba = bytes;
    rgba.truncate(need as usize);
    Some(Picture { width, height, rgba })
}

/// The PNG file of a picture, compressed lightly so that large pictures do not take long.
pub fn png_fast(picture: &Picture) -> (r: Option<Vec<u8>>)
    requires
        picture.wf(),
    ensures
        match r {
            Some(v) => png_file(picture.width, picture.height, picture.rgba@) == Some(v@),
            None => png_file(picture.width, picture.height, picture.rgba@) is None,
        },
{
    encode_png(picture.width, picture.height, &picture.rgba)
}

/// Thumbnails are at most this high.
pub const THUMB_HEIGHT: u32 = 128;

/// The size of the thumbnail of a picture of `size`: the picture's own, unless it is too high. The
/// width that goes with the greatest height is `scaled`.
pub open spec fn thumb_size(size: (u32, u32), scaled: u32) -> (u32, u32) {
    if size.1 > THUMB_HEIGHT {
        (scaled, THUMB_HEIGHT)
    } else {
        size
    }
}

/// The size of the thumbnail of a picture of `width` by `height`.
pub fn thumbnail_size(width: u32, height: u32, scaled: u32) -> (r: (u32, u32))
    ensures
        r == thumb_size((width, height), scaled),
{
    if height > THUMB_HEIGHT {
        (scaled, THUMB_HEIGHT)
    } else {
        (width, height)
    }
}

/// Whether a thumbnail can be made of a picture of `width` by `height`: of one that is too high, the
/// sides must be within what can be resampled, and no copy may be larger than memory can hold.
pub open spec fn can_shrink(width: u32, height: u32, scaled: u32) -> bool {
    &&& height > THUMB_HEIGHT ==> width <= SIDE_LIMIT && height <= SIDE_LIMIT && scaled
        <= SIDE_LIMIT
    &&& width * THUMB_HEIGHT * 16 <= isize::MAX
    &&& scaled * THUMB_HEIGHT * 4 <= isize::MAX
    &&& width * height * 4 <= isize::MAX
}

/// Whether a thumbnail can be made of a picture.
pub fn is_shrinkable(picture: &Picture, scaled: u32) -> (r: bool)
    ensures
        r == (picture.wf() && can_shrink(picture.width, picture.height, scaled)),
{
    let (w, h, s) = (picture.width as u128, picture.height as u128, scaled as u128);
    assert(0 <= w * h <= 0xFFFF_FFFF * 0xFFFF_FFFF) by (nonlinear_arith)
        requires
            0 <= w <= 0xFFFF_FFFF,
            0 <= h <= 0xFFFF_FFFF,
    ;
    let limit: u128 = isize::MAX as u128;
    picture.rgba.len() as u128 == w * h * 4 && (picture.height <= THUMB_HEIGHT || (picture.width
        <= SIDE_LIMIT && picture.height <= SIDE_LIMIT && scaled <= SIDE_LIMIT)) && w * 128 * 16
        <= limit && s * 128 * 4 <= limit && w * h * 4 <= limit
}

/// The picture scaled down to a thumbnail, with its proportions kept.
pub fn fitted_thumbnail(picture: Picture, scaled: u32) -> (r: Picture)
    requires
        picture.wf(),
        can_shrink(picture.width, picture.height, scaled),
    ensures
        r.wf(),
        ((r.width, r.height), r.rgba@) == fitted(
            (picture.width, picture.height),
            picture.rgba@,
            thumb_size((picture.width, picture.height), scaled),
        ),
        r.height <= THUMB_HEIGHT,
        r.width <= thumb_size((picture.width, picture.height), scaled).0 || r.width == 1,
{
    let size: (u32, u32) = (picture.width, picture.height);
    let target: (u32, u32) = thumbnail_size(picture.width, picture.height, scaled);
    assert(size.0 * target.1 * 16 <= size.0 * THUMB_HEIGHT * 16) by (nonlinear_arith)
        requires
            target.1 <= THUMB_HEIGHT,
    ;
    let (small, rgba) = fit_rgba(size, picture.rgba, target);
    Picture { width: small.0, height: small.1, rgba }
}

/// The thumbnail of a picture.
pub fn thumbnail(picture: Picture, scaled: u32) -> (r: Picture)
    requires
        picture.wf(),
        can_shrink(picture.width, picture.height, scaled),
    ensures
        r.wf(),
        (r.width, r.height) == thumb_size((picture.width, picture.height), scaled),
        r.height <= THUMB_HEIGHT,
        r.rgba@ == resampled(
            (picture.width, picture.height),
            picture.rgba@,
            thumb_size((picture.width, picture.height), scaled),
        ),
{
    let size: (u32, u32) = (picture.width, picture.height);
    let target: (u32, u32) = thumbnail_size(picture.width, picture.height, scaled);
    assert(size.0 * target.1 * 16 <= size.0 * THUMB_HEIGHT * 16) by (nonlinear_arith)
        requires
            target.1 <= THUMB_HEIGHT,
    ;
    let rgba = resize_rgba(size, picture.rgba, target);
    Picture { width: target.0, height: target.1, rgba }
}

} // verus!
