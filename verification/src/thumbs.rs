//! Downscaling of PNG images for thumbnails and source-app icons.
use image::ImageFormat;
use vstd::prelude::*;

use crate::history::opt_bytes;

verus! {

/// Width and height of the image `bytes` decode to as PNG; `None` when they do not
/// decode (a name for what `image` computes).
pub uninterp spec fn png_size(bytes: Seq<u8>) -> Option<(u32, u32)>;

/// The PNG bytes of the image `bytes` decode to as PNG, scaled down with `thumbnail`
/// to fit a `max_dim` square and encoded as PNG again; `None` when decoding or
/// encoding fails (a name for what `image` computes).
pub uninterp spec fn png_thumbnail(bytes: Seq<u8>, max_dim: u32) -> Option<Seq<u8>>;

/// Calls `image::load_from_memory_with_format(png, ImageFormat::Png)` and reads the
/// decoded image's `width()` and `height()`. Claims that decoding succeeds exactly when
/// `png_size` of the bytes is some size, and then reports that size.
#[verifier::external_body]
fn decode_png(png: &[u8]) -> (r: Option<(u32, u32)>)
    ensures
        r == png_size(png@),
{
    match image::load_from_memory_with_format(png, ImageFormat::Png) {
        Ok(img) => Some((img.width(), img.height())),
        Err(_) => None,
    }
}

/// Calls `image::load_from_memory_with_format(png, ImageFormat::Png)`, then
/// `DynamicImage::thumbnail(max_dim, max_dim)` on the image, then `DynamicImage::write_to`
/// with `ImageFormat::Png` into an in-memory buffer. Claims that the bytes handed back
/// (or `None` when decoding or encoding reports an error) are `png_thumbnail` of the
/// input and `max_dim`.
#[verifier::external_body]
fn thumbnail_png(png: &[u8], max_dim: u32) -> (r: Option<Vec<u8>>)
    ensures
        opt_bytes(r) == png_thumbnail(png@, max_dim),
{
    let img = match image::load_from_memory_with_format(png, ImageFormat::Png) {
        Ok(img) => img,
        Err(_) => return None,
    };
    let thumb = img.thumbnail(max_dim, max_dim);
    let mut out = std::io::Cursor::new(Vec::new());
    match thumb.write_to(&mut out, ImageFormat::Png) {
        Ok(()) => Some(out.into_inner()),
        Err(_) => None,
    }
}

/// The image fits in a `max_dim` square.
pub open spec fn fits_within(size: (u32, u32), max_dim: u32) -> bool {
    size.0 <= max_dim && size.1 <= max_dim
}

/// What `downscale_png` gives for `png`: nothing when it is not a PNG or already fits,
/// else the scaled PNG (nothing when that fails).
pub open spec fn downscaled(png: Seq<u8>, max_dim: u32) -> Option<Seq<u8>> {
    match png_size(png) {
        None => None,
        Some(size) => if fits_within(size, max_dim) {
            None
        } else {
            png_thumbnail(png, max_dim)
        },
    }
}

/// An image that decodes to `w` x `h` pixels is scaled exactly when it is wider or
/// taller than `max_dim`; when it fits in the square, or does not decode, nothing is
/// made.
pub proof fn downscale_exactly_when_too_big(png: Seq<u8>, max_dim: u32)
    ensures
        png_size(png) is None ==> downscaled(png, max_dim) is None,
        png_size(png) matches Some((w, h)) && (w > max_dim || h > max_dim) ==> downscaled(
            png,
            max_dim,
        ) == png_thumbnail(png, max_dim),
        png_size(png) matches Some((w, h)) && w <= max_dim && h <= max_dim ==> downscaled(
            png,
            max_dim,
        ) is None,
{
}

/// A PNG of `png` scaled down to fit in a `max_dim` square, keeping its aspect ratio.
/// `None` when the bytes are not a PNG, when the image already fits, or when scaling
/// fails.
pub fn downscale_png(png: &[u8], max_dim: u32) -> (r: Option<Vec<u8>>)
    ensures
        opt_bytes(r) == downscaled(png@, max_dim),
{
    match decode_png(png) {
        None => None,
        Some((w, h)) => {
            if w <= max_dim && h <= max_dim {
                None
            } else {
                thumbnail_png(png, max_dim)
            }
        },
    }
}

} // verus!
