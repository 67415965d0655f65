//! What a clipboard capture becomes: the pasteboard content chosen by priority and
//! the history item built from it (kind, dedup hash, size on disk).
use vstd::prelude::*;
use vstd::utf8::encode_utf8;

use crate::hashing::{content_hash, content_hash_of, is_lower_hex};
use crate::history::{opt_bytes, opt_str, opt_strs, NewItem, NewItemView};
use crate::text::{concat_str, is_blank, is_blank_str, join_lines, join_with_newlines};
use crate::thumbs::{downscale_png, downscaled};

verus! {

broadcast use vstd::string::group_string_axioms;

/// Longest side of a stored thumbnail, in pixels.
pub const THUMB_MAX_DIM: u32 = 480;

/// Longest side of a stored source-app icon, in pixels.
pub const ICON_MAX_DIM: u32 = 64;

/// Content read off the pasteboard, richest format first.
#[derive(Debug)]
pub enum Captured {
    Text { plain: String, rtf: Option<Vec<u8>>, html: Option<String> },
    Image { png: Vec<u8> },
    Files { paths: Vec<String> },
}

/// Everything the pasteboard offers at one change: the file paths of file-URL items,
/// PNG data, TIFF data re-encoded as PNG, the plain string and its rich flavours.
#[derive(Debug)]
pub struct PasteboardContents {
    pub file_paths: Vec<String>,
    pub png: Option<Vec<u8>>,
    pub tiff_as_png: Option<Vec<u8>>,
    pub string: Option<String>,
    pub rtf: Option<Vec<u8>>,
    pub html: Option<String>,
}

/// The capture taken from the pasteboard: Finder files first, then a PNG image, then a
/// TIFF image, then non-empty text with its rich flavours; nothing otherwise.
pub fn choose_capture(pb: PasteboardContents) -> (r: Option<Captured>)
    ensures
        pb.file_paths@.len() > 0 ==> (r matches Some(Captured::Files { paths }) && paths.deep_view()
            == pb.file_paths.deep_view()),
        pb.file_paths@.len() == 0 && pb.png is Some ==> (r matches Some(Captured::Image { png })
            && png@ == pb.png->0@),
        pb.file_paths@.len() == 0 && pb.png is None && pb.tiff_as_png is Some ==> (r matches Some(
            Captured::Image { png },
        ) && png@ == pb.tiff_as_png->0@),
        pb.file_paths@.len() == 0 && pb.png is None && pb.tiff_as_png is None ==> match pb.string {
            Some(s) => if s@.len() == 0 {
                r is None
            } else {
                r matches Some(Captured::Text { plain, rtf, html }) && plain@ == s@ && opt_bytes(rtf)
                    == opt_bytes(pb.rtf) && opt_str(html) == opt_str(pb.html)
            },
            None => r is None,
        },
{
    if pb.file_paths.len() > 0 {
        return Some(Captured::Files { paths: pb.file_paths });
    }
    if let Some(png) = pb.png {
        return Some(Captured::Image { png });
    }
    if let Some(png) = pb.tiff_as_png {
        return Some(Captured::Image { png });
    }
    match pb.string {
        Some(s) => {
            if s.as_str().is_empty() {
                None
            } else {
                Some(Captured::Text { plain: s, rtf: pb.rtf, html: pb.html })
            }
        },
        None => None,
    }
}

/// Number of bytes of the UTF-8 encoding of `s`, as `str::len` reports it.
pub open spec fn utf8_len(s: Seq<char>) -> int {
    (encode_utf8(s).len() as usize) as int
}

/// The history item for copied text: `None` when the text is blank; otherwise kind
/// `text`, deduplicated by the SHA-256 of the plain text, and sized by the plain,
/// RTF and HTML flavours together.
pub fn text_item(
    plain: String,
    rtf: Option<Vec<u8>>,
    html: Option<String>,
    source_app: Option<String>,
    source_bundle_id: Option<String>,
    source_icon_path: Option<String>,
) -> (r: Option<NewItem<'static>>)
    ensures
        is_blank(plain@) ==> r is None,
        !is_blank(plain@) ==> (r matches Some(n) && n@ == NewItemView {
            kind: "text"@,
            hash: content_hash_of(encode_utf8(plain@)),
            plain_text: Some(plain@),
            rtf: opt_bytes(rtf),
            html: opt_str(html),
            image_path: None,
            thumb_path: None,
            file_paths: None,
            byte_size: (utf8_len(plain@) + (match rtf {
                Some(b) => b@.len() as int,
                None => 0int,
            }) + (match html {
                Some(h) => utf8_len(h@),
                None => 0int,
            })) as i64,
            source_app: opt_str(source_app),
            source_bundle_id: opt_str(source_bundle_id),
            source_icon_path: opt_str(source_icon_path),
        }),
        r matches Some(n) ==> n.hash@.len() == 64 && is_lower_hex(n.hash@),
{
    if is_blank_str(plain.as_str()) {
        return None;
    }
    let hash = content_hash(plain.as_str().as_bytes());
    let rtf_len: usize = match &rtf {
        Some(b) => b.len(),
        None => 0,
    };
    let html_len: usize = match &html {
        Some(h) => h.as_str().len(),
        None => 0,
    };
    let total: u128 = plain.as_str().len() as u128 + rtf_len as u128 + html_len as u128;
    let byte_size = total as i64;
    assert(hash@ == content_hash_of(encode_utf8(plain@)));
    Some(
        NewItem {
            kind: "text",
            hash,
            plain_text: Some(plain),
            rtf,
            html,
            image_path: None,
            thumb_path: None,
            file_paths: None,
            byte_size,
            source_app,
            source_bundle_id,
            source_icon_path,
        },
    )
}

/// The history item for copied Finder files: kind `files`, the paths joined by
/// newlines as its text (so search finds file names), deduplicated by the SHA-256 of
/// that text and sized by it.
pub fn files_item(
    paths: Vec<String>,
    source_app: Option<String>,
    source_bundle_id: Option<String>,
    source_icon_path: Option<String>,
) -> (n: NewItem<'static>)
    ensures
        n@ == (NewItemView {
            kind: "files"@,
            hash: content_hash_of(encode_utf8(join_lines(paths.deep_view()))),
            plain_text: Some(join_lines(paths.deep_view())),
            rtf: None,
            html: None,
            image_path: None,
            thumb_path: None,
            file_paths: Some(paths.deep_view()),
            byte_size: utf8_len(join_lines(paths.deep_view())) as i64,
            source_app: opt_str(source_app),
            source_bundle_id: opt_str(source_bundle_id),
            source_icon_path: opt_str(source_icon_path),
        }),
        n.hash@.len() == 64,
        is_lower_hex(n.hash@),
{
    let joined = join_with_newlines(&paths);
    let hash = content_hash(joined.as_str().as_bytes());
    let byte_size = joined.as_str().len() as i64;
    NewItem {
        kind: "files",
        hash,
        plain_text: Some(joined),
        rtf: None,
        html: None,
        image_path: None,
        thumb_path: None,
        file_paths: Some(paths),
        byte_size,
        source_app,
        source_bundle_id,
        source_icon_path,
    }
}

/// Where an image capture is stored: its hash and the file names of the image and of
/// its thumbnail (`<hash>.png`, `<hash>.thumb.png`).
#[derive(Debug)]
pub struct ImageFiles {
    pub hash: String,
    pub image_name: String,
    pub thumb_name: String,
}

/// The hash and file names for captured PNG bytes.
pub fn image_files(png: &[u8]) -> (f: ImageFiles)
    ensures
        f.hash@ == content_hash_of(png@),
        f.image_name@ == content_hash_of(png@) + ".png"@,
        f.thumb_name@ == content_hash_of(png@) + ".thumb.png"@,
        f.hash@.len() == 64,
        is_lower_hex(f.hash@),
{
    let hash = content_hash(png);
    let image_name = concat_str(hash.as_str(), ".png");
    let thumb_name = concat_str(hash.as_str(), ".thumb.png");
    ImageFiles { hash, image_name, thumb_name }
}

/// The thumbnail stored beside a new image: the image scaled to fit 480 pixels, or
/// nothing when it already fits or is not a PNG.
pub fn make_thumbnail(png: &[u8]) -> (r: Option<Vec<u8>>)
    ensures
        opt_bytes(r) == downscaled(png@, THUMB_MAX_DIM),
{
    downscale_png(png, THUMB_MAX_DIM)
}

/// The icon stored for a source app: its PNG scaled to fit 64 pixels, or the PNG as it
/// is when it already fits or cannot be scaled.
pub fn icon_for_storage(png: Vec<u8>) -> (r: Vec<u8>)
    ensures
        r@ == (match downscaled(png@, ICON_MAX_DIM) {
            Some(small) => small,
            None => png@,
        }),
{
    match downscale_png(png.as_slice(), ICON_MAX_DIM) {
        Some(small) => small,
        None => png,
    }
}

/// File name of the stored icon of the app with bundle id `bundle_id`.
pub fn icon_file_name(bundle_id: &str) -> (s: String)
    ensures
        s@ == bundle_id@ + ".png"@,
{
    concat_str(bundle_id, ".png")
}

/// The history item for an image: kind `image`, deduplicated by `hash`, stored at
/// `image_path`, with `thumb_path` when a thumbnail file exists; it counts the PNG's
/// size plus that of a thumbnail written for it now.
pub fn image_item(
    hash: String,
    png_len: usize,
    new_thumb_len: Option<usize>,
    image_path: String,
    thumb_path: Option<String>,
    source_app: Option<String>,
    source_bundle_id: Option<String>,
    source_icon_path: Option<String>,
) -> (n: NewItem<'static>)
    ensures
        n@ == (NewItemView {
            kind: "image"@,
            hash: hash@,
            plain_text: None,
            rtf: None,
            html: None,
            image_path: Some(image_path@),
            thumb_path: opt_str(thumb_path),
            file_paths: None,
            byte_size: (png_len as int + (match new_thumb_len {
                Some(t) => t as int,
                None => 0int,
            })) as i64,
            source_app: opt_str(source_app),
            source_bundle_id: opt_str(source_bundle_id),
            source_icon_path: opt_str(source_icon_path),
        }),
{
    let extra: usize = match new_thumb_len {
        Some(t) => t,
        None => 0,
    };
    let total: u128 = png_len as u128 + extra as u128;
    NewItem {
        kind: "image",
        hash,
        plain_text: None,
        rtf: None,
        html: None,
        image_path: Some(image_path),
        thumb_path,
        file_paths: None,
        byte_size: total as i64,
        source_app,
        source_bundle_id,
        source_icon_path,
    }
}

} // verus!
