use pastemaxx::capture::{
    choose_capture, files_item, icon_file_name, icon_for_storage, image_files, image_item,
    make_thumbnail, text_item, Captured, PasteboardContents,
};
use pastemaxx::hashing::content_hash;
use pastemaxx::thumbs::downscale_png;

fn png_of(w: u32, h: u32) -> Vec<u8> {
    let img = image::DynamicImage::new_rgba8(w, h);
    let mut out = std::io::Cursor::new(Vec::new());
    img.write_to(&mut out, image::ImageFormat::Png).unwrap();
    out.into_inner()
}

fn png_dims(bytes: &[u8]) -> (u32, u32) {
    let img = image::load_from_memory_with_format(bytes, image::ImageFormat::Png).unwrap();
    (img.width(), img.height())
}

#[test]
fn content_hash_is_hex_sha256() {
    assert_eq!(
        content_hash(b"hello"),
        "2cf24dba5fb0a30e26e83b2ac5b9e29e1b161e5c1fa7425e73043362938b9824"
    );
    assert_eq!(
        content_hash(b""),
        "e3b0c44298fc1c149afbf4c8996fb92427ae41e4649b934ca495991b7852b855"
    );
}

#[test]
fn blank_text_is_not_captured() {
    assert!(text_item("  \n\t".to_string(), None, None, None, None, None).is_none());
}

#[test]
fn text_item_hashes_plain_text_and_sums_flavours() {
    let it = text_item(
        "héllo".to_string(),
        Some(vec![1, 2, 3]),
        Some("<p>h</p>".to_string()),
        Some("Safari".to_string()),
        Some("com.apple.Safari".to_string()),
        Some("/i/com.apple.Safari.png".to_string()),
    )
    .unwrap();
    assert_eq!(it.kind, "text");
    assert_eq!(it.hash, content_hash("héllo".as_bytes()));
    // 6 UTF-8 bytes of text, 3 of RTF, 8 of HTML
    assert_eq!(it.byte_size, 17);
    assert_eq!(it.plain_text.as_deref(), Some("héllo"));
    assert_eq!(it.source_app.as_deref(), Some("Safari"));
    assert!(it.image_path.is_none() && it.file_paths.is_none());
}

#[test]
fn files_item_joins_paths() {
    let paths = vec!["/Users/a/x.txt".to_string(), "/Users/a/y z.pdf".to_string()];
    let it = files_item(paths.clone(), None, None, None);
    assert_eq!(it.kind, "files");
    let joined = "/Users/a/x.txt\n/Users/a/y z.pdf";
    assert_eq!(it.plain_text.as_deref(), Some(joined));
    assert_eq!(it.hash, content_hash(joined.as_bytes()));
    assert_eq!(it.byte_size, joined.len() as i64);
    assert_eq!(it.file_paths, Some(paths));
}

fn contents() -> PasteboardContents {
    PasteboardContents {
        file_paths: vec![],
        png: None,
        tiff_as_png: None,
        string: None,
        rtf: None,
        html: None,
    }
}

#[test]
fn capture_priority_files_image_text() {
    let mut pb = contents();
    pb.file_paths = vec!["/a".to_string()];
    pb.png = Some(vec![1]);
    pb.string = Some("x".to_string());
    assert!(matches!(choose_capture(pb), Some(Captured::Files { paths }) if paths == vec!["/a".to_string()]));

    let mut pb = contents();
    pb.png = Some(vec![1]);
    pb.tiff_as_png = Some(vec![2]);
    pb.string = Some("x".to_string());
    assert!(matches!(choose_capture(pb), Some(Captured::Image { png }) if png == vec![1]));

    let mut pb = contents();
    pb.tiff_as_png = Some(vec![2]);
    assert!(matches!(choose_capture(pb), Some(Captured::Image { png }) if png == vec![2]));

    let mut pb = contents();
    pb.string = Some("hi".to_string());
    pb.rtf = Some(vec![9]);
    match choose_capture(pb) {
        Some(Captured::Text { plain, rtf, html }) => {
            assert_eq!(plain, "hi");
            assert_eq!(rtf, Some(vec![9]));
            assert_eq!(html, None);
        }
        other => panic!("unexpected {other:?}"),
    }

    let mut pb = contents();
    pb.string = Some(String::new());
    assert!(choose_capture(pb).is_none());
    assert!(choose_capture(contents()).is_none());
}

#[test]
fn image_names_and_item() {
    let png = png_of(2, 2);
    let f = image_files(&png);
    assert_eq!(f.hash, content_hash(&png));
    assert_eq!(f.image_name, format!("{}.png", f.hash));
    assert_eq!(f.thumb_name, format!("{}.thumb.png", f.hash));
    let it = image_item(
        f.hash.clone(),
        100,
        Some(20),
        "/img/a.png".to_string(),
        Some("/img/a.thumb.png".to_string()),
        Some("Screenshot".to_string()),
        None,
        None,
    );
    assert_eq!(it.kind, "image");
    assert_eq!(it.byte_size, 120);
    assert_eq!(it.image_path.as_deref(), Some("/img/a.png"));
    assert_eq!(it.thumb_path.as_deref(), Some("/img/a.thumb.png"));
    let it = image_item(f.hash, 100, None, "/img/a.png".to_string(), None, None, None, None);
    assert_eq!(it.byte_size, 100);
    assert!(it.thumb_path.is_none());
    assert_eq!(icon_file_name("com.apple.Notes"), "com.apple.Notes.png");
}

#[test]
fn thumbnails_only_for_large_pngs() {
    let big = png_of(960, 240);
    let thumb = make_thumbnail(&big).unwrap();
    assert_eq!(png_dims(&thumb), (480, 120));
    assert!(make_thumbnail(&png_of(480, 480)).is_none());
    assert!(make_thumbnail(b"not a png").is_none());
    assert!(downscale_png(&png_of(100, 10), 64).is_some());
}

#[test]
fn icons_are_scaled_to_64() {
    let big = png_of(256, 256);
    assert_eq!(png_dims(&icon_for_storage(big)), (64, 64));
    let small = png_of(32, 32);
    assert_eq!(icon_for_storage(small.clone()), small);
    assert_eq!(icon_for_storage(vec![1, 2, 3]), vec![1, 2, 3]);
}

#[test]
fn same_plain_text_with_other_formatting_dedups() {
    let a = text_item("hello".to_string(), Some(vec![1, 2]), None, None, None, None).unwrap();
    let b = text_item("hello".to_string(), None, Some("<i>hello</i>".to_string()), None, None, None).unwrap();
    assert_eq!(a.hash, b.hash);
    assert_eq!(a.hash.len(), 64);
    assert!(a.hash.chars().all(|c| c.is_ascii_digit() || ('a'..='f').contains(&c)));
    let expected: String = <sha2::Sha256 as sha2::Digest>::digest(b"hello").iter().map(|b| format!("{b:02x}")).collect();
    assert_eq!(a.hash, expected);
    let f = files_item(vec!["/a".to_string()], None, None, None);
    assert_eq!(f.hash.len(), 64);
    assert_eq!(image_files(b"png bytes").hash.len(), 64);
}
