use pastemaxx::screenshots::{
    has_png_signature, is_listed_png, looks_like_screenshot, mdls_says_screen_capture,
    screenshot_location, still_settling, ScreenshotTracker,
};

#[test]
fn screenshot_names() {
    assert!(looks_like_screenshot(Some("Screenshot 2024-05-01 at 10.00.00.png")));
    assert!(looks_like_screenshot(Some("Screen Shot 2019-01-01.png")));
    assert!(!looks_like_screenshot(Some("screenshot.png")));
    assert!(!looks_like_screenshot(Some("Screenshot.png")));
    assert!(!looks_like_screenshot(None));
}

#[test]
fn listed_pngs() {
    assert!(is_listed_png(Some("a.png"), Some("png")));
    assert!(is_listed_png(Some("a.PNG"), Some("PNG")));
    assert!(!is_listed_png(Some(".a.png"), Some("png")));
    assert!(!is_listed_png(Some("a.jpg"), Some("jpg")));
    assert!(!is_listed_png(Some("png"), None));
    assert!(is_listed_png(None, Some("png")));
}

#[test]
fn png_signature_and_settling() {
    assert!(has_png_signature(b"\x89PNG\r\n\x1a\nrest"));
    assert!(!has_png_signature(b"\x89PNG\r\n\x1a"));
    assert!(!has_png_signature(b"GIF89a..."));
    assert!(still_settling(Some(599)));
    assert!(!still_settling(Some(600)));
    assert!(!still_settling(None));
}

#[test]
fn mdls_output() {
    assert!(mdls_says_screen_capture(b"1\n"));
    assert!(mdls_says_screen_capture(b"  1 "));
    assert!(!mdls_says_screen_capture(b"(null)"));
    assert!(!mdls_says_screen_capture(b"0"));
    assert!(!mdls_says_screen_capture(b"\xff1"));
}

#[test]
fn screenshot_folder_location() {
    assert_eq!(screenshot_location("/Users/me", b"~/Pictures/Shots\n").as_deref(), Some("/Users/me/Pictures/Shots"));
    assert_eq!(screenshot_location("/Users/me", b"/Volumes/x\n").as_deref(), Some("/Volumes/x"));
    assert_eq!(screenshot_location("/Users/me", b"   \n"), None);
    assert_eq!(screenshot_location("", b"~"), None);
    assert_eq!(screenshot_location("/h", b"~"), Some("/h".to_string()));
}

#[test]
fn tracker_settles_screenshots_and_gives_up_on_others() {
    let mut t = ScreenshotTracker::new(vec![b"/d/old.png".to_vec()]);
    assert_eq!(t.observe(b"/d/old.png"), None);
    // a screenshot whose file is still settling stays pending
    assert_eq!(t.observe(b"/d/s.png"), Some(1));
    assert!(!t.record_check(b"/d/s.png".to_vec(), 1, true, false));
    assert_eq!(t.observe(b"/d/s.png"), Some(2));
    assert!(t.record_check(b"/d/s.png".to_vec(), 2, true, true));
    assert_eq!(t.observe(b"/d/s.png"), None);
    // another PNG is checked 15 times, then given up on
    for n in 1..=14u32 {
        assert_eq!(t.observe(b"/d/o.png"), Some(n));
        assert!(!t.record_check(b"/d/o.png".to_vec(), n, false, false));
    }
    assert_eq!(t.observe(b"/d/o.png"), Some(15));
    assert!(t.record_check(b"/d/o.png".to_vec(), 15, false, false));
    assert_eq!(t.observe(b"/d/o.png"), None);
    assert!(t.pending_paths().is_empty());
}

#[test]
fn tracker_polls_and_resync() {
    let mut t = ScreenshotTracker::new(vec![]);
    let refreshes: Vec<bool> = (0..60).map(|_| t.tick()).collect();
    assert_eq!(refreshes.iter().filter(|r| **r).count(), 2);
    assert!(refreshes[29] && refreshes[59]);
    assert_eq!(t.observe(b"/x.png"), Some(1));
    assert_eq!(t.pending_paths(), vec![b"/x.png".to_vec()]);
    t.forget(b"/x.png");
    assert!(t.pending_paths().is_empty());
    t.observe(b"/y.png");
    t.resync(vec![b"/y.png".to_vec()]);
    assert!(t.pending_paths().is_empty());
    assert_eq!(t.observe(b"/y.png"), None);
    assert!(t.is_seen(b"/y.png"));
}
