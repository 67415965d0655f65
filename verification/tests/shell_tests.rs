use pastemaxx::clock::{epoch_ms, now_ms};
use pastemaxx::history::FullItem;
use pastemaxx::shell::{
    blur_hides, capture_screenshots_enabled, menu_action, needs_autostart_init, paste_plan,
    paste_target, poll_step, screenshot_setting_value, search_text, toggle_action, BarAction,
    MenuAction, PastePlan, PollStep,
};
use pastemaxx::storage::{decode_file_paths, encode_file_paths};

#[test]
fn poll_steps() {
    assert_eq!(poll_step(5, 5, 7), PollStep::Unchanged);
    assert_eq!(poll_step(7, 5, 7), PollStep::OwnWrite);
    assert_eq!(poll_step(8, 5, 7), PollStep::Capture);
    assert_eq!(poll_step(-1, -1, -1), PollStep::Unchanged);
}

#[test]
fn hotkey_toggles_bar() {
    assert_eq!(toggle_action(true, Some(true)), BarAction::Ignore);
    assert_eq!(toggle_action(false, None), BarAction::Ignore);
    assert_eq!(toggle_action(false, Some(true)), BarAction::Hide);
    assert_eq!(toggle_action(false, Some(false)), BarAction::Show);
}

#[test]
fn blur_after_paste_keeps_bar_open() {
    assert!(!blur_hides(false, Some(1499), Some(true)));
    assert!(blur_hides(false, Some(1500), Some(true)));
    assert!(blur_hides(false, None, Some(true)));
    assert!(!blur_hides(true, None, Some(true)));
    assert!(!blur_hides(false, None, Some(false)));
    assert!(!blur_hides(false, None, None));
}

fn full(kind: &str) -> FullItem {
    FullItem {
        kind: kind.to_string(),
        plain_text: Some("txt".to_string()),
        rtf: Some(vec![1]),
        html: None,
        image_path: Some("/i.png".to_string()),
        file_paths: Some(vec!["/f".to_string()]),
    }
}

#[test]
fn paste_plans_and_errors() {
    assert_eq!(paste_plan(None).err().as_deref(), Some("item not found"));
    assert!(matches!(paste_plan(Some(full("image"))), Ok(PastePlan::Image { path }) if path == "/i.png"));
    let mut no_img = full("image");
    no_img.image_path = None;
    assert_eq!(paste_plan(Some(no_img)).err().as_deref(), Some("image file missing"));
    assert!(matches!(paste_plan(Some(full("files"))), Ok(PastePlan::Files { paths }) if paths == vec!["/f".to_string()]));
    let mut no_files = full("files");
    no_files.file_paths = None;
    assert_eq!(paste_plan(Some(no_files)).err().as_deref(), Some("file paths missing"));
    match paste_plan(Some(full("text"))) {
        Ok(PastePlan::Text { plain, rtf, html }) => {
            assert_eq!(plain, "txt");
            assert_eq!(rtf, Some(vec![1]));
            assert_eq!(html, None);
        }
        other => panic!("unexpected {other:?}"),
    }
    let mut empty = full("weird");
    empty.plain_text = None;
    assert!(matches!(paste_plan(Some(empty)), Ok(PastePlan::Text { plain, .. }) if plain.is_empty()));
}

#[test]
fn paste_goes_to_known_pid() {
    assert_eq!(paste_target(Some(123)), Some(123));
    assert_eq!(paste_target(Some(0)), None);
    assert_eq!(paste_target(Some(-4)), None);
    assert_eq!(paste_target(None), None);
}

#[test]
fn tray_menu_ids() {
    assert_eq!(menu_action("toggle"), MenuAction::ToggleBar);
    assert_eq!(menu_action("clear"), MenuAction::ClearHistory);
    assert_eq!(menu_action("screenshots"), MenuAction::ToggleScreenshots);
    assert_eq!(menu_action("login"), MenuAction::ToggleLaunchAtLogin);
    assert_eq!(menu_action("quit"), MenuAction::Quit);
    assert_eq!(menu_action("Quit"), MenuAction::Nothing);
}

#[test]
fn settings_flags() {
    assert!(capture_screenshots_enabled(None));
    assert!(capture_screenshots_enabled(Some("1")));
    assert!(capture_screenshots_enabled(Some("00")));
    assert!(!capture_screenshots_enabled(Some("0")));
    assert_eq!(screenshot_setting_value(true), "1");
    assert_eq!(screenshot_setting_value(false), "0");
    assert!(needs_autostart_init(None));
    assert!(!needs_autostart_init(Some("1")));
}

#[test]
fn search_text_is_trimmed() {
    assert_eq!(search_text(Some("  foo bar ")), "foo bar");
    assert_eq!(search_text(None), "");
}

#[test]
fn file_list_round_trips_through_json() {
    let paths = vec!["/a \"b\"".to_string(), "/ü".to_string()];
    let s = encode_file_paths(&paths);
    assert_eq!(s, "[\"/a \\\"b\\\"\",\"/ü\"]");
    assert_eq!(decode_file_paths(&s), Some(paths));
    assert_eq!(decode_file_paths(""), None);
    assert_eq!(decode_file_paths("[1]"), None);
}

#[test]
fn clock_values() {
    assert!(now_ms() > 1_600_000_000_000);
    assert_eq!(epoch_ms(None), 0);
    assert_eq!(epoch_ms(Some(1234)), 1234);
    assert_eq!(epoch_ms(Some(u128::MAX)), -1);
}
