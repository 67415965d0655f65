use pastemaxx::history::{History, HistoryError, LoadError, NewItem, Setting, StoredItem, DEFAULT_MAX_BYTES};

fn text(hash: &str, body: &str, size: i64) -> NewItem<'static> {
    NewItem {
        kind: "text",
        hash: hash.to_string(),
        plain_text: Some(body.to_string()),
        rtf: None,
        html: None,
        image_path: None,
        thumb_path: None,
        file_paths: None,
        byte_size: size,
        source_app: Some("Notes".to_string()),
        source_bundle_id: Some("com.apple.Notes".to_string()),
        source_icon_path: None,
    }
}

fn ids(h: &History, q: &str) -> Vec<i64> {
    h.list(q).iter().map(|d| d.id).collect()
}

#[test]
fn new_items_get_increasing_ids_and_newest_lists_first() {
    let mut h = History::new();
    assert_eq!(h.insert_or_bump(text("a", "alpha", 5), 100).unwrap().len(), 0);
    assert_eq!(h.insert_or_bump(text("b", "beta", 4), 200).unwrap().len(), 0);
    assert_eq!(h.insert_or_bump(text("c", "gamma", 5), 300).unwrap().len(), 0);
    assert_eq!(h.rows().iter().map(|r| r.id).collect::<Vec<_>>(), vec![1, 2, 3]);
    assert_eq!(ids(&h, ""), vec![3, 2, 1]);
    assert_eq!(h.last_id(), 3);
}

#[test]
fn recopying_bumps_instead_of_duplicating() {
    let mut h = History::new();
    h.insert_or_bump(text("a", "alpha", 5), 100).unwrap();
    h.insert_or_bump(text("b", "beta", 4), 200).unwrap();
    let mut again = text("a", "alpha", 5);
    again.source_app = None;
    again.source_icon_path = Some("/icons/x.png".to_string());
    h.insert_or_bump(again, 500).unwrap();
    assert_eq!(h.len(), 2);
    let row = h.row(1).unwrap();
    assert_eq!(row.last_copied_at, 500);
    assert_eq!(row.created_at, 100);
    // sort_at is the frozen display position: unchanged until the next snapshot
    assert_eq!(row.sort_at, 100);
    assert_eq!(row.source_app.as_deref(), Some("Notes"));
    assert_eq!(row.source_icon_path.as_deref(), Some("/icons/x.png"));
    assert_eq!(ids(&h, ""), vec![2, 1]);
    h.snapshot_order();
    assert_eq!(ids(&h, ""), vec![1, 2]);
}

#[test]
fn pinned_items_list_first() {
    let mut h = History::new();
    for (i, hsh) in ["a", "b", "c"].iter().enumerate() {
        h.insert_or_bump(text(hsh, hsh, 1), 10 * (i as i64 + 1)).unwrap();
    }
    assert_eq!(h.toggle_pin(1), Ok(true));
    assert_eq!(ids(&h, ""), vec![1, 3, 2]);
    let dto = &h.list("")[0];
    assert!(dto.pinned);
    assert_eq!(h.toggle_pin(1), Ok(false));
    assert_eq!(ids(&h, ""), vec![3, 2, 1]);
    assert_eq!(h.toggle_pin(42), Err(HistoryError::NotFound));
}

#[test]
fn eviction_removes_oldest_unpinned_until_under_budget() {
    let mut h = History::new();
    h.set_setting("max_bytes", "10");
    assert_eq!(h.max_bytes(), 10);
    h.insert_or_bump(text("a", "a", 4), 100).unwrap();
    h.insert_or_bump(text("b", "b", 4), 200).unwrap();
    h.toggle_pin(1).unwrap();
    let evicted = h.insert_or_bump(text("c", "c", 4), 300).unwrap();
    // total 12 > 10: the oldest unpinned row (b) goes, pinned a stays
    assert_eq!(evicted.iter().map(|r| r.id).collect::<Vec<_>>(), vec![2]);
    assert_eq!(h.rows().iter().map(|r| r.id).collect::<Vec<_>>(), vec![1, 3]);
    let evicted = h.insert_or_bump(text("d", "d", 20), 400).unwrap();
    // even the new row may go; only pinned rows are never evicted
    assert_eq!(evicted.iter().map(|r| r.id).collect::<Vec<_>>(), vec![3, 4]);
    assert_eq!(h.rows().iter().map(|r| r.id).collect::<Vec<_>>(), vec![1]);
}

#[test]
fn everything_pinned_stays_over_budget() {
    let mut h = History::new();
    h.set_setting("max_bytes", "1");
    h.insert_or_bump(text("a", "a", 0), 1).unwrap();
    h.toggle_pin(1).unwrap();
    h.set_setting("max_bytes", "0");
    let mut big = text("b", "b", 5);
    big.byte_size = 5;
    let ev = h.insert_or_bump(big, 2).unwrap();
    assert_eq!(ev.len(), 1);
    h.set_setting("max_bytes", "-5");
    let ev = h.insert_or_bump(text("c", "c", 0), 3).unwrap();
    assert_eq!(ev.iter().map(|r| r.id).collect::<Vec<_>>(), vec![3]);
    assert_eq!(h.len(), 1);
}

#[test]
fn max_bytes_default_and_parse() {
    let mut h = History::new();
    assert_eq!(h.max_bytes(), DEFAULT_MAX_BYTES);
    assert_eq!(DEFAULT_MAX_BYTES, 524288000);
    h.set_setting("max_bytes", "+123");
    assert_eq!(h.max_bytes(), 123);
    h.set_setting("max_bytes", " 123");
    assert_eq!(h.max_bytes(), DEFAULT_MAX_BYTES);
    h.set_setting("max_bytes", "99999999999999999999");
    assert_eq!(h.max_bytes(), DEFAULT_MAX_BYTES);
    h.set_setting("max_bytes", "-");
    assert_eq!(h.max_bytes(), DEFAULT_MAX_BYTES);
}

#[test]
fn settings_read_back_what_was_written() {
    let mut h = History::new();
    assert_eq!(h.get_setting("capture_screenshots"), None);
    h.set_setting("capture_screenshots", "0");
    h.set_setting("autostart_initialized", "1");
    h.set_setting("capture_screenshots", "1");
    assert_eq!(h.get_setting("capture_screenshots").as_deref(), Some("1"));
    assert_eq!(h.get_setting("autostart_initialized").as_deref(), Some("1"));
    assert_eq!(h.settings().len(), 2);
}

#[test]
fn search_uses_like_semantics() {
    let mut h = History::new();
    h.insert_or_bump(text("a", "Hello World", 1), 1).unwrap();
    h.insert_or_bump(text("b", "100% sure", 1), 2).unwrap();
    h.insert_or_bump(text("c", "snake_case", 1), 3).unwrap();
    let mut img = text("d", "", 1);
    img.kind = "image";
    img.plain_text = None;
    h.insert_or_bump(img, 4).unwrap();
    assert_eq!(ids(&h, "world"), vec![1]);
    assert_eq!(ids(&h, "WORLD"), vec![1]);
    assert_eq!(ids(&h, "o_w"), vec![1]);
    assert_eq!(ids(&h, "0%s"), vec![2]);
    assert_eq!(ids(&h, "e_c"), vec![3]);
    assert_eq!(ids(&h, "%"), vec![3, 2, 1]);
    assert_eq!(ids(&h, ""), vec![4, 3, 2, 1]);
    assert_eq!(ids(&h, "zzz"), Vec::<i64>::new());
}

#[test]
fn non_ascii_letters_match_case_sensitively() {
    let mut h = History::new();
    h.insert_or_bump(text("a", "Ärger", 1), 1).unwrap();
    assert_eq!(ids(&h, "ä"), Vec::<i64>::new());
    assert_eq!(ids(&h, "Är"), vec![1]);
    assert_eq!(ids(&h, "RGER"), vec![1]);
}

#[test]
fn list_is_capped_at_two_hundred() {
    let mut h = History::new();
    for i in 0..250i64 {
        h.insert_or_bump(text(&format!("h{i}"), "x", 1), i).unwrap();
    }
    let l = h.list("");
    assert_eq!(l.len(), 200);
    assert_eq!(l[0].id, 250);
    assert_eq!(l[199].id, 51);
}

#[test]
fn list_entries_carry_preview_and_flags() {
    let mut h = History::new();
    let long: String = std::iter::repeat('é').take(450).collect();
    let mut it = text("a", &long, 900);
    it.html = Some("<b>x</b>".to_string());
    h.insert_or_bump(it, 7).unwrap();
    let mut files = text("b", "/tmp/a", 6);
    files.kind = "files";
    files.file_paths = Some(vec!["/tmp/a".to_string()]);
    h.insert_or_bump(files, 8).unwrap();
    let mut blank = text("c", "", 0);
    blank.plain_text = Some(String::new());
    h.insert_or_bump(blank, 9).unwrap();
    let l = h.list("");
    assert_eq!(l[0].preview, None);
    assert_eq!(l[1].kind, "files");
    assert_eq!(l[1].file_paths, Some(vec!["/tmp/a".to_string()]));
    assert!(!l[1].has_rich);
    let p = l[2].preview.as_ref().unwrap();
    assert_eq!(p.chars().count(), 400);
    assert!(l[2].has_rich);
    assert_eq!(l[2].byte_size, 900);
    assert_eq!(l[2].last_copied_at, 7);
    assert_eq!(l[2].source_app.as_deref(), Some("Notes"));
}

#[test]
fn delete_and_clear_all() {
    let mut h = History::new();
    for (i, hsh) in ["a", "b", "c", "d"].iter().enumerate() {
        h.insert_or_bump(text(hsh, hsh, 1), i as i64).unwrap();
    }
    h.toggle_pin(3).unwrap();
    let gone = h.delete(2).unwrap();
    assert_eq!(gone.hash, "b");
    assert!(h.delete(2).is_none());
    let removed = h.clear_all();
    assert_eq!(removed.iter().map(|r| r.id).collect::<Vec<_>>(), vec![1, 4]);
    assert_eq!(h.rows().iter().map(|r| r.id).collect::<Vec<_>>(), vec![3]);
    // ids are never reused
    h.insert_or_bump(text("e", "e", 1), 10).unwrap();
    assert_eq!(h.rows().last().unwrap().id, 5);
}

#[test]
fn get_full_and_bump() {
    let mut h = History::new();
    let mut it = text("a", "alpha", 5);
    it.rtf = Some(vec![1, 2, 3]);
    h.insert_or_bump(it, 1).unwrap();
    let f = h.get_full(1).unwrap();
    assert_eq!(f.kind, "text");
    assert_eq!(f.plain_text.as_deref(), Some("alpha"));
    assert_eq!(f.rtf, Some(vec![1, 2, 3]));
    assert!(h.get_full(9).is_none());
    assert!(h.bump(1, 99));
    assert!(!h.bump(9, 99));
    assert_eq!(h.row(1).unwrap().last_copied_at, 99);
    assert_eq!(h.row(1).unwrap().sort_at, 1);
}

fn stored(id: i64, hash: &str, last: i64, sort: i64) -> StoredItem {
    StoredItem {
        id,
        kind: "text".to_string(),
        hash: hash.to_string(),
        plain_text: Some(hash.to_string()),
        rtf: None,
        html: None,
        image_path: None,
        thumb_path: None,
        file_paths: None,
        byte_size: 1,
        source_app: None,
        source_bundle_id: None,
        source_icon_path: None,
        pinned: false,
        created_at: last,
        last_copied_at: last,
        sort_at: sort,
    }
}

#[test]
fn loading_rows_migrates_missing_display_order() {
    let rows = vec![stored(2, "a", 50, 0), stored(7, "b", 60, 40)];
    let settings = vec![Setting { key: "max_bytes".to_string(), value: "10".to_string() }];
    let h = History::from_rows(rows, 9, settings).unwrap();
    assert_eq!(h.row(2).unwrap().sort_at, 50);
    assert_eq!(h.row(7).unwrap().sort_at, 40);
    assert_eq!(h.last_id(), 9);
    assert_eq!(h.max_bytes(), 10);
    let h2 = History::from_rows(vec![stored(2, "a", 1, 1), stored(7, "b", 1, 1)], 3, vec![]).unwrap();
    assert_eq!(h2.last_id(), 7);
}

#[test]
fn loading_rejects_rows_out_of_id_order() {
    let rows = vec![stored(7, "a", 1, 1), stored(2, "b", 1, 1)];
    assert_eq!(History::from_rows(rows, 0, vec![]).err(), Some(LoadError::RowsOutOfOrder));
    let dup = vec![stored(3, "a", 1, 1), stored(3, "b", 1, 1)];
    assert!(History::from_rows(dup, 0, vec![]).is_err());
}

#[test]
fn full_when_ids_run_out() {
    let mut h = History::from_rows(vec![], i64::MAX, vec![]).unwrap();
    assert_eq!(h.insert_or_bump(text("a", "a", 1), 1).err(), Some(HistoryError::Full));
    assert_eq!(h.len(), 0);
}

#[test]
fn size_overflow_is_reported() {
    let mut h = History::new();
    h.insert_or_bump(text("a", "a", 10), 1).unwrap();
    h.toggle_pin(1).unwrap();
    assert_eq!(h.insert_or_bump(text("b", "b", i64::MAX), 2).err(), Some(HistoryError::Overflow));
    // the row was recorded even though the size sum could not be taken
    assert_eq!(h.len(), 2);
    // a single oversized unpinned row is evicted right away
    let mut g = History::new();
    let ev = g.insert_or_bump(text("a", "a", i64::MAX), 1).unwrap();
    assert_eq!(ev.len(), 1);
    assert_eq!(g.len(), 0);
}

#[test]
fn pasted_item_comes_first_after_the_pins_on_next_open() {
    let mut h = History::new();
    for (i, hsh) in ["a", "b", "c", "d"].iter().enumerate() {
        h.insert_or_bump(text(hsh, hsh, 1), 10 * (i as i64 + 1)).unwrap();
    }
    h.toggle_pin(4).unwrap();
    // paste the oldest row: bumped now, but the open bar does not reshuffle
    assert!(h.bump(1, 1000));
    assert_eq!(ids(&h, ""), vec![4, 3, 2, 1]);
    // the bar opens again: display order refreshed from recency
    h.snapshot_order();
    assert_eq!(ids(&h, ""), vec![4, 1, 3, 2]);
    assert!(!h.bump(99, 2000));
}

#[test]
fn loading_rejects_a_repeated_hash() {
    let rows = vec![stored(1, "a", 1, 1), stored(2, "b", 1, 1), stored(3, "a", 1, 1)];
    assert_eq!(History::from_rows(rows, 0, vec![]).err(), Some(LoadError::DuplicateHash));
    // out-of-order ids are reported first
    let both = vec![stored(3, "a", 1, 1), stored(2, "a", 1, 1)];
    assert_eq!(History::from_rows(both, 0, vec![]).err(), Some(LoadError::RowsOutOfOrder));
}

#[test]
fn inserted_item_reads_back_unless_evicted_at_once() {
    let mut h = History::new();
    let mut it = text("a", "alpha", 5);
    it.html = Some("<b>alpha</b>".to_string());
    h.insert_or_bump(it, 10).unwrap();
    let f = h.get_full(h.last_id()).unwrap();
    assert_eq!(f.kind, "text");
    assert_eq!(f.plain_text.as_deref(), Some("alpha"));
    assert_eq!(f.html.as_deref(), Some("<b>alpha</b>"));
    assert_eq!(f.rtf, None);
    // everything else pinned and the budget tiny: the new row is evicted at once
    h.set_setting("max_bytes", "6");
    h.toggle_pin(1).unwrap();
    let ev = h.insert_or_bump(text("b", "beta", 4), 20).unwrap();
    assert_eq!(ev.len(), 1);
    assert_eq!(h.last_id(), 2);
    assert!(h.get_full(2).is_none());
}
