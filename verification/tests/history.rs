use clipboard_manager::clock::{expiry_cutoff, iso_text, now_iso, now_micros, now_stamp_micros, now_stamp_millis};
use clipboard_manager::db::{same_members, Database};
use clipboard_manager::models::{ClipboardItem, IndexEntry, Row};
use clipboard_manager::patterns::is_like;
use clipboard_manager::picture::{fitted_thumbnail, is_shrinkable, Picture};
use clipboard_manager::store::{EntryChange, RowChange};
use clipboard_manager::sweep::{sort_texts, BufferSweep, BUFFER_LIMIT, IMAGE_LIMIT};
use clipboard_manager::upkeep::{schema_upgrades, update_migrated_paths};

fn empty() -> Database {
    Database::new("C:\\data".to_string(), Vec::new(), Vec::new(), 0).unwrap()
}

fn text(content: &str, at: &str) -> ClipboardItem {
    ClipboardItem {
        id: 0,
        item_type: "text".to_string(),
        content: Some(content.to_string()),
        image_path: None,
        thumbnail_path: None,
        file_paths: None,
        file_count: 0,
        is_favorite: false,
        is_pinned: false,
        created_at: at.to_string(),
        source_app: None,
        image_hash: None,
    }
}

fn image(path: &str, hash: &str, at: &str) -> ClipboardItem {
    ClipboardItem {
        item_type: "image".to_string(),
        content: None,
        image_path: Some(path.to_string()),
        image_hash: Some(hash.to_string()),
        ..text("", at)
    }
}

fn files(paths: &[&str], at: &str) -> ClipboardItem {
    ClipboardItem {
        item_type: "file".to_string(),
        content: None,
        file_paths: Some(paths.iter().map(|p| p.to_string()).collect()),
        file_count: paths.len() as i64,
        ..text("", at)
    }
}

fn ids(items: &[ClipboardItem]) -> Vec<i64> {
    items.iter().map(|i| i.id).collect()
}

#[test]
fn ids_are_given_in_order_and_never_again() {
    let mut db = empty();
    assert_eq!(db.add_item(&text("a", "1")), Ok(1));
    assert_eq!(db.add_item(&text("b", "2")), Ok(2));
    assert_eq!(db.delete_item(2), Vec::<String>::new());
    assert_eq!(db.add_item(&text("c", "3")), Ok(3));
    assert_eq!(ids(&db.get_items(false, true)), vec![1, 3]);
}

#[test]
fn a_full_table_takes_no_more() {
    let mut db = Database::new("d".to_string(), Vec::new(), Vec::new(), i64::MAX).unwrap();
    assert_eq!(db.add_item(&text("a", "1")), Err("database or disk is full".to_string()));
}

fn row(id: i64) -> Row {
    Row {
        id,
        item_type: "text".to_string(),
        content: Some(format!("row {id}")),
        image_path: None,
        thumbnail_path: None,
        file_paths: None,
        file_count: 0,
        is_favorite: 0,
        is_pinned: 0,
        created_at: "t".to_string(),
        source_app: None,
        image_hash: None,
    }
}

#[test]
fn ids_must_be_ascending() {
    let r = Database::new("d".to_string(), vec![row(2), row(1)], Vec::new(), 0);
    assert_eq!(r.err(), Some("ids are not ascending".to_string()));
    let e = |rowid| IndexEntry {
        rowid,
        content: "".to_string(),
        file_paths: "".to_string(),
        file_name: "".to_string(),
    };
    assert!(Database::new("d".to_string(), vec![row(1)], vec![e(3), e(3)], 0).is_err());
    let mut db = Database::new("d".to_string(), vec![row(1), row(4)], vec![e(1)], 2).unwrap();
    assert_eq!(db.add_item(&text("x", "t")), Ok(5));
}

#[test]
fn a_stale_index_gives_no_ids_away() {
    let e = |rowid| IndexEntry {
        rowid,
        content: "".to_string(),
        file_paths: "".to_string(),
        file_name: "".to_string(),
    };
    let mut db = Database::new("d".to_string(), Vec::new(), vec![e(5)], 0).unwrap();
    assert_eq!(db.add_item(&text("x", "t")), Ok(1));
    let mut db = Database::new("d".to_string(), Vec::new(), vec![e(1)], 0).unwrap();
    assert_eq!(db.add_item(&text("x", "t")), Err("constraint failed".to_string()));
    assert_eq!(db.get_items(false, false).len(), 0);
    db.backfill_fts();
    assert_eq!(db.add_item(&text("x", "t")), Ok(1));
}

#[test]
fn a_record_reads_back_as_it_was() {
    let mut db = empty();
    let mut item = files(&["C:\\a \"q\" \\ü.txt", "D:\\中文.doc"], "2024-01-01T00:00:00.000Z");
    item.is_pinned = true;
    item.source_app = Some("src".to_string());
    let id = db.add_item(&item).unwrap();
    let back = db.get_item(id).unwrap();
    assert_eq!(back.id, 1);
    assert_eq!(back.item_type, "file");
    assert_eq!(back.file_paths, item.file_paths);
    assert_eq!(back.file_count, 2);
    assert!(back.is_pinned && !back.is_favorite);
    assert_eq!(back.created_at, item.created_at);
    assert_eq!(back.source_app, item.source_app);
    assert!(db.get_item(7).is_none());
}

#[test]
fn duplicates_are_found() {
    let mut db = empty();
    db.add_item(&text("hello", "1")).unwrap();
    db.add_item(&image("p", "abc", "2")).unwrap();
    db.add_item(&files(&["x", "y", "x"], "3")).unwrap();
    assert_eq!(db.find_text("hello"), Some(1));
    assert_eq!(db.find_text("Hello"), None);
    assert_eq!(db.find_image_by_hash("abc"), Some(2));
    assert_eq!(db.find_image_by_hash("abd"), None);
    let p = |v: &[&str]| v.iter().map(|s| s.to_string()).collect::<Vec<_>>();
    assert_eq!(db.find_file(&p(&["x", "x", "y"])), Some(3));
    assert_eq!(db.find_file(&p(&["y", "x"])), Some(3));
    assert_eq!(db.find_file(&p(&["x", "y", "y"])), Some(3));
    assert_eq!(db.find_file(&p(&["x"])), None);
    assert_eq!(db.find_file(&p(&["x", "y", "z"])), None);
    assert!(same_members(&p(&["a", "b"]), &p(&["b", "a", "b"])));
    assert!(!same_members(&p(&["a"]), &p(&[])));
}

#[test]
fn lists_put_pinned_records_first() {
    let mut db = empty();
    for (c, t) in [("a", "3"), ("b", "1"), ("c", "2"), ("d", "2")] {
        db.add_item(&text(c, t)).unwrap();
    }
    assert_eq!(ids(&db.get_items(false, false)), vec![1, 3, 4, 2]);
    assert_eq!(ids(&db.get_items(false, true)), vec![2, 3, 4, 1]);
    assert_eq!(db.toggle_pin(2), Ok(true));
    assert_eq!(ids(&db.get_items(false, false)), vec![2, 1, 3, 4]);
    assert_eq!(db.toggle_pin(2), Ok(false));
    assert_eq!(db.toggle_favorite(3), Ok(true));
    assert_eq!(ids(&db.get_items(true, false)), vec![3]);
    assert_eq!(db.toggle_favorite(3), Ok(false));
    assert_eq!(db.get_items(true, false).len(), 0);
    assert_eq!(db.toggle_favorite(9), Err("Query returned no rows".to_string()));
    assert_eq!(db.toggle_pin(9), Err("Query returned no rows".to_string()));
}

#[test]
fn a_touched_record_comes_first() {
    let mut db = empty();
    db.add_item(&text("a", "2001-01-01T00:00:00.000Z")).unwrap();
    db.add_item(&text("b", "2002-01-01T00:00:00.000Z")).unwrap();
    db.touch_item_at(1, "2003-01-01T00:00:00.000Z");
    assert_eq!(ids(&db.get_items(false, false)), vec![1, 2]);
    db.touch_item(2);
    assert_eq!(ids(&db.get_items(false, false)), vec![2, 1]);
    assert_eq!(db.get_item(2).unwrap().created_at.len(), 24);
}

#[test]
fn deleting_hands_out_the_files() {
    let mut db = empty();
    let mut i = image("C:\\data\\images\\a.png", "h", "1");
    i.thumbnail_path = Some("C:\\data\\thumbs\\t.png".to_string());
    db.add_item(&i).unwrap();
    db.add_item(&text("t", "2")).unwrap();
    db.add_item(&image("C:\\data\\images\\b.png", "k", "3")).unwrap();
    let mut other = db.copy();
    assert_eq!(
        db.delete_item(1),
        vec!["C:\\data\\images\\a.png", "C:\\data\\thumbs\\t.png"]
    );
    assert_eq!(db.delete_item(1), Vec::<String>::new());
    assert!(db.get_item(1).is_none() && db.get_item(2).is_some());
    let (n, gone) = other.clear_all_items();
    assert_eq!(n, 3);
    assert_eq!(
        gone,
        vec!["C:\\data\\images\\a.png", "C:\\data\\thumbs\\t.png", "C:\\data\\images\\b.png"]
    );
    assert_eq!(other.get_items(false, false).len(), 0);
    assert_eq!(other.add_item(&text("n", "4")), Ok(4));
}

#[test]
fn searching_goes_by_the_index_hits() {
    let mut db = empty();
    db.add_item(&text("a", "1")).unwrap();
    db.add_item(&text("b", "2")).unwrap();
    db.add_item(&text("c", "3")).unwrap();
    assert_eq!(ids(&db.search_items("  ", &[])), vec![3, 2, 1]);
    assert_eq!(ids(&db.search_items("x", &[1, 3, 8])), vec![3, 1]);
    assert_eq!(ids(&db.search_items("x", &[])), Vec::<i64>::new());
}

#[test]
fn old_records_expire_but_not_favorites() {
    let day: i64 = 86_400_000_000;
    let now: i64 = 20_000 * day;
    let mut db = empty();
    db.add_item(&text("old", &iso_text(now - 8 * day))).unwrap();
    db.add_item(&text("kept", &iso_text(now - 8 * day))).unwrap();
    db.add_item(&text("edge", &iso_text(now - 7 * day))).unwrap();
    db.add_item(&image("p.png", "h", &iso_text(now - 9 * day))).unwrap();
    db.toggle_favorite(2).unwrap();
    assert_eq!(db.cleanup_expired(0, now), (0, Vec::new()));
    assert_eq!(db.cleanup_expired(-3, now), (0, Vec::new()));
    let (n, gone) = db.cleanup_expired(7, now);
    assert_eq!(n, 2);
    assert_eq!(gone, vec!["p.png"]);
    assert_eq!(ids(&db.get_items(false, true)), vec![2, 3]);
}

#[test]
fn times_are_written_in_utc() {
    assert_eq!(iso_text(0), "1970-01-01T00:00:00.000Z");
    assert_eq!(iso_text(1_704_067_200_123_456), "2024-01-01T00:00:00.123Z");
    assert_eq!(expiry_cutoff(86_400_000_000, 1), Some("1970-01-01T00:00:00.000Z".to_string()));
    assert_eq!(expiry_cutoff(0, i64::MAX), None);
    assert_eq!(expiry_cutoff(0, 96_465_293), None);
    assert_eq!(
        expiry_cutoff(0, 96_465_292),
        Some("-262143-01-01T00:00:00.000Z".to_string())
    );
    assert_eq!(now_iso().len(), 24);
    assert_eq!(now_stamp_micros().len(), 21);
    assert_eq!(now_stamp_millis().len(), 18);
    assert!(now_micros() > 1_600_000_000_000_000);
}

#[test]
fn the_index_is_rebuilt() {
    let mut rows = vec![row(1), row(2)];
    rows[1].content = None;
    rows[1].item_type = "file".to_string();
    rows[1].file_paths = Some("[\"C:\\\\d\\\\报告.txt\"]".to_string());
    let before = Database::new("d".to_string(), rows, Vec::new(), 2).unwrap();
    let mut db = before.copy();
    assert_eq!(db.backfill_fts(), 2);
    let (row_writes, entry_writes) = db.changes_since(&before);
    assert_eq!(row_writes.len(), 0);
    assert_eq!(entry_writes.len(), 2);
    match &entry_writes[1] {
        EntryChange::Put(e) => {
            assert_eq!(e.rowid, 2);
            assert_eq!(e.content, "");
            assert_eq!(e.file_paths, "C:\\d\\ 报 告 .txt");
            assert_eq!(e.file_name, "报 告 .txt");
        }
        EntryChange::Drop(_) => panic!("an entry is written"),
    }
}

#[test]
fn changes_are_what_differs() {
    let mut db = empty();
    for c in ["a", "b", "c"] {
        db.add_item(&text(c, "1")).unwrap();
    }
    let before = db.copy();
    db.delete_item(1);
    db.toggle_pin(2).unwrap();
    db.add_item(&text("d", "2")).unwrap();
    let (row_writes, entry_writes) = db.changes_since(&before);
    let shown: Vec<String> = row_writes
        .iter()
        .map(|c| match c {
            RowChange::Put(r) => format!("put {} {}", r.id, r.is_pinned),
            RowChange::Drop(id) => format!("drop {id}"),
        })
        .collect();
    assert_eq!(shown, vec!["drop 1", "put 2 1", "put 4 0"]);
    let shown: Vec<String> = entry_writes
        .iter()
        .map(|c| match c {
            EntryChange::Put(e) => format!("put {} {}", e.rowid, e.content),
            EntryChange::Drop(id) => format!("drop {id}"),
        })
        .collect();
    assert_eq!(shown, vec!["drop 1", "put 4 d"]);
    assert_eq!(db.changes_since(&db.copy()).0.len(), 0);
}

#[test]
fn broken_paths_read_as_none() {
    let mut r = row(1);
    r.file_paths = Some("not json".to_string());
    let db = Database::new("d".to_string(), vec![r], Vec::new(), 1).unwrap();
    assert_eq!(db.get_item(1).unwrap().file_paths, Some(Vec::new()));
}

#[test]
fn moved_files_are_found_again() {
    let mut db = empty();
    let mut a = image("D:\\old\\images\\a.png", "h", "1");
    a.thumbnail_path = Some("D:\\old\\thumbs\\a.png".to_string());
    db.add_item(&a).unwrap();
    db.add_item(&image("C:\\data\\images\\b.png", "k", "2")).unwrap();
    assert_eq!(
        db.repair_probes(),
        vec![
            "D:\\old\\images\\a.png",
            "C:\\data\\images\\a.png",
            "D:\\old\\thumbs\\a.png",
            "C:\\data\\thumbs\\a.png",
            "C:\\data\\images\\b.png",
            "C:\\data\\images\\b.png",
        ]
    );
    let present: Vec<String> = vec![
        "C:\\data\\images\\a.png".to_string(),
        "C:\\data\\images\\b.png".to_string(),
    ];
    assert_eq!(db.repair_missing_paths(&present), 1);
    let a = db.get_item(1).unwrap();
    assert_eq!(a.image_path, Some("C:\\data\\images\\a.png".to_string()));
    assert_eq!(a.thumbnail_path, Some("D:\\old\\thumbs\\a.png".to_string()));
    let b = db.get_item(2).unwrap();
    assert_eq!(b.image_path, Some("C:\\data\\images\\b.png".to_string()));
    assert_eq!(db.repair_missing_paths(&present), 0);
}

#[test]
fn missing_fingerprints_and_thumbnails_are_made() {
    let mut db = empty();
    let mut a = image("a.png", "", "1");
    db.add_item(&a).unwrap();
    a.image_hash = None;
    a.image_path = Some("b.png".to_string());
    db.add_item(&a).unwrap();
    a.image_path = None;
    db.add_item(&a).unwrap();
    db.add_item(&text("t", "2")).unwrap();
    assert_eq!(db.hash_jobs(), vec![(1, "a.png".to_string()), (2, "b.png".to_string())]);
    assert_eq!(db.backfill_image_hashes(&[(2, "ff".to_string()), (4, "ee".to_string())]), 1);
    assert_eq!(db.get_item(2).unwrap().image_hash, Some("ff".to_string()));
    assert_eq!(db.get_item(1).unwrap().image_hash, Some("".to_string()));
    assert_eq!(db.get_item(4).unwrap().image_hash, None);
    assert_eq!(db.thumbnail_jobs(), vec![(1, "a.png".to_string()), (2, "b.png".to_string())]);
    assert_eq!(db.backfill_thumbnails(&[1, 3]), 1);
    assert_eq!(
        db.get_item(1).unwrap().thumbnail_path,
        Some("C:\\data\\thumbs\\thumb_1.png".to_string())
    );
    assert_eq!(db.get_item(3).unwrap().thumbnail_path, None);
    let wide = Picture { width: 4, height: 256, rgba: vec![9; 4 * 256 * 4] };
    assert!(is_shrinkable(&wide, 2));
    let (path, small) = db.generate_thumbnail(2, wide, 2);
    assert_eq!(path, "C:\\data\\thumbs\\thumb_2.png");
    assert_eq!((small.width, small.height), (2, 128));
    assert_eq!(small.rgba, vec![9; 2 * 128 * 4]);
    assert_eq!(
        db.get_item(2).unwrap().thumbnail_path,
        Some("C:\\data\\thumbs\\thumb_2.png".to_string())
    );
    assert_eq!(db.thumbnail_jobs().len(), 0);
    let thin = fitted_thumbnail(Picture { width: 1, height: 300, rgba: vec![7; 1200] }, 0);
    assert_eq!((thin.width, thin.height), (1, 1));
    let flat = fitted_thumbnail(Picture { width: 300, height: 200, rgba: vec![7; 240000] }, 192);
    assert_eq!((flat.width, flat.height), (192, 128));
}

#[test]
fn stored_paths_move_with_the_data() {
    let mut db = empty();
    let mut a = image("/d/images/d1.png", "h", "1");
    a.thumbnail_path = Some("D:\\else\\t.png".to_string());
    db.add_item(&a).unwrap();
    db.add_item(&image("/d2/images/b.png", "k", "2")).unwrap();
    db.add_item(&text("t", "3")).unwrap();
    assert_eq!(update_migrated_paths(&mut db, "/n", "/d"), (2, 0));
    assert_eq!(db.get_item(1).unwrap().image_path, Some("/n/images/d1.png".to_string()));
    assert_eq!(db.get_item(1).unwrap().thumbnail_path, Some("D:\\else\\t.png".to_string()));
    assert_eq!(db.get_item(2).unwrap().image_path, Some("/d2/images/b.png".to_string()));
    let mut db = empty();
    let mut a = image("C:\\da_a\\images\\a.png", "h", "1");
    a.thumbnail_path = Some("C:\\da_a\\thumbs\\C:\\da_a".to_string());
    db.add_item(&a).unwrap();
    db.add_item(&image("C:\\daxa\\images\\b.png", "k", "2")).unwrap();
    assert_eq!(update_migrated_paths(&mut db, "E:\\n", "C:\\da_a"), (2, 1));
    assert_eq!(db.get_item(1).unwrap().image_path, Some("E:\\n\\images\\a.png".to_string()));
    assert_eq!(
        db.get_item(1).unwrap().thumbnail_path,
        Some("E:\\n\\thumbs\\C:\\da_a".to_string())
    );
    assert_eq!(db.get_item(2).unwrap().image_path, Some("C:\\daxa\\images\\b.png".to_string()));
    let mut db = empty();
    db.add_item(&image("c:\\DATA\\images\\a.png", "h", "1")).unwrap();
    db.add_item(&image("D:\\data\\images\\b.png", "k", "2")).unwrap();
    assert_eq!(update_migrated_paths(&mut db, "E:\\n", "C:\\data"), (1, 0));
    assert_eq!(db.get_item(1).unwrap().image_path, Some("c:\\DATA\\images\\a.png".to_string()));
}

#[test]
fn patterns_stand_for_texts() {
    let like = |p: &str, s: &str| {
        let p: Vec<char> = p.chars().collect();
        let s: Vec<char> = s.chars().collect();
        is_like(&p, &s)
    };
    assert!(like("", ""));
    assert!(!like("", "a"));
    assert!(like("%", ""));
    assert!(like("aB%", "Abc"));
    assert!(!like("aB%", "xabc"));
    assert!(like("a_c", "axc"));
    assert!(!like("a_c", "ac"));
    assert!(like("%b%d", "abcbd"));
    assert!(!like("Ä", "ä"));
}

#[test]
fn older_tables_get_their_columns() {
    let c = |v: &[&str]| v.iter().map(|s| s.to_string()).collect::<Vec<_>>();
    assert_eq!(
        schema_upgrades(&c(&["id", "content"])),
        vec![
            "ALTER TABLE clipboard_items ADD COLUMN thumbnail_path TEXT",
            "ALTER TABLE clipboard_items ADD COLUMN file_count INTEGER DEFAULT 0",
            "ALTER TABLE clipboard_items ADD COLUMN image_hash TEXT",
        ]
    );
    assert_eq!(
        schema_upgrades(&c(&["thumbnail_path", "file_count", "image_hash"])),
        Vec::<String>::new()
    );
}

#[test]
fn pictures_stay_within_their_limit() {
    let mut db = empty();
    db.add_item(&image("new.png", "a", "3")).unwrap();
    db.add_item(&image("old.png", "b", "1")).unwrap();
    db.add_item(&image("fav.png", "c", "0")).unwrap();
    db.add_item(&text("t", "0")).unwrap();
    db.add_item(&image("mid.png", "d", "2")).unwrap();
    db.toggle_favorite(3).unwrap();
    let mut fits = db.quota_sweep(IMAGE_LIMIT);
    assert!(fits.current().is_none());
    assert_eq!(db.enforce_image_quota(&mut fits, 5), Vec::<String>::new());
    let mut sweep = db.quota_sweep(IMAGE_LIMIT + 10);
    assert_eq!(sweep.current(), Some(Some("old.png".to_string())));
    assert_eq!(db.enforce_image_quota(&mut sweep, 4), vec!["old.png"]);
    assert_eq!(sweep.current(), Some(Some("mid.png".to_string())));
    assert_eq!(db.enforce_image_quota(&mut sweep, 6), vec!["mid.png"]);
    assert!(sweep.current().is_none());
    assert_eq!(sweep.deleted(), 2);
    assert_eq!(ids(&db.get_items(false, true)), vec![3, 4, 1]);
    let mut sweep = db.quota_sweep(u64::MAX);
    assert_eq!(db.enforce_image_quota(&mut sweep, 1), vec!["new.png"]);
    assert!(sweep.current().is_none());
    assert_eq!(ids(&db.get_items(false, true)), vec![3, 4]);
}

#[test]
fn the_buffer_stays_within_its_limit() {
    let names = vec!["buf_3.png".to_string(), "buf_1.png".to_string(), "buf_2.png".to_string()];
    assert_eq!(sort_texts(&names), vec!["buf_1.png", "buf_2.png", "buf_3.png"]);
    let mut sweep = BufferSweep::new(&names, BUFFER_LIMIT + 10);
    assert_eq!(sweep.current(), Some("buf_1.png".to_string()));
    sweep.enforce_buffer_limit(false, 10);
    assert_eq!(sweep.current(), Some("buf_2.png".to_string()));
    sweep.enforce_buffer_limit(true, 10);
    assert_eq!(sweep.current(), None);
    sweep.enforce_buffer_limit(true, 10);
    assert_eq!(sweep.current(), None);
    assert_eq!(BufferSweep::new(&names, BUFFER_LIMIT).current(), None);
}
