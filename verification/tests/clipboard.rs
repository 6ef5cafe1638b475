use clipboard_manager::commands::{
    batch_copy, check_image_path, check_thumbnail_path, copy_files, copy_item, data_uri,
    reveal_file, reveal_in_explorer, write_image_clipboard, CopyPlan,
};
use clipboard_manager::config::{AppConfig, AppState};
use clipboard_manager::db::Database;
use clipboard_manager::exchange::{
    bitmap_bytes, clipboard_text, drop_files_bytes, read_drop_files, utf16_text, utf16_units, wide_z,
};
use clipboard_manager::fts::{build_fts_query, fts_paths, fts_text, is_cjk};
use clipboard_manager::models::{ClipboardItem, Row};
use clipboard_manager::monitor::{
    after_files, after_text, buffer_path, process_file_record, process_files, process_image_job,
    process_text, taken_as_pictures, try_process_image, ImageStep, Outcome, Reading,
};
use clipboard_manager::picture::{
    compute_image_hash, hash_bytes, is_image_magic, picture_from_raw, png_fast, probe_body,
    probe_head, probe_opened, thumbnail_size, Picture, Probe,
};
use clipboard_manager::winpath::{file_name, join_path, norm_dir, parent_path};

fn strings(v: &[&str]) -> Vec<String> {
    v.iter().map(|s| s.to_string()).collect()
}

fn empty() -> Database {
    Database::new("C:\\data".to_string(), Vec::new(), Vec::new(), 0).unwrap()
}

fn state() -> AppState {
    AppState::new("C:\\cfg\\config.json".to_string(), AppConfig::default())
}

fn touched(o: Outcome) -> Option<i64> {
    match o {
        Outcome::Touched(id) => Some(id),
        _ => None,
    }
}

#[test]
fn what_is_read_first() {
    assert_eq!(after_files(&None), Reading::ReadText);
    assert_eq!(after_files(&Some(Vec::new())), Reading::Done);
    assert_eq!(after_files(&Some(strings(&["a"]))), Reading::Files);
    assert_eq!(after_text(&None), Reading::ReadImage);
    assert_eq!(after_text(&Some(String::new())), Reading::Done);
    assert_eq!(after_text(&Some("t".to_string())), Reading::Text);
}

#[test]
fn a_text_is_recorded_once() {
    let mut db = empty();
    let mut last: Option<String> = None;
    match process_text(&mut db, &mut last, "hi", &[], "1") {
        Ok(Outcome::Added(id, item)) => {
            assert_eq!(id, 1);
            assert_eq!(item.id, 0);
            assert_eq!(item.content, Some("hi".to_string()));
            assert_eq!(item.created_at, "1");
        }
        _ => panic!("a new text is added"),
    }
    assert_eq!(last, Some("hi".to_string()));
    assert_eq!(touched(process_text(&mut db, &mut last, "hi", &[], "2").unwrap()), Some(1));
    assert_eq!(db.get_item(1).unwrap().created_at, "2");
    assert_eq!(touched(process_text(&mut db, &mut last, "hi", &[1], "3").unwrap()), None);
    assert_eq!(db.get_item(1).unwrap().created_at, "2");
    let mut fresh: Option<String> = None;
    assert_eq!(touched(process_text(&mut db, &mut fresh, "hi", &[], "4").unwrap()), Some(1));
    assert_eq!(db.get_items(false, false).len(), 1);
}

#[test]
fn a_deleted_text_is_not_recorded_while_it_is_the_last() {
    let mut db = empty();
    let mut last: Option<String> = None;
    process_text(&mut db, &mut last, "hi", &[], "1").unwrap();
    db.delete_item(1);
    assert!(matches!(process_text(&mut db, &mut last, "hi", &[], "2"), Ok(Outcome::Nothing)));
    assert_eq!(db.get_items(false, false).len(), 0);
    assert!(matches!(process_text(&mut db, &mut last, "", &[], "2"), Ok(Outcome::Nothing)));
    assert_eq!(last, Some("hi".to_string()));
    process_text(&mut db, &mut last, "other", &[], "3").unwrap();
    assert!(matches!(process_text(&mut db, &mut last, "hi", &[], "4"), Ok(Outcome::Added(3, _))));
}

#[test]
fn a_full_history_refuses_what_is_new() {
    let mut db = Database::new("d".to_string(), Vec::new(), Vec::new(), i64::MAX).unwrap();
    let mut last: Option<String> = None;
    assert!(process_text(&mut db, &mut last, "hi", &[], "1").is_err());
    assert!(process_file_record(&mut db, &strings(&["a"]), &[], "1").is_err());
    assert!(process_files(&mut db, &strings(&["a"]), &[false], &[], "1").is_err());
}

#[test]
fn files_are_recorded_once() {
    let mut db = empty();
    match process_file_record(&mut db, &strings(&["b", "a"]), &[], "1") {
        Ok(Outcome::Added(1, item)) => {
            assert_eq!(item.file_count, 2);
            assert_eq!(item.source_app, Some("b".to_string()));
            assert_eq!(item.file_paths, Some(strings(&["b", "a"])));
        }
        _ => panic!("new files are added"),
    }
    let again = process_file_record(&mut db, &strings(&["a", "b"]), &[], "2").unwrap();
    assert_eq!(touched(again), Some(1));
    assert_eq!(db.get_items(false, false).len(), 1);
}

#[test]
fn mixed_files_make_one_record() {
    let mut db = empty();
    let paths = strings(&["a.png", "b.txt"]);
    assert!(!taken_as_pictures(&[true, false]));
    match process_files(&mut db, &paths, &[true, false], &[], "1") {
        Ok(Outcome::Added(1, item)) => {
            assert_eq!(item.file_paths, Some(strings(&["a.png", "b.txt"])));
            assert_eq!(item.file_count, 2);
        }
        _ => panic!("the files are added"),
    }
    assert!(taken_as_pictures(&[true, true]));
    assert!(matches!(
        process_files(&mut db, &strings(&["c.png", "d.png"]), &[true, true], &[], "1"),
        Ok(Outcome::Nothing)
    ));
    assert_eq!(db.get_items(false, false).len(), 1);
}

fn dot(r: u8, g: u8, b: u8) -> Picture {
    Picture { width: 1, height: 1, rgba: vec![r, g, b, 255] }
}

#[test]
fn a_picture_is_recorded_once() {
    let mut db = empty();
    let p = dot(1, 2, 3);
    assert_eq!(buffer_path(&db, "20240101"), "C:\\data\\clip_buffer\\buf_20240101.png");
    let item = match process_image_job(&mut db, &p, &[], "1", "20240101") {
        ImageStep::New(item) => item,
        ImageStep::Known(_) => panic!("the picture is new"),
    };
    assert_eq!(item.image_path, Some("C:\\data\\images\\clip_20240101.png".to_string()));
    assert_eq!(item.image_hash, Some(compute_image_hash(&p)));
    assert_eq!(item.source_app, None);
    let id = db.add_item(&item).unwrap();
    match try_process_image(&mut db, &p, "D:\\x.png", &[], "2", "s") {
        ImageStep::Known(o) => assert_eq!(touched(o), Some(id)),
        ImageStep::New(_) => panic!("the picture is known"),
    }
    match process_image_job(&mut db, &p, &[id], "3", "s") {
        ImageStep::Known(o) => assert_eq!(touched(o), None),
        ImageStep::New(_) => panic!("the picture is known"),
    }
    match try_process_image(&mut db, &dot(9, 9, 9), "D:\\x.png", &[], "2", "s") {
        ImageStep::New(item) => {
            assert_eq!(item.image_path, Some("C:\\data\\images\\file_s.png".to_string()));
            assert_eq!(item.source_app, Some("D:\\x.png".to_string()));
        }
        ImageStep::Known(_) => panic!("the picture is new"),
    }
}

#[test]
fn thumbnails_are_resampled() {
    let mut db = empty();
    let tall = Picture { width: 2, height: 256, rgba: vec![7; 2 * 256 * 4] };
    let (path, small) = db.generate_thumbnail_from_rgba(5, tall, 1);
    assert_eq!(path, "C:\\data\\thumbs\\thumb_5.png");
    assert_eq!((small.width, small.height), (1, 128));
    assert_eq!(small.rgba, vec![7; 128 * 4]);
    assert_eq!(thumbnail_size(300, 128, 9), (300, 128));
    assert_eq!(thumbnail_size(300, 129, 9), (9, 128));
}

#[test]
fn fingerprints() {
    assert_eq!(
        hash_bytes(b"abc"),
        "ba7816bf8f01cfea414140de5dae2223b00361a396177a9cb410ff61f20015ad"
    );
    assert_ne!(compute_image_hash(&dot(1, 2, 3)), compute_image_hash(&dot(3, 2, 1)));
}

#[test]
fn png_files_are_written_and_read() {
    let p = Picture { width: 2, height: 1, rgba: vec![1, 2, 3, 255, 4, 5, 6, 128] };
    let bytes = png_fast(&p).unwrap();
    assert!(is_image_magic(&bytes[..12]));
    match probe_body(&bytes) {
        Probe::Image(q) => {
            assert_eq!((q.width, q.height), (2, 1));
            assert_eq!(q.rgba, p.rgba);
        }
        _ => panic!("a picture is read"),
    }
    assert!(matches!(probe_body(b"no picture at all"), Probe::NotImage));
    assert!(matches!(probe_opened(None), Probe::NeedHead));
    assert!(matches!(probe_opened(Some(dot(0, 0, 0))), Probe::Image(_)));
    assert!(matches!(probe_head(b"BM"), Probe::NeedBody));
    assert!(matches!(probe_head(b"MZ"), Probe::NotImage));
}

#[test]
fn image_files_are_told_by_their_heads() {
    assert!(is_image_magic(&[0x89, 0x50, 0x4E, 0x47, 0x0D, 0x0A, 0x1A, 0x0A]));
    assert!(is_image_magic(&[0xFF, 0xD8, 0xFF]));
    assert!(is_image_magic(b"GIF8"));
    assert!(is_image_magic(b"RIFF1234WEBP"));
    assert!(!is_image_magic(b"RIFF1234WAVE"));
    assert!(!is_image_magic(b"RIFF1234WEB"));
    assert!(is_image_magic(&[0x49, 0x49, 0x2A, 0x00]));
    assert!(is_image_magic(&[0x4D, 0x4D, 0x00, 0x2A]));
    assert!(is_image_magic(&[0x00, 0x00, 0x01, 0x00]));
    assert!(is_image_magic(b"1234ftypavif"));
    assert!(is_image_magic(b"1234ftypavis"));
    assert!(!is_image_magic(b"1234ftypmp42"));
    assert!(!is_image_magic(&[]));
}

#[test]
fn raw_pictures_need_enough_samples() {
    assert!(picture_from_raw(2, 2, vec![0; 15]).is_none());
    let p = picture_from_raw(2, 2, vec![1; 17]).unwrap();
    assert_eq!(p.rgba.len(), 16);
}

#[test]
fn texts_go_through_utf16() {
    let s = "a中😀";
    let u = utf16_units(s);
    assert_eq!(u, s.encode_utf16().collect::<Vec<_>>());
    assert_eq!(utf16_text(&u), s);
    assert_eq!(utf16_text(&[0xD800, 0x41]), String::from_utf16_lossy(&[0xD800, 0x41]));
    assert_eq!(clipboard_text(&[0x41, 0x42, 0, 0x43]), "AB");
    assert_eq!(clipboard_text(&vec![0x41; 40000]).len(), 32768);
}

#[test]
fn file_lists_are_written_and_read() {
    let paths = strings(&["C:\\a.txt", "D:\\中\\😀.png"]);
    let bytes = drop_files_bytes(&paths);
    assert_eq!(&bytes[..20], &[20, 0, 0, 0, 0, 0, 0, 0, 0, 0, 0, 0, 0, 0, 0, 0, 1, 0, 0, 0]);
    assert_eq!(read_drop_files(&bytes), Some(paths));
    let mut narrow = vec![20, 0, 0, 0, 0, 0, 0, 0, 0, 0, 0, 0, 0, 0, 0, 0, 0, 0, 0, 0];
    narrow.extend_from_slice(b"C:\\x\0D:\\\xFF\0\0");
    assert_eq!(read_drop_files(&narrow), Some(strings(&["C:\\x", "D:\\\u{FFFD}"])));
    assert_eq!(read_drop_files(&[1, 2, 3]), None);
    assert_eq!(read_drop_files(&drop_files_bytes(&[])), Some(Vec::new()));
}

#[test]
fn bitmaps_run_from_the_bottom() {
    let p = Picture { width: 1, height: 2, rgba: vec![1, 2, 3, 4, 5, 6, 7, 8] };
    let b = bitmap_bytes(&p);
    assert_eq!(b.len(), 48);
    assert_eq!(&b[..16], &[40, 0, 0, 0, 1, 0, 0, 0, 2, 0, 0, 0, 1, 0, 32, 0]);
    assert_eq!(&b[40..], &[7, 6, 5, 8, 3, 2, 1, 4]);
    let (dib, list) = write_image_clipboard(&p, &strings(&["C:\\p.png"]));
    assert_eq!(dib, b);
    assert_eq!(list, drop_files_bytes(&strings(&["C:\\p.png"])));
}

fn put(db: &mut Database, item_type: &str) -> i64 {
    let item = ClipboardItem {
        id: 0,
        item_type: item_type.to_string(),
        content: Some(format!("{item_type}!")),
        image_path: Some("C:\\i.png".to_string()),
        thumbnail_path: None,
        file_paths: Some(strings(&["C:\\f", "D:\\g"])),
        file_count: 2,
        is_favorite: false,
        is_pinned: false,
        created_at: "1".to_string(),
        source_app: None,
        image_hash: None,
    };
    db.add_item(&item).unwrap()
}

fn bare(item_type: &str, id: i64) -> Row {
    Row {
        id,
        item_type: item_type.to_string(),
        content: None,
        image_path: None,
        thumbnail_path: None,
        file_paths: None,
        file_count: 0,
        is_favorite: 0,
        is_pinned: 0,
        created_at: "1".to_string(),
        source_app: None,
        image_hash: None,
    }
}

#[test]
fn a_record_goes_back_to_the_clipboard() {
    let mut db = empty();
    let mut s = state();
    put(&mut db, "text");
    put(&mut db, "image");
    put(&mut db, "file");
    put(&mut db, "other");
    assert!(matches!(copy_item(&db, &mut s, 1), Ok(CopyPlan::Text(t)) if t == "text!"));
    assert_eq!(s.internal_copy, vec![1]);
    assert!(matches!(copy_item(&db, &mut s, 2), Ok(CopyPlan::Image(p)) if p == "C:\\i.png"));
    assert!(matches!(copy_item(&db, &mut s, 3), Ok(CopyPlan::Files(v)) if v.len() == 2));
    assert_eq!(copy_item(&db, &mut s, 4).err(), Some("不支持的记录类型: other".to_string()));
    assert_eq!(s.internal_copy, vec![4]);
    assert_eq!(copy_item(&db, &mut s, -9).err(), Some("记录不存在 id=-9".to_string()));
    assert_eq!(s.internal_copy, vec![4]);
    let rows = vec![bare("text", 1), bare("image", 2), bare("file", 3)];
    let db = Database::new("d".to_string(), rows, Vec::new(), 3).unwrap();
    assert_eq!(copy_item(&db, &mut s, 1).err(), Some("文本记录缺少 content".to_string()));
    assert_eq!(copy_item(&db, &mut s, 2).err(), Some("图片记录缺少 image_path".to_string()));
    assert_eq!(copy_item(&db, &mut s, 3).err(), Some("文件记录缺少 file_paths".to_string()));
}

#[test]
fn files_that_are_gone_are_told() {
    let p = strings(&["a", "b", "c"]);
    assert_eq!(copy_files(&p, &[true, true, true]), Ok((p.clone(), String::new())));
    assert_eq!(
        copy_files(&p, &[false, true, false]),
        Ok((strings(&["b"]), "2 个文件已不存在，已复制剩余文件".to_string()))
    );
    assert_eq!(copy_files(&p, &[false, false, false]), Err("源文件不存在".to_string()));
}

#[test]
fn several_records_go_back_together() {
    let mut db = empty();
    let mut s = state();
    for t in ["text", "text", "image", "file", "odd"] {
        put(&mut db, t);
    }
    db.add_item(&ClipboardItem { content: Some("two\nlines".to_string()), ..db.get_item(1).unwrap() })
        .unwrap();
    assert_eq!(batch_copy(&db, &mut s, &[]).err(), Some("未选择任何记录".to_string()));
    assert_eq!(s.internal_copy, Vec::<i64>::new());
    assert!(matches!(
        batch_copy(&db, &mut s, &[6, 1]),
        Ok(CopyPlan::Text(t)) if t == "two\nlines\ntext!"
    ));
    assert_eq!(s.internal_copy, vec![6, 1]);
    assert!(matches!(
        batch_copy(&db, &mut s, &[4, 5, 3]),
        Ok(CopyPlan::Files(v)) if v == strings(&["C:\\f", "D:\\g", "C:\\i.png"])
    ));
    assert_eq!(
        batch_copy(&db, &mut s, &[1, 3]).err(),
        Some("文本不能与文件/图片混选".to_string())
    );
    assert_eq!(batch_copy(&db, &mut s, &[1, 77, 88]).err(), Some("记录不存在 id=77".to_string()));
    assert_eq!(s.internal_copy, vec![1, 77, 88]);
}

#[test]
fn files_of_one_folder_are_shown_together() {
    let same = strings(&["C:\\Dir\\a", "c:\\dir\\b"]);
    assert_eq!(reveal_file(&same, &[true, true]), Ok(same.clone()));
    let apart = strings(&["C:\\x\\a", "C:\\y\\b", "C:\\x\\c"]);
    assert_eq!(reveal_file(&apart, &[true, true, true]), Ok(strings(&["C:\\x\\a"])));
    assert_eq!(
        reveal_file(&apart, &[true, false, true]),
        Ok(strings(&["C:\\x\\a", "C:\\x\\c"]))
    );
    assert_eq!(reveal_file(&apart, &[false; 3]), Err("源文件不存在".to_string()));
    assert_eq!(norm_dir("C:\\Dir\\a"), Some("c:\\dir".to_string()));
    assert_eq!(norm_dir("C:\\a"), Some("c:".to_string()));
    assert_eq!(norm_dir("C:\\"), None);
    assert_eq!(norm_dir("C:\\My Files\\a.txt"), norm_dir("c:\\mY fILES\\b"));
}

#[test]
fn folders_are_handed_to_the_shell() {
    let wide = |s: &str| s.encode_utf16().chain([0]).collect::<Vec<u16>>();
    assert_eq!(
        reveal_in_explorer(&strings(&["C:\\x\\a"])),
        Ok((wide("C:\\x"), vec![wide("C:\\x\\a")]))
    );
    assert_eq!(reveal_in_explorer(&[]), Err("无有效文件".to_string()));
    assert_eq!(reveal_in_explorer(&strings(&["C:\\"])), Err("无法确定所在文件夹".to_string()));
}

#[test]
fn only_own_pictures_are_read() {
    let db = empty();
    assert!(check_thumbnail_path(&db, "c:\\DATA\\thumbs\\thumb_1.png").is_ok());
    assert_eq!(
        check_thumbnail_path(&db, "C:\\data\\images\\a.png"),
        Err("invalid path".to_string())
    );
    assert!(check_image_path(&db, "C:\\data\\IMAGES\\a.png").is_ok());
    for p in [
        "C:\\",
        "C:\\data\\images\\..\\clipboard.db",
        "C:\\data\\images_old\\x",
        "C:/data/images/a/../../clipboard.db",
        "C:\\data",
    ] {
        assert_eq!(check_image_path(&db, p), Err("invalid path".to_string()));
    }
    assert!(check_image_path(&db, "c:/Data/images/sub/a.png").is_ok());
    assert_eq!(data_uri(b"Man!"), "data:image/png;base64,TWFuIQ==");
    assert_eq!(data_uri(b""), "data:image/png;base64,");
}

#[test]
fn texts_are_split_for_the_index() {
    assert!(is_cjk('中') && is_cjk('\u{3400}') && is_cjk('\u{2EBEF}'));
    assert!(!is_cjk('a') && !is_cjk('あ'));
    assert_eq!(fts_text("ab中文c"), "ab 中 文 c");
    assert_eq!(fts_text("  x "), "x");
    assert_eq!(fts_text(""), "");
    assert_eq!(build_fts_query("中文 say \"hi\""), "\"中\" AND \"文\" AND \"say\" AND \"\"\"hi\"\"\"");
    assert_eq!(build_fts_query(" \t"), "");
    let mut db = empty();
    let id = put(&mut db, "file");
    let item = db.get_item(id).unwrap();
    assert_eq!(fts_paths(&item), ("C:\\f D:\\g".to_string(), "f g".to_string()));
}

#[test]
fn paths_are_taken_apart() {
    assert_eq!(file_name("C:\\a\\b.txt\\"), Some("b.txt".to_string()));
    assert_eq!(file_name("C:\\"), None);
    assert_eq!(parent_path("C:\\a\\b"), Some("C:\\a".to_string()));
    assert_eq!(parent_path("C:\\a"), Some("C:\\".to_string()));
    assert_eq!(parent_path("C:."), None);
    assert_eq!(parent_path("."), Some("".to_string()));
    assert_eq!(join_path("C:\\a", "b"), "C:\\a\\b");
    assert_eq!(join_path("C:\\", "b"), "C:\\b");
    assert_eq!(join_path("C:", "b"), "C:b");
    assert_eq!(join_path("C:\\a\\\\.", "b"), "C:\\a\\\\.\\b");
    assert_eq!(join_path("C:\\a", "D:\\b"), "D:\\b");
    assert_eq!(join_path("C:\\a", "\\b"), "C:\\b");
    assert_eq!(join_path("C:\\a", "b/../c"), "C:\\a\\b/../c");
}

#[test]
fn a_text_on_the_clipboard_reads_back() {
    let s = "多行\n文本 😀";
    assert_eq!(clipboard_text(&wide_z(s)), s);
    let long: String = "x".repeat(32768);
    assert_eq!(clipboard_text(&wide_z(&long)), long);
}

#[test]
fn a_han_substring_shares_its_words_with_the_text() {
    let text = fts_text("我的剪贴板history记录");
    let words: Vec<&str> = text.split_whitespace().collect();
    for w in fts_text("剪贴").split_whitespace() {
        assert!(words.contains(&w));
    }
}

#[test]
fn copying_back_makes_no_further_record() {
    let mut db = empty();
    let mut s = state();
    let mut last: Option<String> = None;
    process_text(&mut db, &mut last, "one", &[], "1").unwrap();
    process_text(&mut db, &mut last, "two", &[], "2").unwrap();
    let plan = copy_item(&db, &mut s, 1).unwrap();
    let ids = s.take_internal_copy();
    match plan {
        CopyPlan::Text(t) => {
            assert!(matches!(
                process_text(&mut db, &mut last, &t, &ids, "3"),
                Ok(Outcome::Nothing)
            ));
        }
        _ => panic!("a text goes back as a text"),
    }
    let order: Vec<i64> = db.get_items(false, false).iter().map(|i| i.id).collect();
    assert_eq!(order, vec![2, 1]);
}

#[test]
fn a_verbatim_folder_is_written_anew() {
    let v = |base: &str, name: &str| join_path(base, name);
    assert_eq!(v("\\\\?\\C:\\a\\\\b\\", "c"), "\\\\?\\C:\\a\\b\\c");
    assert_eq!(v("\\\\?\\C:", "c"), "\\\\?\\C:\\c");
    assert_eq!(v("\\\\?\\C:\\", "c"), "\\\\?\\C:\\c");
    assert_eq!(v("\\\\?\\C:/a", "c"), "\\\\?\\C:\\a\\c");
    assert_eq!(v("\\\\?\\C:\\a", "b/./c\\..\\d"), "\\\\?\\C:\\a\\b\\d");
    assert_eq!(v("\\\\?\\C:\\a\\.", "..\\b"), "\\\\?\\C:\\a\\.\\b");
    assert_eq!(v("\\\\?\\C:\\a", "..\\..\\..\\b"), "\\\\?\\C:\\b");
    assert_eq!(v("\\\\?\\C:\\a", ".."), "\\\\?\\C:\\");
    assert_eq!(v("\\\\?\\C:\\a", "\\b"), "\\\\?\\C:\\b");
    assert_eq!(v("\\\\?\\pictures", "."), "\\\\?\\pictures");
    assert_eq!(v("\\\\?\\UNC\\srv\\share\\\\x", "c"), "\\\\?\\UNC\\srv\\share\\x\\c");
    assert_eq!(v("\\\\?\\C:\\a\\\\", ""), "\\\\?\\C:\\a\\\\");
    assert_eq!(v("\\\\?\\C:\\a", "D:b"), "D:b");
}

#[test]
fn a_share_is_one_folder_in_either_case() {
    let key = |folder: &str, name: &str| norm_dir(&join_path(folder, name));
    let big = "\\\\?\\UNC\\srv\\share";
    let small = "\\\\?\\unc\\SRV\\share";
    assert_eq!(key(big, "a.txt"), Some("\\\\?\\unc\\srv\\share".to_string()));
    assert_eq!(key(small, "b.txt"), key(big, "a.txt"));
    let below = |folder: &str| format!("{folder}\\x\\\\");
    assert_eq!(key(&below(big), "a"), Some("\\\\?\\unc\\srv\\share\\x".to_string()));
    assert_eq!(key(&below(small), "b"), key(&below(big), "a"));
    assert_eq!(key("\\\\?\\UNC/srv\\share", "a"), key("\\\\?\\unc/srv\\share", "a"));
    assert_eq!(key("\\\\?\\UNC\\srv", "a"), None);
    assert_eq!(key("\\\\?\\unc\\srv", "a"), Some("\\\\?\\unc\\srv".to_string()));
}
