use clipboard_manager::config::AppConfig;
use clipboard_manager::migrate::{
    check_target_path, cleanup_data_dir, copied_path, data_items, migrate_storage, move_target,
    moved_config, moved_message, must_copy, rel_is_logs, system_dirs, validate_storage_path,
    verify_data_dir, MoveNext, MoveStep, VerifyError, WriteTest,
};

fn dirs() -> Vec<String> {
    system_dirs("C:\\Windows", "C:\\Program Files", "C:\\ProgramData")
}

fn validate(new_path: &str, old: &str) -> Result<(), String> {
    validate_storage_path(new_path, old, &WriteTest::Written, &dirs(), Some("E:\\app"))
}

#[test]
fn validate_accepts_disk_drive_path() {
    let r = validate("D:\\some_data", "C:\\old_data");
    assert!(r.is_ok(), "D:\\ 盘符路径应通过校验，实际: {r:?}");
}

#[test]
fn validate_rejects_relative_path() {
    let r = validate("some/relative", "C:\\old_data");
    assert!(r.is_err(), "相对路径应被拒绝");
    assert_eq!(r, Err("目标必须为绝对路径".to_string()));
}

#[test]
fn validate_rejects_same_dir() {
    let r = validate("C:\\old_data", "C:\\old_data");
    assert!(r.is_err(), "与当前目录相同应被拒绝");
    assert_eq!(r, Err("目标位置与当前数据目录相同，无需迁移".to_string()));
    assert!(validate("c:/old_data/", "C:\\old_data").is_err());
}

#[test]
fn validate_tells_each_fault() {
    assert_eq!(validate("", "C:\\old"), Err("请选择数据保存位置".to_string()));
    assert_eq!(validate("D:rel", "C:\\old"), Err("目标必须为绝对路径".to_string()));
    assert_eq!(validate("\\rooted", "C:\\old"), Err("目标必须为绝对路径".to_string()));
    assert_eq!(
        validate("\\\\server\\share\\x", "C:\\old"),
        Err("目标必须为本地磁盘路径".to_string())
    );
    assert_eq!(validate("C:\\Windows", "C:\\old"), Err("目标不得为系统目录".to_string()));
    assert_eq!(
        validate("C:\\Windows\\Temp\\x", "C:\\old"),
        Err("目标不得为系统目录".to_string())
    );
    assert_eq!(
        validate("C:\\Program Files (x86)\\y", "C:\\old"),
        Err("目标不得为系统目录".to_string())
    );
    assert!(validate("C:\\Windows2", "C:\\old").is_ok());
    assert_eq!(validate("E:\\app\\data", "C:\\old"), Err("目标不得为程序安装目录".to_string()));
    assert!(validate("\\\\?\\D:\\deep", "C:\\old").is_ok());
    let none: Vec<String> = vec!["".to_string()];
    assert!(validate_storage_path("D:\\x", "C:\\o", &WriteTest::Written, &none, None).is_ok());
    assert_eq!(
        validate_storage_path(
            "D:\\x",
            "C:\\o",
            &WriteTest::NoDirectory("denied".to_string()),
            &none,
            None
        ),
        Err("目标目录不可创建: denied".to_string())
    );
    assert_eq!(
        validate_storage_path("D:\\x", "C:\\o", &WriteTest::NoFile("full".to_string()), &none, None),
        Err("目标目录不可写: full".to_string())
    );
}

#[test]
fn a_path_is_checked_before_it_is_written_to() {
    assert!(check_target_path("D:\\x", "C:\\o").is_ok());
    assert!(check_target_path("x", "C:\\o").is_err());
}

fn file(path: &str, size: u64) -> (String, u64) {
    (path.to_string(), size)
}

/// The sizes of the copies of `files` in a target that holds `there`.
fn look_up(files: &[(String, u64)], src: &str, dst: &str, there: &[(String, u64)]) -> Vec<Option<u64>> {
    files
        .iter()
        .map(|(p, _)| {
            let c = copied_path(p, src, dst)?;
            there.iter().find(|(q, _)| *q == c).map(|(_, n)| *n)
        })
        .collect()
}

#[test]
fn copy_and_verify_works_when_dst_has_extra_files() {
    let files = vec![file("C:\\src\\clipboard.db", 3), file("C:\\src\\images\\1.png", 3)];
    let there = vec![
        file("C:\\dst\\user_notes.txt", 1),
        file("C:\\dst\\clipboard.db", 3),
        file("C:\\dst\\images\\1.png", 3),
    ];
    let found = look_up(&files, "C:\\src", "C:\\dst", &there);
    assert_eq!(found, vec![Some(3), Some(3)]);
    verify_data_dir("C:\\src", &files, &found).unwrap();
}

#[test]
fn verify_detects_missing_file() {
    let files = vec![file("C:\\src2\\clipboard.db", 3)];
    let found = look_up(&files, "C:\\src2", "C:\\dst2", &[]);
    let r = verify_data_dir("C:\\src2", &files, &found);
    assert!(r.is_err(), "缺少文件应校验失败");
    match r {
        Err(VerifyError::Missing(p)) => assert_eq!(p, "clipboard.db"),
        other => panic!("{other:?}"),
    }
}

#[test]
fn verify_skips_config_json_in_src() {
    let files = vec![file("C:\\src3\\clipboard.db", 3), file("C:\\src3\\config.json", 20)];
    let there = vec![file("C:\\dst3\\clipboard.db", 3)];
    let found = look_up(&files, "C:\\src3", "C:\\dst3", &there);
    let r = verify_data_dir("C:\\src3", &files, &found);
    assert!(r.is_ok(), "config.json 应被跳过，实际: {r:?}");
}

#[test]
fn verify_tells_other_sizes_and_strangers() {
    let files = vec![file("C:\\s\\images\\a\\b.png", 5)];
    match verify_data_dir("C:\\s", &files, &[Some(4)]) {
        Err(VerifyError::SizeDiffers(p, a, b)) => {
            assert_eq!(p, "images\\a\\b.png");
            assert_eq!((a, b), (5, 4));
        }
        other => panic!("{other:?}"),
    }
    let stranger = vec![file("D:\\else.db", 5)];
    assert!(matches!(
        verify_data_dir("C:\\s", &stranger, &[Some(5)]),
        Err(VerifyError::NotBelow)
    ));
    let logs = vec![file("C:\\s\\logs\\clipboard.log", 5)];
    assert!(verify_data_dir("C:\\s", &logs, &[None]).is_ok());
    assert!(rel_is_logs("C:\\s\\logs\\clipboard.log", "C:\\s"));
    assert!(!rel_is_logs("C:\\s\\images\\logs", "C:\\s"));
    assert!(!rel_is_logs("D:\\logs\\x", "C:\\s"));
    let buffered = vec![file("C:\\s\\clip_buffer\\b.png", 5)];
    assert!(verify_data_dir("C:\\s", &buffered, &[None]).is_ok());
    let loose = vec![file("C:\\s\\images", 5), file("C:\\s\\other\\x", 5)];
    assert!(verify_data_dir("C:\\s", &loose, &[None, None]).is_ok());
    let thumb = vec![file("C:\\s\\thumbs\\t.png", 5)];
    assert!(verify_data_dir("C:\\s", &thumb, &[None]).is_err());
}

#[test]
fn what_waits_in_the_buffer_needs_no_copy() {
    let files = vec![file("C:\\s\\clipboard.db", 3), file("C:\\s\\clip_buffer\\buf_1.png", 1)];
    let there = vec![file("C:\\d\\clipboard.db", 3)];
    let found = look_up(&files, "C:\\s", "C:\\d", &there);
    assert_eq!(found, vec![Some(3), None]);
    assert!(verify_data_dir("C:\\s", &files, &found).is_ok());
}

#[test]
fn the_data_is_named_and_the_settings_are_not() {
    assert_eq!(data_items(), vec!["clipboard.db", "images", "thumbs", "logs"]);
    assert!(must_copy("images"));
    assert!(!must_copy("logs"));
    let gone = cleanup_data_dir("C:\\old");
    assert_eq!(
        gone,
        vec!["C:\\old\\clipboard.db", "C:\\old\\images", "C:\\old\\thumbs", "C:\\old\\logs"]
    );
    assert!(!gone.contains(&"C:\\old\\config.json".to_string()));
}

#[test]
fn a_move_goes_step_by_step_and_rolls_back() {
    let ok = || -> Result<(), String> { Ok(()) };
    assert!(matches!(migrate_storage(MoveStep::Copy, ok()), MoveNext::Go(MoveStep::Verify)));
    assert!(matches!(
        migrate_storage(MoveStep::Verify, ok()),
        MoveNext::Go(MoveStep::UpdatePaths)
    ));
    assert!(matches!(
        migrate_storage(MoveStep::UpdatePaths, ok()),
        MoveNext::Go(MoveStep::SaveConfig)
    ));
    assert!(matches!(migrate_storage(MoveStep::SaveConfig, ok()), MoveNext::Done));
    for step in [MoveStep::Copy, MoveStep::Verify, MoveStep::UpdatePaths] {
        match migrate_storage(step, Err("no room".to_string())) {
            MoveNext::RollBack(e) => assert_eq!(e, "no room"),
            _ => panic!("a failed step rolls back"),
        }
    }
    match migrate_storage(MoveStep::SaveConfig, Err("locked".to_string())) {
        MoveNext::Fail(e) => assert_eq!(e, "locked"),
        _ => panic!("settings that cannot be stored fail the move"),
    }
}

#[test]
fn settings_after_a_move() {
    let asked = AppConfig {
        storage_path: "  D:\\data \n".to_string(),
        retention_days: 30,
        auto_start: true,
        pending_cleanup_dir: None,
    };
    assert_eq!(move_target(&asked), "D:\\data");
    let c = moved_config(&asked, "C:\\old");
    assert_eq!(c.storage_path, "D:\\data");
    assert_eq!(c.retention_days, 30);
    assert!(c.auto_start);
    assert_eq!(c.pending_cleanup_dir, Some("C:\\old".to_string()));
    assert_eq!(moved_message("D:\\data"), "数据已迁移到 D:\\data，程序将重启");
}
