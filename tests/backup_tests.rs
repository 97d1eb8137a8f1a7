use acc_app::backup::{
    backup_file_name, backup_name_for, backups_to_remove, get_latest_backup, is_backup_file,
    join, prepare_folder_structure, BackupEntry, MAX_BACKUPS,
};

fn entry(name: &str, modified: u64) -> BackupEntry {
    BackupEntry { name: name.to_string(), modified }
}

#[test]
fn test_folder_creation() {
    let layout = prepare_folder_structure("/data/acc", "res_file.xlsx");
    assert_eq!(layout.base, "/data/acc");
    assert_eq!(layout.tmp, "/data/acc/tmp");
    assert_eq!(layout.backup, "/data/acc/backup");
    assert_eq!(layout.live_file, "/data/acc/res_file.xlsx");
    assert_eq!(layout.delta_file, "/data/acc/tmp/tmp_mask.xlsx");
}

#[test]
fn join_handles_trailing_slash_and_empty_dir() {
    assert_eq!(join("a/", "b"), "a/b");
    assert_eq!(join("", "b"), "b");
    assert_eq!(join("a", "b"), "a/b");
}

#[test]
fn test_backup_management() {
    let entries: Vec<BackupEntry> =
        (0..5).map(|i| entry(&format!("backup_{}.xlsx", i), 1000 + 200 * i as u64)).collect();
    let removed = backups_to_remove(&entries, MAX_BACKUPS);
    assert_eq!(removed, vec![0, 1]);
    let kept: Vec<BackupEntry> = entries
        .into_iter()
        .enumerate()
        .filter(|(i, _)| !removed.contains(i))
        .map(|(_, e)| e)
        .collect();
    assert_eq!(kept.len(), MAX_BACKUPS);
    let names: Vec<&str> = kept.iter().map(|e| e.name.as_str()).collect();
    assert!(names.contains(&"backup_2.xlsx"));
    assert!(names.contains(&"backup_3.xlsx"));
    assert!(names.contains(&"backup_4.xlsx"));
    let latest = get_latest_backup(&kept);
    assert_eq!(latest.map(|i| kept[i].name.as_str()), Some("backup_4.xlsx"));
}

#[test]
fn rotation_ignores_other_files_and_breaks_ties_by_listing() {
    let entries = vec![
        entry("b.xlsx", 50),
        entry(".DS_Store", 1),
        entry("a.xlsx", 10),
        entry("c.xlsx", 10),
        entry("notes.txt", 2),
    ];
    assert_eq!(backups_to_remove(&entries, 1), vec![2, 3]);
    assert_eq!(backups_to_remove(&entries, 2), vec![2]);
    assert_eq!(backups_to_remove(&entries, 3), Vec::<usize>::new());
    assert_eq!(backups_to_remove(&entries, 0), vec![0, 2, 3]);
    assert_eq!(get_latest_backup(&entries), Some(0));
    let tied = vec![entry("x.xlsx", 5), entry("y.xlsx", 5)];
    assert_eq!(get_latest_backup(&tied), Some(1));
    assert_eq!(get_latest_backup(&vec![entry("z.txt", 9)]), None);
    assert_eq!(get_latest_backup(&Vec::new()), None);
}

#[test]
fn backup_names() {
    assert!(is_backup_file("backup_1.xlsx"));
    assert!(is_backup_file(".xlsx"));
    assert!(!is_backup_file("xlsx"));
    assert!(!is_backup_file("backup.xls"));
    assert_eq!(backup_name_for("20240101_120000"), "backup_20240101_120000.xlsx");
    assert_eq!(backup_file_name(0), Some("backup_19700101_000000.xlsx".to_string()));
    assert_eq!(
        backup_file_name(1_700_000_000),
        Some("backup_20231114_221320.xlsx".to_string())
    );
    assert_eq!(backup_file_name(-1), None);
    assert_eq!(backup_file_name(253_402_300_800), None);
    assert_eq!(
        backup_file_name(253_402_300_799),
        Some("backup_99991231_235959.xlsx".to_string())
    );
}
