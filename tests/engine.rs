use alien_language::archive::ArchiveEntry;
use alien_language::cli::Language;
use alien_language::install::{
    backup_alien_isolation_data, check_manifest_for_game_data, is_whitelisted, join,
    overlay_plan, restore_plan, BackupError, EntryState, IntegrityError, RestoreError,
};
use alien_language::manifest::{FilteredEntry, Manifest, ManifestItem};
use alien_language::path_structure::{
    alien_isolation_dir, assets_dir, backup_dir, data_dir, hans_dir, language_dir, language_zip,
    project_dir, temporary_dir,
};
use std::io::Write;

fn item(path: &str, is_dir: bool, bytes: &[u8]) -> ManifestItem {
    ManifestItem {
        path: path.to_string(),
        lowercase_name: path.to_lowercase(),
        bytes: bytes.to_vec(),
        is_file: !is_dir,
        is_dir,
    }
}

fn zip_of(entries: &[(&str, Option<&[u8]>)]) -> Vec<u8> {
    let mut w = zip::ZipWriter::new(std::io::Cursor::new(Vec::new()));
    for (name, data) in entries {
        match data {
            None => w.add_directory(*name, zip::write::SimpleFileOptions::default()).unwrap(),
            Some(b) => {
                w.start_file(*name, zip::write::SimpleFileOptions::default()).unwrap();
                w.write_all(b).unwrap();
            }
        }
    }
    w.finish().unwrap().into_inner()
}

fn entry(index: usize, stripped: &str) -> FilteredEntry {
    FilteredEntry { index, stripped: stripped.to_string() }
}

#[test]
fn locations() {
    assert_eq!(hans_dir(), "language/zh_cn_hans");
    assert_eq!(language_dir(), "language");
    assert_eq!(language_zip(), "language.zip");
    assert_eq!(data_dir(), "data");
    assert_eq!(project_dir(), ".");
    assert_eq!(assets_dir(), "./assets");
    assert_eq!(backup_dir(), "./assets/backup");
    assert_eq!(temporary_dir(), ".temporary");
    assert!(alien_isolation_dir().ends_with("AlienIsolationData"));
}

#[test]
fn language_default_is_chinese() {
    assert_eq!(Language::default(), Language::Chinese);
}

#[test]
fn item_lowercases_its_path() {
    let e = ArchiveEntry {
        name: Some("Language/ZH_CN_Hans/UI/Menu.BIN".to_string()),
        is_file: true,
        is_dir: false,
        bytes: Some(vec![1, 2]),
    };
    let it = ManifestItem::new(e).unwrap();
    assert_eq!(it.path, "Language/ZH_CN_Hans/UI/Menu.BIN");
    assert_eq!(it.lowercase_name, "language/zh_cn_hans/ui/menu.bin");
    assert_eq!(it.bytes, vec![1, 2]);
}

#[test]
fn item_dropped_without_name_or_bytes() {
    let e = ArchiveEntry { name: None, is_file: true, is_dir: false, bytes: Some(vec![]) };
    assert!(ManifestItem::new(e).is_none());
    let e = ArchiveEntry { name: Some("a".to_string()), is_file: true, is_dir: false, bytes: None };
    assert!(ManifestItem::new(e).is_none());
}

#[test]
fn item_dropped_when_neither_file_nor_directory() {
    let e = ArchiveEntry {
        name: Some("language/link".to_string()),
        is_file: false,
        is_dir: false,
        bytes: Some(vec![1]),
    };
    assert!(ManifestItem::new(e).is_none());
}

#[test]
fn unsafe_entry_is_dropped_and_the_rest_loaded() {
    let data = zip_of(&[
        ("a.bin", Some(b"a")),
        ("../evil.bin", Some(b"e")),
        ("b.bin", Some(b"b")),
    ]);
    let m = Manifest::read_from_language_zip(data).ok().unwrap();
    let names: Vec<&str> = m.0.iter().map(|it| it.path.as_str()).collect();
    assert_eq!(names, vec!["a.bin", "b.bin"]);
}

#[test]
fn filter_keeps_only_strict_subtree_entries() {
    let m = Manifest(vec![
        item("language/zh_cn_hans/", true, b""),
        item("language/zh_cn_hans/ui/", true, b""),
        item("Language/ZH_CN_HANS/UI/Menu.bin", false, b"abcd"),
        item("language/zh_cn_hansx/a.bin", false, b"x"),
        item("language/ui.bin", false, b"efgh"),
        item("language/zh_cn_hans", true, b""),
    ]);
    let f = m.filter_hans_dir();
    let got: Vec<(usize, String)> = f.iter().map(|e| (e.index, e.stripped.clone())).collect();
    assert_eq!(got, vec![(1, "ui".to_string()), (2, "ui/menu.bin".to_string())]);
    let g = m.filter_subtree("language");
    assert_eq!(g.len(), 6);
    assert_eq!(g[0].stripped, "zh_cn_hans");
    assert_eq!(g[3].stripped, "zh_cn_hansx/a.bin");
    assert_eq!(g[5].stripped, "zh_cn_hans");
}

#[test]
fn manifest_from_archive_bytes() {
    let data = zip_of(&[
        ("language/zh_cn_hans/ui/", None),
        ("language/zh_cn_hans/UI/Menu.bin", Some(b"abcd")),
    ]);
    let m = Manifest::read_from_language_zip(data).ok().unwrap();
    assert_eq!(m.0.len(), 2);
    assert!(m.0[0].is_dir);
    assert!(m.0[1].is_file);
    assert_eq!(m.0[1].path, "language/zh_cn_hans/UI/Menu.bin");
    assert_eq!(m.0[1].lowercase_name, "language/zh_cn_hans/ui/menu.bin");
    assert_eq!(m.0[1].bytes, b"abcd".to_vec());
}

#[test]
fn corrupt_archive_is_refused() {
    assert!(Manifest::read_from_backup_zip(vec![1, 2, 3, 4]).is_err());
}

#[test]
fn whitelist_matches_exactly() {
    let wl = vec!["ui/a.bin".to_string()];
    assert!(is_whitelisted(&wl, &"ui/a.bin".to_string()));
    assert!(!is_whitelisted(&wl, &"UI/a.bin".to_string()));
}

#[test]
fn integrity_succeeds_when_all_present() {
    let f = vec![entry(0, "a.bin"), entry(1, "b.bin")];
    assert!(check_manifest_for_game_data(&f, &vec![true, true], &vec![]).is_ok());
}

#[test]
fn integrity_names_the_single_missing_file() {
    let f = vec![entry(0, "a.bin"), entry(1, "b.bin"), entry(2, "c.bin")];
    match check_manifest_for_game_data(&f, &vec![true, false, true], &vec![]) {
        Err(IntegrityError::MissingFiles(v)) => assert_eq!(v, vec!["b.bin".to_string()]),
        Ok(()) => panic!("expected a failure"),
    }
}

#[test]
fn integrity_reports_every_missing_and_skips_whitelisted() {
    let f = vec![entry(0, "a.bin"), entry(1, "b.bin"), entry(2, "c.bin")];
    let wl = vec!["b.bin".to_string()];
    assert!(check_manifest_for_game_data(&f, &vec![true, false, true], &wl).is_ok());
    match check_manifest_for_game_data(&f, &vec![false, false, false], &wl) {
        Err(IntegrityError::MissingFiles(v)) => {
            assert_eq!(v, vec!["a.bin".to_string(), "c.bin".to_string()])
        }
        Ok(()) => panic!("expected a failure"),
    }
}

#[test]
fn backup_holds_present_entries_in_order() {
    let f = vec![entry(0, "ui"), entry(1, "ui/menu.bin"), entry(2, "opt.bin")];
    let states = vec![EntryState::Directory, EntryState::File(b"old!".to_vec()), EntryState::Absent];
    let wl = vec!["opt.bin".to_string()];
    let bytes = backup_alien_isolation_data(&f, &states, &wl).ok().unwrap();
    let m = Manifest::read_from_backup_zip(bytes).ok().unwrap();
    assert_eq!(m.0.len(), 2);
    assert!(m.0[0].is_dir);
    assert_eq!(m.0[0].lowercase_name, "ui/");
    assert_eq!(m.0[1].path, "ui/menu.bin");
    assert_eq!(m.0[1].bytes, b"old!".to_vec());
}

#[test]
fn backup_fails_on_absent_unlisted_entry() {
    let f = vec![entry(0, "a.bin"), entry(1, "b.bin"), entry(2, "c.bin")];
    let states = vec![EntryState::File(vec![1]), EntryState::Absent, EntryState::Absent];
    match backup_alien_isolation_data(&f, &states, &vec![]) {
        Err(BackupError::Missing(v)) => {
            assert_eq!(v, vec!["b.bin".to_string(), "c.bin".to_string()])
        }
        _ => panic!("expected a missing path"),
    }
}

#[test]
fn backup_twice_is_byte_identical() {
    let f = vec![entry(0, "ui"), entry(1, "ui/menu.bin")];
    let states = || vec![EntryState::Directory, EntryState::File(b"data".to_vec())];
    let a = backup_alien_isolation_data(&f, &states(), &vec![]).ok().unwrap();
    let b = backup_alien_isolation_data(&f, &states(), &vec![]).ok().unwrap();
    assert_eq!(a, b);
}

#[test]
fn join_adds_one_separator() {
    assert_eq!(join("T", "ui/menu.bin"), "T/ui/menu.bin");
    assert_eq!(join("T/", "ui/menu.bin"), "T/ui/menu.bin");
}

#[test]
fn restore_refuses_directory_count_mismatch() {
    let needs_remove = Manifest(vec![
        item("language/zh_cn_hans/ui/", true, b""),
        item("language/zh_cn_hans/ui/menu.bin", false, b"abcd"),
    ]);
    let backup = Manifest(vec![item("ui/menu.bin", false, b"old!")]);
    match restore_plan(&backup, &needs_remove, "T") {
        Err(RestoreError::DirCountMismatch { needs_remove, manifest }) => {
            assert_eq!((needs_remove, manifest), (1, 0))
        }
        Ok(_) => panic!("expected a mismatch"),
    }
}

#[test]
fn overlay_backup_restore_scenario() {
    let data = zip_of(&[
        ("language/zh_cn_hans/ui/menu.bin", Some(b"\xe8\x8f\x9c\xe5")),
        ("language/ui.bin", Some(b"EN!!")),
    ]);
    let language = Manifest::read_from_language_zip(data).ok().unwrap();
    let filtered = language.filter_hans_dir();
    assert_eq!(filtered.len(), 1);
    assert_eq!(filtered[0].stripped, "ui/menu.bin");

    assert!(check_manifest_for_game_data(&filtered, &vec![true], &vec![]).is_ok());

    let states = vec![EntryState::File(b"base".to_vec())];
    let backup_bytes = backup_alien_isolation_data(&filtered, &states, &vec![]).ok().unwrap();

    let plan = overlay_plan(&filtered, "T");
    assert_eq!(plan.len(), 1);
    assert_eq!(plan[0].target, "T/ui/menu.bin");
    let written = &language.0[plan[0].item];
    assert!(written.is_file);
    assert_eq!(written.bytes.len(), 4);

    let backup = Manifest::read_from_backup_zip(backup_bytes).ok().unwrap();
    assert_eq!(backup.0.len(), 1);
    assert_eq!(backup.0[0].path, "ui/menu.bin");
    assert_eq!(backup.0[0].bytes, b"base".to_vec());

    let restore = restore_plan(&backup, &language, "T").ok().unwrap();
    assert_eq!(restore.removals, vec!["T/ui/menu.bin".to_string()]);
    assert_eq!(restore.writes.len(), 1);
    assert_eq!(restore.writes[0].target, "T/ui/menu.bin");
    assert_eq!(backup.0[restore.writes[0].item].bytes, b"base".to_vec());
}
