//! End-to-end scenarios over an in-memory snapshot: a fixed layout under
//! `/T/A` is scanned, then drifted in various ways, and the aggregates are
//! checked after each incremental update.

use jobs::fs::Fs;
use jobs::manager::JManager;

/// The base layout:
/// /T/A/B/C/file_0.txt, file_1.txt; /T/A/B/file_b.txt;
/// /T/A/B2/C2/file_0.txt; /T/A/B2/file_b21.txt, file_b22.txt;
/// /T/A/file_a.txt — every file 19 bytes.
fn base_fs() -> Fs {
    let mut fs = Fs::new();
    assert!(fs.insert("/T", true, 0, 1));
    assert!(fs.insert("/T/A", true, 0, 1));
    assert!(fs.insert("/T/A/B", true, 0, 1));
    assert!(fs.insert("/T/A/B/C", true, 0, 1));
    assert!(fs.insert("/T/A/B/C/file_0.txt", false, 19, 1));
    assert!(fs.insert("/T/A/B/C/file_1.txt", false, 19, 1));
    assert!(fs.insert("/T/A/B/file_b.txt", false, 19, 1));
    assert!(fs.insert("/T/A/B2", true, 0, 1));
    assert!(fs.insert("/T/A/B2/C2", true, 0, 1));
    assert!(fs.insert("/T/A/B2/C2/file_0.txt", false, 19, 1));
    assert!(fs.insert("/T/A/B2/file_b21.txt", false, 19, 1));
    assert!(fs.insert("/T/A/B2/file_b22.txt", false, 19, 1));
    assert!(fs.insert("/T/A/file_a.txt", false, 19, 1));
    fs
}

fn totals(mng: &JManager, h: u64) -> (u64, u64, u64) {
    let info = mng.get_info(&h).unwrap();
    (info.size(), info.count_file().unwrap(), info.count_dir().unwrap())
}

#[test]
fn scenario_fresh_scan() {
    let fs = base_fs();
    let mut mng = JManager::new();
    let h = mng.locate_node("/T/A", &fs).unwrap();
    mng.update_node(&h, &fs).unwrap();
    assert_eq!(totals(&mng, h), (133, 7, 4));
}

#[test]
fn scenario_subtree_then_root() {
    let fs = base_fs();
    let mut mng = JManager::new();
    let hb = mng.locate_node("/T/A/B", &fs).unwrap();
    mng.update_node(&hb, &fs).unwrap();
    let ha = mng.locate_node("/T/A", &fs).unwrap();
    mng.update_node(&ha, &fs).unwrap();
    assert_eq!(totals(&mng, ha), (133, 7, 4));
    // no node is duplicated: /, /T, /T/A and the eleven subtree entries
    assert_eq!(mng.get_node_cnt(), 14);
}

#[test]
fn scenario_add_empty_dir() {
    let mut fs = base_fs();
    let mut mng = JManager::new();
    let h = mng.locate_node("/T/A", &fs).unwrap();
    mng.update_node(&h, &fs).unwrap();
    assert_eq!(totals(&mng, h), (133, 7, 4));

    assert!(fs.insert("/T/A/B2/C3", true, 0, 2));
    mng.update_node(&h, &fs).unwrap();
    assert_eq!(totals(&mng, h), (133, 7, 5));
}

#[test]
fn scenario_rename_subdir() {
    let mut fs = base_fs();
    let mut mng = JManager::new();
    let h = mng.locate_node("/T/A", &fs).unwrap();
    mng.update_node(&h, &fs).unwrap();

    // rename /T/A/B2 to /T/A/B2333: the old subtree vanishes, an equal one
    // appears under the new name
    assert!(fs.remove("/T/A/B2"));
    assert!(fs.insert("/T/A/B2333", true, 0, 2));
    assert!(fs.insert("/T/A/B2333/C2", true, 0, 2));
    assert!(fs.insert("/T/A/B2333/C2/file_0.txt", false, 19, 2));
    assert!(fs.insert("/T/A/B2333/file_b21.txt", false, 19, 2));
    assert!(fs.insert("/T/A/B2333/file_b22.txt", false, 19, 2));

    mng.update_node(&h, &fs).unwrap();
    assert_eq!(totals(&mng, h), (133, 7, 4));
    // the old node is gone, the new one is present
    assert!(matches!(
        mng.locate_node("/T/A/B2", &fs),
        Err(jobs::errors::JError::NotExistingPath(_))
    ));
    assert!(mng.locate_node("/T/A/B2333", &fs).is_ok());
}

#[test]
fn scenario_append_to_file() {
    let mut fs = base_fs();
    let mut mng = JManager::new();
    let h = mng.locate_node("/T/A", &fs).unwrap();
    mng.update_node(&h, &fs).unwrap();

    // append 8 bytes: the file's size and mtime change, no directory mtime
    assert!(fs.insert("/T/A/B/C/file_0.txt", false, 27, 2));
    mng.update_node(&h, &fs).unwrap();
    assert_eq!(totals(&mng, h), (141, 7, 4));
}

#[test]
fn scenario_persistence_drift() {
    let mut fs = base_fs();
    let mut mng = JManager::new();
    let h = mng.locate_node("/T/A", &fs).unwrap();
    mng.update_node(&h, &fs).unwrap();
    let text = mng.dump();

    // drift on disk after the dump
    assert!(fs.remove("/T/A/B2/C2"));
    assert!(fs.remove("/T/A/B/file_b.txt"));

    let mut mng2 = JManager::new();
    mng2.load(&text, &fs).unwrap();
    let h2 = mng2.locate_node("/T/A", &fs).unwrap();
    // the loaded aggregates match the pre-deletion state
    assert_eq!(totals(&mng2, h2), (133, 7, 4));

    // a fresh update reflects the deletions
    mng2.update_node(&h2, &fs).unwrap();
    assert_eq!(totals(&mng2, h2), (95, 5, 3));
}

#[test]
fn scenario_ignore_rules() {
    let mut fs = base_fs();
    let mut mng = JManager::new();
    let h = mng.locate_node("/T/A", &fs).unwrap();
    mng.update_node(&h, &fs).unwrap();
    let before = mng.get_node_cnt();

    assert!(fs.insert("/T/A/B/node_modules", true, 0, 2));
    assert!(fs.insert("/T/A/B/node_modules/inside", true, 0, 2));
    assert!(fs.insert("/T/A/B/node_modules/file.txt", false, 8, 2));
    assert!(fs.insert("/T/A/B/node_modules/inside/file.txt", false, 8, 2));

    mng.update_node(&h, &fs).unwrap();
    // the raw walk contributes the ignored contents to the parent's totals
    assert_eq!(totals(&mng, h), (149, 9, 6));
    // but only the ignored directory itself was indexed
    assert_eq!(mng.get_node_cnt(), before + 1);
}
