//! Unit and adapted tests for the key function, the index operations, and
//! the boundary behaviors.

use jobs::digest::jhash;
use jobs::errors::JError;
use jobs::fs::Fs;
use jobs::manager::{is_excluded, JManager};
use jobs::node::pretty_last_modified;
use jobs::paths::{get_parent_pathbuf, is_root};

fn bytes(s: &str) -> Vec<u8> {
    s.as_bytes().to_vec()
}

#[test]
fn test_jhash() {
    let pathbuf = bytes("E:/QQ/obj/HummerSetupDll");
    let hash: u64 = 17827346109594053053;
    assert_eq!(jhash(&pathbuf), hash);
    // pure: the same path gives the same handle on every run
    assert_eq!(jhash(&pathbuf), jhash(&bytes("E:/QQ/obj/HummerSetupDll")));
    assert_ne!(jhash(&pathbuf), jhash(&bytes("E:/QQ/obj/HummerSetupDl")));
}

#[test]
fn my_pc1() -> Result<(), JError> {
    // a large flat tree: 1266 directories and 6358 files totalling
    // 523_203_611 bytes
    let mut fs = Fs::new();
    let root = "/arduino-ide_2.3.3_Windows_64bit";
    assert!(fs.insert(root, true, 0, 1));
    for i in 0..1266u32 {
        assert!(fs.insert(&format!("{root}/d{i}"), true, 0, 1));
    }
    for i in 0..6357u32 {
        assert!(fs.insert(&format!("{root}/f{i}"), false, 82000, 1));
    }
    assert!(fs.insert(&format!("{root}/big"), false, 523_203_611 - 6357 * 82000, 1));

    let mut mng = JManager::new();
    let node_h = mng.locate_node(root, &fs)?;
    mng.update_node(&node_h, &fs)?;
    let info = mng.get_info(&node_h)?;

    assert_eq!(info.size(), 523_203_611);
    assert_eq!(info.count_dir().unwrap(), 1266);
    assert_eq!(info.count_file().unwrap(), 6358);
    Ok(())
}

#[test]
fn test_manager_action() -> Result<(), JError> {
    let mut fs = Fs::new();
    assert!(fs.insert("/QQ", true, 0, 1));
    assert!(fs.insert("/QQ/obj", true, 0, 1));
    assert!(fs.insert("/QQ/obj/HummerSetupDll", true, 0, 1));
    let pathbuf = bytes("/QQ/obj/HummerSetupDll");
    let mut manager = JManager::new();
    let h = manager.create_node(&pathbuf, &fs)?;
    println!("created {h}");
    Ok(())
}

#[test]
fn test_manager_storage() -> Result<(), JError> {
    let fs = Fs::new();
    let mut manager = JManager::new();
    // an empty cache loads as a no-op, and a fresh index dumps cleanly
    let empty = JManager::new().dump();
    manager.load(&empty, &fs)?;
    let _ = manager.dump();
    Ok(())
}

fn nginx_fs() -> Fs {
    // 35 directories and 37 files totalling more than 13_019_732 bytes
    let mut fs = Fs::new();
    let root = "/nginx-1.26.1";
    assert!(fs.insert(root, true, 0, 1));
    for i in 0..35u32 {
        assert!(fs.insert(&format!("{root}/d{i}"), true, 0, 1));
    }
    for i in 0..36u32 {
        assert!(fs.insert(&format!("{root}/f{i}"), false, 360_000, 1));
    }
    assert!(fs.insert(&format!("{root}/last"), false, 140_000, 1));
    fs
}

#[test]
fn test_scan() {
    let fs = nginx_fs();
    let mut mng = JManager::new();
    let h = mng.locate_node("/nginx-1.26.1", &fs).unwrap();
    mng.update_node(&h, &fs).unwrap();
    let dir = mng.get_info(&h).unwrap();
    assert!(dir.size() > 13_019_732);
    assert_eq!(37, dir.count_file().unwrap());
    assert_eq!(35, dir.count_dir().unwrap());
}

#[test]
fn scan() {
    let mut fs = nginx_fs();
    let mut mng = JManager::new();
    let h = mng.locate_node("/nginx-1.26.1", &fs).unwrap();
    mng.update_node(&h, &fs).unwrap();
    let before = mng.get_info(&h).unwrap();

    // create one more file and rescan
    assert!(fs.insert("/nginx-1.26.1/test.txt", false, 13, 2));
    mng.update_node(&h, &fs).unwrap();
    let dir = mng.get_info(&h).unwrap();
    assert_eq!(dir.size(), before.size() + 13);
    assert_eq!(dir.count_file().unwrap(), 37 + 1);
    assert_eq!(dir.count_dir().unwrap(), 35);
}

#[test]
fn exclude() {
    // 118 plain files plus 3 inside node_modules: the raw walk makes the
    // total file count 121
    let mut fs = Fs::new();
    let root = "/jw238.github.io";
    assert!(fs.insert(root, true, 0, 1));
    for i in 0..118u32 {
        assert!(fs.insert(&format!("{root}/f{i}"), false, 10, 1));
    }
    assert!(fs.insert(&format!("{root}/node_modules"), true, 0, 1));
    for i in 0..3u32 {
        assert!(fs.insert(&format!("{root}/node_modules/m{i}"), false, 10, 1));
    }
    let mut mng = JManager::new();
    let h = mng.locate_node(root, &fs).unwrap();
    mng.update_node(&h, &fs).unwrap();
    let dir = mng.get_info(&h).unwrap();
    assert_eq!(dir.count_file().unwrap(), 121);
}

#[test]
fn locate_is_idempotent() {
    let mut fs = Fs::new();
    assert!(fs.insert("/T", true, 0, 1));
    assert!(fs.insert("/T/A", true, 0, 1));
    let mut mng = JManager::new();
    let h1 = mng.locate_node("/T/A", &fs).unwrap();
    let cnt = mng.get_node_cnt();
    let h2 = mng.locate_node("/T/A", &fs).unwrap();
    assert_eq!(h1, h2);
    assert_eq!(mng.get_node_cnt(), cnt);
    // another spelling canonicalizing to the same path gives the same handle
    let h3 = mng.locate_node("/T/./B/../A", &fs).unwrap();
    assert_eq!(h1, h3);
}

#[test]
fn delete_missing_is_noop() {
    let mut fs = Fs::new();
    assert!(fs.insert("/T", true, 0, 1));
    let mut mng = JManager::new();
    let h = mng.locate_node("/T", &fs).unwrap();
    let cnt = mng.get_node_cnt();
    assert!(mng.delete_node(&12345).is_ok());
    assert_eq!(mng.get_node_cnt(), cnt);
    assert!(mng.get_info(&h).is_ok());
}

#[test]
fn update_file_touches_only_that_file() {
    let mut fs = Fs::new();
    assert!(fs.insert("/T", true, 0, 1));
    assert!(fs.insert("/T/a.txt", false, 5, 1));
    assert!(fs.insert("/T/b.txt", false, 7, 1));
    let mut mng = JManager::new();
    let ht = mng.locate_node("/T", &fs).unwrap();
    mng.update_node(&ht, &fs).unwrap();
    let ha = mng.locate_node("/T/a.txt", &fs).unwrap();
    let hb = mng.locate_node("/T/b.txt", &fs).unwrap();
    let b_before = mng.get_info(&hb).unwrap();
    let t_before = mng.get_info(&ht).unwrap();

    // the file grows; refreshing it changes no other node
    assert!(fs.insert("/T/a.txt", false, 6, 2));
    mng.update_node(&ha, &fs).unwrap();
    let a = mng.get_info(&ha).unwrap();
    assert_eq!(a.size(), 6);
    assert_eq!(a.last_modified(), 2);
    let b = mng.get_info(&hb).unwrap();
    assert_eq!(b.size(), b_before.size());
    let t = mng.get_info(&ht).unwrap();
    assert_eq!(t.size(), t_before.size());
}

#[test]
fn valid_file_matches_snapshot() {
    let mut fs = Fs::new();
    assert!(fs.insert("/T", true, 0, 1));
    assert!(fs.insert("/T/a.txt", false, 5, 9));
    let mut mng = JManager::new();
    let ha = mng.locate_node("/T/a.txt", &fs).unwrap();
    let a = mng.get_info(&ha).unwrap();
    assert!(a.is_valid(&fs));
    assert_eq!(a.size(), 5);
    assert_eq!(a.last_modified(), 9);

    // change detection is timestamp+size only
    assert!(fs.insert("/T/a.txt", false, 5, 10));
    let a2 = mng.get_info(&ha).unwrap();
    assert!(!a2.is_valid(&fs));
}

#[test]
fn parent_and_children_are_coherent() {
    let mut fs = Fs::new();
    assert!(fs.insert("/T", true, 0, 1));
    assert!(fs.insert("/T/A", true, 0, 1));
    let mut mng = JManager::new();
    let ha = mng.locate_node("/T/A", &fs).unwrap();
    let ht = mng.locate_node("/T", &fs).unwrap();
    assert_eq!(mng.get_parent(&ha), ht);
    assert!(mng.get_children(&ht).contains(&ha));
    // the grandparent chain ends at the sentinel
    let hr = mng.get_parent(&ht);
    assert_eq!(mng.get_parent(&hr), 0);
}

#[test]
fn error_variants() {
    let mut fs = Fs::new();
    assert!(fs.insert("/T", true, 0, 1));
    assert!(fs.insert("/T/x", false, 3, 1));
    let mut mng = JManager::new();
    assert!(matches!(
        mng.locate_node("/T/missing", &fs),
        Err(JError::NotExistingPath(_))
    ));
    assert!(matches!(
        mng.locate_node("relative/path", &fs),
        Err(JError::NotExistingPath(_))
    ));
    assert!(matches!(mng.get_info(&99), Err(JError::NotExistingNode(99))));
    // creating an already-indexed digest is reported as a duplicate
    let h = mng.locate_node("/T/x", &fs).unwrap();
    assert!(matches!(
        mng.create_node(&bytes("/T/x"), &fs),
        Err(JError::NotExistingNode(x)) if x == h
    ));
    assert!(matches!(
        mng.load("not a cache file", &fs),
        Err(JError::CacheError)
    ));
    // a directory handle whose path turned into a file
    let mut fs2 = Fs::new();
    assert!(fs2.insert("/T", true, 0, 1));
    assert!(fs2.insert("/T/d", true, 0, 1));
    let mut m2 = JManager::new();
    let hd = m2.locate_node("/T/d", &fs2).unwrap();
    assert!(fs2.remove("/T/d"));
    assert!(fs2.insert("/T/d", false, 1, 2));
    assert!(matches!(m2.update_node(&hd, &fs2), Err(JError::NotDirectory(_))));
}

#[test]
fn helper_functions() {
    assert!(is_root(&bytes("/")));
    assert!(!is_root(&bytes("/a")));
    assert_eq!(get_parent_pathbuf(&bytes("/a/b")), bytes("/a"));
    assert_eq!(get_parent_pathbuf(&bytes("/a")), bytes("/"));
    assert_eq!(get_parent_pathbuf(&bytes("/")), bytes("/"));
    assert!(is_excluded(&bytes("/a/node_modules")));
    assert!(is_excluded(&bytes("/a/.git")));
    assert!(is_excluded(&bytes("/a/.ipynb_checkpoints")));
    assert!(!is_excluded(&bytes("/a/src")));
    assert_eq!(pretty_last_modified(36_993_906_000), "1-2-8 4:5:6");
}

#[test]
fn scan_once_adopts_direct_children() {
    let mut fs = Fs::new();
    assert!(fs.insert("/T", true, 0, 1));
    assert!(fs.insert("/T/a", false, 1, 1));
    assert!(fs.insert("/T/d", true, 0, 1));
    assert!(fs.insert("/T/d/deep", false, 1, 1));
    let mut mng = JManager::new();
    let ht = mng.locate_node("/T", &fs).unwrap();
    mng.scan_folder_once(&ht, &fs).unwrap();
    assert!(mng.locate_node("/T/a", &fs).is_ok());
    assert!(mng.locate_node("/T/d", &fs).is_ok());
    let cnt = mng.get_node_cnt();
    // only one level was adopted: locating the deep file adds a node
    mng.locate_node("/T/d/deep", &fs).unwrap();
    assert_eq!(mng.get_node_cnt(), cnt + 1);
}

#[test]
fn scan_folder_adopts_subtree() {
    let mut fs = Fs::new();
    assert!(fs.insert("/T", true, 0, 1));
    assert!(fs.insert("/T/d", true, 0, 1));
    assert!(fs.insert("/T/d/deep", false, 1, 1));
    let mut mng = JManager::new();
    let ht = mng.locate_node("/T", &fs).unwrap();
    mng.scan_folder(&ht, &fs).unwrap();
    let cnt = mng.get_node_cnt();
    // the deep file is already indexed
    mng.locate_node("/T/d/deep", &fs).unwrap();
    assert_eq!(mng.get_node_cnt(), cnt);
}

#[test]
fn scan_once_prunes_vanished_children() {
    let mut fs = Fs::new();
    assert!(fs.insert("/T", true, 0, 1));
    assert!(fs.insert("/T/keep.txt", false, 1, 1));
    assert!(fs.insert("/T/gone", true, 0, 1));
    assert!(fs.insert("/T/gone/inner.txt", false, 1, 1));
    let mut mng = JManager::new();
    let ht = mng.locate_node("/T", &fs).unwrap();
    mng.scan_folder_once(&ht, &fs).unwrap();
    let hg = mng.locate_node("/T/gone", &fs).unwrap();

    // the directory vanishes from disk; a re-scan drops its whole subtree
    assert!(fs.remove("/T/gone"));
    mng.scan_folder_once(&ht, &fs).unwrap();
    assert!(mng.get_info(&hg).is_err());
    assert!(mng.locate_node("/T/keep.txt", &fs).is_ok());

    // and a re-scan with nothing changed is a no-op on the node count
    let cnt = mng.get_node_cnt();
    mng.scan_folder_once(&ht, &fs).unwrap();
    assert_eq!(mng.get_node_cnt(), cnt);
}

#[test]
fn scan_folder_prunes_stale_descendants() {
    let mut fs = Fs::new();
    assert!(fs.insert("/T", true, 0, 1));
    assert!(fs.insert("/T/d", true, 0, 1));
    assert!(fs.insert("/T/d/x.txt", false, 2, 1));
    let mut mng = JManager::new();
    let ht = mng.locate_node("/T", &fs).unwrap();
    mng.scan_folder(&ht, &fs).unwrap();
    let hx = mng.locate_node("/T/d/x.txt", &fs).unwrap();

    assert!(fs.remove("/T/d/x.txt"));
    mng.scan_folder(&ht, &fs).unwrap();
    assert!(mng.get_info(&hx).is_err());
    assert!(mng.locate_node("/T/d", &fs).is_ok());
}

#[test]
fn scan_raw_writes_raw_totals() {
    let mut fs = Fs::new();
    assert!(fs.insert("/T", true, 0, 1));
    assert!(fs.insert("/T/d", true, 0, 1));
    assert!(fs.insert("/T/d/deep", false, 6, 1));
    let mut mng = JManager::new();
    let ht = mng.locate_node("/T", &fs).unwrap();
    mng.scan_folder_raw(&ht, &fs).unwrap();
    let info = mng.get_info(&ht).unwrap();
    assert_eq!(info.size(), 6);
    assert_eq!(info.count_file().unwrap(), 1);
    assert_eq!(info.count_dir().unwrap(), 1);
    assert!(!info.is_dirty());
    // the raw walk indexed nothing new
    assert_eq!(mng.get_node_cnt(), 2);
}

#[test]
fn update_at_the_root() {
    let mut fs = Fs::new();
    assert!(fs.insert("/a.txt", false, 21, 1));
    assert!(fs.insert("/d", true, 0, 1));
    let mut mng = JManager::new();
    let h = mng.locate_node("/", &fs).unwrap();
    mng.update_node(&h, &fs).unwrap();
    let info = mng.get_info(&h).unwrap();
    assert_eq!(info.size(), 21);
    assert_eq!(info.count_file().unwrap(), 1);
    assert_eq!(info.count_dir().unwrap(), 1);
    assert!(!info.is_dirty());
}

#[test]
fn aggregates_sum_direct_children() {
    let mut fs = Fs::new();
    assert!(fs.insert("/T", true, 0, 1));
    assert!(fs.insert("/T/A", true, 0, 1));
    assert!(fs.insert("/T/A/B", true, 0, 1));
    assert!(fs.insert("/T/A/B/x", false, 3, 1));
    assert!(fs.insert("/T/A/y", false, 4, 1));
    let mut mng = JManager::new();
    let h = mng.locate_node("/T/A", &fs).unwrap();
    mng.update_node(&h, &fs).unwrap();
    // the stored size of every updated directory is the sum over its
    // direct children as stored in the index, down to the leaves
    let mut stack = vec![h];
    while let Some(d) = stack.pop() {
        let info = mng.get_info(&d).unwrap();
        if info.is_dir() {
            assert!(!info.is_dirty());
            let children = mng.get_children_node(&d);
            let sum: u64 = children.iter().map(|(c, _)| c.size()).sum();
            assert_eq!(info.size(), sum);
            for (_, ch) in children {
                stack.push(ch);
            }
        }
    }
}

#[test]
fn node_name_is_basename() {
    let mut fs = Fs::new();
    assert!(fs.insert("/T", true, 0, 1));
    assert!(fs.insert("/T/file_0.txt", false, 19, 1));
    let mut mng = JManager::new();
    let h = mng.locate_node("/T/file_0.txt", &fs).unwrap();
    let info = mng.get_info(&h).unwrap();
    assert_eq!(info.name(), "file_0.txt");
    assert!(!info.is_dir());
}
