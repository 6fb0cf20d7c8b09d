//! The cache file format: exact output, reloadability, and rejection of
//! malformed text.

use jobs::fs::Fs;
use jobs::manager::JManager;

#[test]
fn dump_exact_text() {
    let mut fs = Fs::new();
    assert!(fs.insert("/f", false, 5, 7));
    let mut mng = JManager::new();
    mng.locate_node("/f", &fs).unwrap();
    let text = mng.dump();
    assert_eq!(
        text,
        "abspath,last_write_time,size,count_dir,count_file,_dirty\n\
         \"/\",0,0,0,0,true\n\
         \"/f\",7,5,0,0,false\n"
    );
}

#[test]
fn dump_empty_index() {
    let mng = JManager::new();
    assert_eq!(mng.dump(), "abspath,last_write_time,size,count_dir,count_file,_dirty\n");
}

#[test]
fn dump_then_load_restores_nodes() {
    let mut fs = Fs::new();
    assert!(fs.insert("/T", true, 0, 1));
    assert!(fs.insert("/T/A", true, 0, 1));
    assert!(fs.insert("/T/A/x", false, 11, 3));
    assert!(fs.insert("/T/A/y", false, 22, 4));
    let mut mng = JManager::new();
    let h = mng.locate_node("/T/A", &fs).unwrap();
    mng.update_node(&h, &fs).unwrap();
    let text = mng.dump();

    let mut mng2 = JManager::new();
    mng2.load(&text, &fs).unwrap();
    assert_eq!(mng2.get_node_cnt(), mng.get_node_cnt());
    let h2 = mng2.locate_node("/T/A", &fs).unwrap();
    assert_eq!(h, h2);
    let a1 = mng.get_info(&h).unwrap();
    let a2 = mng2.get_info(&h2).unwrap();
    assert_eq!(a1.size(), a2.size());
    assert_eq!(a1.last_modified(), a2.last_modified());
    assert_eq!(a1.count_dir(), a2.count_dir());
    assert_eq!(a1.count_file(), a2.count_file());
    assert_eq!(a1.is_dirty(), a2.is_dirty());
    // and the reloaded text is identical
    assert_eq!(mng2.dump(), text);
}

#[test]
fn quoted_paths_round_trip() {
    // a path with an embedded quote survives dumping and loading
    let mut fs = Fs::new();
    assert!(fs.insert("/o\"dd", true, 0, 6));
    let mut mng = JManager::new();
    let h = mng.locate_node("/o\"dd", &fs).unwrap();
    let text = mng.dump();
    assert!(text.contains("\"/o\"\"dd\""));
    let mut mng2 = JManager::new();
    mng2.load(&text, &fs).unwrap();
    assert_eq!(mng2.locate_node("/o\"dd", &fs).unwrap(), h);
}

#[test]
fn record_conversion_round_trip() {
    let mut fs = Fs::new();
    assert!(fs.insert("/T", true, 0, 4));
    let mut mng = JManager::new();
    let h = mng.locate_node("/T", &fs).unwrap();
    let node = mng.get_info(&h).unwrap();
    let rec = jobs::serialize::DumpData::from_node(&node);
    assert_eq!(rec.abspath, b"/T".to_vec());
    assert_eq!(rec.last_write_time, 4);
    let back = rec.to_node(&fs);
    assert!(back.is_dir());
    assert_eq!(back.last_modified(), node.last_modified());
    assert_eq!(back.size(), node.size());
    assert_eq!(back.count_dir(), node.count_dir());
    assert_eq!(back.count_file(), node.count_file());
    assert_eq!(back.is_dirty(), node.is_dirty());
}

#[test]
fn load_rejects_malformed_text() {
    let fs = Fs::new();
    let mut mng = JManager::new();
    assert!(mng.load("", &fs).is_err());
    assert!(mng
        .load("abspath,last_write_time,size,count_dir,count_file,_dirty\n\"/x\",notanumber\n", &fs)
        .is_err());
    assert!(mng
        .load("abspath,last_write_time,size,count_dir,count_file,_dirty\n/x,1,2,3,4,true\n", &fs)
        .is_err());
    assert_eq!(mng.get_node_cnt(), 0);
}

#[test]
fn load_skips_vanished_paths() {
    let mut fs = Fs::new();
    assert!(fs.insert("/T", true, 0, 1));
    assert!(fs.insert("/T/gone", false, 5, 2));
    let mut mng = JManager::new();
    let ht = mng.locate_node("/T", &fs).unwrap();
    mng.update_node(&ht, &fs).unwrap();
    let text = mng.dump();

    assert!(fs.remove("/T/gone"));
    let mut mng2 = JManager::new();
    mng2.load(&text, &fs).unwrap();
    // the record for the vanished file was dropped silently
    assert!(matches!(
        mng2.locate_node("/T/gone", &fs),
        Err(jobs::errors::JError::NotExistingPath(_))
    ));
    assert!(mng2.locate_node("/T", &fs).is_ok());
}
