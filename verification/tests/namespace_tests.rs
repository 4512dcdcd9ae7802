use cuddlyfs::block::Block;
use cuddlyfs::errors::CudddlyError;
use cuddlyfs::namespace::NamenodeState;
use cuddlyfs::paths::{is_valid_filename, split_path, starts_with_root_directory};

#[test]
fn mkdir_then_list() {
    let mut ns = NamenodeState::new();
    assert!(ns.make_dir("/a/b/c").is_ok());
    let root = ns.list("/").unwrap();
    assert_eq!(root, vec!["a".to_string()]);
    let ab = ns.list("/a/b").unwrap();
    assert_eq!(ab, vec!["c".to_string()]);
}

#[test]
fn mkdir_is_idempotent() {
    let mut ns = NamenodeState::new();
    assert!(ns.make_dir("/a/b").is_ok());
    assert!(ns.make_dir("/a/b").is_ok());
    assert_eq!(ns.list("/a").unwrap(), vec!["b".to_string()]);
    assert_eq!(ns.list("/").unwrap(), vec!["a".to_string()]);
}

#[test]
fn mkdir_invalid_names() {
    let mut ns = NamenodeState::new();
    let err = ns.make_dir("/a/ b").unwrap_err();
    assert_eq!(
        err,
        CudddlyError::FSError("' b' is not a valid directory name.".to_string())
    );
    let err = ns.make_dir("a/b").unwrap_err();
    assert_eq!(
        err,
        CudddlyError::FSError("Has to start with root directory".to_string())
    );
}

#[test]
fn mkdir_rejects_empty_segment() {
    let mut ns = NamenodeState::new();
    let err = ns.make_dir("/").unwrap_err();
    assert_eq!(
        err,
        CudddlyError::FSError("Directory name cannot be empty".to_string())
    );
}

#[test]
fn mkdir_partial_progress_is_kept_in_namespace_walks() {
    // the namespace-level walk creates directories up to the failing segment
    let mut ns = NamenodeState::new();
    assert!(ns.make_dir("/ok/ bad").is_err());
    assert_eq!(ns.list("/").unwrap(), vec!["ok".to_string()]);
}

#[test]
fn create_and_open_file() {
    let mut ns = NamenodeState::new();
    ns.make_dir("/data").unwrap();
    let blocks = vec![Block::new(7, 4, 0), Block::new(9, 2, 1)];
    assert!(ns.create_file("/data/f", &blocks).is_ok());
    let got = ns.open_file("/data/f").unwrap();
    assert_eq!(got.len(), 2);
    assert_eq!(got[0].id, 7);
    assert_eq!(got[0].len, 4);
    assert_eq!(got[0].seq, 0);
    assert_eq!(got[1].id, 9);
    assert_eq!(got[1].seq, 1);
    // listing a file yields its own name
    assert_eq!(ns.list("/data/f").unwrap(), vec!["f".to_string()]);
}

#[test]
fn create_file_errors() {
    let mut ns = NamenodeState::new();
    ns.make_dir("/d").unwrap();
    let blocks = vec![Block::new(1, 1, 0)];
    ns.create_file("/d/f", &blocks).unwrap();
    let err = ns.create_file("/d/f", &blocks).unwrap_err();
    assert_eq!(
        err,
        CudddlyError::FSError("'f': File or directory already exists".to_string())
    );
    let err = ns.create_file("/missing/f", &blocks).unwrap_err();
    assert_eq!(
        err,
        CudddlyError::FSError("'missing': No such directory".to_string())
    );
    let err = ns.create_file("/d/f/under", &blocks).unwrap_err();
    assert_eq!(
        err,
        CudddlyError::FSError("'f': Directory expected, but got file".to_string())
    );
}

#[test]
fn open_file_errors() {
    let ns = NamenodeState::new();
    let err = ns.open_file("/nope").unwrap_err();
    assert_eq!(
        err,
        CudddlyError::FSError("'nope': No such file or directory".to_string())
    );
    let mut ns = NamenodeState::new();
    ns.make_dir("/d").unwrap();
    let err = ns.open_file("/d").unwrap_err();
    assert_eq!(
        err,
        CudddlyError::FSError("'d': Is not a file but a directory".to_string())
    );
}

#[test]
fn check_file_creation_cases() {
    let mut ns = NamenodeState::new();
    ns.make_dir("/d").unwrap();
    assert!(ns.check_file_creation("/d/new").is_ok());
    let err = ns.check_file_creation("/d/new/").unwrap_err();
    assert_eq!(
        err,
        CudddlyError::FSError("'/' is not a valid filename".to_string())
    );
    let err = ns.check_file_creation("/").unwrap_err();
    assert_eq!(
        err,
        CudddlyError::FSError("Path and filename required".to_string())
    );
    let err = ns.check_file_creation("/x/y").unwrap_err();
    assert_eq!(
        err,
        CudddlyError::FSError("'x': No such directory".to_string())
    );
}

#[test]
fn filename_validation() {
    assert!(is_valid_filename("abc-DEF_09="));
    assert!(!is_valid_filename("a b"));
    assert!(!is_valid_filename("a/b"));
    assert!(is_valid_filename(""));
}

#[test]
fn path_splitting() {
    assert!(starts_with_root_directory("/a").is_ok());
    assert!(starts_with_root_directory("a").is_err());
    let parts = split_path("a/b/c");
    assert_eq!(
        parts,
        vec!["a".to_string(), "b".to_string(), "c".to_string()]
    );
    let parts = split_path("");
    assert_eq!(parts, vec![String::new()]);
    let parts = split_path("a//b");
    assert_eq!(parts, vec!["a".to_string(), String::new(), "b".to_string()]);
}

#[test]
fn block_filename_is_prefixed_hex() {
    let b = Block::new(0xdead_beef, 1, 0);
    assert_eq!(b.filename(), format!("block_{}deadbeef", "0".repeat(24)));
    let b0 = Block::new(0, 0, 0);
    assert_eq!(b0.filename(), format!("block_{}", "0".repeat(32)));
}
