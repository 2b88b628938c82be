// Directory traversal over the in-memory filesystem.

use smllr::IoErr;
use smllr::walker::{DirWalker, run_walk};
use smllr::vfs::TestFileSystem;

/// Test with an empty filesystem; ie, nothing to process.
#[test]
fn empty_fs() {
    let fs = TestFileSystem::new();
    let files = DirWalker::new(vec!["/".to_string()]).traverse_all(&fs);
    assert_eq!(files.len(), 0);
}

/// Test with a single file.
#[test]
fn basic_fs() {
    let mut fs = TestFileSystem::new();
    fs.create_dir("/");
    fs.create_file("/alpha");
    let dw = DirWalker::new(vec!["/".to_string()]);
    let files = dw.traverse_all(&fs);
    assert_eq!(files.len(), 1);
}

/// Test with symlinks; with cases for repetition and looping.
#[test]
fn handle_symlinks() {
    let mut fs = TestFileSystem::new();
    fs.create_dir("/");
    fs.create_file("/alpha");
    // only deal with a target once, omit symlinks
    fs.create_symlink("/beta", "/alpha");
    fs.create_symlink("/gamma", "/alpha");
    // ignore bad symlinks
    fs.create_symlink("/delta", "/_nonexistant");
    // ignore symlink loops
    fs.create_symlink("/x", "/xx");
    fs.create_symlink("/xx", "/x");
    let dw = DirWalker::new(vec!["/".to_string()]);
    let files = dw.traverse_all(&fs);
    assert_eq!(files.len(), 1);
    assert_eq!(files[0], "/alpha");
}

#[test]
fn walker_prunes_blacklisted_folders() {
    let mut fs = TestFileSystem::new();
    fs.create_dir("/");
    fs.create_dir("/keep");
    fs.create_dir("/skip");
    fs.create_file("/keep/a");
    fs.create_file("/skip/b");
    let dw = DirWalker::new(vec!["/".to_string()]).blacklist_folders(vec!["/skip".to_string()]);
    let files = dw.traverse_all(&fs);
    assert_eq!(files, vec!["/keep/a".to_string()]);
}

#[test]
fn walker_skips_matching_names() {
    let mut fs = TestFileSystem::new();
    fs.create_dir("/");
    fs.create_file("/note.tmp");
    fs.create_file("/note.txt");
    let dw = DirWalker::new(vec!["/".to_string()])
        .blacklist_patterns(vec!["tmp$".to_string()])
        .unwrap();
    let files = dw.traverse_all(&fs);
    assert_eq!(files, vec!["/note.txt".to_string()]);
}

#[test]
fn bad_pattern_is_fatal() {
    let r = DirWalker::new(vec!["/".to_string()]).blacklist_patterns(vec!["[".to_string()]);
    assert!(matches!(r, Err(IoErr::BadPattern)));
}

#[test]
fn run_walk_reports_bad_pattern() {
    let fs = TestFileSystem::new();
    let r = run_walk(&fs, vec!["/".to_string()], vec![], vec!["(".to_string()]);
    assert!(matches!(r, Err(IoErr::BadPattern)));
    let ok = run_walk(&fs, vec!["/".to_string()], vec![], vec!["a".to_string()]);
    assert_eq!(ok.unwrap().len(), 0);
}

#[test]
fn walker_takes_explicit_files() {
    // a root that names a regular file directly is always found
    let mut fs = TestFileSystem::new();
    fs.create_file("/direct");
    let dw = DirWalker::new(vec!["/direct".to_string()]);
    let files = dw.traverse_all(&fs);
    assert_eq!(files, vec!["/direct".to_string()]);
}
