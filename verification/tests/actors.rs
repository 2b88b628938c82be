// Actor behavior: printing leaves the filesystem alone, deleting keeps
// only the keeper, linking collapses a group to one inode.

use smllr::Inode;
use smllr::catalog::Duplicates;
use smllr::selector::{Selector, PathSelect};
use smllr::actor::{FilePrinter, FileDeleter, FileLinker};
use smllr::vfs::{TestFileSystem, TestFile, TestMD};

fn dups_of(paths: &[&str]) -> Duplicates {
    Duplicates(paths.iter().map(|p| p.to_string()).collect())
}

#[test]
fn actor_print() {
    // run `FilePrinter::act` on a set of duplicates
    // verify the filesystem doesn't change
    let mut fs = TestFileSystem::new();
    fs.create_dir("/");
    fs.add(TestFile::new("/a"));
    fs.create_dir("/x");
    fs.add(TestFile::new("/x/b"));
    fs.add(TestFile::new("/x/c"));
    let files = dups_of(&["/a", "/x/b", "/x/c"]);

    let selector = PathSelect::new();
    let mut actor = FilePrinter::new(selector);
    actor.act(&mut fs, &files);
    assert_eq!(5, fs.len());
}

#[test]
fn actor_delete() {
    // run `FileDeleter::act` on a set of duplicates
    // verify the filesystem only has one file left
    let mut fs = TestFileSystem::new();
    fs.create_dir("/");
    fs.add(TestFile::new("/a").with_metadata(TestMD::new()));
    fs.create_dir("/x");
    fs.add(TestFile::new("/x/b").with_metadata(TestMD::new()));
    fs.add(TestFile::new("/x/c").with_metadata(TestMD::new()));
    let files = dups_of(&["/a", "/x/b", "/x/c"]);

    let selector = PathSelect::new();
    let actor = FileDeleter::new(selector);
    actor.act(&mut fs, &files);
    assert_eq!(3, fs.len());
}

#[test]
fn actor_link() {
    // run `FileLinker::act` on a set of duplicates
    // verify the filesystem only has links to one file
    let mut fs = TestFileSystem::new();
    fs.create_dir("/");  // the first inode belongs to the root
    fs.add(TestFile::new("/a").with_inode(Inode(1)).with_metadata(TestMD::new()));
    fs.add(TestFile::new("/b").with_inode(Inode(2)).with_metadata(TestMD::new()));
    fs.add(TestFile::new("/c").with_inode(Inode(3)).with_metadata(TestMD::new()));
    let files = dups_of(&["/a", "/b", "/c"]);

    // currently all files are identical and distinct
    // remember that the root dir counts and has an inode
    assert_eq!(4, fs.len(), "sanity check");
    assert_eq!(4, fs.num_inodes(), "sanity check");

    let selector = PathSelect::new();
    let actor = FileLinker::new(selector);
    actor.act(&mut fs, &files);

    // after acting, all files should have the same inode
    assert_eq!(4, fs.len());
    assert_eq!(2, fs.num_inodes());
}

#[test]
fn actor_print_reports_keeper() {
    let mut fs = TestFileSystem::new();
    fs.create_dir("/");
    fs.add(TestFile::new("/a"));
    fs.add(TestFile::new("/q/b"));
    let files = dups_of(&["/q/b", "/a"]);
    let mut actor = FilePrinter::new(PathSelect::new());
    actor.act(&mut fs, &files);
    assert_eq!(actor.reported.len(), 1);
    assert_eq!(actor.reported[0], "/a");
}

#[test]
fn actor_delete_twice_is_once() {
    let mut fs = TestFileSystem::new();
    fs.create_dir("/");
    fs.add(TestFile::new("/a").with_metadata(TestMD::new()));
    fs.add(TestFile::new("/x").with_metadata(TestMD::new()));
    fs.add(TestFile::new("/y/z").with_metadata(TestMD::new()));
    let files = dups_of(&["/a", "/x", "/y/z"]);
    let actor = FileDeleter::new(PathSelect::new());
    actor.act(&mut fs, &files);
    let after_once = fs.len();
    actor.act(&mut fs, &files);
    assert_eq!(after_once, fs.len());
    assert_eq!(2, fs.len());  // the root dir and the keeper
}

#[test]
fn actor_link_twice_is_once() {
    let mut fs = TestFileSystem::new();
    fs.create_dir("/");
    fs.add(TestFile::new("/a").with_inode(Inode(1)).with_metadata(TestMD::new()));
    fs.add(TestFile::new("/b").with_inode(Inode(2)).with_metadata(TestMD::new()));
    let files = dups_of(&["/a", "/b"]);
    let actor = FileLinker::new(PathSelect::new());
    actor.act(&mut fs, &files);
    let len_once = fs.len();
    let inodes_once = fs.num_inodes();
    actor.act(&mut fs, &files);
    assert_eq!(len_once, fs.len());
    assert_eq!(inodes_once, fs.num_inodes());
    assert_eq!(3, fs.len());
    assert_eq!(2, fs.num_inodes());
}

#[test]
fn actor_link_missing_keeper_changes_nothing() {
    let mut fs = TestFileSystem::new();
    fs.create_dir("/");
    fs.add(TestFile::new("/w/b").with_inode(Inode(2)).with_metadata(TestMD::new()));
    // the shallowest path of the group does not exist in the filesystem
    let files = dups_of(&["/a", "/w/b"]);
    let actor = FileLinker::new(PathSelect::new());
    actor.act(&mut fs, &files);
    assert_eq!(2, fs.len());
    assert_eq!(2, fs.num_inodes());
}
