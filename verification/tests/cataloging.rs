// The tiered catalog: grouping by length, leading bytes and digest,
// with hardlink-aware inode grouping.

use smllr::ID;
use smllr::Inode;
use smllr::selector::{Selector, PathSelect};
use smllr::actor::FileDeleter;
use smllr::catalog::{FileCataloger, Duplicates};
use smllr::hashing::HashKind;
use smllr::vfs::{TestFileSystem, TestFile, TestMD, FIRST_K_BYTES};

fn file(path: &str, contents: &str, inode: u64) -> TestFile {
    TestFile::new(path)
        .with_inode(Inode(inode))
        .with_metadata(TestMD::new())
        .with_contents(contents.to_string())
}

fn catalog_of(fs: &TestFileSystem, paths: &[&str]) -> FileCataloger {
    let mut fc = FileCataloger::new(HashKind::Md5);
    for p in paths {
        fc.insert(fs, p);
    }
    fc
}

fn group_paths(repeats: &[Duplicates]) -> Vec<String> {
    let mut all: Vec<String> = Vec::new();
    for d in repeats {
        for p in &d.0 {
            all.push(p.clone());
        }
    }
    all.sort();
    all
}

#[test]
fn two_identical_files_form_a_group() {
    let mut fs = TestFileSystem::new();
    fs.add(file("/a", "same bytes", 1));
    fs.add(file("/b", "same bytes", 2));
    let fc = catalog_of(&fs, &["/a", "/b"]);
    let repeats = fc.get_repeats();
    // one group of two inodes: both its sides are emitted
    assert_eq!(repeats.len(), 2);
    assert_eq!(group_paths(&repeats), vec!["/a".to_string(), "/b".to_string()]);
}

#[test]
fn different_contents_make_no_group() {
    let mut fs = TestFileSystem::new();
    fs.add(file("/a", "one thing", 1));
    fs.add(file("/b", "another..", 2));
    let fc = catalog_of(&fs, &["/a", "/b"]);
    assert_eq!(fc.get_repeats().len(), 0);
}

#[test]
fn different_sizes_make_no_group() {
    let mut fs = TestFileSystem::new();
    fs.add(file("/a", "short", 1));
    fs.add(file("/b", "much much longer", 2));
    let fc = catalog_of(&fs, &["/a", "/b"]);
    assert_eq!(fc.get_repeats().len(), 0);
}

#[test]
fn hardlinks_alone_make_no_group() {
    // several names for one inode with unique content: nothing to do
    let mut fs = TestFileSystem::new();
    fs.add(file("/a", "unique content", 7));
    fs.add(file("/b", "unique content", 7));
    fs.add(file("/c", "unique content", 7));
    let fc = catalog_of(&fs, &["/a", "/b", "/c"]);
    assert_eq!(fc.get_repeats().len(), 0);
}

#[test]
fn hardlinks_group_with_a_distinct_inode() {
    let mut fs = TestFileSystem::new();
    fs.add(file("/a", "shared", 1));
    fs.add(file("/a2", "shared", 1));
    fs.add(file("/b", "shared", 2));
    let fc = catalog_of(&fs, &["/a", "/a2", "/b"]);
    let repeats = fc.get_repeats();
    // two inodes share the content: the hardlink pair stays one group
    assert_eq!(repeats.len(), 2);
    let mut sizes: Vec<usize> = repeats.iter().map(|d| d.0.len()).collect();
    sizes.sort();
    assert_eq!(sizes, vec![1, 2]);
    assert_eq!(
        group_paths(&repeats),
        vec!["/a".to_string(), "/a2".to_string(), "/b".to_string()]
    );
}

#[test]
fn same_leading_bytes_different_tail() {
    // identical first bytes, then a different tail: no group
    let prefix = "p".repeat(FIRST_K_BYTES);
    let mut fs = TestFileSystem::new();
    fs.add(file("/a", &format!("{}x", prefix), 1));
    fs.add(file("/b", &format!("{}y", prefix), 2));
    let fc = catalog_of(&fs, &["/a", "/b"]);
    assert_eq!(fc.get_repeats().len(), 0);
}

#[test]
fn long_identical_files_form_a_group() {
    let body = "q".repeat(FIRST_K_BYTES + 17);
    let mut fs = TestFileSystem::new();
    fs.add(file("/a", &body, 1));
    fs.add(file("/b", &body, 2));
    let fc = catalog_of(&fs, &["/a", "/b"]);
    assert_eq!(fc.get_repeats().len(), 2);
}

#[test]
fn three_way_group_with_bystanders() {
    let mut fs = TestFileSystem::new();
    fs.add(file("/dup1", "the same text", 1));
    fs.add(file("/dup2", "the same text", 2));
    fs.add(file("/dup3", "the same text", 3));
    fs.add(file("/other", "the same size", 4));
    fs.add(file("/small", "tiny", 5));
    let fc = catalog_of(&fs, &["/dup1", "/dup2", "/dup3", "/other", "/small"]);
    let repeats = fc.get_repeats();
    assert_eq!(repeats.len(), 3);
    assert_eq!(
        group_paths(&repeats),
        vec!["/dup1".to_string(), "/dup2".to_string(), "/dup3".to_string()]
    );
}

#[test]
fn paranoid_hashing_groups_identically() {
    let mut fs = TestFileSystem::new();
    fs.add(file("/a", "paranoid bytes", 1));
    fs.add(file("/b", "paranoid bytes", 2));
    fs.add(file("/c", "other contents", 3));
    let mut fc = FileCataloger::new(HashKind::Sha3);
    fc.insert(&fs, "/a");
    fc.insert(&fs, "/b");
    fc.insert(&fs, "/c");
    let repeats = fc.get_repeats();
    assert_eq!(repeats.len(), 2);
    assert_eq!(group_paths(&repeats), vec!["/a".to_string(), "/b".to_string()]);
}

#[test]
fn delete_then_recatalog_finds_nothing() {
    let mut fs = TestFileSystem::new();
    fs.add(file("/a", "twins", 1));
    fs.add(file("/w/b", "twins", 2));
    let fc = catalog_of(&fs, &["/a", "/w/b"]);
    let repeats = fc.get_repeats();
    assert_eq!(repeats.len(), 2);
    let all = Duplicates(group_paths(&repeats));
    let actor = FileDeleter::new(PathSelect::new());
    actor.act(&mut fs, &all);
    // only the keeper is left; a fresh catalog over it finds no group
    assert_eq!(fs.len(), 1);
    let fc = catalog_of(&fs, &["/a"]);
    assert_eq!(fc.get_repeats().len(), 0);
}
