// Selection policy behavior on concrete filesystems.

use smllr::ID;
use smllr::Inode;
use smllr::catalog::Duplicates;
use smllr::selector::{Selector, PathSelect, DateSelect};
use smllr::vfs::{TestFileSystem, TestFile, TestMD};

fn dups_of(paths: &[&str]) -> Duplicates {
    Duplicates(paths.iter().map(|p| p.to_string()).collect())
}

#[test]
fn select_shortest() {
    let mut fs = TestFileSystem::new();
    fs.create_dir("/");
    fs.create_dir("/w");
    fs.create_dir("/w/x");
    fs.create_dir("/w/x/y");
    fs.create_dir("/w/x/y/z");
    fs.add(TestFile::new("/a"));
    fs.add(TestFile::new("/w/b"));
    fs.add(TestFile::new("/w/x/c"));
    fs.add(TestFile::new("/w/x/y/d"));
    let files = dups_of(&["/a"]);
    let shortest = PathSelect::new().select(&fs, &files);
    assert_eq!(shortest, "/a");
}

#[test]
fn select_longest() {
    let mut fs = TestFileSystem::new();
    fs.create_dir("/");
    fs.create_dir("/x");
    fs.create_dir("/x/y");
    fs.create_dir("/x/y/z");
    fs.add(TestFile::new("/a"));
    fs.add(TestFile::new("/x/b"));
    fs.add(TestFile::new("/x/y/c"));
    fs.add(TestFile::new("/x/y/z/d"));
    let files = dups_of(&["/a", "/x/b", "/x/y/c", "/x/y/z/d"]);
    let longest = PathSelect::new().reverse().select(&fs, &files);
    assert_eq!(longest, "/x/y/z/d");
}

#[test]
fn select_newest() {
    let mut fs = TestFileSystem::new();
    let md_a = TestMD::new().with_creation_time(1);
    let md_b = TestMD::new().with_creation_time(2);
    let md_c = TestMD::new().with_creation_time(3);
    let md_d = TestMD::new().with_creation_time(4);
    fs.create_dir("/");
    fs.create_dir("/x");
    fs.create_dir("/x/y");
    fs.create_dir("/x/y/z");
    fs.add(TestFile::new("/a").with_metadata(md_a));
    fs.add(TestFile::new("/x/b").with_metadata(md_b));
    fs.add(TestFile::new("/x/y/c").with_metadata(md_c));
    fs.add(TestFile::new("/x/y/z/d").with_metadata(md_d));
    let files = dups_of(&["/a", "/x/b", "/x/y/c", "/x/y/z/d"]);
    let newest = DateSelect::new().select(&fs, &files);
    assert_eq!(newest, "/x/y/z/d");
}

#[test]
fn select_oldest() {
    let mut fs = TestFileSystem::new();
    let md_a = TestMD::new().with_creation_time(1);
    let md_b = TestMD::new().with_creation_time(2);
    let md_c = TestMD::new().with_creation_time(3);
    let md_d = TestMD::new().with_creation_time(4);
    fs.create_dir("/");
    fs.create_dir("/x");
    fs.create_dir("/x/y");
    fs.create_dir("/x/y/z");
    fs.add(TestFile::new("/a").with_metadata(md_a));
    fs.add(TestFile::new("/x/b").with_metadata(md_b));
    fs.add(TestFile::new("/x/y/c").with_metadata(md_c));
    fs.add(TestFile::new("/x/y/z/d").with_metadata(md_d));
    let files = dups_of(&["/a", "/x/b", "/x/y/c", "/x/y/z/d"]);
    let oldest = DateSelect::new().reverse().select(&fs, &files);
    assert_eq!(oldest, "/a");
}

#[test]
fn select_is_member_of_group() {
    let mut fs = TestFileSystem::new();
    fs.create_dir("/");
    fs.add(TestFile::new("/m"));
    fs.add(TestFile::new("/n/o"));
    let files = dups_of(&["/n/o", "/m"]);
    let pick = PathSelect::new().select(&fs, &files);
    assert!(files.0.contains(&pick));
    let pick = PathSelect::new().reverse().select(&fs, &files);
    assert!(files.0.contains(&pick));
}

#[test]
fn select_ties_are_members() {
    let fs = TestFileSystem::new();
    let files = dups_of(&["/e/f", "/g/h"]);
    let pick = PathSelect::new().select(&fs, &files);
    assert!(files.0.contains(&pick));
}

#[test]
fn with_id_overrides_inode() {
    let md = TestMD::new().with_id(ID { dev: 3, inode: 9 }).with_len(7);
    assert_eq!(md.get_len(), 7);
    assert_eq!(md.get_inode(), Inode(9));
    assert_eq!(md.get_device(), smllr::DeviceId(3));
    assert_eq!(md.get_creation_time(), 0);
}

#[test]
fn select_counts_components_not_separators() {
    // /a//b has three components but as many separators as /c/d/e's four
    // components; the deepest pick must go by components
    let fs = TestFileSystem::new();
    let files = dups_of(&["/a//b", "/c/d/e"]);
    let deepest = PathSelect::new().reverse().select(&fs, &files);
    assert_eq!(deepest, "/c/d/e");
    let shallowest = PathSelect::new().select(&fs, &files);
    assert_eq!(shallowest, "/a//b");
}
