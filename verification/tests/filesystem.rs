// The in-memory filesystem and its content reads: digests, leading
// bytes, paths and error kinds.

use smllr::{FileType, IoErr, Inode};
use smllr::hashing::{HashKind, hash_bytes};
use smllr::paths::{parent_of, file_name_of, count_components, starts_with};
use smllr::vfs::{TestFileSystem, TestFile, TestMD, FIRST_K_BYTES};

fn hex_of(bytes: &[u8]) -> String {
    let mut s = String::new();
    for b in bytes {
        s.push_str(&format!("{:02x}", b));
    }
    s
}

#[test]
fn md5_digest_of_known_input() {
    let d = hash_bytes(HashKind::Md5, b"abc");
    assert_eq!(hex_of(&d), "900150983cd24fb0d6963f7d28e17f72");
    let e = hash_bytes(HashKind::Md5, b"");
    assert_eq!(hex_of(&e), "d41d8cd98f00b204e9800998ecf8427e");
}

#[test]
fn sha3_digest_of_known_input() {
    let d = hash_bytes(HashKind::Sha3, b"abc");
    assert_eq!(
        hex_of(&d),
        "3a985da74fe225b2045c172d6bd390bd855f086e3e9d525b46bfe24511431532"
    );
}

#[test]
fn file_hash_follows_contents() {
    let f = TestFile::new("/a").with_contents("abc".to_string());
    let d = f.get_hash(HashKind::Md5).unwrap();
    assert_eq!(hex_of(&d), "900150983cd24fb0d6963f7d28e17f72");
    let none = TestFile::new("/a").get_hash(HashKind::Md5);
    assert!(matches!(none, Err(IoErr::NotFound)));
}

#[test]
fn first_bytes_are_zero_padded() {
    let f = TestFile::new("/a").with_contents("xy".to_string());
    let fb = f.get_first_bytes().unwrap();
    assert_eq!(fb.0.len(), FIRST_K_BYTES);
    assert_eq!(fb.0[0], b'x');
    assert_eq!(fb.0[1], b'y');
    assert_eq!(fb.0[2], 0);
    assert_eq!(fb.0[FIRST_K_BYTES - 1], 0);
}

#[test]
fn metadata_travels_with_builders() {
    let f = TestFile::new("/f")
        .with_metadata(TestMD::new().with_len(5).with_creation_time(9))
        .with_kind(FileType::Dir)
        .with_inode(Inode(4));
    let md = f.get_metadata().unwrap();
    assert_eq!(md.get_type(), FileType::Dir);
    assert_eq!(md.get_inode(), Inode(4));
    assert_eq!(md.get_creation_time(), 9);
    let bare = TestFile::new("/g");
    assert!(matches!(bare.get_metadata(), Err(IoErr::NoMetadata)));
}

#[test]
fn contents_length_wins_over_given_length() {
    let f = TestFile::new("/f")
        .with_contents("12345678".to_string())
        .with_metadata(TestMD::new().with_len(3));
    assert_eq!(f.get_metadata().unwrap().get_len(), 8);
}

#[test]
fn lookup_and_read_link_error_kinds() {
    let mut fs = TestFileSystem::new();
    fs.create_file("/real");
    fs.create_symlink("/broken", "/gone");
    fs.create_symlink("/p", "/q");
    fs.create_symlink("/q", "/p");
    assert!(fs.lookup("/real").is_ok());
    assert!(matches!(fs.lookup("/nothing"), Err(IoErr::NotFound)));
    assert!(matches!(fs.lookup("/broken"), Err(IoErr::NotFound)));
    assert!(matches!(fs.lookup("/p"), Err(IoErr::Loop)));
    assert_eq!(fs.read_link("/broken").unwrap(), "/gone");
    assert!(matches!(fs.read_link("/real"), Err(IoErr::NotFound)));
}

#[test]
fn get_metadata_follows_one_symlink() {
    let mut fs = TestFileSystem::new();
    fs.create_file("/target");
    fs.create_symlink("/link", "/target");
    let md = fs.get_metadata("/link").unwrap();
    assert_eq!(md.get_type(), FileType::File);
    // the symlink's own record has no metadata of its own
    assert!(matches!(fs.get_symlink_metadata("/link"), Err(IoErr::NoMetadata)));
}

#[test]
fn list_dir_lists_children_only() {
    let mut fs = TestFileSystem::new();
    fs.create_dir("/");
    fs.create_dir("/d");
    fs.create_file("/d/in");
    fs.create_file("/elsewhere");
    let names: Vec<String> =
        fs.list_dir("/d").unwrap().iter().map(|f| f.get_path()).collect();
    // entries with no parent at all list everywhere, so the root
    // rides along
    assert_eq!(names, vec!["/".to_string(), "/d/in".to_string()]);
}

#[test]
fn dense_inode_numbering() {
    let mut fs = TestFileSystem::new();
    fs.create_dir("/");
    fs.create_file("/a");
    fs.create_file("/b");
    assert_eq!(fs.len(), 3);
    assert_eq!(fs.num_inodes(), 3);
    let md = fs.get_metadata("/b").unwrap();
    assert_eq!(md.get_inode(), Inode(2));
}

#[test]
fn path_helpers() {
    assert_eq!(parent_of("/x/y").unwrap(), "/x");
    assert_eq!(parent_of("/a").unwrap(), "/");
    assert_eq!(parent_of("/"), None);
    assert_eq!(parent_of(""), None);
    assert_eq!(parent_of("name").unwrap(), "");
    assert_eq!(file_name_of("/x/y/z.txt"), "z.txt");
    assert_eq!(file_name_of("plain"), "plain");
    assert_eq!(count_components("/w/x/y/d"), 5);
    assert_eq!(count_components("a"), 1);
    assert_eq!(count_components("/"), 1);
    assert_eq!(count_components(""), 0);
    // doubled separators add no components
    assert_eq!(count_components("/a//b"), 3);
    assert_eq!(count_components("/c/d/e"), 4);
    assert_eq!(count_components("a/b/"), 2);
    assert!(starts_with("/tmp/file", "/tmp"));
    assert!(!starts_with("/tm", "/tmp"));
}
