//! An in-memory filesystem: the test double every part of the core runs
//! against. Files, directories and symlinks live in two tables keyed by
//! path; inodes are handed out densely in creation order.
//!
//! The real OS-backed filesystem is an unverified adapter outside this
//! library; the core itself only ever sees this capability set.

use vstd::prelude::*;

use crate::{DeviceId, FileType, ID, Inode, IoErr};
use crate::hashing::{HashKind, digest_of, hash_bytes};
use crate::paths::{spec_parent, parent_of, str_eq, contains_string};
use crate::seqs::{
    lemma_filter_take_step, lemma_to_set_push, lemma_to_set_len_le,
};

verus! {

/// How many leading bytes the first-bytes tier of the catalog compares.
pub const FIRST_K_BYTES: usize = 4096;

/// The leading bytes of a file, zero-padded to `FIRST_K_BYTES`.
#[derive(Debug)]
pub struct FirstBytes(pub Vec<u8>);

impl Clone for FirstBytes {
    fn clone(&self) -> (r: Self)
        ensures
            r.0@ == self.0@,
    {
        FirstBytes(self.0.clone())
    }
}

/// The first `FIRST_K_BYTES` of a byte sequence, zero-padded when the
/// sequence is shorter.
pub open spec fn first_k(data: Seq<u8>) -> Seq<u8> {
    Seq::new(
        FIRST_K_BYTES as nat,
        |i: int| if i < data.len() {
            data[i]
        } else {
            0u8
        },
    )
}

/// Metadata of one filesystem entry. Creation time is seconds since the
/// epoch.
#[derive(Clone, Copy, Debug, PartialEq, Eq, Structural)]
pub struct TestMD {
    pub len: u64,
    pub creation: u64,
    pub kind: FileType,
    pub id: ID,
}

impl TestMD {
    /// A zero-length regular file at device 0, inode 0, created at the
    /// epoch.
    pub fn new() -> (r: Self)
        ensures
            r == (TestMD { len: 0, creation: 0, kind: FileType::File, id: ID { dev: 0, inode: 0 } }),
    {
        TestMD { len: 0, creation: 0, kind: FileType::File, id: ID { dev: 0, inode: 0 } }
    }

    pub fn with_len(self, n: u64) -> (r: Self)
        ensures
            r == (TestMD { len: n, ..self }),
    {
        TestMD { len: n, ..self }
    }

    pub fn with_creation_time(self, t: u64) -> (r: Self)
        ensures
            r == (TestMD { creation: t, ..self }),
    {
        TestMD { creation: t, ..self }
    }

    pub fn with_kind(self, k: FileType) -> (r: Self)
        ensures
            r == (TestMD { kind: k, ..self }),
    {
        TestMD { kind: k, ..self }
    }

    pub fn with_id(self, id: ID) -> (r: Self)
        ensures
            r == (TestMD { id: id, ..self }),
    {
        TestMD { id: id, ..self }
    }

    pub fn get_len(&self) -> (r: u64)
        ensures
            r == self.len,
    {
        self.len
    }

    pub fn get_creation_time(&self) -> (r: u64)
        ensures
            r == self.creation,
    {
        self.creation
    }

    pub fn get_type(&self) -> (r: FileType)
        ensures
            r == self.kind,
    {
        self.kind
    }

    pub fn get_inode(&self) -> (r: Inode)
        ensures
            r == Inode(self.id.inode),
    {
        Inode(self.id.inode)
    }

    pub fn get_device(&self) -> (r: DeviceId)
        ensures
            r == DeviceId(self.id.dev),
    {
        DeviceId(self.id.dev)
    }
}

/// One entry of the in-memory filesystem. As on the systems it mimics,
/// directories and symlinks are files too.
#[derive(Debug)]
pub struct TestFile {
    pub path: String,
    pub contents: Option<String>,
    pub kind: FileType,
    pub inode: Inode,
    pub metadata: Option<TestMD>,
}

impl Clone for TestFile {
    fn clone(&self) -> (r: Self)
        ensures
            r == *self,
    {
        TestFile {
            path: self.path.clone(),
            contents: match &self.contents {
                Some(c) => Some(c.clone()),
                None => None,
            },
            kind: self.kind,
            inode: self.inode,
            metadata: self.metadata,
        }
    }
}

impl TestFile {
    /// The bytes of this file's contents.
    pub open spec fn content_bytes(self) -> Seq<u8> {
        str_bytes(self.contents->Some_0@)
    }

    /// A regular file at `s` with no contents and no metadata yet.
    pub fn new(s: &str) -> (r: Self)
        ensures
            r.path@ == s@,
            r.contents is None,
            r.kind == FileType::File,
            r.inode == Inode(0),
            r.metadata is None,
    {
        TestFile {
            path: s.to_owned(),
            contents: None,
            kind: FileType::File,
            inode: Inode(0),
            metadata: None,
        }
    }

    /// Sets the contents; metadata length, if any is set, follows the
    /// contents' byte length.
    pub fn with_contents(self, c: String) -> (r: Self)
        ensures
            r.path == self.path,
            r.contents == Some(c),
            r.kind == self.kind,
            r.inode == self.inode,
            match self.metadata {
                Some(md) => r.metadata == Some(TestMD { len: byte_len_u64(c@), ..md }),
                None => r.metadata is None,
            },
    {
        let metadata = match self.metadata {
            Some(md) => Some(md.with_len(byte_len64(c.as_str()))),
            None => None,
        };
        TestFile { contents: Some(c), metadata, ..self }
    }

    /// Sets the kind, keeping any metadata in step.
    pub fn with_kind(self, k: FileType) -> (r: Self)
        ensures
            r.path == self.path,
            r.contents == self.contents,
            r.kind == k,
            r.inode == self.inode,
            match self.metadata {
                Some(md) => r.metadata == Some(TestMD { kind: k, ..md }),
                None => r.metadata is None,
            },
    {
        let metadata = match self.metadata {
            Some(md) => Some(md.with_kind(k)),
            None => None,
        };
        TestFile { kind: k, metadata, ..self }
    }

    /// Sets the inode, keeping any metadata in step.
    pub fn with_inode(self, i: Inode) -> (r: Self)
        ensures
            r.path == self.path,
            r.contents == self.contents,
            r.kind == self.kind,
            r.inode == i,
            match self.metadata {
                Some(md) => r.metadata == Some(TestMD { id: ID { inode: i.0, ..md.id }, ..md }),
                None => r.metadata is None,
            },
    {
        let metadata = match self.metadata {
            Some(md) => {
                let id = ID { inode: i.0, ..md.id };
                Some(md.with_id(id))
            },
            None => None,
        };
        TestFile { inode: i, metadata, ..self }
    }

    /// Attaches metadata, reconciling kind, length and inode between the
    /// file and the metadata: the file's kind wins unless it is the
    /// default, the contents' byte length wins, a nonzero file inode wins.
    pub fn with_metadata(self, md: TestMD) -> (r: Self)
        ensures
            r.path == self.path,
            r.contents == self.contents,
            r.inode == self.inode,
            r.kind == (if self.kind != FileType::File {
                self.kind
            } else {
                md.kind
            }),
            r.metadata matches Some(m) && m == (TestMD {
                kind: if self.kind != FileType::File {
                    self.kind
                } else {
                    md.kind
                },
                len: match self.contents {
                    Some(c) => byte_len_u64(c@),
                    None => md.len,
                },
                id: if self.inode != Inode(0) {
                    ID { inode: self.inode.0, ..md.id }
                } else {
                    md.id
                },
                ..md
            }),
    {
        let mut md = md;
        let mut kind = self.kind;
        // reconcile the kind
        if self.kind != FileType::File {
            md = md.with_kind(self.kind);
        } else {
            kind = md.kind;
        }
        // reconcile the length
        md = match &self.contents {
            Some(c) => md.with_len(byte_len64(c.as_str())),
            None => md,
        };
        // reconcile the inode
        if self.inode.0 != 0 {
            let id = ID { inode: self.inode.0, ..md.id };
            md = md.with_id(id);
        }
        TestFile { kind, metadata: Some(md), ..self }
    }

    pub fn get_path(&self) -> (r: String)
        ensures
            r == self.path,
    {
        self.path.clone()
    }

    pub fn get_inode(&self) -> (r: Result<Inode, IoErr>)
        ensures
            r == Ok::<Inode, IoErr>(self.inode),
    {
        Ok(self.inode)
    }

    pub fn get_type(&self) -> (r: Result<FileType, IoErr>)
        ensures
            r == Ok::<FileType, IoErr>(self.kind),
    {
        Ok(self.kind)
    }

    /// The metadata, or `NoMetadata` where none was ever attached.
    pub fn get_metadata(&self) -> (r: Result<TestMD, IoErr>)
        ensures
            match self.metadata {
                Some(md) => r == Ok::<TestMD, IoErr>(md),
                None => r == Err::<TestMD, IoErr>(IoErr::NoMetadata),
            },
    {
        match self.metadata {
            Some(md) => Ok(md),
            None => Err(IoErr::NoMetadata),
        }
    }

    /// The first `FIRST_K_BYTES` of the contents, zero-padded; `NotFound`
    /// where no contents were set.
    pub fn get_first_bytes(&self) -> (r: Result<FirstBytes, IoErr>)
        ensures
            match self.contents {
                Some(_) => r matches Ok(fb) && fb.0@ == first_k(self.content_bytes()),
                None => r == Err::<FirstBytes, IoErr>(IoErr::NotFound),
            },
    {
        match &self.contents {
            Some(c) => {
                let bs = c.as_str().as_bytes();
                let mut out: Vec<u8> = Vec::new();
                let mut i: usize = 0;
                while i < FIRST_K_BYTES
                    invariant
                        i <= FIRST_K_BYTES,
                        out@.len() == i,
                        forall|j: int| 0 <= j < i ==> out@[j] == first_k(bs@)[j],
                    decreases FIRST_K_BYTES - i,
                {
                    if i < bs.len() {
                        out.push(bs[i]);
                    } else {
                        out.push(0u8);
                    }
                    i = i + 1;
                }
                proof {
                    assert(out@ =~= first_k(self.content_bytes()));
                }
                Ok(FirstBytes(out))
            },
            None => Err(IoErr::NotFound),
        }
    }

    /// The digest of the whole contents under the chosen strategy;
    /// `NotFound` where no contents were set.
    pub fn get_hash(&self, kind: HashKind) -> (r: Result<Vec<u8>, IoErr>)
        ensures
            match self.contents {
                Some(_) => r matches Ok(h) && h@ == digest_of(kind, self.content_bytes()),
                None => r == Err::<Vec<u8>, IoErr>(IoErr::NotFound),
            },
    {
        match &self.contents {
            Some(c) => Ok(hash_bytes(kind, c.as_str().as_bytes())),
            None => Err(IoErr::NotFound),
        }
    }
}

/// The bytes a character sequence encodes to as UTF-8.
pub open spec fn str_bytes(s: Seq<char>) -> Seq<u8> {
    vstd::utf8::encode_utf8(s)
}

/// The byte length of a character sequence's UTF-8 encoding, as the
/// running code computes it.
pub open spec fn byte_len_u64(s: Seq<char>) -> u64 {
    (str_bytes(s).len() as usize) as u64
}

/// The byte length of a string, as a `u64`.
fn byte_len64(s: &str) -> (r: u64)
    ensures
        r == byte_len_u64(s@),
{
    s.len() as u64
}


/// A symlink entry: the symlink's own record plus the path it points at.
#[derive(Debug)]
pub struct SymEntry {
    pub link: TestFile,
    pub target: String,
}

impl Clone for SymEntry {
    fn clone(&self) -> (r: Self)
        ensures
            r == *self,
    {
        SymEntry { link: self.link.clone(), target: self.target.clone() }
    }
}

/// No two entries share a path.
pub open spec fn unique_paths(s: Seq<TestFile>) -> bool {
    forall|i: int, j: int| 0 <= i < j < s.len() ==> s[i].path@ != s[j].path@
}

/// Some entry has path `p`.
pub open spec fn has_path(s: Seq<TestFile>, p: Seq<char>) -> bool {
    exists|i: int| 0 <= i < s.len() && s[i].path@ == p
}

/// The index of the entry with path `p`.
pub open spec fn idx_of(s: Seq<TestFile>, p: Seq<char>) -> int {
    choose|i: int| 0 <= i < s.len() && s[i].path@ == p
}

/// The entry with path `p`.
pub open spec fn at_path(s: Seq<TestFile>, p: Seq<char>) -> TestFile {
    s[idx_of(s, p)]
}

/// All entries but the one at path `p`, in order.
pub open spec fn without_path(s: Seq<TestFile>, p: Seq<char>) -> Seq<TestFile> {
    s.filter(|f: TestFile| f.path@ != p)
}

/// No two symlink entries share a path.
pub open spec fn sym_unique(s: Seq<SymEntry>) -> bool {
    forall|i: int, j: int| 0 <= i < j < s.len() ==> s[i].link.path@ != s[j].link.path@
}

/// Some symlink entry has path `p`.
pub open spec fn sym_has(s: Seq<SymEntry>, p: Seq<char>) -> bool {
    exists|i: int| 0 <= i < s.len() && s[i].link.path@ == p
}

/// The index of the symlink entry with path `p`.
pub open spec fn sym_idx(s: Seq<SymEntry>, p: Seq<char>) -> int {
    choose|i: int| 0 <= i < s.len() && s[i].link.path@ == p
}

/// The symlink entry with path `p`.
pub open spec fn sym_at(s: Seq<SymEntry>, p: Seq<char>) -> SymEntry {
    s[sym_idx(s, p)]
}

/// All symlink entries but the one at path `p`, in order.
pub open spec fn sym_without(s: Seq<SymEntry>, p: Seq<char>) -> Seq<SymEntry> {
    s.filter(|e: SymEntry| e.link.path@ != p)
}

/// With unique paths, an entry whose path is `p` is the entry `at_path`
/// finds.
pub proof fn lemma_at_path(s: Seq<TestFile>, p: Seq<char>, i: int)
    requires
        unique_paths(s),
        0 <= i < s.len(),
        s[i].path@ == p,
    ensures
        has_path(s, p),
        idx_of(s, p) == i,
        at_path(s, p) == s[i],
{
    assert(has_path(s, p));
    let j = idx_of(s, p);
    if i != j {
        assert(s[i].path@ != s[j].path@);
    }
}

/// The symlink counterpart of `lemma_at_path`.
pub proof fn lemma_sym_at(s: Seq<SymEntry>, p: Seq<char>, i: int)
    requires
        sym_unique(s),
        0 <= i < s.len(),
        s[i].link.path@ == p,
    ensures
        sym_has(s, p),
        sym_idx(s, p) == i,
        sym_at(s, p) == s[i],
{
    assert(sym_has(s, p));
    let j = sym_idx(s, p);
    if i != j {
        assert(s[i].link.path@ != s[j].link.path@);
    }
}

/// Every position of a filtered sequence comes from a position of the
/// source.
proof fn lemma_filter_source(s: Seq<TestFile>, pred: spec_fn(TestFile) -> bool, a: int)
    requires
        0 <= a < s.filter(pred).len(),
    ensures
        exists|i: int| 0 <= i < s.len() && s[i] == s.filter(pred)[a],
    decreases s.len(),
{
    reveal(Seq::filter);
    let f = s.filter(pred);
    let g = s.drop_last().filter(pred);
    if s.len() > 0 {
        if pred(s.last()) && a == f.len() - 1 {
            assert(s[s.len() - 1] == f[a]);
        } else {
            lemma_filter_source(s.drop_last(), pred, a);
            let i = choose|i: int| 0 <= i < s.drop_last().len() && s.drop_last()[i] == g[a];
            assert(s[i] == f[a]);
        }
    }
}

/// Filtering entries keeps paths unique.
proof fn lemma_filter_unique(s: Seq<TestFile>, pred: spec_fn(TestFile) -> bool)
    requires
        unique_paths(s),
    ensures
        unique_paths(s.filter(pred)),
    decreases s.len(),
{
    reveal(Seq::filter);
    if s.len() > 0 {
        lemma_filter_unique(s.drop_last(), pred);
        let f = s.filter(pred);
        let g = s.drop_last().filter(pred);
        if pred(s.last()) {
            assert forall|k: int| 0 <= k < g.len() implies g[k].path@ != s.last().path@ by {
                lemma_filter_source(s.drop_last(), pred, k);
                let i = choose|i: int|
                    0 <= i < s.drop_last().len() && s.drop_last()[i] == g[k];
                assert(s[i] == g[k]);
                assert(s[i].path@ != s[s.len() - 1].path@);
            }
            assert forall|a: int, b: int| 0 <= a < b < f.len() implies f[a].path@
                != f[b].path@ by {
                if b < f.len() - 1 {
                    assert(g[a] == f[a] && g[b] == f[b]);
                } else {
                    assert(g[a] == f[a]);
                }
            }
        }
    }
}

/// The symlink counterpart of `lemma_filter_source`.
proof fn lemma_sym_filter_source(s: Seq<SymEntry>, pred: spec_fn(SymEntry) -> bool, a: int)
    requires
        0 <= a < s.filter(pred).len(),
    ensures
        exists|i: int| 0 <= i < s.len() && s[i] == s.filter(pred)[a],
    decreases s.len(),
{
    reveal(Seq::filter);
    let f = s.filter(pred);
    let g = s.drop_last().filter(pred);
    if s.len() > 0 {
        if pred(s.last()) && a == f.len() - 1 {
            assert(s[s.len() - 1] == f[a]);
        } else {
            lemma_sym_filter_source(s.drop_last(), pred, a);
            let i = choose|i: int| 0 <= i < s.drop_last().len() && s.drop_last()[i] == g[a];
            assert(s[i] == f[a]);
        }
    }
}

/// The symlink counterpart of `lemma_filter_unique`.
proof fn lemma_sym_filter_unique(s: Seq<SymEntry>, pred: spec_fn(SymEntry) -> bool)
    requires
        sym_unique(s),
    ensures
        sym_unique(s.filter(pred)),
    decreases s.len(),
{
    reveal(Seq::filter);
    if s.len() > 0 {
        lemma_sym_filter_unique(s.drop_last(), pred);
        let f = s.filter(pred);
        let g = s.drop_last().filter(pred);
        if pred(s.last()) {
            assert forall|k: int| 0 <= k < g.len() implies g[k].link.path@
                != s.last().link.path@ by {
                lemma_sym_filter_source(s.drop_last(), pred, k);
                let i = choose|i: int|
                    0 <= i < s.drop_last().len() && s.drop_last()[i] == g[k];
                assert(s[i] == g[k]);
                assert(s[i].link.path@ != s[s.len() - 1].link.path@);
            }
            assert forall|a: int, b: int| 0 <= a < b < f.len() implies f[a].link.path@
                != f[b].link.path@ by {
                if b < f.len() - 1 {
                    assert(g[a] == f[a] && g[b] == f[b]);
                } else {
                    assert(g[a] == f[a]);
                }
            }
        }
    }
}


/// The in-memory filesystem: regular entries (files and directories) and
/// symlinks, each table keyed by path.
#[derive(Debug)]
pub struct TestFileSystem {
    pub files: Vec<TestFile>,
    pub symlinks: Vec<SymEntry>,
}

impl TestFileSystem {
    /// Well-formed: paths are unique within each table, and the entry
    /// count fits the machine.
    pub open spec fn wf(self) -> bool {
        &&& unique_paths(self.files@)
        &&& sym_unique(self.symlinks@)
        &&& self.files@.len() + self.symlinks@.len() <= usize::MAX
    }

    /// Total number of entries.
    pub open spec fn spec_len(self) -> int {
        self.files@.len() + self.symlinks@.len() as int
    }

    /// There is a regular entry at `p`.
    pub open spec fn has_file(self, p: Seq<char>) -> bool {
        has_path(self.files@, p)
    }

    /// The regular entry at `p`.
    pub open spec fn file_at(self, p: Seq<char>) -> TestFile {
        at_path(self.files@, p)
    }

    /// There is a symlink at `p`.
    pub open spec fn has_symlink(self, p: Seq<char>) -> bool {
        sym_has(self.symlinks@, p)
    }

    /// The target path of the symlink at `p`.
    pub open spec fn sym_target(self, p: Seq<char>) -> Seq<char> {
        sym_at(self.symlinks@, p).target@
    }

    /// The regular entry at `p` exists and has both contents and metadata,
    /// so the catalog can stat and read it.
    pub open spec fn has_readable(self, p: Seq<char>) -> bool {
        &&& self.has_file(p)
        &&& self.file_at(p).contents is Some
        &&& self.file_at(p).metadata is Some
    }

    /// Every inode number in the filesystem, one per entry.
    pub open spec fn inode_seq(self) -> Seq<u64> {
        self.files@.map(|i: int, f: TestFile| f.inode.0) + self.symlinks@.map(
            |i: int, e: SymEntry| e.link.inode.0,
        )
    }

    /// An empty filesystem.
    pub fn new() -> (r: Self)
        ensures
            r.wf(),
            r.files@ == Seq::<TestFile>::empty(),
            r.symlinks@ == Seq::<SymEntry>::empty(),
    {
        TestFileSystem { files: Vec::new(), symlinks: Vec::new() }
    }

    /// Number of entries, files and symlinks together.
    pub fn len(&self) -> (r: usize)
        requires
            self.wf(),
        ensures
            r == self.spec_len(),
    {
        self.files.len() + self.symlinks.len()
    }

    /// Number of distinct inodes over all entries.
    pub fn num_inodes(&self) -> (r: usize)
        ensures
            r == self.inode_seq().to_set().len(),
    {
        let ghost all = self.inode_seq();
        let mut seen: Vec<u64> = Vec::new();
        let mut i: usize = 0;
        while i < self.files.len()
            invariant
                i <= self.files@.len(),
                all == self.inode_seq(),
                seen@.no_duplicates(),
                seen@.to_set() == all.take(i as int).to_set(),
            decreases self.files@.len() - i,
        {
            let ino = self.files[i].inode.0;
            proof {
                assert(all.take(i + 1) =~= all.take(i as int).push(ino));
                lemma_to_set_push(all.take(i as int), ino);
            }
            if !contains_u64(&seen, ino) {
                proof {
                    lemma_to_set_push(seen@, ino);
                }
                seen.push(ino);
            } else {
                proof {
                    assert(all.take(i as int).to_set().insert(ino) =~= all.take(
                        i as int,
                    ).to_set());
                }
            }
            i = i + 1;
        }
        let nf = self.files.len();
        let mut j: usize = 0;
        while j < self.symlinks.len()
            invariant
                j <= self.symlinks@.len(),
                nf == self.files@.len(),
                all == self.inode_seq(),
                seen@.no_duplicates(),
                seen@.to_set() == all.take(nf + j).to_set(),
            decreases self.symlinks@.len() - j,
        {
            let ino = self.symlinks[j].link.inode.0;
            proof {
                assert(all.take(nf + j + 1) =~= all.take(nf + j).push(ino));
                lemma_to_set_push(all.take(nf + j), ino);
            }
            if !contains_u64(&seen, ino) {
                proof {
                    lemma_to_set_push(seen@, ino);
                }
                seen.push(ino);
            } else {
                proof {
                    assert(all.take(nf + j).to_set().insert(ino) =~= all.take(nf + j).to_set());
                }
            }
            j = j + 1;
        }
        proof {
            assert(all.take(nf + self.symlinks@.len()) =~= all);
            seen@.unique_seq_to_set();
        }
        seen.len()
    }

    /// Index of the regular entry at `p`, if any.
    fn find_file(&self, p: &str) -> (r: Option<usize>)
        ensures
            match r {
                Some(i) => i < self.files@.len() && self.files@[i as int].path@ == p@,
                None => !self.has_file(p@),
            },
    {
        let mut i: usize = 0;
        while i < self.files.len()
            invariant
                i <= self.files@.len(),
                forall|j: int| 0 <= j < i ==> self.files@[j].path@ != p@,
            decreases self.files@.len() - i,
        {
            if str_eq(self.files[i].path.as_str(), p) {
                return Some(i);
            }
            i = i + 1;
        }
        None
    }

    /// Index of the symlink entry at `p`, if any.
    fn find_symlink(&self, p: &str) -> (r: Option<usize>)
        ensures
            match r {
                Some(i) => i < self.symlinks@.len() && self.symlinks@[i as int].link.path@ == p@,
                None => !self.has_symlink(p@),
            },
    {
        let mut i: usize = 0;
        while i < self.symlinks.len()
            invariant
                i <= self.symlinks@.len(),
                forall|j: int| 0 <= j < i ==> self.symlinks@[j].link.path@ != p@,
            decreases self.symlinks@.len() - i,
        {
            if str_eq(self.symlinks[i].link.path.as_str(), p) {
                return Some(i);
            }
            i = i + 1;
        }
        None
    }

    /// Files and symlinks together: the next dense inode number.
    fn get_next_inode(&self) -> (r: Inode)
        requires
            self.wf(),
        ensures
            r == Inode(self.spec_len() as u64),
    {
        Inode((self.files.len() + self.symlinks.len()) as u64)
    }

    /// Stores `tf` under its path, replacing any regular entry already
    /// there.
    pub fn add(&mut self, tf: TestFile)
        requires
            old(self).wf(),
            old(self).spec_len() < usize::MAX,
        ensures
            final(self).wf(),
            final(self).files@ == without_path(old(self).files@, tf.path@).push(tf),
            final(self).symlinks@ == old(self).symlinks@,
            final(self).has_file(tf.path@),
            final(self).file_at(tf.path@) == tf,
            forall|q: Seq<char>|
                q != tf.path@ ==> (#[trigger] final(self).has_file(q) <==> old(self).has_file(q)),
            forall|q: Seq<char>|
                q != tf.path@ && old(self).has_file(q) ==> #[trigger] final(self).file_at(q) == old(
                    self,
                ).file_at(q),
    {
        let ghost oldfiles = self.files@;
        let ghost pred = |f: TestFile| f.path@ != tf.path@;
        let mut out: Vec<TestFile> = Vec::new();
        let mut i: usize = 0;
        while i < self.files.len()
            invariant
                i <= self.files@.len(),
                self.files@ == oldfiles,
                pred == (|f: TestFile| f.path@ != tf.path@),
                out@ == oldfiles.take(i as int).filter(pred),
            decreases self.files@.len() - i,
        {
            proof {
                lemma_filter_take_step(oldfiles, pred, i as int);
            }
            if !str_eq(self.files[i].path.as_str(), tf.path.as_str()) {
                out.push(self.files[i].clone());
            }
            i = i + 1;
        }
        proof {
            assert(oldfiles.take(oldfiles.len() as int) =~= oldfiles);
            lemma_filter_unique(oldfiles, pred);
            oldfiles.lemma_filter_len(pred);
        }
        out.push(tf);
        self.files = out;
        proof {
            let f = oldfiles.filter(pred);
            let n = self.files@;
            assert forall|k: int| 0 <= k < f.len() implies f[k].path@ != tf.path@ by {
                oldfiles.lemma_filter_pred(pred, k);
            }
            assert(unique_paths(n));
            lemma_at_path(n, tf.path@, n.len() - 1);
            assert forall|q: Seq<char>| q != tf.path@ implies (#[trigger] self.has_file(q)
                <==> has_path(oldfiles, q)) by {
                if self.has_file(q) {
                    let k = idx_of(n, q);
                    if k < f.len() {
                        lemma_filter_source(oldfiles, pred, k);
                        let m = choose|m: int|
                            0 <= m < oldfiles.len() && oldfiles[m] == f[k];
                        assert(has_path(oldfiles, q));
                    }
                }
                if has_path(oldfiles, q) {
                    let m = idx_of(oldfiles, q);
                    oldfiles.lemma_filter_contains(pred, m);
                    let k = choose|k: int| 0 <= k < f.len() && f[k] == oldfiles[m];
                    assert(n[k] == oldfiles[m]);
                    assert(self.has_file(q));
                }
            }
            assert forall|q: Seq<char>| q != tf.path@ && has_path(oldfiles, q) implies
                #[trigger] self.file_at(q) == at_path(oldfiles, q) by {
                let m = idx_of(oldfiles, q);
                oldfiles.lemma_filter_contains(pred, m);
                let k = choose|k: int| 0 <= k < f.len() && f[k] == oldfiles[m];
                lemma_at_path(n, q, k);
            }
        }
    }

    /// Creates a fresh entry of the given kind at `path`, with metadata at
    /// the epoch and the next dense inode.
    pub fn create_regular(&mut self, path: &str, kind: FileType)
        requires
            old(self).wf(),
            old(self).spec_len() < usize::MAX,
        ensures
            final(self).wf(),
            final(self).symlinks@ == old(self).symlinks@,
            final(self).has_file(path@),
            ({
                let f = final(self).file_at(path@);
                &&& f.path@ == path@
                &&& f.contents is None
                &&& f.kind == kind
                &&& f.inode == Inode(old(self).spec_len() as u64)
                &&& f.metadata == Some(
                    TestMD {
                        len: 0,
                        creation: 0,
                        kind: kind,
                        id: ID { dev: 0, inode: old(self).spec_len() as u64 },
                    },
                )
            }),
            final(self).files@ == without_path(old(self).files@, path@).push(final(self).file_at(path@)),
            forall|q: Seq<char>|
                q != path@ ==> (#[trigger] final(self).has_file(q) <==> old(self).has_file(q)),
            forall|q: Seq<char>|
                q != path@ && old(self).has_file(q) ==> #[trigger] final(self).file_at(q) == old(
                    self,
                ).file_at(q),
    {
        let inode = self.get_next_inode();
        let md = TestMD {
            len: 0,
            creation: 0,
            kind,
            id: ID { dev: 0, inode: inode.0 },
        };
        let tf = TestFile {
            path: path.to_owned(),
            contents: None,
            kind,
            inode,
            metadata: Some(md),
        };
        self.add(tf);
    }

    /// Creates a regular file at `path`, as `touch` would: empty, with
    /// the next dense inode and metadata at the epoch on device 0.
    pub fn create_file(&mut self, path: &str)
        requires
            old(self).wf(),
            old(self).spec_len() < usize::MAX,
        ensures
            final(self).wf(),
            final(self).symlinks@ == old(self).symlinks@,
            final(self).has_file(path@),
            ({
                let f = final(self).file_at(path@);
                &&& f.path@ == path@
                &&& f.contents is None
                &&& f.kind == FileType::File
                &&& f.inode == Inode(old(self).spec_len() as u64)
                &&& f.metadata == Some(
                    TestMD {
                        len: 0,
                        creation: 0,
                        kind: FileType::File,
                        id: ID { dev: 0, inode: old(self).spec_len() as u64 },
                    },
                )
            }),
            final(self).files@ == without_path(old(self).files@, path@).push(final(self).file_at(path@)),
            forall|q: Seq<char>|
                q != path@ ==> (#[trigger] final(self).has_file(q) <==> old(self).has_file(q)),
            forall|q: Seq<char>|
                q != path@ && old(self).has_file(q) ==> #[trigger] final(self).file_at(q) == old(
                    self,
                ).file_at(q),
    {
        self.create_regular(path, FileType::File);
    }

    /// Creates a directory at `path`, as `mkdir` would: empty, with the
    /// next dense inode and metadata at the epoch on device 0.
    pub fn create_dir(&mut self, path: &str)
        requires
            old(self).wf(),
            old(self).spec_len() < usize::MAX,
        ensures
            final(self).wf(),
            final(self).symlinks@ == old(self).symlinks@,
            final(self).has_file(path@),
            ({
                let f = final(self).file_at(path@);
                &&& f.path@ == path@
                &&& f.contents is None
                &&& f.kind == FileType::Dir
                &&& f.inode == Inode(old(self).spec_len() as u64)
                &&& f.metadata == Some(
                    TestMD {
                        len: 0,
                        creation: 0,
                        kind: FileType::Dir,
                        id: ID { dev: 0, inode: old(self).spec_len() as u64 },
                    },
                )
            }),
            final(self).files@ == without_path(old(self).files@, path@).push(final(self).file_at(path@)),
            forall|q: Seq<char>|
                q != path@ ==> (#[trigger] final(self).has_file(q) <==> old(self).has_file(q)),
            forall|q: Seq<char>|
                q != path@ && old(self).has_file(q) ==> #[trigger] final(self).file_at(q) == old(
                    self,
                ).file_at(q),
    {
        self.create_regular(path, FileType::Dir);
    }

    /// Creates a symlink at `path` pointing at `target`, as `ln -s` would.
    pub fn create_symlink(&mut self, path: &str, target: &str)
        requires
            old(self).wf(),
            old(self).spec_len() < usize::MAX,
        ensures
            final(self).wf(),
            final(self).files@ == old(self).files@,
            final(self).has_symlink(path@),
            final(self).sym_target(path@) == target@,
            ({
                let l = sym_at(final(self).symlinks@, path@).link;
                &&& l.path@ == path@
                &&& l.contents is None
                &&& l.kind == FileType::Symlink
                &&& l.inode == Inode(old(self).spec_len() as u64)
                &&& l.metadata is None
            }),
            final(self).symlinks@ == sym_without(old(self).symlinks@, path@).push(
                sym_at(final(self).symlinks@, path@),
            ),
            forall|q: Seq<char>|
                q != path@ ==> (#[trigger] final(self).has_symlink(q) <==> old(self).has_symlink(q)),
            forall|q: Seq<char>|
                q != path@ && old(self).has_symlink(q) ==> #[trigger] sym_at(final(self).symlinks@, q)
                    == sym_at(old(self).symlinks@, q),
    {
        let inode = self.get_next_inode();
        let tf = TestFile {
            path: path.to_owned(),
            contents: None,
            kind: FileType::Symlink,
            inode,
            metadata: None,
        };
        let entry = SymEntry { link: tf, target: target.to_owned() };
        let ghost oldsyms = self.symlinks@;
        let ghost pred = |e: SymEntry| e.link.path@ != path@;
        let mut out: Vec<SymEntry> = Vec::new();
        let mut i: usize = 0;
        while i < self.symlinks.len()
            invariant
                i <= self.symlinks@.len(),
                self.symlinks@ == oldsyms,
                pred == (|e: SymEntry| e.link.path@ != path@),
                out@ == oldsyms.take(i as int).filter(pred),
            decreases self.symlinks@.len() - i,
        {
            proof {
                lemma_filter_take_step(oldsyms, pred, i as int);
            }
            if !str_eq(self.symlinks[i].link.path.as_str(), path) {
                out.push(self.symlinks[i].clone());
            }
            i = i + 1;
        }
        proof {
            assert(oldsyms.take(oldsyms.len() as int) =~= oldsyms);
            lemma_sym_filter_unique(oldsyms, pred);
            oldsyms.lemma_filter_len(pred);
        }
        out.push(entry);
        self.symlinks = out;
        proof {
            let f = oldsyms.filter(pred);
            let n = self.symlinks@;
            assert forall|k: int| 0 <= k < f.len() implies f[k].link.path@ != path@ by {
                oldsyms.lemma_filter_pred(pred, k);
            }
            assert(sym_unique(n));
            lemma_sym_at(n, path@, n.len() - 1);
            assert forall|q: Seq<char>| q != path@ implies (#[trigger] self.has_symlink(q)
                <==> sym_has(oldsyms, q)) by {
                if self.has_symlink(q) {
                    let k = sym_idx(n, q);
                    if k < f.len() {
                        lemma_sym_filter_source(oldsyms, pred, k);
                        let m = choose|m: int| 0 <= m < oldsyms.len() && oldsyms[m] == f[k];
                        assert(sym_has(oldsyms, q));
                    }
                }
                if sym_has(oldsyms, q) {
                    let m = sym_idx(oldsyms, q);
                    oldsyms.lemma_filter_contains(pred, m);
                    let k = choose|k: int| 0 <= k < f.len() && f[k] == oldsyms[m];
                    assert(n[k] == oldsyms[m]);
                    assert(self.has_symlink(q));
                }
            }
            assert forall|q: Seq<char>| q != path@ && sym_has(oldsyms, q) implies
                #[trigger] sym_at(self.symlinks@, q) == sym_at(oldsyms, q) by {
                let m = sym_idx(oldsyms, q);
                oldsyms.lemma_filter_contains(pred, m);
                let k = choose|k: int| 0 <= k < f.len() && f[k] == oldsyms[m];
                lemma_sym_at(n, q, k);
            }
        }
    }
}

/// A path `c` lists under `p` when `p` is its parent; entries with no
/// parent at all (such as the root) list everywhere.
pub open spec fn is_child(c: Seq<char>, p: Seq<char>) -> bool {
    spec_parent(c) == Some(p) || spec_parent(c) is None
}

/// A hardlink to `k` under `f`'s name: everything but the path is `k`'s.
pub open spec fn hardlink_of(f: TestFile, k: TestFile) -> TestFile {
    TestFile { path: f.path, ..k }
}

/// Whether one of the strings in `ps` reads `q`.
pub open spec fn path_in(ps: Seq<String>, q: Seq<char>) -> bool {
    exists|j: int| 0 <= j < ps.len() && ps[j]@ == q
}

/// Every entry of `s` whose path is in `ps`, the keeper aside, replaced by
/// a hardlink to `k`; everything else untouched.
pub open spec fn link_all(s: Seq<TestFile>, ps: Seq<String>, keep: Seq<char>, k: TestFile) -> Seq<
    TestFile,
> {
    Seq::new(
        s.len(),
        |i: int| if path_in(ps, s[i].path@) && s[i].path@ != keep {
            hardlink_of(s[i], k)
        } else {
            s[i]
        },
    )
}

impl TestFileSystem {
    /// Whether the symlink chain starting at `p` reaches a non-symlink
    /// path within `fuel` hops. With fuel for every symlink of the
    /// filesystem, a chain that still has not ended must have revisited
    /// one, so it never will.
    pub open spec fn chain_ends(self, p: Seq<char>, fuel: nat) -> bool
        decreases fuel,
    {
        if !self.has_symlink(p) {
            true
        } else if fuel == 0 {
            false
        } else {
            self.chain_ends(self.sym_target(p), (fuel - 1) as nat)
        }
    }

    /// Resolves `path` to its regular entry. Only a direct regular entry
    /// resolves; otherwise the symlink chain is walked: a chain that ends
    /// elsewhere is a dead end (`NotFound`), one that never ends is a
    /// cycle (`Loop`).
    pub fn lookup(&self, path: &str) -> (r: Result<&TestFile, IoErr>)
        requires
            self.wf(),
        ensures
            match r {
                Ok(f) => self.has_file(path@) && *f == self.file_at(path@),
                Err(e) => {
                    &&& !self.has_file(path@)
                    &&& e == (if self.chain_ends(path@, self.symlinks@.len()) {
                        IoErr::NotFound
                    } else {
                        IoErr::Loop
                    })
                },
            },
    {
        match self.find_file(path) {
            Some(i) => {
                proof {
                    lemma_at_path(self.files@, path@, i as int);
                }
                Ok(&self.files[i])
            },
            None => {
                // Walk the chain; after more steps than there are symlinks
                // the chain must have revisited one, so it never ends.
                let n = self.symlinks.len();
                let mut cur: String = path.to_owned();
                let mut steps: usize = 0;
                loop
                    invariant
                        n == self.symlinks@.len(),
                        steps <= n,
                        !self.has_file(path@),
                        self.wf(),
                        self.chain_ends(path@, n as nat) == self.chain_ends(
                            cur@,
                            (n - steps) as nat,
                        ),
                    decreases n - steps,
                {
                    match self.find_symlink(cur.as_str()) {
                        Some(j) => {
                            proof {
                                lemma_sym_at(self.symlinks@, cur@, j as int);
                            }
                            cur = self.symlinks[j].target.clone();
                        },
                        None => {
                            return Err(IoErr::NotFound);
                        },
                    }
                    if steps == n {
                        return Err(IoErr::Loop);
                    }
                    steps = steps + 1;
                }
            },
        }
    }

    /// A copy of the regular entry at `p`, or `NotFound`.
    pub fn get_file(&self, p: &str) -> (r: Result<TestFile, IoErr>)
        requires
            self.wf(),
        ensures
            match r {
                Ok(f) => self.has_file(p@) && f == self.file_at(p@),
                Err(e) => !self.has_file(p@) && e == IoErr::NotFound,
            },
    {
        match self.find_file(p) {
            Some(i) => {
                proof {
                    lemma_at_path(self.files@, p@, i as int);
                }
                Ok(self.files[i].clone())
            },
            None => Err(IoErr::NotFound),
        }
    }

    /// The metadata of `p`: a direct entry answers itself; a symlink
    /// answers for its target's direct regular entry, one hop away.
    pub fn get_metadata(&self, p: &str) -> (r: Result<TestMD, IoErr>)
        requires
            self.wf(),
        ensures
            self.has_file(p@) ==> match self.file_at(p@).metadata {
                Some(md) => r == Ok::<TestMD, IoErr>(md),
                None => r == Err::<TestMD, IoErr>(IoErr::NoMetadata),
            },
            !self.has_file(p@) && self.has_symlink(p@) && self.has_file(self.sym_target(p@))
                ==> match self.file_at(self.sym_target(p@)).metadata {
                Some(md) => r == Ok::<TestMD, IoErr>(md),
                None => r == Err::<TestMD, IoErr>(IoErr::NoMetadata),
            },
            !self.has_file(p@) && self.has_symlink(p@) && !self.has_file(self.sym_target(p@))
                ==> r == Err::<TestMD, IoErr>(
                if self.chain_ends(self.sym_target(p@), self.symlinks@.len()) {
                    IoErr::NotFound
                } else {
                    IoErr::Loop
                },
            ),
            !self.has_file(p@) && !self.has_symlink(p@) ==> r == Err::<TestMD, IoErr>(
                IoErr::NotFound,
            ),
    {
        match self.find_file(p) {
            Some(i) => {
                proof {
                    lemma_at_path(self.files@, p@, i as int);
                }
                self.files[i].get_metadata()
            },
            None => match self.find_symlink(p) {
                Some(j) => {
                    proof {
                        lemma_sym_at(self.symlinks@, p@, j as int);
                    }
                    let target = self.symlinks[j].target.clone();
                    match self.lookup(target.as_str()) {
                        Ok(f) => f.get_metadata(),
                        Err(e) => Err(e),
                    }
                },
                None => Err(IoErr::NotFound),
            },
        }
    }

    /// The metadata of `p` without following symlinks: a symlink answers
    /// for its own record.
    pub fn get_symlink_metadata(&self, p: &str) -> (r: Result<TestMD, IoErr>)
        requires
            self.wf(),
        ensures
            self.has_file(p@) ==> match self.file_at(p@).metadata {
                Some(md) => r == Ok::<TestMD, IoErr>(md),
                None => r == Err::<TestMD, IoErr>(IoErr::NoMetadata),
            },
            !self.has_file(p@) && self.has_symlink(p@) ==> match sym_at(
                self.symlinks@,
                p@,
            ).link.metadata {
                Some(md) => r == Ok::<TestMD, IoErr>(md),
                None => r == Err::<TestMD, IoErr>(IoErr::NoMetadata),
            },
            !self.has_file(p@) && !self.has_symlink(p@) ==> r == Err::<TestMD, IoErr>(
                IoErr::NotFound,
            ),
    {
        match self.find_file(p) {
            Some(i) => {
                proof {
                    lemma_at_path(self.files@, p@, i as int);
                }
                self.files[i].get_metadata()
            },
            None => match self.find_symlink(p) {
                Some(j) => {
                    proof {
                        lemma_sym_at(self.symlinks@, p@, j as int);
                    }
                    self.symlinks[j].link.get_metadata()
                },
                None => Err(IoErr::NotFound),
            },
        }
    }

    /// The target of the symlink at `p`, or `NotFound`.
    pub fn read_link(&self, p: &str) -> (r: Result<String, IoErr>)
        requires
            self.wf(),
        ensures
            match r {
                Ok(t) => self.has_symlink(p@) && t@ == self.sym_target(p@),
                Err(e) => !self.has_symlink(p@) && e == IoErr::NotFound,
            },
    {
        match self.find_symlink(p) {
            Some(j) => {
                proof {
                    lemma_sym_at(self.symlinks@, p@, j as int);
                }
                Ok(self.symlinks[j].target.clone())
            },
            None => Err(IoErr::NotFound),
        }
    }

    /// Everything that lists under the directory `p`: regular entries whose
    /// parent is `p` (or that have no parent), then symlinks whose parent
    /// is `p`.
    pub open spec fn children_of(self, p: Seq<char>) -> Seq<TestFile> {
        self.files@.filter(|f: TestFile| is_child(f.path@, p)) + self.symlinks@.map(
            |i: int, e: SymEntry| e.link,
        ).filter(|f: TestFile| spec_parent(f.path@) == Some(p))
    }

    /// Some entry (regular or symlink) lists under the directory `d`
    /// with path `p`.
    pub open spec fn listed_under(self, d: Seq<char>, p: Seq<char>) -> bool {
        ||| self.has_file(p) && is_child(p, d)
        ||| self.has_symlink(p) && spec_parent(p) == Some(d)
    }

    /// Lists the entries under the directory `p`.
    pub fn list_dir(&self, p: &str) -> (r: Result<Vec<TestFile>, IoErr>)
        requires
            self.wf(),
        ensures
            r matches Ok(v) && v@ == self.children_of(p@),
    {
        let ghost fpred = |f: TestFile| is_child(f.path@, p@);
        let ghost spred = |f: TestFile| spec_parent(f.path@) == Some(p@);
        let ghost links = self.symlinks@.map(|i: int, e: SymEntry| e.link);
        let mut out: Vec<TestFile> = Vec::new();
        let mut i: usize = 0;
        while i < self.files.len()
            invariant
                i <= self.files@.len(),
                fpred == (|f: TestFile| is_child(f.path@, p@)),
                out@ == self.files@.take(i as int).filter(fpred),
            decreases self.files@.len() - i,
        {
            proof {
                lemma_filter_take_step(self.files@, fpred, i as int);
            }
            let child = match parent_of(self.files[i].path.as_str()) {
                Some(q) => str_eq(q.as_str(), p),
                None => true,
            };
            if child {
                out.push(self.files[i].clone());
            }
            i = i + 1;
        }
        proof {
            assert(self.files@.take(self.files@.len() as int) =~= self.files@);
        }
        let mut j: usize = 0;
        while j < self.symlinks.len()
            invariant
                j <= self.symlinks@.len(),
                fpred == (|f: TestFile| is_child(f.path@, p@)),
                spred == (|f: TestFile| spec_parent(f.path@) == Some(p@)),
                links == self.symlinks@.map(|i: int, e: SymEntry| e.link),
                out@ == self.files@.filter(fpred) + links.take(j as int).filter(spred),
            decreases self.symlinks@.len() - j,
        {
            proof {
                lemma_filter_take_step(links, spred, j as int);
                assert(links[j as int] == self.symlinks@[j as int].link);
            }
            let child = match parent_of(self.symlinks[j].link.path.as_str()) {
                Some(q) => str_eq(q.as_str(), p),
                None => false,
            };
            if child {
                out.push(self.symlinks[j].link.clone());
            }
            j = j + 1;
        }
        proof {
            assert(links.take(links.len() as int) =~= links);
        }
        Ok(out)
    }

    /// Removes the regular entry at `p`; symlinks and anything else stay.
    pub fn remove_file(&mut self, p: &str)
        requires
            old(self).wf(),
        ensures
            final(self).wf(),
            final(self).files@ == without_path(old(self).files@, p@),
            final(self).symlinks@ == old(self).symlinks@,
    {
        let ghost oldfiles = self.files@;
        let ghost pred = |f: TestFile| f.path@ != p@;
        let mut out: Vec<TestFile> = Vec::new();
        let mut i: usize = 0;
        while i < self.files.len()
            invariant
                i <= self.files@.len(),
                self.files@ == oldfiles,
                pred == (|f: TestFile| f.path@ != p@),
                out@ == oldfiles.take(i as int).filter(pred),
            decreases self.files@.len() - i,
        {
            proof {
                lemma_filter_take_step(oldfiles, pred, i as int);
            }
            if !str_eq(self.files[i].path.as_str(), p) {
                out.push(self.files[i].clone());
            }
            i = i + 1;
        }
        proof {
            assert(oldfiles.take(oldfiles.len() as int) =~= oldfiles);
            lemma_filter_unique(oldfiles, pred);
            oldfiles.lemma_filter_len(pred);
        }
        self.files = out;
    }

    /// Replaces, among the entries named in `paths`, every one but the
    /// keeper with a hardlink to `keeper`.
    pub fn relink_all(&mut self, paths: &Vec<String>, keep: &str, keeper: &TestFile)
        requires
            old(self).wf(),
        ensures
            final(self).wf(),
            final(self).files@ == link_all(old(self).files@, paths@, keep@, *keeper),
            final(self).symlinks@ == old(self).symlinks@,
    {
        let ghost oldfiles = self.files@;
        let ghost la = link_all(oldfiles, paths@, keep@, *keeper);
        let mut out: Vec<TestFile> = Vec::new();
        let mut i: usize = 0;
        while i < self.files.len()
            invariant
                i <= self.files@.len(),
                self.files@ == oldfiles,
                la == link_all(oldfiles, paths@, keep@, *keeper),
                out@ == la.take(i as int),
            decreases self.files@.len() - i,
        {
            let hit = contains_string(paths, self.files[i].path.as_str()) && !str_eq(
                self.files[i].path.as_str(),
                keep,
            );
            if hit {
                let nf = TestFile {
                    path: self.files[i].path.clone(),
                    contents: match &keeper.contents {
                        Some(c) => Some(c.clone()),
                        None => None,
                    },
                    kind: keeper.kind,
                    inode: keeper.inode,
                    metadata: keeper.metadata,
                };
                proof {
                    assert(nf == hardlink_of(oldfiles[i as int], *keeper));
                }
                out.push(nf);
            } else {
                out.push(self.files[i].clone());
            }
            proof {
                assert(la.take(i + 1) =~= la.take(i as int).push(la[i as int]));
            }
            i = i + 1;
        }
        proof {
            assert(la.take(la.len() as int) =~= la);
            assert forall|a: int, b: int| 0 <= a < b < la.len() implies la[a].path@
                != la[b].path@ by {
                assert(la[a].path == oldfiles[a].path);
                assert(la[b].path == oldfiles[b].path);
            }
        }
        self.files = out;
    }
}

/// Returns whether `v` holds the value `x`.
fn contains_u64(v: &Vec<u64>, x: u64) -> (r: bool)
    ensures
        r == v@.contains(x),
{
    let mut i: usize = 0;
    while i < v.len()
        invariant
            i <= v@.len(),
            forall|j: int| 0 <= j < i ==> v@[j] != x,
        decreases v@.len() - i,
    {
        if v[i] == x {
            return true;
        }
        i = i + 1;
    }
    false
}


/// Whatever lists under a directory appears in that directory's listing.
pub proof fn lemma_children_of_member(fs: TestFileSystem, d: Seq<char>, p: Seq<char>)
    requires
        fs.wf(),
        fs.listed_under(d, p),
    ensures
        exists|k: int|
            0 <= k < fs.children_of(d).len() && (#[trigger] fs.children_of(d)[k]).path@ == p,
{
    broadcast use vstd::seq_lib::group_filter_ensures;

    let left = fs.files@.filter(|f: TestFile| is_child(f.path@, d));
    let links = fs.symlinks@.map(|i: int, e: SymEntry| e.link);
    let right = links.filter(|f: TestFile| spec_parent(f.path@) == Some(d));
    if fs.has_file(p) && is_child(p, d) {
        let i = idx_of(fs.files@, p);
        assert(is_child(fs.files@[i].path@, d));
        assert(left.contains(fs.files@[i]));
        let k = choose|k: int| 0 <= k < left.len() && left[k] == fs.files@[i];
        assert(fs.children_of(d)[k] == left[k]);
    } else {
        let i = sym_idx(fs.symlinks@, p);
        assert(links[i] == fs.symlinks@[i].link);
        assert(spec_parent(links[i].path@) == Some(d));
        assert(right.contains(links[i]));
        let k = choose|k: int| 0 <= k < right.len() && right[k] == links[i];
        assert(fs.children_of(d)[left.len() + k] == right[k]);
    }
}

} // verus!
