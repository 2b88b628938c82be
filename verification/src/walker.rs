//! Directory traversal: from a set of roots, yields every regular file
//! once, following symlinks to their targets, skipping broken links and
//! link cycles, and pruning blacklisted folders and file names. The
//! traversal is complete: whatever a chain of listed directories reaches
//! from a root, and neither blacklist excludes, is in the result.

use vstd::prelude::*;

use crate::IoErr;
use crate::vfs::{TestFileSystem, TestFile};
use crate::FileType;
use crate::paths::{
    spec_starts_with, starts_with, spec_file_name, file_name_of, contains_string,
};
use crate::seqs::lemma_to_set_len_le;

verus! {

/// Whether a pattern is a regular expression the engine accepts; a
/// function of the pattern text alone.
pub uninterp spec fn regex_valid(pat: Seq<char>) -> bool;

/// Whether a valid regular expression matches a text; a function of the
/// pattern and the text alone.
pub uninterp spec fn re_is_match(pat: Seq<char>, text: Seq<char>) -> bool;

/// Relies on `regex::Regex::new`: whether a pattern compiles is a
/// function of the pattern alone.
#[verifier::external_body]
fn regex_compiles(pat: &str) -> (r: bool)
    ensures
        r == regex_valid(pat@),
{
    regex::Regex::new(pat).is_ok()
}

/// Relies on `regex::Regex::new` and `regex::Regex::is_match`: whether a
/// valid pattern matches a text is a function of the pattern and the text
/// alone. The pattern is compiled on each call; the requires keeps the
/// failing arm unreachable.
#[verifier::external_body]
fn regex_match(pat: &str, text: &str) -> (r: bool)
    requires
        regex_valid(pat@),
    ensures
        r == re_is_match(pat@, text@),
{
    match regex::Regex::new(pat) {
        Ok(re) => re.is_match(text),
        Err(_) => false,
    }
}

/// Some string of `v` reads `p`.
pub open spec fn in_paths(v: Seq<String>, p: Seq<char>) -> bool {
    exists|i: int| 0 <= i < v.len() && (#[trigger] v[i])@ == p
}

/// Walks a filesystem from a set of roots.
pub struct DirWalker {
    pub roots: Vec<String>,
    pub bad_paths: Vec<String>,
    pub bad_patterns: Vec<String>,
}

impl DirWalker {
    /// Every blacklist pattern is a valid regular expression.
    pub open spec fn wf(self) -> bool {
        forall|i: int|
            0 <= i < self.bad_patterns@.len() ==> regex_valid((#[trigger] self.bad_patterns@[i])@)
    }

    /// A path under a blacklisted folder prefix is pruned.
    pub open spec fn folder_banned(self, p: Seq<char>) -> bool {
        exists|i: int|
            0 <= i < self.bad_paths@.len() && spec_starts_with(p, (#[trigger] self.bad_paths@[i])@)
    }

    /// A file whose name matches a blacklisted pattern is skipped.
    pub open spec fn name_banned(self, p: Seq<char>) -> bool {
        exists|i: int|
            0 <= i < self.bad_patterns@.len() && re_is_match(
                (#[trigger] self.bad_patterns@[i])@,
                spec_file_name(p),
            )
    }

    /// A root that names a regular file the walk may not miss: it exists,
    /// and neither blacklist excludes it.
    pub open spec fn root_file(self, fs: TestFileSystem, ri: int) -> bool {
        &&& 0 <= ri < self.roots@.len()
        &&& fs.has_file(self.roots@[ri]@)
        &&& fs.file_at(self.roots@[ri]@).kind == FileType::File
        &&& !self.folder_banned(self.roots@[ri]@)
        &&& !self.name_banned(self.roots@[ri]@)
    }

    /// `p` is one of the starting paths.
    pub open spec fn is_root(self, p: Seq<char>) -> bool {
        exists|ri: int| 0 <= ri < self.roots@.len() && (#[trigger] self.roots@[ri])@ == p
    }

    /// `d` is a directory the traversal descends into, and `p` lists
    /// under it.
    pub open spec fn lists_reachably(self, fs: TestFileSystem, d: Seq<char>, p: Seq<char>) -> bool {
        &&& !self.folder_banned(d)
        &&& fs.has_file(d)
        &&& fs.file_at(d).kind == FileType::Dir
        &&& fs.listed_under(d, p)
    }

    /// `chain` is a descent the traversal makes to `p`: its first
    /// directory is a root, every directory lists the next one, none is
    /// pruned, and the last one lists `p`. An empty chain means `p` is a
    /// root itself.
    pub open spec fn dir_chain(
        self,
        fs: TestFileSystem,
        chain: Seq<Seq<char>>,
        p: Seq<char>,
    ) -> bool
        decreases chain.len(),
    {
        if chain.len() == 0 {
            self.is_root(p)
        } else {
            self.lists_reachably(fs, chain.last(), p) && self.dir_chain(
                fs,
                chain.drop_last(),
                chain.last(),
            )
        }
    }

    /// The walk owes nothing more for `p`: it names no regular entry, or
    /// its entry has been dealt with as its kind demands — files are
    /// found unless their name is banned, directories are visited,
    /// symlink records need nothing.
    pub open spec fn settled(
        self,
        fs: TestFileSystem,
        visited: Seq<String>,
        found: Seq<String>,
        p: Seq<char>,
    ) -> bool {
        ||| !fs.has_file(p)
        ||| (fs.file_at(p).kind == FileType::File && (self.name_banned(p) || in_paths(found, p)))
        ||| (fs.file_at(p).kind == FileType::Dir && in_paths(visited, p))
        ||| fs.file_at(p).kind == FileType::Symlink
    }

    /// `p` is settled, or still waiting on the worklist.
    pub open spec fn pending_or_settled(
        self,
        fs: TestFileSystem,
        visited: Seq<String>,
        found: Seq<String>,
        work: Seq<String>,
        p: Seq<char>,
    ) -> bool {
        in_paths(work, p) || self.settled(fs, visited, found, p)
    }

    /// A walker over the given starting paths, with nothing blacklisted.
    pub fn new(roots: Vec<String>) -> (r: Self)
        ensures
            r.wf(),
            r.roots == roots,
            r.bad_paths@ == Seq::<String>::empty(),
            r.bad_patterns@ == Seq::<String>::empty(),
    {
        DirWalker { roots, bad_paths: Vec::new(), bad_patterns: Vec::new() }
    }

    /// Excludes every path under one of the given prefixes.
    pub fn blacklist_folders(self, dirs: Vec<String>) -> (r: Self)
        ensures
            r.roots == self.roots,
            r.bad_paths == dirs,
            r.bad_patterns == self.bad_patterns,
            self.wf() ==> r.wf(),
    {
        DirWalker { bad_paths: dirs, ..self }
    }

    /// Excludes every file whose name matches one of the given patterns.
    /// A malformed pattern rejects the whole blacklist: a startup error.
    pub fn blacklist_patterns(self, pats: Vec<String>) -> (r: Result<Self, IoErr>)
        ensures
            match r {
                Ok(w) => {
                    &&& w.roots == self.roots
                    &&& w.bad_paths == self.bad_paths
                    &&& w.bad_patterns == pats
                    &&& forall|i: int| 0 <= i < pats@.len() ==> regex_valid((#[trigger] pats@[i])@)
                    &&& w.wf()
                },
                Err(e) => {
                    &&& e == IoErr::BadPattern
                    &&& exists|i: int|
                        0 <= i < pats@.len() && !regex_valid((#[trigger] pats@[i])@)
                },
            },
    {
        let mut i: usize = 0;
        while i < pats.len()
            invariant
                i <= pats@.len(),
                forall|j: int| 0 <= j < i ==> regex_valid((#[trigger] pats@[j])@),
            decreases pats@.len() - i,
        {
            if !regex_compiles(pats[i].as_str()) {
                return Err(IoErr::BadPattern);
            }
            i = i + 1;
        }
        Ok(DirWalker { bad_patterns: pats, ..self })
    }

    /// Whether `p` lies under a blacklisted folder.
    fn is_folder_banned(&self, p: &str) -> (r: bool)
        ensures
            r == self.folder_banned(p@),
    {
        let mut i: usize = 0;
        while i < self.bad_paths.len()
            invariant
                i <= self.bad_paths@.len(),
                forall|j: int|
                    0 <= j < i ==> !spec_starts_with(p@, (#[trigger] self.bad_paths@[j])@),
            decreases self.bad_paths@.len() - i,
        {
            if starts_with(p, self.bad_paths[i].as_str()) {
                return true;
            }
            i = i + 1;
        }
        false
    }

    /// Whether `p`'s file name matches a blacklisted pattern.
    fn is_name_banned(&self, p: &str) -> (r: bool)
        requires
            self.wf(),
        ensures
            r == self.name_banned(p@),
    {
        let name = file_name_of(p);
        let mut i: usize = 0;
        while i < self.bad_patterns.len()
            invariant
                i <= self.bad_patterns@.len(),
                self.wf(),
                name@ == spec_file_name(p@),
                forall|j: int|
                    0 <= j < i ==> !re_is_match(
                        (#[trigger] self.bad_patterns@[j])@,
                        spec_file_name(p@),
                    ),
            decreases self.bad_patterns@.len() - i,
        {
            if regex_match(self.bad_patterns[i].as_str(), name.as_str()) {
                return true;
            }
            i = i + 1;
        }
        false
    }

    /// Follows the symlink chain from `p` to a regular entry, if one is
    /// reached before the chain ends or cycles.
    fn resolve_entry(&self, fs: &TestFileSystem, p: &str) -> (r: Option<String>)
        requires
            fs.wf(),
        ensures
            match r {
                Some(q) => fs.has_file(q@),
                None => true,
            },
            fs.has_file(p@) ==> (r matches Some(q) && q@ == p@),
    {
        let n = fs.symlinks.len();
        let mut cur: String = p.to_owned();
        let mut steps: usize = 0;
        loop
            invariant
                n == fs.symlinks@.len(),
                steps <= n,
                fs.wf(),
                fs.has_file(p@) ==> cur@ == p@,
            decreases n - steps,
        {
            let is_file = match fs.get_file(cur.as_str()) {
                Ok(_) => true,
                Err(_) => false,
            };
            if is_file {
                return Some(cur);
            }
            match fs.read_link(cur.as_str()) {
                Ok(t) => {
                    cur = t;
                },
                Err(_) => {
                    return None;
                },
            }
            if steps == n {
                return None;
            }
            steps = steps + 1;
        }
    }

    /// Walks everything reachable from the roots and returns every
    /// regular file once: no path twice, every path a regular file of the
    /// filesystem, nothing blacklisted by folder or by name. A root that
    /// itself names an existing, unbanned regular file is never missed.
    pub fn traverse_all(&self, fs: &TestFileSystem) -> (r: Vec<String>)
        requires
            self.wf(),
            fs.wf(),
        ensures
            forall|a: int, b: int| 0 <= a < b < r@.len() ==> (#[trigger] r@[a])@ != (
            #[trigger] r@[b])@,
            forall|i: int|
                0 <= i < r@.len() ==> fs.has_file((#[trigger] r@[i])@) && fs.file_at(
                    r@[i]@,
                ).kind == FileType::File,
            forall|i: int|
                0 <= i < r@.len() ==> !self.folder_banned((#[trigger] r@[i])@)
                    && !self.name_banned(r@[i]@),
            // completeness: whatever some descent from a root reaches,
            // and neither blacklist excludes, is in the result
            forall|p: Seq<char>, chain: Seq<Seq<char>>|
                #[trigger] self.dir_chain(*fs, chain, p) && !self.folder_banned(p)
                    && fs.has_file(p) && fs.file_at(p).kind == FileType::File
                    && !self.name_banned(p) ==> in_paths(r@, p),
            forall|ri: int|
                #[trigger] self.root_file(*fs, ri) ==> exists|f: int|
                    0 <= f < r@.len() && (#[trigger] r@[f])@ == self.roots@[ri]@,
    {
        let mut found: Vec<String> = Vec::new();
        let mut visited: Vec<String> = Vec::new();
        let mut work: Vec<String> = Vec::new();
        let mut i: usize = 0;
        while i < self.roots.len()
            invariant
                i <= self.roots@.len(),
                work@.len() == i,
                forall|j: int| 0 <= j < i ==> (#[trigger] work@[j])@ == self.roots@[j]@,
            decreases self.roots@.len() - i,
        {
            work.push(self.roots[i].clone());
            i = i + 1;
        }
        proof {
            assert forall|ri: int|
                0 <= ri < self.roots@.len() && !self.folder_banned(
                    (#[trigger] self.roots@[ri])@,
                ) implies self.pending_or_settled(
                *fs,
                visited@,
                found@,
                work@,
                self.roots@[ri]@,
            ) by {
                assert(work@[ri]@ == self.roots@[ri]@);
                assert(in_paths(work@, self.roots@[ri]@));
            }
        }
        loop
            invariant
                self.wf(),
                fs.wf(),
                // visited holds distinct directories of the filesystem
                forall|a: int, b: int|
                    0 <= a < b < visited@.len() ==> (#[trigger] visited@[a])@ != (
                    #[trigger] visited@[b])@,
                forall|v: int|
                    0 <= v < visited@.len() ==> fs.has_file((#[trigger] visited@[v])@)
                        && fs.file_at(visited@[v]@).kind == FileType::Dir,
                visited@.len() <= fs.files@.len(),
                // found holds distinct, existing, unbanned regular files
                forall|a: int, b: int|
                    0 <= a < b < found@.len() ==> (#[trigger] found@[a])@ != (
                    #[trigger] found@[b])@,
                forall|v: int|
                    0 <= v < found@.len() ==> fs.has_file((#[trigger] found@[v])@) && fs.file_at(
                        found@[v]@,
                    ).kind == FileType::File,
                forall|v: int|
                    0 <= v < found@.len() ==> !self.folder_banned((#[trigger] found@[v])@)
                        && !self.name_banned(found@[v]@),
                // every unpruned root is settled or pending
                forall|ri: int|
                    0 <= ri < self.roots@.len() && !self.folder_banned(
                        (#[trigger] self.roots@[ri])@,
                    ) ==> self.pending_or_settled(*fs, visited@, found@, work@, self.roots@[ri]@),
                // everything unpruned under a visited directory is
                // settled or pending
                forall|v: int, c: Seq<char>|
                    0 <= v < visited@.len() && #[trigger] fs.listed_under(visited@[v]@, c)
                        && !self.folder_banned(c) ==> self.pending_or_settled(
                        *fs,
                        visited@,
                        found@,
                        work@,
                        c,
                    ),
            ensures
                forall|a: int, b: int|
                    0 <= a < b < found@.len() ==> (#[trigger] found@[a])@ != (
                    #[trigger] found@[b])@,
                forall|v: int|
                    0 <= v < found@.len() ==> fs.has_file((#[trigger] found@[v])@) && fs.file_at(
                        found@[v]@,
                    ).kind == FileType::File,
                forall|v: int|
                    0 <= v < found@.len() ==> !self.folder_banned((#[trigger] found@[v])@)
                        && !self.name_banned(found@[v]@),
                forall|ri: int|
                    0 <= ri < self.roots@.len() && !self.folder_banned(
                        (#[trigger] self.roots@[ri])@,
                    ) ==> self.settled(*fs, visited@, found@, self.roots@[ri]@),
                forall|v: int, c: Seq<char>|
                    0 <= v < visited@.len() && #[trigger] fs.listed_under(visited@[v]@, c)
                        && !self.folder_banned(c) ==> self.settled(*fs, visited@, found@, c),
                forall|v: int|
                    0 <= v < visited@.len() ==> fs.has_file((#[trigger] visited@[v])@)
                        && fs.file_at(visited@[v]@).kind == FileType::Dir,
            decreases fs.files@.len() - visited@.len() + 1, work@.len(),
        {
            let ghost w0 = work@;
            let ghost v0 = visited@;
            let ghost f0 = found@;
            let p = match work.pop() {
                Some(p) => p,
                None => {
                    proof {
                        assert forall|ri: int|
                            0 <= ri < self.roots@.len() && !self.folder_banned(
                                (#[trigger] self.roots@[ri])@,
                            ) implies self.settled(*fs, visited@, found@, self.roots@[ri]@) by {
                            assert(!in_paths(work@, self.roots@[ri]@));
                        }
                        assert forall|v: int, c: Seq<char>|
                            0 <= v < visited@.len() && #[trigger] fs.listed_under(
                                visited@[v]@,
                                c,
                            ) && !self.folder_banned(c) implies self.settled(
                            *fs,
                            visited@,
                            found@,
                            c,
                        ) by {
                            assert(!in_paths(work@, c));
                        }
                    }
                    break ;
                },
            };
            if self.is_folder_banned(p.as_str()) {
                proof {
                    lemma_closed_step(*self, *fs, v0, f0, w0, visited@, found@, work@, p@);
                }
                continue ;
            }
            let q = match self.resolve_entry(fs, p.as_str()) {
                Some(q) => q,
                None => {
                    proof {
                        assert(self.settled(*fs, visited@, found@, p@));
                        lemma_closed_step(*self, *fs, v0, f0, w0, visited@, found@, work@, p@);
                    }
                    continue ;
                },
            };
            let file = match fs.get_file(q.as_str()) {
                Ok(f) => f,
                Err(_) => {
                    proof {
                        assert(false);
                    }
                    continue ;
                },
            };
            match file.kind {
                FileType::Dir => {
                    if !contains_string(&visited, q.as_str()) {
                        visited.push(q.clone());
                        proof {
                            lemma_visited_bound(visited@, fs.files@);
                        }
                        let children = match fs.list_dir(q.as_str()) {
                            Ok(v) => v,
                            Err(_) => {
                                proof {
                                    assert(false);
                                }
                                Vec::new()
                            },
                        };
                        let mut c: usize = 0;
                        while c < children.len()
                            invariant
                                c <= children@.len(),
                                work@.len() >= w0.len() - 1,
                                forall|j: int|
                                    0 <= j < w0.len() - 1 ==> (#[trigger] work@[j]) == w0[j],
                                forall|k: int|
                                    0 <= k < c ==> in_paths(work@, (#[trigger] children@[k]).path@),
                            decreases children@.len() - c,
                        {
                            let ghost wprev = work@;
                            work.push(children[c].get_path());
                            proof {
                                assert forall|k: int| 0 <= k < c + 1 implies in_paths(
                                    work@,
                                    (#[trigger] children@[k]).path@,
                                ) by {
                                    if k < c {
                                        let w = choose|w: int|
                                            0 <= w < wprev.len() && (#[trigger] wprev[w])@
                                                == children@[k].path@;
                                        assert(work@[w]@ == children@[k].path@);
                                    } else {
                                        assert(work@.last()@ == children@[k].path@);
                                    }
                                }
                            }
                            c = c + 1;
                        }
                        proof {
                            assert(self.settled(*fs, visited@, found@, p@)) by {
                                if fs.has_file(p@) {
                                    assert(q@ == p@);
                                    assert(visited@.last()@ == p@);
                                }
                            }
                            assert forall|cc: Seq<char>|
                                #[trigger] fs.listed_under(q@, cc) && !self.folder_banned(
                                    cc,
                                ) implies in_paths(work@, cc) by {
                                crate::vfs::lemma_children_of_member(*fs, q@, cc);
                                let k = choose|k: int|
                                    0 <= k < fs.children_of(q@).len() && (
                                    #[trigger] fs.children_of(q@)[k]).path@ == cc;
                                assert(in_paths(work@, children@[k].path@));
                            }
                            lemma_closed_step(*self, *fs, v0, f0, w0, visited@, found@, work@, p@);
                            assert forall|v: int, cc: Seq<char>|
                                0 <= v < visited@.len() && #[trigger] fs.listed_under(
                                    visited@[v]@,
                                    cc,
                                ) && !self.folder_banned(cc) implies self.pending_or_settled(
                                *fs,
                                visited@,
                                found@,
                                work@,
                                cc,
                            ) by {
                                if v == visited@.len() - 1 {
                                    assert(in_paths(work@, cc));
                                } else {
                                    assert(v0[v] == visited@[v]);
                                    assert(self.pending_or_settled(*fs, v0, f0, w0, cc));
                                    lemma_pending_step(
                                        *self, *fs, v0, f0, w0, visited@, found@, work@, p@, cc,
                                    );
                                }
                            }
                        }
                    } else {
                        proof {
                            assert(self.settled(*fs, visited@, found@, p@)) by {
                                if fs.has_file(p@) {
                                    assert(q@ == p@);
                                }
                            }
                            lemma_closed_step(*self, *fs, v0, f0, w0, visited@, found@, work@, p@);
                        }
                    }
                },
                FileType::File => {
                    let fb = self.is_folder_banned(q.as_str());
                    let nb = self.is_name_banned(q.as_str());
                    let dup = contains_string(&found, q.as_str());
                    if !fb && !nb && !dup {
                        found.push(q);
                    }
                    proof {
                        assert(self.settled(*fs, visited@, found@, p@)) by {
                            if fs.has_file(p@) {
                                assert(q@ == p@);
                                if !nb {
                                    if dup {
                                        let f = choose|f: int|
                                            0 <= f < f0.len() && (#[trigger] f0[f])@ == q@;
                                        assert(found@[f]@ == p@);
                                    } else {
                                        assert(found@.last()@ == p@);
                                    }
                                }
                            }
                        }
                        lemma_closed_step(*self, *fs, v0, f0, w0, visited@, found@, work@, p@);
                    }
                },
                FileType::Symlink => {
                    proof {
                        assert(self.settled(*fs, visited@, found@, p@)) by {
                            if fs.has_file(p@) {
                                assert(q@ == p@);
                            }
                        }
                        lemma_closed_step(*self, *fs, v0, f0, w0, visited@, found@, work@, p@);
                    }
                },
            }
        }
        proof {
            assert forall|p: Seq<char>, chain: Seq<Seq<char>>|
                #[trigger] self.dir_chain(*fs, chain, p) && !self.folder_banned(p)
                    && fs.has_file(p) && fs.file_at(p).kind == FileType::File
                    && !self.name_banned(p) implies in_paths(found@, p) by {
                lemma_walk_settles(*self, *fs, visited@, found@, chain, p);
            }
            assert forall|ri: int| #[trigger] self.root_file(*fs, ri) implies exists|f: int|
                0 <= f < found@.len() && (#[trigger] found@[f])@ == self.roots@[ri]@ by {
                let rp = self.roots@[ri]@;
                assert(self.is_root(rp)) by {
                    assert(self.roots@[ri]@ == rp);
                }
                assert(self.dir_chain(*fs, Seq::empty(), rp));
                lemma_walk_settles(*self, *fs, visited@, found@, Seq::empty(), rp);
                assert(in_paths(found@, rp));
            }
        }
        found
    }
}


/// One obligation survives one worklist step: the popped entry aside,
/// pending stays pending and settled stays settled as the visited and
/// found lists only grow.
proof fn lemma_pending_step(
    w: DirWalker,
    fs: TestFileSystem,
    v0: Seq<String>,
    f0: Seq<String>,
    w0: Seq<String>,
    v1: Seq<String>,
    f1: Seq<String>,
    w1: Seq<String>,
    popped: Seq<char>,
    p: Seq<char>,
)
    requires
        w.pending_or_settled(fs, v0, f0, w0, p),
        w0.len() > 0,
        w0.last()@ == popped,
        w1.len() >= w0.len() - 1,
        forall|j: int| 0 <= j < w0.len() - 1 ==> (#[trigger] w1[j]) == w0[j],
        v1.len() >= v0.len(),
        forall|j: int| 0 <= j < v0.len() ==> (#[trigger] v1[j]) == v0[j],
        f1.len() >= f0.len(),
        forall|j: int| 0 <= j < f0.len() ==> (#[trigger] f1[j]) == f0[j],
        p == popped ==> w.pending_or_settled(fs, v1, f1, w1, p),
    ensures
        w.pending_or_settled(fs, v1, f1, w1, p),
{
    if p != popped {
        if in_paths(w0, p) {
            let i = choose|i: int| 0 <= i < w0.len() && (#[trigger] w0[i])@ == p;
            assert(i < w0.len() - 1);
            assert(w1[i]@ == p);
            assert(in_paths(w1, p));
        } else {
            if in_paths(v0, p) {
                let i = choose|i: int| 0 <= i < v0.len() && (#[trigger] v0[i])@ == p;
                assert(v1[i]@ == p);
                assert(in_paths(v1, p));
            }
            if in_paths(f0, p) {
                let i = choose|i: int| 0 <= i < f0.len() && (#[trigger] f0[i])@ == p;
                assert(f1[i]@ == p);
                assert(in_paths(f1, p));
            }
        }
    }
}

/// The two closedness invariants survive one worklist step, provided the
/// popped entry itself ends the step settled or pruned.
proof fn lemma_closed_step(
    w: DirWalker,
    fs: TestFileSystem,
    v0: Seq<String>,
    f0: Seq<String>,
    w0: Seq<String>,
    v1: Seq<String>,
    f1: Seq<String>,
    w1: Seq<String>,
    popped: Seq<char>,
)
    requires
        w0.len() > 0,
        w0.last()@ == popped,
        w1.len() >= w0.len() - 1,
        forall|j: int| 0 <= j < w0.len() - 1 ==> (#[trigger] w1[j]) == w0[j],
        v1.len() >= v0.len(),
        forall|j: int| 0 <= j < v0.len() ==> (#[trigger] v1[j]) == v0[j],
        f1.len() >= f0.len(),
        forall|j: int| 0 <= j < f0.len() ==> (#[trigger] f1[j]) == f0[j],
        w.settled(fs, v1, f1, popped) || w.folder_banned(popped),
        forall|ri: int|
            0 <= ri < w.roots@.len() && !w.folder_banned((#[trigger] w.roots@[ri])@)
                ==> w.pending_or_settled(fs, v0, f0, w0, w.roots@[ri]@),
        forall|v: int, c: Seq<char>|
            0 <= v < v0.len() && #[trigger] fs.listed_under(v0[v]@, c) && !w.folder_banned(c)
                ==> w.pending_or_settled(fs, v0, f0, w0, c),
    ensures
        forall|ri: int|
            0 <= ri < w.roots@.len() && !w.folder_banned((#[trigger] w.roots@[ri])@)
                ==> w.pending_or_settled(fs, v1, f1, w1, w.roots@[ri]@),
        forall|v: int, c: Seq<char>|
            0 <= v < v0.len() && #[trigger] fs.listed_under(v1[v]@, c) && !w.folder_banned(c)
                ==> w.pending_or_settled(fs, v1, f1, w1, c),
{
    assert forall|ri: int|
        0 <= ri < w.roots@.len() && !w.folder_banned((#[trigger] w.roots@[ri])@) implies
        w.pending_or_settled(fs, v1, f1, w1, w.roots@[ri]@) by {
        let rp = w.roots@[ri]@;
        assert(w.pending_or_settled(fs, v0, f0, w0, rp));
        lemma_pending_step(w, fs, v0, f0, w0, v1, f1, w1, popped, rp);
    }
    assert forall|v: int, c: Seq<char>|
        0 <= v < v0.len() && #[trigger] fs.listed_under(v1[v]@, c) && !w.folder_banned(c) implies
        w.pending_or_settled(fs, v1, f1, w1, c) by {
        assert(v1[v] == v0[v]);
        assert(w.pending_or_settled(fs, v0, f0, w0, c));
        lemma_pending_step(w, fs, v0, f0, w0, v1, f1, w1, popped, c);
    }
}

/// Once the worklist is empty and the closedness facts hold, everything
/// a descent from a root reaches and the folder blacklist spares is
/// settled.
proof fn lemma_walk_settles(
    w: DirWalker,
    fs: TestFileSystem,
    visited: Seq<String>,
    found: Seq<String>,
    chain: Seq<Seq<char>>,
    p: Seq<char>,
)
    requires
        forall|ri: int|
            0 <= ri < w.roots@.len() && !w.folder_banned((#[trigger] w.roots@[ri])@)
                ==> w.settled(fs, visited, found, w.roots@[ri]@),
        forall|v: int, c: Seq<char>|
            0 <= v < visited.len() && #[trigger] fs.listed_under(visited[v]@, c)
                && !w.folder_banned(c) ==> w.settled(fs, visited, found, c),
        w.dir_chain(fs, chain, p),
        !w.folder_banned(p),
    ensures
        w.settled(fs, visited, found, p),
    decreases chain.len(),
{
    if chain.len() == 0 {
        let ri = choose|ri: int| 0 <= ri < w.roots@.len() && (#[trigger] w.roots@[ri])@ == p;
        assert(!w.folder_banned(w.roots@[ri]@));
        assert(w.settled(fs, visited, found, w.roots@[ri]@));
    } else {
        let d = chain.last();
        lemma_walk_settles(w, fs, visited, found, chain.drop_last(), d);
        assert(in_paths(visited, d));
        let v = choose|v: int| 0 <= v < visited.len() && (#[trigger] visited[v])@ == d;
        assert(fs.listed_under(visited[v]@, p));
        assert(w.settled(fs, visited, found, p));
    }
}

/// Distinct paths that all exist in a table of unique paths are no more
/// numerous than the table.
proof fn lemma_visited_bound(visited: Seq<String>, files: Seq<TestFile>)
    requires
        forall|a: int, b: int|
            0 <= a < b < visited.len() ==> (#[trigger] visited[a])@ != (#[trigger] visited[b])@,
        forall|v: int|
            0 <= v < visited.len() ==> crate::vfs::has_path(files, (#[trigger] visited[v])@),
    ensures
        visited.len() <= files.len(),
{
    let vs = visited.map(|i: int, s: String| s@);
    let ps = files.map(|i: int, f: TestFile| f.path@);
    assert(vs.no_duplicates());
    vs.unique_seq_to_set();
    lemma_to_set_len_le(ps);
    assert forall|x: Seq<char>| vs.to_set().contains(x) implies ps.to_set().contains(x) by {
        let v = choose|v: int| 0 <= v < vs.len() && vs[v] == x;
        assert(crate::vfs::has_path(files, visited[v]@));
        let j = choose|j: int| 0 <= j < files.len() && files[j].path@ == x;
        assert(ps[j] == x);
    }
    assert(vs.to_set().subset_of(ps.to_set()));
    vstd::set_lib::lemma_len_subset(vs.to_set(), ps.to_set());
}

/// Builds a walker from plain arguments and walks the filesystem: the
/// startup path for callers that hold only raw blacklists.
pub fn run_walk(
    fs: &TestFileSystem,
    roots: Vec<String>,
    bad_paths: Vec<String>,
    bad_patterns: Vec<String>,
) -> (r: Result<Vec<String>, IoErr>)
    requires
        fs.wf(),
    ensures
        match r {
            Ok(files) => {
                let w = (DirWalker { roots: roots, bad_paths: bad_paths, bad_patterns: bad_patterns });
                &&& forall|a: int, b: int|
                    0 <= a < b < files@.len() ==> (#[trigger] files@[a])@ != (
                    #[trigger] files@[b])@
                &&& forall|i: int|
                    0 <= i < files@.len() ==> fs.has_file((#[trigger] files@[i])@) && fs.file_at(
                        files@[i]@,
                    ).kind == FileType::File
                &&& forall|i: int|
                    0 <= i < files@.len() ==> !w.folder_banned((#[trigger] files@[i])@)
                        && !w.name_banned(files@[i]@)
                &&& forall|p: Seq<char>, chain: Seq<Seq<char>>|
                    #[trigger] w.dir_chain(*fs, chain, p) && !w.folder_banned(p) && fs.has_file(p)
                        && fs.file_at(p).kind == FileType::File && !w.name_banned(p)
                        ==> in_paths(files@, p)
            },
            Err(e) => {
                &&& e == IoErr::BadPattern
                &&& exists|i: int|
                    0 <= i < bad_patterns@.len() && !regex_valid((#[trigger] bad_patterns@[i])@)
            },
        },
{
    let w = DirWalker::new(roots).blacklist_folders(bad_paths);
    match w.blacklist_patterns(bad_patterns) {
        Ok(w) => Ok(w.traverse_all(fs)),
        Err(e) => Err(e),
    }
}

} // verus!
