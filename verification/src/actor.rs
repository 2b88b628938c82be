//! Actors: what happens to a duplicate group once a keeper is chosen.
//!
//! `FilePrinter` only reports; the filesystem is untouched. `FileDeleter`
//! removes every path of the group but the keeper. `FileLinker` replaces
//! every path of the group but the keeper with a hardlink to the keeper,
//! so the group keeps its names but collapses to one inode.

use vstd::prelude::*;

use crate::catalog::Duplicates;
use crate::selector::Selector;
use crate::vfs::{
    TestFileSystem, TestFile, at_path, has_path, unique_paths, hardlink_of, link_all, path_in,
    without_path,
};
use crate::paths::str_eq;

verus! {

/// The filesystem's regular entries after deleting every path of `ps`
/// but the keeper: an entry survives when it is the keeper or outside the
/// group.
pub open spec fn delete_result(s: Seq<TestFile>, ps: Seq<String>, keep: Seq<char>) -> Seq<TestFile>
    decreases s.len(),
{
    if s.len() == 0 {
        Seq::empty()
    } else {
        let rest = delete_result(s.drop_last(), ps, keep);
        if s.last().path@ == keep || !path_in(ps, s.last().path@) {
            rest.push(s.last())
        } else {
            rest
        }
    }
}

/// Whether `q` is one of the first `i + 1` paths splits off its last
/// candidate.
proof fn lemma_path_in_take_step(ps: Seq<String>, i: int, q: Seq<char>)
    requires
        0 <= i < ps.len(),
    ensures
        path_in(ps.take(i + 1), q) <==> (path_in(ps.take(i), q) || ps[i]@ == q),
{
    let t1 = ps.take(i + 1);
    let t0 = ps.take(i);
    if path_in(t1, q) {
        let j = choose|j: int| 0 <= j < t1.len() && t1[j]@ == q;
        if j < i {
            assert(t0[j]@ == q);
        }
    }
    if path_in(t0, q) {
        let j = choose|j: int| 0 <= j < t0.len() && t0[j]@ == q;
        assert(t1[j]@ == q);
    }
    if ps[i]@ == q {
        assert(t1[i]@ == q);
    }
}

/// Before any path of the group is processed, nothing is deleted.
proof fn lemma_partial_delete_zero(s: Seq<TestFile>, ps: Seq<String>, keep: Seq<char>)
    ensures
        delete_result(s, ps.take(0), keep) == s,
    decreases s.len(),
{
    if s.len() > 0 {
        lemma_partial_delete_zero(s.drop_last(), ps, keep);
        assert(delete_result(s, ps.take(0), keep) =~= s);
    } else {
        assert(delete_result(s, ps.take(0), keep) =~= s);
    }
}

/// Processing one more path of the group removes it, unless it is the
/// keeper.
proof fn lemma_partial_delete_step(s: Seq<TestFile>, ps: Seq<String>, i: int, keep: Seq<char>)
    requires
        0 <= i < ps.len(),
    ensures
        ps[i]@ != keep ==> without_path(delete_result(s, ps.take(i), keep), ps[i]@)
            == delete_result(s, ps.take(i + 1), keep),
        ps[i]@ == keep ==> delete_result(s, ps.take(i + 1), keep) == delete_result(
            s,
            ps.take(i),
            keep,
        ),
    decreases s.len(),
{
    reveal(Seq::filter);
    if s.len() == 0 {
        assert(without_path(Seq::<TestFile>::empty(), ps[i]@) =~= Seq::<TestFile>::empty());
    } else {
        lemma_partial_delete_step(s.drop_last(), ps, i, keep);
        lemma_path_in_take_step(ps, i, s.last().path@);
        let a = delete_result(s.drop_last(), ps.take(i), keep);
        if ps[i]@ != keep {
            let p = ps[i]@;
            if s.last().path@ == keep || !path_in(ps.take(i), s.last().path@) {
                assert(delete_result(s, ps.take(i), keep) == a.push(s.last()));
                assert(a.push(s.last()).drop_last() =~= a);
                if s.last().path@ != p {
                    assert(without_path(a.push(s.last()), p) == without_path(a, p).push(
                        s.last(),
                    ));
                } else {
                    assert(without_path(a.push(s.last()), p) == without_path(a, p));
                }
            }
        }
    }
}

/// Law: deleting a group with one keeper twice is deleting it once.
pub proof fn lemma_delete_idempotent(s: Seq<TestFile>, ps: Seq<String>, keep: Seq<char>)
    ensures
        delete_result(delete_result(s, ps, keep), ps, keep) == delete_result(s, ps, keep),
    decreases s.len(),
{
    if s.len() > 0 {
        lemma_delete_idempotent(s.drop_last(), ps, keep);
        let d = delete_result(s, ps, keep);
        if s.last().path@ == keep || !path_in(ps, s.last().path@) {
            let rest = delete_result(s.drop_last(), ps, keep);
            assert(d == rest.push(s.last()));
            assert(d.drop_last() =~= rest);
        }
    }
}

/// Law: after a delete, the only path of the group still present is the
/// keeper, so a second pass over the same group finds nothing to act on.
pub proof fn lemma_delete_leaves_only_keeper(s: Seq<TestFile>, ps: Seq<String>, keep: Seq<char>)
    ensures
        forall|i: int|
            0 <= i < delete_result(s, ps, keep).len() ==> (path_in(
                ps,
                (#[trigger] delete_result(s, ps, keep)[i]).path@,
            ) ==> delete_result(s, ps, keep)[i].path@ == keep),
    decreases s.len(),
{
    if s.len() > 0 {
        lemma_delete_leaves_only_keeper(s.drop_last(), ps, keep);
        let d = delete_result(s, ps, keep);
        let rest = delete_result(s.drop_last(), ps, keep);
        assert forall|i: int| 0 <= i < d.len() implies (path_in(ps, (#[trigger] d[i]).path@)
            ==> d[i].path@ == keep) by {
            if s.last().path@ == keep || !path_in(ps, s.last().path@) {
                assert(d == rest.push(s.last()));
                if i < rest.len() {
                    assert(d[i] == rest[i]);
                }
            }
        }
    }
}

/// Reports the keeper of each group to its log; the filesystem is never
/// touched.
pub struct FilePrinter<S: Selector> {
    pub selector: S,
    pub reported: Vec<String>,
}

impl<S: Selector> FilePrinter<S> {
    pub fn new(selector: S) -> (r: Self)
        ensures
            r.selector == selector,
            r.reported@ == Seq::<String>::empty(),
    {
        FilePrinter { selector, reported: Vec::new() }
    }

    /// Selects the keeper and records it. The filesystem is returned
    /// exactly as it came: printing is a no-op on the filesystem.
    pub fn act(&mut self, fs: &mut TestFileSystem, dups: &Duplicates)
        requires
            old(fs).wf(),
            dups.0@.len() > 0,
            old(self).selector.can_select(*old(fs), *dups),
        ensures
            *final(fs) == *old(fs),
            final(self).selector == old(self).selector,
            final(self).reported@.len() == old(self).reported@.len() + 1,
            forall|i: int|
                0 <= i < old(self).reported@.len() ==> final(self).reported@[i] == old(
                    self,
                ).reported@[i],
            exists|j: int|
                0 <= j < dups.0@.len() && final(self).reported@.last()@ == (
                #[trigger] dups.0@[j])@,
            old(self).selector.is_choice(*old(fs), *dups, final(self).reported@.last()@),
    {
        let keeper = self.selector.select(fs, dups);
        self.reported.push(keeper);
    }
}

/// Deletes every path of a duplicate group but the keeper.
pub struct FileDeleter<S: Selector> {
    pub selector: S,
}

impl<S: Selector> FileDeleter<S> {
    pub fn new(selector: S) -> (r: Self)
        ensures
            r.selector == selector,
    {
        FileDeleter { selector }
    }

    /// Selects the keeper and removes every other path of the group from
    /// the filesystem; paths that are already gone are passed over.
    pub fn act(&self, fs: &mut TestFileSystem, dups: &Duplicates)
        requires
            old(fs).wf(),
            dups.0@.len() > 0,
            self.selector.can_select(*old(fs), *dups),
        ensures
            final(fs).wf(),
            final(fs).symlinks@ == old(fs).symlinks@,
            exists|k: Seq<char>|
                {
                    &&& #[trigger] self.selector.is_choice(*old(fs), *dups, k)
                    &&& exists|j: int| 0 <= j < dups.0@.len() && k == (#[trigger] dups.0@[j])@
                    &&& final(fs).files@ == delete_result(old(fs).files@, dups.0@, k)
                },
    {
        let keeper = self.selector.select(fs, dups);
        let ghost k = keeper@;
        let ghost oldfiles = fs.files@;
        proof {
            lemma_partial_delete_zero(oldfiles, dups.0@, k);
        }
        let mut i: usize = 0;
        while i < dups.0.len()
            invariant
                i <= dups.0@.len(),
                fs.wf(),
                k == keeper@,
                fs.symlinks@ == old(fs).symlinks@,
                fs.files@ == delete_result(oldfiles, dups.0@.take(i as int), k),
            decreases dups.0@.len() - i,
        {
            proof {
                lemma_partial_delete_step(oldfiles, dups.0@, i as int, k);
            }
            let p = &dups.0[i];
            if !str_eq(p.as_str(), keeper.as_str()) {
                fs.remove_file(p.as_str());
            }
            i = i + 1;
        }
        proof {
            assert(dups.0@.take(dups.0@.len() as int) =~= dups.0@);
            assert(self.selector.is_choice(*old(fs), *dups, k));
        }
    }
}

/// Replaces every path of a duplicate group but the keeper with a
/// hardlink to the keeper.
pub struct FileLinker<S: Selector> {
    pub selector: S,
}

impl<S: Selector> FileLinker<S> {
    pub fn new(selector: S) -> (r: Self)
        ensures
            r.selector == selector,
    {
        FileLinker { selector }
    }

    /// Selects the keeper and relinks every other path of the group to
    /// it. If the keeper itself cannot be read, nothing at all is
    /// touched: no destructive step without the keeper preserved.
    pub fn act(&self, fs: &mut TestFileSystem, dups: &Duplicates)
        requires
            old(fs).wf(),
            dups.0@.len() > 0,
            self.selector.can_select(*old(fs), *dups),
        ensures
            final(fs).wf(),
            final(fs).symlinks@ == old(fs).symlinks@,
            exists|k: Seq<char>|
                {
                    &&& #[trigger] self.selector.is_choice(*old(fs), *dups, k)
                    &&& exists|j: int| 0 <= j < dups.0@.len() && k == (#[trigger] dups.0@[j])@
                    &&& (old(fs).has_file(k) ==> final(fs).files@ == link_all(
                        old(fs).files@,
                        dups.0@,
                        k,
                        old(fs).file_at(k),
                    ))
                    &&& (!old(fs).has_file(k) ==> final(fs).files@ == old(fs).files@)
                },
    {
        let keeper = self.selector.select(fs, dups);
        let ghost k = keeper@;
        match fs.get_file(keeper.as_str()) {
            Ok(kf) => {
                fs.relink_all(&dups.0, keeper.as_str(), &kf);
                proof {
                    assert(self.selector.is_choice(*old(fs), *dups, k));
                }
            },
            Err(_) => {
                proof {
                    assert(self.selector.is_choice(*old(fs), *dups, k));
                }
            },
        }
    }
}

/// Law: every path of the group present after a link carries the
/// keeper's inode — the group has collapsed to one inode.
pub proof fn lemma_link_one_inode(s: Seq<TestFile>, ps: Seq<String>, keep: Seq<char>, kf: TestFile)
    requires
        unique_paths(s),
        has_path(s, keep),
        kf == at_path(s, keep),
    ensures
        forall|i: int|
            0 <= i < link_all(s, ps, keep, kf).len() ==> (path_in(
                ps,
                (#[trigger] link_all(s, ps, keep, kf)[i]).path@,
            ) ==> link_all(s, ps, keep, kf)[i].inode == kf.inode),
{
    let la = link_all(s, ps, keep, kf);
    assert forall|i: int| 0 <= i < la.len() implies (path_in(ps, (#[trigger] la[i]).path@)
        ==> la[i].inode == kf.inode) by {
        assert(la[i].path == s[i].path);
        if la[i].path@ == keep {
            crate::vfs::lemma_at_path(s, keep, i);
        }
    }
}

/// Law: linking a group twice is linking it once — whatever keeper the
/// second pass picks from the group, the second pass changes nothing.
pub proof fn lemma_link_idempotent(
    s: Seq<TestFile>,
    ps: Seq<String>,
    k1: Seq<char>,
    k2: Seq<char>,
)
    requires
        unique_paths(s),
        has_path(s, k1),
        path_in(ps, k1),
        path_in(ps, k2),
    ensures
        ({
            let s2 = link_all(s, ps, k1, at_path(s, k1));
            has_path(s2, k2) ==> link_all(s2, ps, k2, at_path(s2, k2)) == s2
        }),
{
    let kf1 = at_path(s, k1);
    let s2 = link_all(s, ps, k1, kf1);
    if has_path(s2, k2) {
        let la = link_all(s2, ps, k2, at_path(s2, k2));
        let i1 = crate::vfs::idx_of(s, k1);
        assert(s[i1].path@ == k1);
        assert(s2[i1] == s[i1]);
        assert forall|i: int| 0 <= i < s2.len() implies (#[trigger] s2[i]).path@
            == s[i].path@ by {}
        assert(unique_paths(s2));
        let kf2 = at_path(s2, k2);
        let i2 = crate::vfs::idx_of(s2, k2);
        assert(s2[i2].path@ == k2);
        // whichever keeper the second pass picked, its entry already has
        // the first keeper's content, kind, inode and metadata
        assert(kf2.contents == kf1.contents && kf2.kind == kf1.kind && kf2.inode == kf1.inode
            && kf2.metadata == kf1.metadata) by {
            if k2 == k1 {
                crate::vfs::lemma_at_path(s2, k2, i1);
            } else {
                assert(s[i2].path@ == k2);
                assert(path_in(ps, s2[i2].path@));
                assert(s2[i2] == hardlink_of(s[i2], kf1));
            }
        }
        assert forall|i: int| 0 <= i < la.len() implies la[i] == s2[i] by {
            if path_in(ps, s2[i].path@) && s2[i].path@ != k2 {
                assert(la[i] == hardlink_of(s2[i], kf2));
                if s2[i].path@ == k1 {
                    crate::vfs::lemma_at_path(s, k1, i);
                    assert(s2[i] == s[i]);
                    assert(s[i] == kf1);
                    assert(hardlink_of(s2[i], kf2) == kf1);
                } else {
                    assert(s2[i] == hardlink_of(s[i], kf1));
                    assert(hardlink_of(s2[i], kf2) == hardlink_of(s[i], kf1));
                }
            } else {
                assert(la[i] == s2[i]);
            }
        }
        assert(la =~= s2);
    }
}

} // verus!
