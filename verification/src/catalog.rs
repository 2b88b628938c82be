//! The multi-stage duplicate catalog: a lazy, tiered classifier that
//! partitions files by length, then by leading bytes, then by full-content
//! digest, while collapsing several hardlinked names for one inode into
//! one group.
//!
//! Each tier is a one-way state machine: it holds a single deferred entry
//! until a second file collides with it, and only then reads contents and
//! promotes itself to a keyed table of the next tier. A file alone at its
//! size therefore costs no content read at all.
//!
//! The catalog's history is modelled as a multiset of records, one per
//! insertion; every contract below is exact about how an operation moves
//! that multiset. A classification invariant ties every bucket key to
//! the contents of the filesystem the catalog was fed from: size keys to
//! recorded lengths, leading-bytes keys to zero-padded prefixes, digest
//! keys to content digests. The laws at the end build on both.

use vstd::prelude::*;
use vstd::multiset::Multiset;

use crate::ID;
use crate::hashing::{HashKind, digest_of, bytes_eq};
use crate::vfs::{TestFileSystem, TestFile, TestMD, FirstBytes, first_k};

verus! {

broadcast use vstd::multiset::group_multiset_axioms;

/// One insertion, as the catalog remembers it.
pub ghost struct Rec {
    pub id: ID,
    pub path: Seq<char>,
}

/// One group the catalog reports: the digest bucket it came from, the
/// inode it stands for, and the paths of that inode.
pub ghost struct DupGroup {
    pub digest: Seq<u8>,
    pub id: ID,
    pub dups: Duplicates,
}

/// An ordered collection of paths that all refer to one inode.
#[derive(Debug)]
pub struct Duplicates(pub Vec<String>);

impl View for Duplicates {
    type V = Seq<Seq<char>>;

    open spec fn view(&self) -> Seq<Seq<char>> {
        self.0@.map(|i: int, p: String| p@)
    }
}

impl Clone for Duplicates {
    fn clone(&self) -> (r: Self)
        ensures
            r.0@ == self.0@,
    {
        let mut out: Vec<String> = Vec::new();
        let mut i: usize = 0;
        while i < self.0.len()
            invariant
                i <= self.0@.len(),
                out@.len() == i,
                forall|j: int| 0 <= j < i ==> out@[j] == self.0@[j],
            decreases self.0@.len() - i,
        {
            out.push(self.0[i].clone());
            i = i + 1;
        }
        proof {
            assert(out@ =~= self.0@);
        }
        Duplicates(out)
    }
}

/// The records one `Duplicates` under one inode contributes.
pub open spec fn dup_recs(id: ID, d: Duplicates) -> Multiset<Rec> {
    d.0@.map(|i: int, p: String| Rec { id: id, path: p@ }).to_multiset()
}

/// One inode inside a digest bucket: its identity and its paths.
#[derive(Debug)]
pub struct InodeEntry {
    pub id: ID,
    pub dups: Duplicates,
}

/// The records one inode entry contributes.
pub open spec fn entry_recs(e: InodeEntry) -> Multiset<Rec> {
    dup_recs(e.id, e.dups)
}

/// The records a table of inode entries contributes.
pub open spec fn entries_recs(s: Seq<InodeEntry>) -> Multiset<Rec>
    decreases s.len(),
{
    if s.len() == 0 {
        Multiset::empty()
    } else {
        entries_recs(s.drop_last()).add(entry_recs(s.last()))
    }
}

/// One digest bucket: every inode whose file content hashed to `digest`.
#[derive(Debug)]
pub struct HashBucket {
    pub digest: Vec<u8>,
    pub entries: Vec<InodeEntry>,
}

/// The records a table of digest buckets contributes.
pub open spec fn hbuckets_recs(s: Seq<HashBucket>) -> Multiset<Rec>
    decreases s.len(),
{
    if s.len() == 0 {
        Multiset::empty()
    } else {
        hbuckets_recs(s.drop_last()).add(entries_recs(s.last().entries@))
    }
}

/// A digest bucket is sound when it is non-empty, its inode identities are
/// distinct and every inode keeps at least one path.
pub open spec fn hbucket_wf(b: HashBucket) -> bool {
    &&& b.entries@.len() >= 1
    &&& forall|i: int, j: int|
        0 <= i < j < b.entries@.len() ==> b.entries@[i].id != b.entries@[j].id
    &&& forall|i: int| 0 <= i < b.entries@.len() ==> b.entries@[i].dups.0@.len() >= 1
}

/// The groups one digest bucket reports: all of its inodes, but only when
/// at least two distinct inodes share the digest.
pub open spec fn bucket_groups(b: HashBucket) -> Seq<DupGroup> {
    if b.entries@.len() >= 2 {
        b.entries@.map(|i: int, e: InodeEntry| DupGroup { digest: b.digest@, id: e.id, dups: e.dups })
    } else {
        Seq::empty()
    }
}

/// The groups a table of digest buckets reports.
pub open spec fn hbuckets_groups(s: Seq<HashBucket>) -> Seq<DupGroup>
    decreases s.len(),
{
    if s.len() == 0 {
        Seq::empty()
    } else {
        hbuckets_groups(s.drop_last()) + bucket_groups(s.last())
    }
}

/// Every path of the entry is a readable file of `fs` whose whole
/// content digests to `digest` under `kind`.
pub open spec fn entry_in(e: InodeEntry, fs: TestFileSystem, kind: HashKind, digest: Seq<u8>) -> bool {
    forall|j: int|
        0 <= j < e.dups.0@.len() ==> fs.has_readable((#[trigger] e.dups.0@[j])@) && digest_of(
            kind,
            fs.file_at(e.dups.0@[j]@).content_bytes(),
        ) == digest
}

/// Every inode entry of the bucket holds files whose content digests to
/// the bucket's key.
pub open spec fn hbucket_in(b: HashBucket, fs: TestFileSystem, kind: HashKind) -> bool {
    forall|i: int| 0 <= i < b.entries@.len() ==> entry_in(#[trigger] b.entries@[i], fs, kind, b.digest@)
}

/// The third classification tier, keyed by full-content digest. It defers
/// hashing until a second file lands on it.
#[derive(Debug)]
pub enum HashProxy {
    /// One file, not hashed yet.
    Pending { id: ID, path: String },
    /// Two or more files, hashed and filed by digest, then by inode.
    Promoted { buckets: Vec<HashBucket> },
}

impl HashProxy {
    /// Every insertion this proxy has absorbed.
    pub open spec fn recs(self) -> Multiset<Rec> {
        match self {
            HashProxy::Pending { id, path } => Multiset::empty().insert(
                Rec { id: id, path: path@ },
            ),
            HashProxy::Promoted { buckets } => hbuckets_recs(buckets@),
        }
    }

    /// Sound: digests are distinct keys and every bucket is sound.
    pub open spec fn wf(self) -> bool {
        match self {
            HashProxy::Pending { .. } => true,
            HashProxy::Promoted { buckets } => {
                &&& forall|i: int, j: int|
                    0 <= i < j < buckets@.len() ==> buckets@[i].digest@ != buckets@[j].digest@
                &&& forall|i: int| 0 <= i < buckets@.len() ==> hbucket_wf(#[trigger] buckets@[i])
            },
        }
    }

    /// The groups this proxy reports.
    pub open spec fn groups(self) -> Seq<DupGroup> {
        match self {
            HashProxy::Pending { .. } => Seq::empty(),
            HashProxy::Promoted { buckets } => hbuckets_groups(buckets@),
        }
    }

    /// Classified against `fs`: the deferred file is readable, and every
    /// digest bucket's key is the content digest of every file under it.
    pub open spec fn classified(self, fs: TestFileSystem, kind: HashKind) -> bool {
        match self {
            HashProxy::Pending { id, path } => fs.has_readable(path@),
            HashProxy::Promoted { buckets } => forall|i: int|
                0 <= i < buckets@.len() ==> hbucket_in(#[trigger] buckets@[i], fs, kind),
        }
    }
}

/// Two multisets that agree after adding one common part agree.
proof fn lemma_multiset_cancel<A>(a: Multiset<A>, b: Multiset<A>, c: Multiset<A>)
    requires
        a.add(c) == b.add(c),
    ensures
        a == b,
{
    broadcast use vstd::multiset::group_multiset_axioms;

    assert forall|x: A| a.count(x) == b.count(x) by {
        assert(a.add(c).count(x) == a.count(x) + c.count(x));
        assert(b.add(c).count(x) == b.count(x) + c.count(x));
        assert(a.add(c).count(x) == b.add(c).count(x));
    }
    assert(a =~= b);
}

/// Adding two parts in either order gives one multiset.
proof fn lemma_add_swap<A>(m: Multiset<A>, p: Multiset<A>, q: Multiset<A>)
    ensures
        m.add(p).add(q) == m.add(q).add(p),
{
    assert forall|v: A| m.add(p).add(q).count(v) == m.add(q).add(p).count(v) by {
        assert(m.add(p).add(q).count(v) == m.add(p).count(v) + q.count(v));
        assert(m.add(p).count(v) == m.count(v) + p.count(v));
        assert(m.add(q).add(p).count(v) == m.add(q).count(v) + p.count(v));
        assert(m.add(q).count(v) == m.count(v) + q.count(v));
    }
    assert(m.add(p).add(q) =~= m.add(q).add(p));
}

/// Inserting into the added part inserts into the whole.
proof fn lemma_add_insert<A>(m: Multiset<A>, p: Multiset<A>, r: A)
    ensures
        m.add(p.insert(r)) == m.insert(r).add(p),
{
    broadcast use vstd::multiset::group_multiset_axioms;

    assert forall|v: A| m.add(p.insert(r)).count(v) == m.insert(r).add(p).count(v) by {
        assert(m.add(p.insert(r)).count(v) == m.count(v) + p.insert(r).count(v));
        assert(m.insert(r).add(p).count(v) == m.insert(r).count(v) + p.count(v));
    }
    assert(m.add(p.insert(r)) =~= m.insert(r).add(p));
}

/// The empty multiset is the unit of addition.
proof fn lemma_add_empty<A>(m: Multiset<A>)
    ensures
        Multiset::empty().add(m) == m,
        m.add(Multiset::empty()) == m,
{
    assert forall|v: A| Multiset::empty().add(m).count(v) == m.count(v) by {
        assert(Multiset::empty().add(m).count(v) == Multiset::<A>::empty().count(v) + m.count(
            v,
        ));
    }
    assert forall|v: A| m.add(Multiset::empty()).count(v) == m.count(v) by {
        assert(m.add(Multiset::empty()).count(v) == m.count(v) + Multiset::<A>::empty().count(
            v,
        ));
    }
    assert(Multiset::empty().add(m) =~= m);
    assert(m.add(Multiset::empty()) =~= m);
}

/// Adding two one-element multisets inserts both elements.
proof fn lemma_two_singles<A>(a: A, b: A)
    ensures
        Multiset::empty().insert(a).add(Multiset::empty().insert(b)) == Multiset::empty().insert(
            a,
        ).insert(b),
{
    broadcast use vstd::multiset::group_multiset_axioms;

    let l = Multiset::empty().insert(a).add(Multiset::empty().insert(b));
    let r = Multiset::empty().insert(a).insert(b);
    assert forall|v: A| l.count(v) == r.count(v) by {
        assert(l.count(v) == Multiset::empty().insert(a).count(v) + Multiset::empty().insert(
            b,
        ).count(v));
    }
    assert(l =~= r);
}

/// Updating one entry trades its old records for its new ones.
proof fn lemma_entries_recs_update(s: Seq<InodeEntry>, i: int, x: InodeEntry)
    requires
        0 <= i < s.len(),
    ensures
        entries_recs(s.update(i, x)).add(entry_recs(s[i])) == entries_recs(s).add(entry_recs(x)),
    decreases s.len(),
{
    let u = s.update(i, x);
    if i == s.len() - 1 {
        assert(u.drop_last() =~= s.drop_last());
        assert(u.last() == x);
        assert(entries_recs(u) == entries_recs(s.drop_last()).add(entry_recs(x)));
        assert(entries_recs(s) == entries_recs(s.drop_last()).add(entry_recs(s[i])));
        lemma_add_swap(entries_recs(s.drop_last()), entry_recs(x), entry_recs(s[i]));
    } else {
        assert(u.drop_last() =~= s.drop_last().update(i, x));
        assert(u.last() == s.last());
        lemma_entries_recs_update(s.drop_last(), i, x);
        let dl = s.drop_last();
        let e_upd = entries_recs(dl.update(i, x));
        assert(entries_recs(u) == e_upd.add(entry_recs(s.last())));
        assert(entries_recs(s) == entries_recs(dl).add(entry_recs(s.last())));
        lemma_add_swap(e_upd, entry_recs(s.last()), entry_recs(s[i]));
        assert(entries_recs(u).add(entry_recs(s[i])) == e_upd.add(entry_recs(s[i])).add(
            entry_recs(s.last()),
        ));
        assert(e_upd.add(entry_recs(s[i])) == entries_recs(dl).add(entry_recs(x)));
        lemma_add_swap(entries_recs(dl), entry_recs(x), entry_recs(s.last()));
    }
}

/// Appending an entry adds its records.
proof fn lemma_entries_recs_push(s: Seq<InodeEntry>, x: InodeEntry)
    ensures
        entries_recs(s.push(x)) == entries_recs(s).add(entry_recs(x)),
{
    assert(s.push(x).drop_last() =~= s);
    assert(s.push(x).last() == x);
}

/// Updating one digest bucket trades its old records for its new ones.
proof fn lemma_hbuckets_recs_update(s: Seq<HashBucket>, i: int, x: HashBucket)
    requires
        0 <= i < s.len(),
    ensures
        hbuckets_recs(s.update(i, x)).add(entries_recs(s[i].entries@)) == hbuckets_recs(s).add(
            entries_recs(x.entries@),
        ),
    decreases s.len(),
{
    let u = s.update(i, x);
    if i == s.len() - 1 {
        assert(u.drop_last() =~= s.drop_last());
        assert(u.last() == x);
        assert(hbuckets_recs(u) == hbuckets_recs(s.drop_last()).add(entries_recs(x.entries@)));
        assert(hbuckets_recs(s) == hbuckets_recs(s.drop_last()).add(
            entries_recs(s[i].entries@),
        ));
        lemma_add_swap(
            hbuckets_recs(s.drop_last()),
            entries_recs(x.entries@),
            entries_recs(s[i].entries@),
        );
    } else {
        assert(u.drop_last() =~= s.drop_last().update(i, x));
        assert(u.last() == s.last());
        lemma_hbuckets_recs_update(s.drop_last(), i, x);
        let dl = s.drop_last();
        let h_upd = hbuckets_recs(dl.update(i, x));
        assert(hbuckets_recs(u) == h_upd.add(entries_recs(s.last().entries@)));
        assert(hbuckets_recs(s) == hbuckets_recs(dl).add(entries_recs(s.last().entries@)));
        lemma_add_swap(h_upd, entries_recs(s.last().entries@), entries_recs(s[i].entries@));
        assert(hbuckets_recs(u).add(entries_recs(s[i].entries@)) == h_upd.add(
            entries_recs(s[i].entries@),
        ).add(entries_recs(s.last().entries@)));
        assert(h_upd.add(entries_recs(s[i].entries@)) == hbuckets_recs(dl).add(
            entries_recs(x.entries@),
        ));
        lemma_add_swap(
            hbuckets_recs(dl),
            entries_recs(x.entries@),
            entries_recs(s.last().entries@),
        );
    }
}

/// Appending a digest bucket adds its records.
proof fn lemma_hbuckets_recs_push(s: Seq<HashBucket>, x: HashBucket)
    ensures
        hbuckets_recs(s.push(x)) == hbuckets_recs(s).add(entries_recs(x.entries@)),
{
    assert(s.push(x).drop_last() =~= s);
    assert(s.push(x).last() == x);
}

/// The records of a one-path entry are one record.
proof fn lemma_single_entry_recs(e: InodeEntry, p: Seq<char>)
    requires
        e.dups.0@.len() == 1,
        e.dups.0@[0]@ == p,
    ensures
        entry_recs(e) == Multiset::empty().insert(Rec { id: e.id, path: p }),
{
    let m = e.dups.0@.map(|i: int, q: String| Rec { id: e.id, path: q@ });
    assert(m =~= Seq::empty().push(Rec { id: e.id, path: p }));
    broadcast use vstd::seq_lib::group_to_multiset_ensures;

    assert(Seq::<Rec>::empty().to_multiset() =~= Multiset::empty());
    assert(m.to_multiset() =~= Multiset::empty().insert(Rec { id: e.id, path: p }));
}

/// Appending a path to an entry's collection inserts one record.
proof fn lemma_entry_recs_grow(e: InodeEntry, e2: InodeEntry, p: Seq<char>)
    requires
        e2.id == e.id,
        e2.dups.0@.len() == e.dups.0@.len() + 1,
        forall|j: int| 0 <= j < e.dups.0@.len() ==> e2.dups.0@[j] == e.dups.0@[j],
        e2.dups.0@.last()@ == p,
    ensures
        entry_recs(e2) == entry_recs(e).insert(Rec { id: e.id, path: p }),
{
    let m = e.dups.0@.map(|i: int, q: String| Rec { id: e.id, path: q@ });
    let m2 = e2.dups.0@.map(|i: int, q: String| Rec { id: e2.id, path: q@ });
    assert(m2 =~= m.push(Rec { id: e.id, path: p }));
    broadcast use vstd::seq_lib::group_to_multiset_ensures;

    assert(m.push(Rec { id: e.id, path: p }).to_multiset() =~= m.to_multiset().insert(
        Rec { id: e.id, path: p },
    ));
}

/// Reads the zero-padded leading bytes of the file at `path`.
fn read_first_bytes(fs: &TestFileSystem, path: &str) -> (r: FirstBytes)
    requires
        fs.wf(),
        fs.has_readable(path@),
    ensures
        r.0@ == first_k(fs.file_at(path@).content_bytes()),
{
    match fs.get_file(path) {
        Ok(f) => match f.get_first_bytes() {
            Ok(fb) => fb,
            Err(_) => {
                proof {
                    assert(false);
                }
                FirstBytes(Vec::new())
            },
        },
        Err(_) => {
            proof {
                assert(false);
            }
            FirstBytes(Vec::new())
        },
    }
}

/// Reads the full-content digest of the file at `path`.
fn read_digest(fs: &TestFileSystem, kind: HashKind, path: &str) -> (r: Vec<u8>)
    requires
        fs.wf(),
        fs.has_readable(path@),
    ensures
        r@ == digest_of(kind, fs.file_at(path@).content_bytes()),
{
    match fs.get_file(path) {
        Ok(f) => match f.get_hash(kind) {
            Ok(h) => h,
            Err(_) => {
                proof {
                    assert(false);
                }
                Vec::new()
            },
        },
        Err(_) => {
            proof {
                assert(false);
            }
            Vec::new()
        },
    }
}

impl HashProxy {
    /// A proxy holding one deferred, unhashed file.
    pub fn new(id: ID, path: &str) -> (r: Self)
        ensures
            r.wf(),
            r.recs() == Multiset::empty().insert(Rec { id: id, path: path@ }),
            r is Pending,
            forall|fs: TestFileSystem, kind: HashKind|
                fs.has_readable(path@) ==> #[trigger] r.classified(fs, kind),
    {
        HashProxy::Pending { id, path: path.to_owned() }
    }

    /// Files `(id, path)` under its content digest, hashing the deferred
    /// file too when this is the second arrival.
    pub fn insert(&mut self, fs: &TestFileSystem, kind: HashKind, id: ID, path: &str)
        requires
            fs.wf(),
            old(self).wf(),
            fs.has_readable(path@),
            *old(self) matches HashProxy::Pending { id: i0, path: p0 } ==> fs.has_readable(p0@),
            old(self).classified(*fs, kind),
        ensures
            final(self).wf(),
            final(self).recs() == old(self).recs().insert(Rec { id: id, path: path@ }),
            *final(self) is Promoted,
            final(self).classified(*fs, kind),
    {
        let promoted = match self {
            HashProxy::Pending { id: id0, path: p0 } => {
                let id0 = *id0;
                let p0 = p0.clone();
                let d0 = read_digest(fs, kind, p0.as_str());
                let d1 = read_digest(fs, kind, path);
                let ghost rec0 = Rec { id: id0, path: p0@ };
                let ghost rec1 = Rec { id: id, path: path@ };
                let mut buckets: Vec<HashBucket> = Vec::new();
                if bytes_eq(&d0, &d1) {
                    if id0.dev == id.dev && id0.inode == id.inode {
                        // two names for one inode with one content
                        let mut ps: Vec<String> = Vec::new();
                        ps.push(p0);
                        ps.push(path.to_owned());
                        let e = InodeEntry { id: id0, dups: Duplicates(ps) };
                        let mut entries: Vec<InodeEntry> = Vec::new();
                        entries.push(e);
                        buckets.push(HashBucket { digest: d0, entries });
                        proof {
                            assert(id0 == id);
                            let b = buckets@[0];
                            let ent = b.entries@[0];
                            let m = ent.dups.0@.map(
                                |i: int, q: String| Rec { id: ent.id, path: q@ },
                            );
                            assert(m =~= Seq::empty().push(rec0).push(rec1));
                            broadcast use vstd::seq_lib::group_to_multiset_ensures;

                            assert(Seq::<Rec>::empty().to_multiset() =~= Multiset::empty());
                            assert(m.to_multiset() =~= Multiset::empty().insert(rec0).insert(
                                rec1,
                            ));
                            assert(entry_recs(ent) == m.to_multiset());
                            assert(b.entries@ =~= Seq::empty().push(ent));
                            lemma_entries_recs_push(Seq::empty(), ent);
                            assert(entries_recs(Seq::<InodeEntry>::empty()) == Multiset::<
                                Rec,
                            >::empty());
                            lemma_add_empty(entry_recs(ent));
                            assert(buckets@ =~= Seq::empty().push(b));
                            lemma_hbuckets_recs_push(Seq::empty(), b);
                            assert(hbuckets_recs(Seq::<HashBucket>::empty()) == Multiset::<
                                Rec,
                            >::empty());
                            lemma_add_empty(entries_recs(b.entries@));
                        }
                    } else {
                        // one digest, two inodes
                        let mut ps0: Vec<String> = Vec::new();
                        ps0.push(p0);
                        let mut ps1: Vec<String> = Vec::new();
                        ps1.push(path.to_owned());
                        let e0 = InodeEntry { id: id0, dups: Duplicates(ps0) };
                        let e1 = InodeEntry { id: id, dups: Duplicates(ps1) };
                        let mut entries: Vec<InodeEntry> = Vec::new();
                        entries.push(e0);
                        entries.push(e1);
                        buckets.push(HashBucket { digest: d0, entries });
                        proof {
                            let b = buckets@[0];
                            lemma_single_entry_recs(b.entries@[0], p0@);
                            lemma_single_entry_recs(b.entries@[1], path@);
                            assert(b.entries@ =~= Seq::empty().push(b.entries@[0]).push(
                                b.entries@[1],
                            ));
                            lemma_entries_recs_push(Seq::empty().push(b.entries@[0]), b.entries@[1]);
                            lemma_entries_recs_push(Seq::empty(), b.entries@[0]);
                            assert(entries_recs(Seq::<InodeEntry>::empty()) == Multiset::<
                                Rec,
                            >::empty());
                            lemma_add_empty(entry_recs(b.entries@[0]));
                            lemma_two_singles(rec0, rec1);
                            assert(entries_recs(b.entries@) == Multiset::empty().insert(
                                rec0,
                            ).insert(rec1));
                            assert(buckets@ =~= Seq::empty().push(b));
                            lemma_hbuckets_recs_push(Seq::empty(), b);
                            assert(hbuckets_recs(Seq::<HashBucket>::empty()) == Multiset::<
                                Rec,
                            >::empty());
                            lemma_add_empty(entries_recs(b.entries@));
                        }
                    }
                } else {
                    // two digests, one pending entry each
                    let mut ps0: Vec<String> = Vec::new();
                    ps0.push(p0);
                    let mut ps1: Vec<String> = Vec::new();
                    ps1.push(path.to_owned());
                    let e0 = InodeEntry { id: id0, dups: Duplicates(ps0) };
                    let e1 = InodeEntry { id: id, dups: Duplicates(ps1) };
                    let mut entries0: Vec<InodeEntry> = Vec::new();
                    entries0.push(e0);
                    let mut entries1: Vec<InodeEntry> = Vec::new();
                    entries1.push(e1);
                    buckets.push(HashBucket { digest: d0, entries: entries0 });
                    buckets.push(HashBucket { digest: d1, entries: entries1 });
                    proof {
                        let b0 = buckets@[0];
                        let b1 = buckets@[1];
                        lemma_single_entry_recs(b0.entries@[0], p0@);
                        lemma_single_entry_recs(b1.entries@[0], path@);
                        assert(b0.entries@ =~= Seq::empty().push(b0.entries@[0]));
                        assert(b1.entries@ =~= Seq::empty().push(b1.entries@[0]));
                        lemma_entries_recs_push(Seq::empty(), b0.entries@[0]);
                        lemma_entries_recs_push(Seq::empty(), b1.entries@[0]);
                        assert(buckets@ =~= Seq::empty().push(b0).push(b1));
                        lemma_hbuckets_recs_push(Seq::empty(), b0);
                        lemma_hbuckets_recs_push(Seq::empty().push(b0), b1);
                        assert(entries_recs(Seq::<InodeEntry>::empty()) == Multiset::<
                            Rec,
                        >::empty());
                        assert(hbuckets_recs(Seq::<HashBucket>::empty()) == Multiset::<
                            Rec,
                        >::empty());
                        let m0 = Multiset::empty().insert(rec0);
                        let m1 = Multiset::empty().insert(rec1);
                        assert(hbuckets_recs(buckets@) == Multiset::empty().add(m0).add(m1));
                        assert forall|v: Rec|
                            Multiset::empty().add(m0).add(m1).count(v) == m0.insert(
                                rec1,
                            ).count(v) by {
                            assert(Multiset::empty().add(m0).add(m1).count(v)
                                == Multiset::empty().add(m0).count(v) + m1.count(v));
                            assert(Multiset::empty().add(m0).count(v) == Multiset::<
                                Rec,
                            >::empty().count(v) + m0.count(v));
                        }
                        assert(Multiset::empty().add(m0).add(m1) =~= m0.insert(rec1));
                    }
                }
                HashProxy::Promoted { buckets }
            },
            HashProxy::Promoted { buckets } => {
                let d = read_digest(fs, kind, path);
                let ghost rec1 = Rec { id: id, path: path@ };
                let ghost oldbuckets = buckets@;
                let mut bi: usize = 0;
                let mut found = false;
                while bi < buckets.len() && !found
                    invariant
                        bi <= buckets@.len(),
                        found ==> bi < buckets@.len() && buckets@[bi as int].digest@ == d@,
                        !found ==> forall|j: int| 0 <= j < bi ==> buckets@[j].digest@ != d@,
                        d@ == digest_of(kind, fs.file_at(path@).content_bytes()),
                    decreases buckets@.len() - bi + if found { 0int } else { 1int },
                {
                    if bytes_eq(&buckets[bi].digest, &d) {
                        found = true;
                    } else {
                        bi = bi + 1;
                    }
                }
                if found {
                    // an existing digest bucket takes the file
                    let mut bucket = buckets.remove(bi);
                    let ghost oldbucket = bucket;
                    let mut ei: usize = 0;
                    let mut efound = false;
                    while ei < bucket.entries.len() && !efound
                        invariant
                            ei <= bucket.entries@.len(),
                            bucket == oldbucket,
                            efound ==> ei < bucket.entries@.len() && bucket.entries@[ei as int].id
                                == id,
                            !efound ==> forall|j: int| 0 <= j < ei ==> bucket.entries@[j].id != id,
                        decreases bucket.entries@.len() - ei + if efound { 0int } else { 1int },
                    {
                        let e = &bucket.entries[ei];
                        if e.id.dev == id.dev && e.id.inode == id.inode {
                            efound = true;
                        } else {
                            ei = ei + 1;
                        }
                    }
                    if efound {
                        // a known inode: one more name for it
                        let mut entry = bucket.entries.remove(ei);
                        let ghost oldentry = entry;
                        entry.dups.0.push(path.to_owned());
                        proof {
                            lemma_entry_recs_grow(oldentry, entry, path@);
                        }
                        bucket.entries.insert(ei, entry);
                        proof {
                            assert(bucket.entries@ =~= oldbucket.entries@.update(
                                ei as int,
                                bucket.entries@[ei as int],
                            ));
                            lemma_entries_recs_update(
                                oldbucket.entries@,
                                ei as int,
                                bucket.entries@[ei as int],
                            );
                            let r_e = entry_recs(oldbucket.entries@[ei as int]);
                            let e_old = entries_recs(oldbucket.entries@);
                            let e_new = entries_recs(bucket.entries@);
                            assert(e_new.add(r_e) == e_old.add(r_e.insert(rec1)));
                            lemma_add_insert(e_old, r_e, rec1);
                            lemma_multiset_cancel(e_new, e_old.insert(rec1), r_e);
                        }
                    } else {
                        // a new inode under a known digest
                        let mut ps: Vec<String> = Vec::new();
                        ps.push(path.to_owned());
                        let e = InodeEntry { id, dups: Duplicates(ps) };
                        proof {
                            lemma_single_entry_recs(e, path@);
                            lemma_entries_recs_push(oldbucket.entries@, e);
                        }
                        bucket.entries.push(e);
                    }
                    buckets.insert(bi, bucket);
                    proof {
                        assert(buckets@ =~= oldbuckets.update(bi as int, buckets@[bi as int]));
                        lemma_hbuckets_recs_update(oldbuckets, bi as int, buckets@[bi as int]);
                        let oldrecs = hbuckets_recs(oldbuckets);
                        let e_old = entries_recs(oldbuckets[bi as int].entries@);
                        let e_new = entries_recs(buckets@[bi as int].entries@);
                        assert(e_new == e_old.insert(rec1));
                        assert(hbuckets_recs(buckets@).add(e_old) == oldrecs.add(e_new));
                        lemma_add_insert(oldrecs, e_old, rec1);
                        lemma_multiset_cancel(
                            hbuckets_recs(buckets@),
                            oldrecs.insert(rec1),
                            e_old,
                        );
                    }
                } else {
                    // a new digest: a fresh bucket with one pending inode
                    let mut ps: Vec<String> = Vec::new();
                    ps.push(path.to_owned());
                    let e = InodeEntry { id, dups: Duplicates(ps) };
                    let mut entries: Vec<InodeEntry> = Vec::new();
                    entries.push(e);
                    let b = HashBucket { digest: d, entries };
                    proof {
                        lemma_single_entry_recs(e, path@);
                        lemma_entries_recs_push(Seq::empty(), e);
                        lemma_hbuckets_recs_push(oldbuckets, b);
                        assert(b.entries@ =~= Seq::empty().push(e));
                    }
                    buckets.push(b);
                }
                return ;
            },
        };
        *self = promoted;
    }
}


/// Stepping a bucket table's groups one bucket at a time.
proof fn lemma_hgroups_take_step(s: Seq<HashBucket>, i: int)
    requires
        0 <= i < s.len(),
    ensures
        hbuckets_groups(s.take(i + 1)) == hbuckets_groups(s.take(i)) + bucket_groups(s[i]),
{
    assert(s.take(i + 1).drop_last() =~= s.take(i));
    assert(s.take(i + 1).last() == s[i]);
}

impl HashProxy {
    /// Every `Duplicates` of every digest shared by at least two distinct
    /// inodes, in table order.
    pub fn get_repeats(&self) -> (r: Vec<Duplicates>)
        ensures
            r@.len() == self.groups().len(),
            forall|k: int| 0 <= k < r@.len() ==> r@[k].0@ == self.groups()[k].dups.0@,
    {
        match self {
            HashProxy::Pending { .. } => Vec::new(),
            HashProxy::Promoted { buckets } => {
                let ghost bs = buckets@;
                let mut out: Vec<Duplicates> = Vec::new();
                let mut i: usize = 0;
                while i < buckets.len()
                    invariant
                        i <= bs.len(),
                        bs == buckets@,
                        out@.len() == hbuckets_groups(bs.take(i as int)).len(),
                        forall|k: int|
                            0 <= k < out@.len() ==> out@[k].0@ == hbuckets_groups(
                                bs.take(i as int),
                            )[k].dups.0@,
                    decreases bs.len() - i,
                {
                    proof {
                        lemma_hgroups_take_step(bs, i as int);
                    }
                    if buckets[i].entries.len() >= 2 {
                        let ghost base = hbuckets_groups(bs.take(i as int));
                        let entries = &buckets[i].entries;
                        let mut j: usize = 0;
                        while j < entries.len()
                            invariant
                                j <= entries@.len(),
                                entries@ == bs[i as int].entries@,
                                i < bs.len(),
                                bs == buckets@,
                                entries@.len() >= 2,
                                base == hbuckets_groups(bs.take(i as int)),
                                out@.len() == base.len() + j,
                                forall|k: int|
                                    0 <= k < base.len() ==> out@[k].0@ == base[k].dups.0@,
                                forall|k: int|
                                    0 <= k < j ==> out@[base.len() + k].0@
                                        == bs[i as int].entries@[k].dups.0@,
                            decreases entries@.len() - j,
                        {
                            out.push(entries[j].dups.clone());
                            j = j + 1;
                        }
                    }
                    i = i + 1;
                }
                proof {
                    assert(bs.take(bs.len() as int) =~= bs);
                }
                out
            },
        }
    }
}

/// Every file the digest tier has absorbed is a readable file of `fs`
/// whose zero-padded leading bytes read `fbkey`.
pub open spec fn hp_all_first_k(p: HashProxy, fs: TestFileSystem, fbkey: Seq<u8>) -> bool {
    forall|r: Rec|
        #[trigger] p.recs().count(r) > 0 ==> fs.has_readable(r.path) && first_k(
            fs.file_at(r.path).content_bytes(),
        ) == fbkey
}

/// One leading-bytes bucket: the files whose first bytes matched, managed
/// by a digest tier of their own.
#[derive(Debug)]
pub struct FbBucket {
    pub first_bytes: FirstBytes,
    pub proxy: HashProxy,
}

/// The records a table of leading-bytes buckets contributes.
pub open spec fn fbuckets_recs(s: Seq<FbBucket>) -> Multiset<Rec>
    decreases s.len(),
{
    if s.len() == 0 {
        Multiset::empty()
    } else {
        fbuckets_recs(s.drop_last()).add(s.last().proxy.recs())
    }
}

/// The groups a table of leading-bytes buckets reports.
pub open spec fn fbuckets_groups(s: Seq<FbBucket>) -> Seq<DupGroup>
    decreases s.len(),
{
    if s.len() == 0 {
        Seq::empty()
    } else {
        fbuckets_groups(s.drop_last()) + s.last().proxy.groups()
    }
}

/// The second classification tier, keyed by the first `FIRST_K_BYTES` of
/// content. It defers reading until a second file lands on it.
#[derive(Debug)]
pub enum FirstKBytesProxy {
    /// One file, nothing read yet.
    Pending { id: ID, path: String },
    /// Two or more files, filed by leading bytes.
    Promoted { buckets: Vec<FbBucket> },
}

impl FirstKBytesProxy {
    /// Every insertion this proxy has absorbed.
    pub open spec fn recs(self) -> Multiset<Rec> {
        match self {
            FirstKBytesProxy::Pending { id, path } => Multiset::empty().insert(
                Rec { id: id, path: path@ },
            ),
            FirstKBytesProxy::Promoted { buckets } => fbuckets_recs(buckets@),
        }
    }

    /// Sound: leading bytes are distinct keys and every digest tier below
    /// is sound.
    pub open spec fn wf(self) -> bool {
        match self {
            FirstKBytesProxy::Pending { .. } => true,
            FirstKBytesProxy::Promoted { buckets } => {
                &&& forall|i: int, j: int|
                    0 <= i < j < buckets@.len() ==> buckets@[i].first_bytes.0@
                        != buckets@[j].first_bytes.0@
                &&& forall|i: int| 0 <= i < buckets@.len() ==> (#[trigger] buckets@[i].proxy).wf()
            },
        }
    }

    /// The groups this proxy reports.
    pub open spec fn groups(self) -> Seq<DupGroup> {
        match self {
            FirstKBytesProxy::Pending { .. } => Seq::empty(),
            FirstKBytesProxy::Promoted { buckets } => fbuckets_groups(buckets@),
        }
    }

    /// Classified against `fs`: the deferred file is readable; every
    /// leading-bytes bucket's key is the zero-padded prefix of every file
    /// filed under it, and every digest tier below is classified too.
    pub open spec fn classified(self, fs: TestFileSystem, kind: HashKind) -> bool {
        match self {
            FirstKBytesProxy::Pending { id, path } => fs.has_readable(path@),
            FirstKBytesProxy::Promoted { buckets } => forall|i: int|
                0 <= i < buckets@.len() ==> (#[trigger] buckets@[i]).proxy.classified(fs, kind)
                    && hp_all_first_k(buckets@[i].proxy, fs, buckets@[i].first_bytes.0@),
        }
    }

    /// A proxy holding one deferred, unread file.
    pub fn new(id: ID, path: &str) -> (r: Self)
        ensures
            r.wf(),
            r.recs() == Multiset::empty().insert(Rec { id: id, path: path@ }),
            r is Pending,
            forall|fs: TestFileSystem, kind: HashKind|
                fs.has_readable(path@) ==> #[trigger] r.classified(fs, kind),
    {
        FirstKBytesProxy::Pending { id, path: path.to_owned() }
    }
}

/// Updating one leading-bytes bucket trades its old records for new ones.
proof fn lemma_fbuckets_recs_update(s: Seq<FbBucket>, i: int, x: FbBucket)
    requires
        0 <= i < s.len(),
    ensures
        fbuckets_recs(s.update(i, x)).add(s[i].proxy.recs()) == fbuckets_recs(s).add(
            x.proxy.recs(),
        ),
    decreases s.len(),
{
    let u = s.update(i, x);
    if i == s.len() - 1 {
        assert(u.drop_last() =~= s.drop_last());
        assert(u.last() == x);
        assert(fbuckets_recs(u) == fbuckets_recs(s.drop_last()).add(x.proxy.recs()));
        assert(fbuckets_recs(s) == fbuckets_recs(s.drop_last()).add(s[i].proxy.recs()));
        lemma_add_swap(fbuckets_recs(s.drop_last()), x.proxy.recs(), s[i].proxy.recs());
    } else {
        assert(u.drop_last() =~= s.drop_last().update(i, x));
        assert(u.last() == s.last());
        lemma_fbuckets_recs_update(s.drop_last(), i, x);
        let dl = s.drop_last();
        let f_upd = fbuckets_recs(dl.update(i, x));
        assert(fbuckets_recs(u) == f_upd.add(s.last().proxy.recs()));
        assert(fbuckets_recs(s) == fbuckets_recs(dl).add(s.last().proxy.recs()));
        lemma_add_swap(f_upd, s.last().proxy.recs(), s[i].proxy.recs());
        assert(fbuckets_recs(u).add(s[i].proxy.recs()) == f_upd.add(s[i].proxy.recs()).add(
            s.last().proxy.recs(),
        ));
        assert(f_upd.add(s[i].proxy.recs()) == fbuckets_recs(dl).add(x.proxy.recs()));
        lemma_add_swap(fbuckets_recs(dl), x.proxy.recs(), s.last().proxy.recs());
    }
}

/// Appending a leading-bytes bucket adds its records.
proof fn lemma_fbuckets_recs_push(s: Seq<FbBucket>, x: FbBucket)
    ensures
        fbuckets_recs(s.push(x)) == fbuckets_recs(s).add(x.proxy.recs()),
{
    assert(s.push(x).drop_last() =~= s);
    assert(s.push(x).last() == x);
}

/// A sub-proxy's records are contained in its table's records.
proof fn lemma_fbuckets_recs_contain(s: Seq<FbBucket>, i: int)
    requires
        0 <= i < s.len(),
    ensures
        forall|x: Rec| s[i].proxy.recs().count(x) <= fbuckets_recs(s).count(x),
    decreases s.len(),
{
    if i == s.len() - 1 {
        assert forall|x: Rec| s[i].proxy.recs().count(x) <= fbuckets_recs(s).count(x) by {
            assert(fbuckets_recs(s).count(x) == fbuckets_recs(s.drop_last()).count(x)
                + s.last().proxy.recs().count(x));
        }
    } else {
        lemma_fbuckets_recs_contain(s.drop_last(), i);
        assert(s.drop_last()[i] == s[i]);
        assert forall|x: Rec| s[i].proxy.recs().count(x) <= fbuckets_recs(s).count(x) by {
            assert(s[i].proxy.recs().count(x) <= fbuckets_recs(s.drop_last()).count(x));
            assert(fbuckets_recs(s).count(x) == fbuckets_recs(s.drop_last()).count(x)
                + s.last().proxy.recs().count(x));
        }
    }
}

/// Stepping a leading-bytes table's groups one bucket at a time.
proof fn lemma_fgroups_take_step(s: Seq<FbBucket>, i: int)
    requires
        0 <= i < s.len(),
    ensures
        fbuckets_groups(s.take(i + 1)) == fbuckets_groups(s.take(i)) + s[i].proxy.groups(),
{
    assert(s.take(i + 1).drop_last() =~= s.take(i));
    assert(s.take(i + 1).last() == s[i]);
}

impl FirstKBytesProxy {
    /// Files `(id, path)` under its leading bytes, reading the deferred
    /// file too when this is the second arrival.
    pub fn insert(&mut self, fs: &TestFileSystem, kind: HashKind, id: ID, path: &str)
        requires
            fs.wf(),
            old(self).wf(),
            fs.has_readable(path@),
            forall|r: Rec| old(self).recs().count(r) > 0 ==> fs.has_readable(r.path),
            old(self).classified(*fs, kind),
        ensures
            final(self).wf(),
            final(self).recs() == old(self).recs().insert(Rec { id: id, path: path@ }),
            *final(self) is Promoted,
            final(self).classified(*fs, kind),
    {
        let ghost rec1 = Rec { id: id, path: path@ };
        let promoted = match self {
            FirstKBytesProxy::Pending { id: id0, path: p0 } => {
                let id0 = *id0;
                let p0 = p0.clone();
                let ghost rec0 = Rec { id: id0, path: p0@ };
                proof {
                    assert(old(self).recs().count(rec0) > 0);
                    assert(fs.has_readable(rec0.path));
                }
                let fb0 = read_first_bytes(fs, p0.as_str());
                let fb1 = read_first_bytes(fs, path);
                let mut buckets: Vec<FbBucket> = Vec::new();
                if bytes_eq(&fb0.0, &fb1.0) {
                    // both files share their leading bytes: one bucket,
                    // whose digest tier promotes at once
                    let mut hp = HashProxy::new(id0, p0.as_str());
                    hp.insert(fs, kind, id, path);
                    buckets.push(FbBucket { first_bytes: fb0, proxy: hp });
                    proof {
                        let b = buckets@[0];
                        assert(buckets@ =~= Seq::empty().push(b));
                        lemma_fbuckets_recs_push(Seq::empty(), b);
                        assert(fbuckets_recs(Seq::<FbBucket>::empty()) == Multiset::<
                            Rec,
                        >::empty());
                        lemma_add_empty(b.proxy.recs());
                    }
                } else {
                    // distinct leading bytes: two buckets, each deferred
                    let hp0 = HashProxy::new(id0, p0.as_str());
                    let hp1 = HashProxy::new(id, path);
                    buckets.push(FbBucket { first_bytes: fb0, proxy: hp0 });
                    buckets.push(FbBucket { first_bytes: fb1, proxy: hp1 });
                    proof {
                        let b0 = buckets@[0];
                        let b1 = buckets@[1];
                        assert(buckets@ =~= Seq::empty().push(b0).push(b1));
                        lemma_fbuckets_recs_push(Seq::empty(), b0);
                        lemma_fbuckets_recs_push(Seq::empty().push(b0), b1);
                        assert(fbuckets_recs(Seq::<FbBucket>::empty()) == Multiset::<
                            Rec,
                        >::empty());
                        lemma_add_empty(b0.proxy.recs());
                        lemma_two_singles(rec0, rec1);
                    }
                }
                FirstKBytesProxy::Promoted { buckets }
            },
            FirstKBytesProxy::Promoted { buckets } => {
                let fb = read_first_bytes(fs, path);
                let ghost oldbuckets = buckets@;
                let mut bi: usize = 0;
                let mut found = false;
                while bi < buckets.len() && !found
                    invariant
                        bi <= buckets@.len(),
                        found ==> bi < buckets@.len() && buckets@[bi as int].first_bytes.0@
                            == fb.0@,
                        !found ==> forall|j: int|
                            0 <= j < bi ==> buckets@[j].first_bytes.0@ != fb.0@,
                    decreases buckets@.len() - bi + if found { 0int } else { 1int },
                {
                    if bytes_eq(&buckets[bi].first_bytes.0, &fb.0) {
                        found = true;
                    } else {
                        bi = bi + 1;
                    }
                }
                if found {
                    // the digest tier under these leading bytes takes it
                    let mut bucket = buckets.remove(bi);
                    proof {
                        lemma_fbuckets_recs_contain(oldbuckets, bi as int);
                        let ghost bp = bucket.proxy;
                        match bp {
                            HashProxy::Pending { id: pid, path: pp } => {
                                let rp = Rec { id: pid, path: pp@ };
                                assert(bp.recs().count(rp) > 0);
                                assert(fbuckets_recs(oldbuckets).count(rp) > 0);
                                assert(fs.has_readable(rp.path));
                            },
                            HashProxy::Promoted { .. } => {},
                        }
                    }
                    bucket.proxy.insert(fs, kind, id, path);
                    buckets.insert(bi, bucket);
                    proof {
                        assert(buckets@ =~= oldbuckets.update(bi as int, buckets@[bi as int]));
                        lemma_fbuckets_recs_update(oldbuckets, bi as int, buckets@[bi as int]);
                        let oldrecs = fbuckets_recs(oldbuckets);
                        let p_old = oldbuckets[bi as int].proxy.recs();
                        let p_new = buckets@[bi as int].proxy.recs();
                        assert(p_new == p_old.insert(rec1));
                        assert(fbuckets_recs(buckets@).add(p_old) == oldrecs.add(p_new));
                        lemma_add_insert(oldrecs, p_old, rec1);
                        lemma_multiset_cancel(
                            fbuckets_recs(buckets@),
                            oldrecs.insert(rec1),
                            p_old,
                        );
                    }
                } else {
                    // fresh leading bytes: a new deferred digest tier
                    let hp = HashProxy::new(id, path);
                    let b = FbBucket { first_bytes: fb, proxy: hp };
                    proof {
                        lemma_fbuckets_recs_push(oldbuckets, b);
                    }
                    buckets.push(b);
                }
                return ;
            },
        };
        *self = promoted;
    }

    /// Every `Duplicates` reported by the digest tiers below, in table
    /// order.
    pub fn get_repeats(&self) -> (r: Vec<Duplicates>)
        ensures
            r@.len() == self.groups().len(),
            forall|k: int| 0 <= k < r@.len() ==> r@[k].0@ == self.groups()[k].dups.0@,
    {
        match self {
            FirstKBytesProxy::Pending { .. } => Vec::new(),
            FirstKBytesProxy::Promoted { buckets } => {
                let ghost bs = buckets@;
                let mut out: Vec<Duplicates> = Vec::new();
                let mut i: usize = 0;
                while i < buckets.len()
                    invariant
                        i <= bs.len(),
                        bs == buckets@,
                        out@.len() == fbuckets_groups(bs.take(i as int)).len(),
                        forall|k: int|
                            0 <= k < out@.len() ==> out@[k].0@ == fbuckets_groups(
                                bs.take(i as int),
                            )[k].dups.0@,
                    decreases bs.len() - i,
                {
                    proof {
                        lemma_fgroups_take_step(bs, i as int);
                    }
                    let ghost base = fbuckets_groups(bs.take(i as int));
                    let mut sub = buckets[i].proxy.get_repeats();
                    let ghost subs = sub@;
                    let mut j: usize = 0;
                    while j < sub.len()
                        invariant
                            j <= subs.len(),
                            subs == sub@,
                            i < bs.len(),
                            bs == buckets@,
                            subs.len() == bs[i as int].proxy.groups().len(),
                            forall|k: int|
                                0 <= k < subs.len() ==> subs[k].0@ == bs[i as int].proxy.groups(
                                )[k].dups.0@,
                            base == fbuckets_groups(bs.take(i as int)),
                            out@.len() == base.len() + j,
                            forall|k: int| 0 <= k < base.len() ==> out@[k].0@ == base[k].dups.0@,
                            forall|k: int|
                                0 <= k < j ==> out@[base.len() + k].0@ == bs[i as int].proxy.groups(
                                )[k].dups.0@,
                        decreases subs.len() - j,
                    {
                        let d = sub[j].clone();
                        out.push(d);
                        j = j + 1;
                    }
                    i = i + 1;
                }
                proof {
                    assert(bs.take(bs.len() as int) =~= bs);
                }
                out
            },
        }
    }
}

/// One size bucket: every file of one byte length, managed by a
/// leading-bytes tier.
#[derive(Debug)]
pub struct SizeBucket {
    pub size: u64,
    pub proxy: FirstKBytesProxy,
}

/// Every file the leading-bytes tier has absorbed is a readable file of
/// `fs` whose recorded metadata length is `size`.
pub open spec fn proxy_all_size(p: FirstKBytesProxy, fs: TestFileSystem, size: u64) -> bool {
    forall|r: Rec|
        #[trigger] p.recs().count(r) > 0 ==> fs.has_readable(r.path) && fs.file_at(
            r.path,
        ).metadata->Some_0.len == size
}

/// The records a table of size buckets contributes.
pub open spec fn sbuckets_recs(s: Seq<SizeBucket>) -> Multiset<Rec>
    decreases s.len(),
{
    if s.len() == 0 {
        Multiset::empty()
    } else {
        sbuckets_recs(s.drop_last()).add(s.last().proxy.recs())
    }
}

/// The groups a table of size buckets reports.
pub open spec fn sbuckets_groups(s: Seq<SizeBucket>) -> Seq<DupGroup>
    decreases s.len(),
{
    if s.len() == 0 {
        Seq::empty()
    } else {
        sbuckets_groups(s.drop_last()) + s.last().proxy.groups()
    }
}

/// Updating one size bucket trades its old records for new ones.
proof fn lemma_sbuckets_recs_update(s: Seq<SizeBucket>, i: int, x: SizeBucket)
    requires
        0 <= i < s.len(),
    ensures
        sbuckets_recs(s.update(i, x)).add(s[i].proxy.recs()) == sbuckets_recs(s).add(
            x.proxy.recs(),
        ),
    decreases s.len(),
{
    let u = s.update(i, x);
    if i == s.len() - 1 {
        assert(u.drop_last() =~= s.drop_last());
        assert(u.last() == x);
        assert(sbuckets_recs(u) == sbuckets_recs(s.drop_last()).add(x.proxy.recs()));
        assert(sbuckets_recs(s) == sbuckets_recs(s.drop_last()).add(s[i].proxy.recs()));
        lemma_add_swap(sbuckets_recs(s.drop_last()), x.proxy.recs(), s[i].proxy.recs());
    } else {
        assert(u.drop_last() =~= s.drop_last().update(i, x));
        assert(u.last() == s.last());
        lemma_sbuckets_recs_update(s.drop_last(), i, x);
        let dl = s.drop_last();
        let f_upd = sbuckets_recs(dl.update(i, x));
        assert(sbuckets_recs(u) == f_upd.add(s.last().proxy.recs()));
        assert(sbuckets_recs(s) == sbuckets_recs(dl).add(s.last().proxy.recs()));
        lemma_add_swap(f_upd, s.last().proxy.recs(), s[i].proxy.recs());
        assert(sbuckets_recs(u).add(s[i].proxy.recs()) == f_upd.add(s[i].proxy.recs()).add(
            s.last().proxy.recs(),
        ));
        assert(f_upd.add(s[i].proxy.recs()) == sbuckets_recs(dl).add(x.proxy.recs()));
        lemma_add_swap(sbuckets_recs(dl), x.proxy.recs(), s.last().proxy.recs());
    }
}

/// Appending a size bucket adds its records.
proof fn lemma_sbuckets_recs_push(s: Seq<SizeBucket>, x: SizeBucket)
    ensures
        sbuckets_recs(s.push(x)) == sbuckets_recs(s).add(x.proxy.recs()),
{
    assert(s.push(x).drop_last() =~= s);
    assert(s.push(x).last() == x);
}

/// A sub-proxy's records are contained in its table's records.
proof fn lemma_sbuckets_recs_contain(s: Seq<SizeBucket>, i: int)
    requires
        0 <= i < s.len(),
    ensures
        forall|x: Rec| s[i].proxy.recs().count(x) <= sbuckets_recs(s).count(x),
    decreases s.len(),
{
    if i == s.len() - 1 {
        assert forall|x: Rec| s[i].proxy.recs().count(x) <= sbuckets_recs(s).count(x) by {
            assert(sbuckets_recs(s).count(x) == sbuckets_recs(s.drop_last()).count(x)
                + s.last().proxy.recs().count(x));
        }
    } else {
        lemma_sbuckets_recs_contain(s.drop_last(), i);
        assert(s.drop_last()[i] == s[i]);
        assert forall|x: Rec| s[i].proxy.recs().count(x) <= sbuckets_recs(s).count(x) by {
            assert(s[i].proxy.recs().count(x) <= sbuckets_recs(s.drop_last()).count(x));
            assert(sbuckets_recs(s).count(x) == sbuckets_recs(s.drop_last()).count(x)
                + s.last().proxy.recs().count(x));
        }
    }
}

/// Stepping a size table's groups one bucket at a time.
proof fn lemma_sgroups_take_step(s: Seq<SizeBucket>, i: int)
    requires
        0 <= i < s.len(),
    ensures
        sbuckets_groups(s.take(i + 1)) == sbuckets_groups(s.take(i)) + s[i].proxy.groups(),
{
    assert(s.take(i + 1).drop_last() =~= s.take(i));
    assert(s.take(i + 1).last() == s[i]);
}

/// The identity the filesystem records for the file at `p`.
pub open spec fn spec_file_id(fs: TestFileSystem, p: Seq<char>) -> ID {
    fs.file_at(p).metadata->Some_0.id
}

/// The top of the catalog: files keyed by byte length, each length bucket
/// managed by a leading-bytes tier. Size is a perfect prefilter: files of
/// different lengths cannot be identical, so a file alone at its size is
/// never read at all.
#[derive(Debug)]
pub struct FileCataloger {
    pub kind: HashKind,
    pub catalog: Vec<SizeBucket>,
}

impl FileCataloger {
    /// Every insertion the catalog has absorbed.
    pub open spec fn recs(self) -> Multiset<Rec> {
        sbuckets_recs(self.catalog@)
    }

    /// The groups the catalog reports.
    pub open spec fn groups(self) -> Seq<DupGroup> {
        sbuckets_groups(self.catalog@)
    }

    /// Classified against `fs`: every size bucket's key is the recorded
    /// length of every file filed under it; below that, every
    /// leading-bytes key is the prefix of its files and every digest key
    /// is the content digest of its files. This is what ties the catalog's
    /// structure to the contents of `fs`; it holds as long as `fs` is not
    /// changed between inserts, as a catalog run expects.
    pub open spec fn classified(self, fs: TestFileSystem) -> bool {
        forall|i: int|
            0 <= i < self.catalog@.len() ==> proxy_all_size(
                (#[trigger] self.catalog@[i]).proxy,
                fs,
                self.catalog@[i].size,
            ) && self.catalog@[i].proxy.classified(fs, self.kind)
    }

    /// Sound: sizes are distinct keys and every tier below is sound.
    pub open spec fn wf(self) -> bool {
        &&& forall|i: int, j: int|
            0 <= i < j < self.catalog@.len() ==> self.catalog@[i].size != self.catalog@[j].size
        &&& forall|i: int|
            0 <= i < self.catalog@.len() ==> (#[trigger] self.catalog@[i].proxy).wf()
    }

    /// An empty catalog hashing with the chosen strategy.
    pub fn new(kind: HashKind) -> (r: Self)
        ensures
            r.wf(),
            r.kind == kind,
            r.recs() == Multiset::<Rec>::empty(),
            r.groups() == Seq::<DupGroup>::empty(),
            forall|fs: TestFileSystem| #[trigger] r.classified(fs),
    {
        FileCataloger { kind, catalog: Vec::new() }
    }

    /// Stats the file at `path` and files it by its byte length; tiers
    /// below read contents only when files collide.
    pub fn insert(&mut self, fs: &TestFileSystem, path: &str)
        requires
            fs.wf(),
            old(self).wf(),
            fs.has_readable(path@),
            forall|r: Rec| old(self).recs().count(r) > 0 ==> fs.has_readable(r.path),
            old(self).classified(*fs),
        ensures
            final(self).wf(),
            final(self).kind == old(self).kind,
            final(self).recs() == old(self).recs().insert(
                Rec { id: spec_file_id(*fs, path@), path: path@ },
            ),
            final(self).classified(*fs),
            // the path lands in the one bucket keyed by its recorded
            // length — grown in place, or created at the end — and every
            // other bucket is untouched
            ({
                let sz = fs.file_at(path@).metadata->Some_0.len;
                let rec = Rec { id: spec_file_id(*fs, path@), path: path@ };
                ||| (exists|ci: int|
                    {
                        &&& 0 <= ci < old(self).catalog@.len()
                        &&& (#[trigger] old(self).catalog@[ci]).size == sz
                        &&& final(self).catalog@ == old(self).catalog@.update(
                            ci,
                            final(self).catalog@[ci],
                        )
                        &&& final(self).catalog@[ci].size == sz
                        &&& final(self).catalog@[ci].proxy.recs() == old(
                            self,
                        ).catalog@[ci].proxy.recs().insert(rec)
                    })
                ||| ((forall|ci: int|
                    0 <= ci < old(self).catalog@.len() ==> (#[trigger] old(
                        self,
                    ).catalog@[ci]).size != sz) && final(self).catalog@ == old(
                    self,
                ).catalog@.push(final(self).catalog@.last()) && final(self).catalog@.last().size
                    == sz && final(self).catalog@.last().proxy.recs() == Multiset::empty().insert(
                    rec,
                ))
            }),
    {
        let file = match fs.get_file(path) {
            Ok(f) => f,
            Err(_) => {
                proof {
                    assert(false);
                }
                TestFile::new(path)
            },
        };
        let md = match file.get_metadata() {
            Ok(md) => md,
            Err(_) => {
                proof {
                    assert(false);
                }
                TestMD::new()
            },
        };
        let size: u64 = md.get_len();
        let id = ID { dev: md.get_device().0, inode: md.get_inode().0 };
        proof {
            assert(id == spec_file_id(*fs, path@));
        }
        let ghost rec1 = Rec { id: id, path: path@ };
        let ghost oldcat = self.catalog@;
        let mut ci: usize = 0;
        let mut found = false;
        while ci < self.catalog.len() && !found
            invariant
                ci <= self.catalog@.len(),
                self.catalog@ == oldcat,
                found ==> ci < oldcat.len() && oldcat[ci as int].size == size,
                !found ==> forall|j: int| 0 <= j < ci ==> oldcat[j].size != size,
            decreases oldcat.len() - ci + if found { 0int } else { 1int },
        {
            if self.catalog[ci].size == size {
                found = true;
            } else {
                ci = ci + 1;
            }
        }
        if found {
            // another file of this size came before: delegate
            let mut bucket = self.catalog.remove(ci);
            proof {
                lemma_sbuckets_recs_contain(oldcat, ci as int);
                assert forall|r: Rec| bucket.proxy.recs().count(r) > 0 implies fs.has_readable(
                    r.path,
                ) by {
                    assert(bucket.proxy.recs().count(r) <= sbuckets_recs(oldcat).count(r));
                }
            }
            bucket.proxy.insert(fs, self.kind, id, path);
            self.catalog.insert(ci, bucket);
            proof {
                assert(self.catalog@ =~= oldcat.update(ci as int, self.catalog@[ci as int]));
                let nb = self.catalog@[ci as int];
                assert(proxy_all_size(nb.proxy, *fs, nb.size)) by {
                    assert forall|r: Rec| #[trigger] nb.proxy.recs().count(r) > 0 implies
                        fs.has_readable(r.path) && fs.file_at(r.path).metadata->Some_0.len
                            == nb.size by {
                        let oldp = oldcat[ci as int].proxy;
                        assert(nb.proxy.recs().count(r) == oldp.recs().count(r) + if r == rec1 {
                            1int
                        } else {
                            0int
                        });
                        if oldp.recs().count(r) > 0 {
                            assert(proxy_all_size(oldp, *fs, oldcat[ci as int].size));
                        } else {
                            assert(r == rec1);
                        }
                    }
                }
                assert forall|i: int| 0 <= i < self.catalog@.len() implies proxy_all_size(
                    (#[trigger] self.catalog@[i]).proxy,
                    *fs,
                    self.catalog@[i].size,
                ) && self.catalog@[i].proxy.classified(*fs, self.kind) by {
                    if i != ci {
                        assert(self.catalog@[i] == oldcat[i]);
                        assert(proxy_all_size(oldcat[i].proxy, *fs, oldcat[i].size));
                        assert(oldcat[i].proxy.classified(*fs, self.kind));
                    }
                }
                lemma_sbuckets_recs_update(oldcat, ci as int, self.catalog@[ci as int]);
                let oldrecs = sbuckets_recs(oldcat);
                let p_old = oldcat[ci as int].proxy.recs();
                let p_new = self.catalog@[ci as int].proxy.recs();
                assert(p_new == p_old.insert(rec1));
                assert(sbuckets_recs(self.catalog@).add(p_old) == oldrecs.add(p_new));
                lemma_add_insert(oldrecs, p_old, rec1);
                lemma_multiset_cancel(
                    sbuckets_recs(self.catalog@),
                    oldrecs.insert(rec1),
                    p_old,
                );
            }
        } else {
            // the first file of this size: defer everything
            let proxy = FirstKBytesProxy::new(id, path);
            let b = SizeBucket { size, proxy };
            proof {
                lemma_sbuckets_recs_push(oldcat, b);
            }
            self.catalog.push(b);
            proof {
                let nb = self.catalog@.last();
                assert(proxy_all_size(nb.proxy, *fs, nb.size)) by {
                    assert forall|r: Rec| #[trigger] nb.proxy.recs().count(r) > 0 implies
                        fs.has_readable(r.path) && fs.file_at(r.path).metadata->Some_0.len
                            == nb.size by {
                        assert(nb.proxy.recs() == Multiset::empty().insert(rec1));
                        assert(nb.proxy.recs().count(r) == Multiset::<Rec>::empty().count(r)
                            + if r == rec1 {
                            1int
                        } else {
                            0int
                        });
                        assert(r == rec1);
                    }
                }
                assert forall|i: int| 0 <= i < self.catalog@.len() implies proxy_all_size(
                    (#[trigger] self.catalog@[i]).proxy,
                    *fs,
                    self.catalog@[i].size,
                ) && self.catalog@[i].proxy.classified(*fs, self.kind) by {
                    if i < oldcat.len() {
                        assert(self.catalog@[i] == oldcat[i]);
                        assert(proxy_all_size(oldcat[i].proxy, *fs, oldcat[i].size));
                        assert(oldcat[i].proxy.classified(*fs, self.kind));
                    } else {
                        assert(self.catalog@[i] == nb);
                    }
                }
            }
        }
    }

    /// Every `Duplicates` of every content class shared by at least two
    /// distinct inodes, in table order.
    pub fn get_repeats(&self) -> (r: Vec<Duplicates>)
        ensures
            r@.len() == self.groups().len(),
            forall|k: int| 0 <= k < r@.len() ==> r@[k].0@ == self.groups()[k].dups.0@,
    {
        let ghost bs = self.catalog@;
        let mut out: Vec<Duplicates> = Vec::new();
        let mut i: usize = 0;
        while i < self.catalog.len()
            invariant
                i <= bs.len(),
                bs == self.catalog@,
                out@.len() == sbuckets_groups(bs.take(i as int)).len(),
                forall|k: int|
                    0 <= k < out@.len() ==> out@[k].0@ == sbuckets_groups(
                        bs.take(i as int),
                    )[k].dups.0@,
            decreases bs.len() - i,
        {
            proof {
                lemma_sgroups_take_step(bs, i as int);
            }
            let ghost base = sbuckets_groups(bs.take(i as int));
            let sub = self.catalog[i].proxy.get_repeats();
            let ghost subs = sub@;
            let mut j: usize = 0;
            while j < sub.len()
                invariant
                    j <= subs.len(),
                    subs == sub@,
                    i < bs.len(),
                    bs == self.catalog@,
                    subs.len() == bs[i as int].proxy.groups().len(),
                    forall|k: int|
                        0 <= k < subs.len() ==> subs[k].0@ == bs[i as int].proxy.groups(
                        )[k].dups.0@,
                    base == sbuckets_groups(bs.take(i as int)),
                    out@.len() == base.len() + j,
                    forall|k: int| 0 <= k < base.len() ==> out@[k].0@ == base[k].dups.0@,
                    forall|k: int|
                        0 <= k < j ==> out@[base.len() + k].0@ == bs[i as int].proxy.groups(
                        )[k].dups.0@,
                decreases subs.len() - j,
            {
                let d = sub[j].clone();
                out.push(d);
                j = j + 1;
            }
            i = i + 1;
        }
        proof {
            assert(bs.take(bs.len() as int) =~= bs);
        }
        out
    }
}


/// One reported group is non-empty, and every path in it was inserted
/// under the group's one inode identity.
pub open spec fn group_backed(g: DupGroup, recs: Multiset<Rec>) -> bool {
    &&& g.dups.0@.len() >= 1
    &&& forall|j: int|
        0 <= j < g.dups.0@.len() ==> recs.count(
            Rec { id: g.id, path: (#[trigger] g.dups.0@[j])@ },
        ) > 0
}

/// Every reported group is backed by the records.
pub open spec fn groups_backed(gs: Seq<DupGroup>, recs: Multiset<Rec>) -> bool {
    forall|k: int| 0 <= k < gs.len() ==> group_backed(#[trigger] gs[k], recs)
}

/// Group `k` of `gs` has a companion with its digest and another inode
/// identity.
pub open spec fn group_paired(gs: Seq<DupGroup>, k: int) -> bool {
    exists|k2: int|
        0 <= k2 < gs.len() && (#[trigger] gs[k2]).digest == gs[k].digest && gs[k2].id != gs[k].id
}

/// Every reported group has a companion group with the same digest and a
/// different inode identity.
pub open spec fn groups_paired(gs: Seq<DupGroup>) -> bool {
    forall|k: int| 0 <= k < gs.len() ==> #[trigger] group_paired(gs, k)
}

/// Backing carries over concatenation against the summed records.
proof fn lemma_backed_concat(
    g1: Seq<DupGroup>,
    r1: Multiset<Rec>,
    g2: Seq<DupGroup>,
    r2: Multiset<Rec>,
)
    requires
        groups_backed(g1, r1),
        groups_backed(g2, r2),
    ensures
        groups_backed(g1 + g2, r1.add(r2)),
{
    let g = g1 + g2;
    let r = r1.add(r2);
    assert forall|k: int| 0 <= k < g.len() implies group_backed(#[trigger] g[k], r) by {
        if k < g1.len() {
            assert(g[k] == g1[k]);
            assert(group_backed(g1[k], r1));
            assert forall|j: int| 0 <= j < g[k].dups.0@.len() implies r.count(
                Rec { id: g[k].id, path: (#[trigger] g[k].dups.0@[j])@ },
            ) > 0 by {
                let x = Rec { id: g[k].id, path: g[k].dups.0@[j]@ };
                assert(r1.count(x) > 0);
                assert(r.count(x) == r1.count(x) + r2.count(x));
            }
        } else {
            assert(g[k] == g2[k - g1.len()]);
            assert(group_backed(g2[k - g1.len()], r2));
            assert forall|j: int| 0 <= j < g[k].dups.0@.len() implies r.count(
                Rec { id: g[k].id, path: (#[trigger] g[k].dups.0@[j])@ },
            ) > 0 by {
                let x = Rec { id: g[k].id, path: g[k].dups.0@[j]@ };
                assert(r2.count(x) > 0);
                assert(r.count(x) == r1.count(x) + r2.count(x));
            }
        }
    }
}

/// Pairing carries over concatenation.
#[verifier::rlimit(50)]
proof fn lemma_paired_concat(g1: Seq<DupGroup>, g2: Seq<DupGroup>)
    requires
        groups_paired(g1),
        groups_paired(g2),
    ensures
        groups_paired(g1 + g2),
{
    let g = g1 + g2;
    assert forall|k: int| 0 <= k < g.len() implies #[trigger] group_paired(g, k) by {
        if k < g1.len() {
            assert(g1[k] == g[k]);
            assert(group_paired(g1, k));
            let k2 = choose|k2: int|
                0 <= k2 < g1.len() && (#[trigger] g1[k2]).digest == g1[k].digest && g1[k2].id
                    != g1[k].id;
            assert(g[k2] == g1[k2]);
            assert(0 <= k2 < g.len() && g[k2].digest == g[k].digest && g[k2].id != g[k].id);
        } else {
            let kk = k - g1.len();
            assert(g2[kk] == g[k]);
            assert(group_paired(g2, kk));
            let k2 = choose|k2: int|
                0 <= k2 < g2.len() && (#[trigger] g2[k2]).digest == g2[kk].digest && g2[k2].id
                    != g2[kk].id;
            assert(g[k2 + g1.len()] == g2[k2]);
            assert(0 <= k2 + g1.len() < g.len() && g[k2 + g1.len()].digest == g[k].digest && g[k2
                + g1.len()].id != g[k].id);
        }
    }
    assert(groups_paired(g));
}

/// An entry's records are contained in its table's records.
proof fn lemma_entries_recs_contain(s: Seq<InodeEntry>, i: int)
    requires
        0 <= i < s.len(),
    ensures
        forall|x: Rec| entry_recs(s[i]).count(x) <= entries_recs(s).count(x),
    decreases s.len(),
{
    if i == s.len() - 1 {
        assert forall|x: Rec| entry_recs(s[i]).count(x) <= entries_recs(s).count(x) by {
            assert(entries_recs(s).count(x) == entries_recs(s.drop_last()).count(x) + entry_recs(
                s.last(),
            ).count(x));
        }
    } else {
        lemma_entries_recs_contain(s.drop_last(), i);
        assert(s.drop_last()[i] == s[i]);
        assert forall|x: Rec| entry_recs(s[i]).count(x) <= entries_recs(s).count(x) by {
            assert(entry_recs(s[i]).count(x) <= entries_recs(s.drop_last()).count(x));
            assert(entries_recs(s).count(x) == entries_recs(s.drop_last()).count(x) + entry_recs(
                s.last(),
            ).count(x));
        }
    }
}

/// A sound digest bucket reports groups that are backed and paired.
#[verifier::rlimit(50)]
proof fn lemma_bucket_groups_ok(b: HashBucket)
    requires
        hbucket_wf(b),
    ensures
        groups_backed(bucket_groups(b), entries_recs(b.entries@)),
        groups_paired(bucket_groups(b)),
{
    broadcast use vstd::seq_lib::group_to_multiset_ensures;

    let gs = bucket_groups(b);
    let recs = entries_recs(b.entries@);
    if b.entries@.len() >= 2 {
        assert forall|k: int| 0 <= k < gs.len() implies group_backed(#[trigger] gs[k], recs) by {
            let e = b.entries@[k];
            assert(gs[k].id == e.id && gs[k].dups == e.dups);
            lemma_entries_recs_contain(b.entries@, k);
            assert forall|j: int| 0 <= j < gs[k].dups.0@.len() implies recs.count(
                Rec { id: gs[k].id, path: (#[trigger] gs[k].dups.0@[j])@ },
            ) > 0 by {
                let m = e.dups.0@.map(|i: int, q: String| Rec { id: e.id, path: q@ });
                let x = Rec { id: e.id, path: e.dups.0@[j]@ };
                assert(m[j] == x);
                assert(m.contains(x));
                assert(m.to_multiset().count(x) > 0);
                assert(entry_recs(e).count(x) <= recs.count(x));
            }
        }
        assert forall|k: int| 0 <= k < gs.len() implies #[trigger] group_paired(gs, k) by {
            let k2: int = if k == 0 {
                1
            } else {
                0
            };
            assert(b.entries@[k2].id != b.entries@[k].id);
            assert(0 <= k2 < gs.len() && gs[k2].digest == gs[k].digest && gs[k2].id != gs[k].id);
        }
        assert(groups_paired(gs));
    }
}

/// A sound digest table reports groups that are backed and paired.
proof fn lemma_hbuckets_groups_ok(s: Seq<HashBucket>)
    requires
        forall|i: int| 0 <= i < s.len() ==> hbucket_wf(#[trigger] s[i]),
    ensures
        groups_backed(hbuckets_groups(s), hbuckets_recs(s)),
        groups_paired(hbuckets_groups(s)),
    decreases s.len(),
{
    if s.len() == 0 {
    } else {
        lemma_hbuckets_groups_ok(s.drop_last());
        lemma_bucket_groups_ok(s.last());
        lemma_backed_concat(
            hbuckets_groups(s.drop_last()),
            hbuckets_recs(s.drop_last()),
            bucket_groups(s.last()),
            entries_recs(s.last().entries@),
        );
        lemma_paired_concat(hbuckets_groups(s.drop_last()), bucket_groups(s.last()));
    }
}

/// A sound digest tier reports groups that are backed and paired.
proof fn lemma_hp_groups_ok(p: HashProxy)
    requires
        p.wf(),
    ensures
        groups_backed(p.groups(), p.recs()),
        groups_paired(p.groups()),
{
    match p {
        HashProxy::Pending { .. } => {},
        HashProxy::Promoted { buckets } => {
            lemma_hbuckets_groups_ok(buckets@);
        },
    }
}

/// A sound leading-bytes table reports groups that are backed and paired.
proof fn lemma_fbuckets_groups_ok(s: Seq<FbBucket>)
    requires
        forall|i: int| 0 <= i < s.len() ==> (#[trigger] s[i].proxy).wf(),
    ensures
        groups_backed(fbuckets_groups(s), fbuckets_recs(s)),
        groups_paired(fbuckets_groups(s)),
    decreases s.len(),
{
    if s.len() == 0 {
    } else {
        lemma_fbuckets_groups_ok(s.drop_last());
        lemma_hp_groups_ok(s.last().proxy);
        lemma_backed_concat(
            fbuckets_groups(s.drop_last()),
            fbuckets_recs(s.drop_last()),
            s.last().proxy.groups(),
            s.last().proxy.recs(),
        );
        lemma_paired_concat(fbuckets_groups(s.drop_last()), s.last().proxy.groups());
    }
}

/// A sound leading-bytes tier reports groups that are backed and paired.
proof fn lemma_fkb_groups_ok(p: FirstKBytesProxy)
    requires
        p.wf(),
    ensures
        groups_backed(p.groups(), p.recs()),
        groups_paired(p.groups()),
{
    match p {
        FirstKBytesProxy::Pending { .. } => {},
        FirstKBytesProxy::Promoted { buckets } => {
            lemma_fbuckets_groups_ok(buckets@);
        },
    }
}

/// A sound size table reports groups that are backed and paired.
proof fn lemma_sbuckets_groups_ok(s: Seq<SizeBucket>)
    requires
        forall|i: int| 0 <= i < s.len() ==> (#[trigger] s[i].proxy).wf(),
    ensures
        groups_backed(sbuckets_groups(s), sbuckets_recs(s)),
        groups_paired(sbuckets_groups(s)),
    decreases s.len(),
{
    if s.len() == 0 {
    } else {
        lemma_sbuckets_groups_ok(s.drop_last());
        lemma_fkb_groups_ok(s.last().proxy);
        lemma_backed_concat(
            sbuckets_groups(s.drop_last()),
            sbuckets_recs(s.drop_last()),
            s.last().proxy.groups(),
            s.last().proxy.recs(),
        );
        lemma_paired_concat(sbuckets_groups(s.drop_last()), s.last().proxy.groups());
    }
}

/// Law: every group the catalog reports is non-empty, all of its paths
/// were inserted under the group's one inode identity, and it shares its
/// digest with another reported group of a different inode identity — so
/// only content classes held by at least two distinct inodes are ever
/// reported.
pub proof fn lemma_repeats_backed_and_paired(c: FileCataloger)
    requires
        c.wf(),
    ensures
        groups_backed(c.groups(), c.recs()),
        groups_paired(c.groups()),
{
    lemma_sbuckets_groups_ok(c.catalog@);
}

/// Every path of the group is a readable file of `fs` whose whole
/// content digests to the group's digest under `kind`.
pub open spec fn group_content(g: DupGroup, fs: TestFileSystem, kind: HashKind) -> bool {
    forall|j: int|
        0 <= j < g.dups.0@.len() ==> fs.has_readable((#[trigger] g.dups.0@[j])@) && digest_of(
            kind,
            fs.file_at(g.dups.0@[j]@).content_bytes(),
        ) == g.digest
}

/// Every reported group carries the content digest of its paths.
pub open spec fn groups_content(gs: Seq<DupGroup>, fs: TestFileSystem, kind: HashKind) -> bool {
    forall|k: int| 0 <= k < gs.len() ==> group_content(#[trigger] gs[k], fs, kind)
}

/// Content carries over concatenation.
proof fn lemma_content_concat(
    g1: Seq<DupGroup>,
    g2: Seq<DupGroup>,
    fs: TestFileSystem,
    kind: HashKind,
)
    requires
        groups_content(g1, fs, kind),
        groups_content(g2, fs, kind),
    ensures
        groups_content(g1 + g2, fs, kind),
{
    let g = g1 + g2;
    assert forall|k: int| 0 <= k < g.len() implies group_content(#[trigger] g[k], fs, kind) by {
        if k < g1.len() {
            assert(g[k] == g1[k]);
        } else {
            assert(g[k] == g2[k - g1.len()]);
        }
    }
}

/// A classified digest bucket reports groups carrying content digests.
proof fn lemma_bucket_groups_content(b: HashBucket, fs: TestFileSystem, kind: HashKind)
    requires
        hbucket_in(b, fs, kind),
    ensures
        groups_content(bucket_groups(b), fs, kind),
{
    let gs = bucket_groups(b);
    if b.entries@.len() >= 2 {
        assert forall|k: int| 0 <= k < gs.len() implies group_content(
            #[trigger] gs[k],
            fs,
            kind,
        ) by {
            assert(entry_in(b.entries@[k], fs, kind, b.digest@));
            assert(gs[k].dups == b.entries@[k].dups && gs[k].digest == b.digest@);
        }
    }
}

/// A classified digest table reports groups carrying content digests.
proof fn lemma_hbuckets_groups_content(s: Seq<HashBucket>, fs: TestFileSystem, kind: HashKind)
    requires
        forall|i: int| 0 <= i < s.len() ==> hbucket_in(#[trigger] s[i], fs, kind),
    ensures
        groups_content(hbuckets_groups(s), fs, kind),
    decreases s.len(),
{
    if s.len() > 0 {
        lemma_hbuckets_groups_content(s.drop_last(), fs, kind);
        lemma_bucket_groups_content(s.last(), fs, kind);
        lemma_content_concat(hbuckets_groups(s.drop_last()), bucket_groups(s.last()), fs, kind);
    }
}

/// A classified digest tier reports groups carrying content digests.
proof fn lemma_hp_groups_content(p: HashProxy, fs: TestFileSystem, kind: HashKind)
    requires
        p.classified(fs, kind),
    ensures
        groups_content(p.groups(), fs, kind),
{
    match p {
        HashProxy::Pending { .. } => {},
        HashProxy::Promoted { buckets } => {
            lemma_hbuckets_groups_content(buckets@, fs, kind);
        },
    }
}

/// A classified leading-bytes table reports groups carrying content
/// digests.
proof fn lemma_fbuckets_groups_content(s: Seq<FbBucket>, fs: TestFileSystem, kind: HashKind)
    requires
        forall|i: int| 0 <= i < s.len() ==> (#[trigger] s[i]).proxy.classified(fs, kind),
    ensures
        groups_content(fbuckets_groups(s), fs, kind),
    decreases s.len(),
{
    if s.len() > 0 {
        lemma_fbuckets_groups_content(s.drop_last(), fs, kind);
        lemma_hp_groups_content(s.last().proxy, fs, kind);
        lemma_content_concat(
            fbuckets_groups(s.drop_last()),
            s.last().proxy.groups(),
            fs,
            kind,
        );
    }
}

/// A classified leading-bytes tier reports groups carrying content
/// digests.
proof fn lemma_fkb_groups_content(p: FirstKBytesProxy, fs: TestFileSystem, kind: HashKind)
    requires
        p.classified(fs, kind),
    ensures
        groups_content(p.groups(), fs, kind),
{
    match p {
        FirstKBytesProxy::Pending { .. } => {},
        FirstKBytesProxy::Promoted { buckets } => {
            lemma_fbuckets_groups_content(buckets@, fs, kind);
        },
    }
}

/// A classified size table reports groups carrying content digests.
proof fn lemma_sbuckets_groups_content(s: Seq<SizeBucket>, fs: TestFileSystem, kind: HashKind)
    requires
        forall|i: int| 0 <= i < s.len() ==> (#[trigger] s[i]).proxy.classified(fs, kind),
    ensures
        groups_content(sbuckets_groups(s), fs, kind),
    decreases s.len(),
{
    if s.len() > 0 {
        lemma_sbuckets_groups_content(s.drop_last(), fs, kind);
        lemma_fkb_groups_content(s.last().proxy, fs, kind);
        lemma_content_concat(
            sbuckets_groups(s.drop_last()),
            s.last().proxy.groups(),
            fs,
            kind,
        );
    }
}

/// Law: against the filesystem the catalog was fed from, every reported
/// group's digest is the content digest of every path in it — so, with
/// pairing, a group is reported only when its content digest is shared
/// with another reported inode: groups hold byte-identical files, up to
/// digest collision.
pub proof fn lemma_repeats_carry_content(c: FileCataloger, fs: TestFileSystem)
    requires
        c.wf(),
        c.classified(fs),
    ensures
        groups_content(c.groups(), fs, c.kind),
{
    lemma_sbuckets_groups_content(c.catalog@, fs, c.kind);
}

/// One of the paths of `d` reads `p`.
pub open spec fn dup_has(d: Duplicates, p: Seq<char>) -> bool {
    exists|j: int| 0 <= j < d.0@.len() && (#[trigger] d.0@[j])@ == p
}

/// A record in an entry table sits in an entry of its own inode identity.
proof fn lemma_entries_recs_locate(s: Seq<InodeEntry>, r: Rec)
    requires
        entries_recs(s).count(r) > 0,
    ensures
        exists|i: int| 0 <= i < s.len() && (#[trigger] s[i]).id == r.id && dup_has(s[i].dups, r.path),
    decreases s.len(),
{
    broadcast use vstd::seq_lib::group_to_multiset_ensures;

    assert(s.len() > 0);
    let e = s.last();
    let m = e.dups.0@.map(|i: int, q: String| Rec { id: e.id, path: q@ });
    assert(entries_recs(s).count(r) == entries_recs(s.drop_last()).count(r) + entry_recs(
        e,
    ).count(r));
    if entry_recs(e).count(r) > 0 {
        assert(m.to_multiset().count(r) > 0);
        assert(m.contains(r));
        let j = choose|j: int| 0 <= j < m.len() && m[j] == r;
        assert(e.dups.0@[j]@ == r.path && e.id == r.id);
        assert(dup_has(e.dups, r.path));
        assert(s[s.len() - 1] == e);
    } else {
        lemma_entries_recs_locate(s.drop_last(), r);
        let i = choose|i: int|
            0 <= i < s.drop_last().len() && (#[trigger] s.drop_last()[i]).id == r.id && dup_has(
                s.drop_last()[i].dups,
                r.path,
            );
        assert(s[i] == s.drop_last()[i]);
    }
}

/// A record in a digest table sits in one of its buckets.
proof fn lemma_hbuckets_recs_locate(s: Seq<HashBucket>, r: Rec)
    requires
        hbuckets_recs(s).count(r) > 0,
    ensures
        exists|b: int|
            0 <= b < s.len() && entries_recs((#[trigger] s[b]).entries@).count(r) > 0,
    decreases s.len(),
{
    assert(s.len() > 0);
    assert(hbuckets_recs(s).count(r) == hbuckets_recs(s.drop_last()).count(r) + entries_recs(
        s.last().entries@,
    ).count(r));
    if entries_recs(s.last().entries@).count(r) > 0 {
        assert(s[s.len() - 1] == s.last());
    } else {
        lemma_hbuckets_recs_locate(s.drop_last(), r);
        let b = choose|b: int|
            0 <= b < s.drop_last().len() && entries_recs(
                (#[trigger] s.drop_last()[b]).entries@,
            ).count(r) > 0;
        assert(s[b] == s.drop_last()[b]);
    }
}

/// A record in a leading-bytes table sits in one of its buckets.
proof fn lemma_fbuckets_recs_locate(s: Seq<FbBucket>, r: Rec)
    requires
        fbuckets_recs(s).count(r) > 0,
    ensures
        exists|b: int| 0 <= b < s.len() && (#[trigger] s[b]).proxy.recs().count(r) > 0,
    decreases s.len(),
{
    assert(s.len() > 0);
    assert(fbuckets_recs(s).count(r) == fbuckets_recs(s.drop_last()).count(r)
        + s.last().proxy.recs().count(r));
    if s.last().proxy.recs().count(r) > 0 {
        assert(s[s.len() - 1] == s.last());
    } else {
        lemma_fbuckets_recs_locate(s.drop_last(), r);
        let b = choose|b: int|
            0 <= b < s.drop_last().len() && (#[trigger] s.drop_last()[b]).proxy.recs().count(r)
                > 0;
        assert(s[b] == s.drop_last()[b]);
    }
}

/// A record in a size table sits in one of its buckets.
proof fn lemma_sbuckets_recs_locate(s: Seq<SizeBucket>, r: Rec)
    requires
        sbuckets_recs(s).count(r) > 0,
    ensures
        exists|b: int| 0 <= b < s.len() && (#[trigger] s[b]).proxy.recs().count(r) > 0,
    decreases s.len(),
{
    assert(s.len() > 0);
    assert(sbuckets_recs(s).count(r) == sbuckets_recs(s.drop_last()).count(r)
        + s.last().proxy.recs().count(r));
    if s.last().proxy.recs().count(r) > 0 {
        assert(s[s.len() - 1] == s.last());
    } else {
        lemma_sbuckets_recs_locate(s.drop_last(), r);
        let b = choose|b: int|
            0 <= b < s.drop_last().len() && (#[trigger] s.drop_last()[b]).proxy.recs().count(r)
                > 0;
        assert(s[b] == s.drop_last()[b]);
    }
}

/// The one record of a deferred tier.
proof fn lemma_singleton_count(r0: Rec, r: Rec)
    requires
        Multiset::empty().insert(r0).count(r) > 0,
    ensures
        r == r0,
{
    broadcast use vstd::multiset::group_multiset_axioms;

    if r != r0 {
        assert(Multiset::empty().insert(r0).count(r) == Multiset::<Rec>::empty().count(r));
    }
}

/// A group of one digest bucket appears among the table's groups.
proof fn lemma_hbuckets_groups_lift(s: Seq<HashBucket>, b: int, gi: int)
    requires
        0 <= b < s.len(),
        0 <= gi < bucket_groups(s[b]).len(),
    ensures
        exists|k: int|
            0 <= k < hbuckets_groups(s).len() && #[trigger] hbuckets_groups(s)[k] == bucket_groups(
                s[b],
            )[gi],
    decreases s.len(),
{
    if b == s.len() - 1 {
        let k = hbuckets_groups(s.drop_last()).len() + gi;
        assert(s[b] == s.last());
        assert(hbuckets_groups(s)[k] == bucket_groups(s[b])[gi]);
    } else {
        assert(s.drop_last()[b] == s[b]);
        lemma_hbuckets_groups_lift(s.drop_last(), b, gi);
        let k = choose|k: int|
            0 <= k < hbuckets_groups(s.drop_last()).len() && #[trigger] hbuckets_groups(
                s.drop_last(),
            )[k] == bucket_groups(s.drop_last()[b])[gi];
        assert(hbuckets_groups(s)[k] == hbuckets_groups(s.drop_last())[k]);
    }
}

/// A group of one leading-bytes bucket appears among the table's groups.
proof fn lemma_fbuckets_groups_lift(s: Seq<FbBucket>, b: int, gi: int)
    requires
        0 <= b < s.len(),
        0 <= gi < s[b].proxy.groups().len(),
    ensures
        exists|k: int|
            0 <= k < fbuckets_groups(s).len() && #[trigger] fbuckets_groups(s)[k]
                == s[b].proxy.groups()[gi],
    decreases s.len(),
{
    if b == s.len() - 1 {
        let k = fbuckets_groups(s.drop_last()).len() + gi;
        assert(s[b] == s.last());
        assert(fbuckets_groups(s)[k] == s[b].proxy.groups()[gi]);
    } else {
        assert(s.drop_last()[b] == s[b]);
        lemma_fbuckets_groups_lift(s.drop_last(), b, gi);
        let k = choose|k: int|
            0 <= k < fbuckets_groups(s.drop_last()).len() && #[trigger] fbuckets_groups(
                s.drop_last(),
            )[k] == s.drop_last()[b].proxy.groups()[gi];
        assert(fbuckets_groups(s)[k] == fbuckets_groups(s.drop_last())[k]);
    }
}

/// A group of one size bucket appears among the table's groups.
proof fn lemma_sbuckets_groups_lift(s: Seq<SizeBucket>, b: int, gi: int)
    requires
        0 <= b < s.len(),
        0 <= gi < s[b].proxy.groups().len(),
    ensures
        exists|k: int|
            0 <= k < sbuckets_groups(s).len() && #[trigger] sbuckets_groups(s)[k]
                == s[b].proxy.groups()[gi],
    decreases s.len(),
{
    if b == s.len() - 1 {
        let k = sbuckets_groups(s.drop_last()).len() + gi;
        assert(s[b] == s.last());
        assert(sbuckets_groups(s)[k] == s[b].proxy.groups()[gi]);
    } else {
        assert(s.drop_last()[b] == s[b]);
        lemma_sbuckets_groups_lift(s.drop_last(), b, gi);
        let k = choose|k: int|
            0 <= k < sbuckets_groups(s.drop_last()).len() && #[trigger] sbuckets_groups(
                s.drop_last(),
            )[k] == s.drop_last()[b].proxy.groups()[gi];
        assert(sbuckets_groups(s)[k] == sbuckets_groups(s.drop_last())[k]);
    }
}

/// Law: two recorded files of distinct inode identities whose recorded
/// lengths, leading bytes and content digests all agree are both
/// reported: each one's identity appears among the groups with its path.
pub proof fn lemma_equal_content_reported(c: FileCataloger, fs: TestFileSystem, r1: Rec, r2: Rec)
    requires
        c.wf(),
        c.classified(fs),
        c.recs().count(r1) > 0,
        c.recs().count(r2) > 0,
        r1.id != r2.id,
        fs.file_at(r1.path).metadata->Some_0.len == fs.file_at(r2.path).metadata->Some_0.len,
        first_k(fs.file_at(r1.path).content_bytes()) == first_k(
            fs.file_at(r2.path).content_bytes(),
        ),
        digest_of(c.kind, fs.file_at(r1.path).content_bytes()) == digest_of(
            c.kind,
            fs.file_at(r2.path).content_bytes(),
        ),
    ensures
        exists|k: int|
            0 <= k < c.groups().len() && (#[trigger] c.groups()[k]).id == r1.id && dup_has(
                c.groups()[k].dups,
                r1.path,
            ),
        exists|k: int|
            0 <= k < c.groups().len() && (#[trigger] c.groups()[k]).id == r2.id && dup_has(
                c.groups()[k].dups,
                r2.path,
            ),
{
    // both records sit in the one size bucket of their common length
    lemma_sbuckets_recs_locate(c.catalog@, r1);
    let ci1 = choose|b: int|
        0 <= b < c.catalog@.len() && (#[trigger] c.catalog@[b]).proxy.recs().count(r1) > 0;
    lemma_sbuckets_recs_locate(c.catalog@, r2);
    let ci2 = choose|b: int|
        0 <= b < c.catalog@.len() && (#[trigger] c.catalog@[b]).proxy.recs().count(r2) > 0;
    assert(proxy_all_size(c.catalog@[ci1].proxy, fs, c.catalog@[ci1].size));
    assert(proxy_all_size(c.catalog@[ci2].proxy, fs, c.catalog@[ci2].size));
    assert(c.catalog@[ci1].size == fs.file_at(r1.path).metadata->Some_0.len);
    assert(c.catalog@[ci2].size == fs.file_at(r2.path).metadata->Some_0.len);
    if ci1 != ci2 {
        if ci1 < ci2 {
            assert(c.catalog@[ci1].size != c.catalog@[ci2].size);
        } else {
            assert(c.catalog@[ci2].size != c.catalog@[ci1].size);
        }
        assert(false);
    }
    let ci = ci1;
    let p = c.catalog@[ci].proxy;
    assert(p.wf());
    assert(p.classified(fs, c.kind));
    match p {
        FirstKBytesProxy::Pending { id: pid, path: pp } => {
            lemma_singleton_count(Rec { id: pid, path: pp@ }, r1);
            lemma_singleton_count(Rec { id: pid, path: pp@ }, r2);
            assert(false);
        },
        FirstKBytesProxy::Promoted { buckets: fbs } => {
            // both records sit in the one bucket of their common prefix
            lemma_fbuckets_recs_locate(fbs@, r1);
            let fb1 = choose|b: int|
                0 <= b < fbs@.len() && (#[trigger] fbs@[b]).proxy.recs().count(r1) > 0;
            lemma_fbuckets_recs_locate(fbs@, r2);
            let fb2 = choose|b: int|
                0 <= b < fbs@.len() && (#[trigger] fbs@[b]).proxy.recs().count(r2) > 0;
            assert(hp_all_first_k(fbs@[fb1].proxy, fs, fbs@[fb1].first_bytes.0@));
            assert(hp_all_first_k(fbs@[fb2].proxy, fs, fbs@[fb2].first_bytes.0@));
            assert(fbs@[fb1].first_bytes.0@ == first_k(fs.file_at(r1.path).content_bytes()));
            assert(fbs@[fb2].first_bytes.0@ == first_k(fs.file_at(r2.path).content_bytes()));
            if fb1 != fb2 {
                if fb1 < fb2 {
                    assert(fbs@[fb1].first_bytes.0@ != fbs@[fb2].first_bytes.0@);
                } else {
                    assert(fbs@[fb2].first_bytes.0@ != fbs@[fb1].first_bytes.0@);
                }
                assert(false);
            }
            let hp = fbs@[fb1].proxy;
            assert(hp.wf());
            assert(hp.classified(fs, c.kind));
            match hp {
                HashProxy::Pending { id: pid, path: pp } => {
                    lemma_singleton_count(Rec { id: pid, path: pp@ }, r1);
                    lemma_singleton_count(Rec { id: pid, path: pp@ }, r2);
                    assert(false);
                },
                HashProxy::Promoted { buckets: hbs } => {
                    // both records sit in the one bucket of their common
                    // digest, under entries of their own identities
                    lemma_hbuckets_recs_locate(hbs@, r1);
                    let hb1 = choose|b: int|
                        0 <= b < hbs@.len() && entries_recs(
                            (#[trigger] hbs@[b]).entries@,
                        ).count(r1) > 0;
                    lemma_hbuckets_recs_locate(hbs@, r2);
                    let hb2 = choose|b: int|
                        0 <= b < hbs@.len() && entries_recs(
                            (#[trigger] hbs@[b]).entries@,
                        ).count(r2) > 0;
                    lemma_entries_recs_locate(hbs@[hb1].entries@, r1);
                    let i1 = choose|i: int|
                        0 <= i < hbs@[hb1].entries@.len() && (#[trigger] hbs@[hb1].entries@[i]).id
                            == r1.id && dup_has(hbs@[hb1].entries@[i].dups, r1.path);
                    lemma_entries_recs_locate(hbs@[hb2].entries@, r2);
                    let i2 = choose|i: int|
                        0 <= i < hbs@[hb2].entries@.len() && (#[trigger] hbs@[hb2].entries@[i]).id
                            == r2.id && dup_has(hbs@[hb2].entries@[i].dups, r2.path);
                    assert(hbucket_in(hbs@[hb1], fs, c.kind));
                    assert(hbucket_in(hbs@[hb2], fs, c.kind));
                    assert(entry_in(hbs@[hb1].entries@[i1], fs, c.kind, hbs@[hb1].digest@));
                    assert(entry_in(hbs@[hb2].entries@[i2], fs, c.kind, hbs@[hb2].digest@));
                    let j1 = choose|j: int|
                        0 <= j < hbs@[hb1].entries@[i1].dups.0@.len() && (
                        #[trigger] hbs@[hb1].entries@[i1].dups.0@[j])@ == r1.path;
                    let j2 = choose|j: int|
                        0 <= j < hbs@[hb2].entries@[i2].dups.0@.len() && (
                        #[trigger] hbs@[hb2].entries@[i2].dups.0@[j])@ == r2.path;
                    assert(hbs@[hb1].digest@ == digest_of(
                        c.kind,
                        fs.file_at(r1.path).content_bytes(),
                    ));
                    assert(hbs@[hb2].digest@ == digest_of(
                        c.kind,
                        fs.file_at(r2.path).content_bytes(),
                    ));
                    if hb1 != hb2 {
                        if hb1 < hb2 {
                            assert(hbs@[hb1].digest@ != hbs@[hb2].digest@);
                        } else {
                            assert(hbs@[hb2].digest@ != hbs@[hb1].digest@);
                        }
                        assert(false);
                    }
                    let hb = hb1;
                    assert(i1 != i2);
                    assert(hbs@[hb].entries@.len() >= 2);
                    let gs = bucket_groups(hbs@[hb]);
                    assert(gs[i1].id == r1.id && dup_has(gs[i1].dups, r1.path));
                    assert(gs[i2].id == r2.id && dup_has(gs[i2].dups, r2.path));
                    // lift both groups to the catalog's report
                    lemma_hbuckets_groups_lift(hbs@, hb, i1);
                    let k1 = choose|k: int|
                        0 <= k < hbuckets_groups(hbs@).len() && #[trigger] hbuckets_groups(
                            hbs@,
                        )[k] == bucket_groups(hbs@[hb])[i1];
                    lemma_hbuckets_groups_lift(hbs@, hb, i2);
                    let k2 = choose|k: int|
                        0 <= k < hbuckets_groups(hbs@).len() && #[trigger] hbuckets_groups(
                            hbs@,
                        )[k] == bucket_groups(hbs@[hb])[i2];
                    lemma_fbuckets_groups_lift(fbs@, fb1, k1);
                    let m1 = choose|k: int|
                        0 <= k < fbuckets_groups(fbs@).len() && #[trigger] fbuckets_groups(
                            fbs@,
                        )[k] == fbs@[fb1].proxy.groups()[k1];
                    lemma_fbuckets_groups_lift(fbs@, fb1, k2);
                    let m2 = choose|k: int|
                        0 <= k < fbuckets_groups(fbs@).len() && #[trigger] fbuckets_groups(
                            fbs@,
                        )[k] == fbs@[fb1].proxy.groups()[k2];
                    lemma_sbuckets_groups_lift(c.catalog@, ci, m1);
                    let f1 = choose|k: int|
                        0 <= k < sbuckets_groups(c.catalog@).len() && #[trigger] sbuckets_groups(
                            c.catalog@,
                        )[k] == c.catalog@[ci].proxy.groups()[m1];
                    lemma_sbuckets_groups_lift(c.catalog@, ci, m2);
                    let f2 = choose|k: int|
                        0 <= k < sbuckets_groups(c.catalog@).len() && #[trigger] sbuckets_groups(
                            c.catalog@,
                        )[k] == c.catalog@[ci].proxy.groups()[m2];
                    assert(c.groups()[f1] == gs[i1]);
                    assert(c.groups()[f2] == gs[i2]);
                },
            }
        },
    }
}

/// Group `k` of the digest table is group `gi` of its bucket `b`.
pub open spec fn hgroup_at(s: Seq<HashBucket>, b: int, gi: int, k: int) -> bool {
    &&& 0 <= b < s.len()
    &&& 0 <= gi < bucket_groups(s[b]).len()
    &&& k == hbuckets_groups(s.take(b)).len() + gi
    &&& hbuckets_groups(s)[k] == bucket_groups(s[b])[gi]
}

/// Every group of a digest table comes from one position of one bucket.
proof fn lemma_hbuckets_groups_locate(s: Seq<HashBucket>, k: int)
    requires
        0 <= k < hbuckets_groups(s).len(),
    ensures
        exists|b: int, gi: int| #[trigger] hgroup_at(s, b, gi, k),
    decreases s.len(),
{
    assert(s.len() > 0);
    let pre = hbuckets_groups(s.drop_last());
    if k < pre.len() {
        lemma_hbuckets_groups_locate(s.drop_last(), k);
        let (b, gi): (int, int) = choose|b: int, gi: int|
            #[trigger] hgroup_at(s.drop_last(), b, gi, k);
        assert(s.drop_last()[b] == s[b]);
        assert(s.drop_last().take(b) =~= s.take(b));
        assert(hbuckets_groups(s)[k] == pre[k]);
        assert(hgroup_at(s, b, gi, k));
    } else {
        let b = s.len() - 1;
        let gi = k - pre.len();
        assert(s.take(b) =~= s.drop_last());
        assert(s[b] == s.last());
        assert(hgroup_at(s, b, gi, k));
    }
}

/// Group `k` of a leading-bytes table is group `gi` of its bucket `b`.
pub open spec fn fgroup_at(s: Seq<FbBucket>, b: int, gi: int, k: int) -> bool {
    &&& 0 <= b < s.len()
    &&& 0 <= gi < s[b].proxy.groups().len()
    &&& k == fbuckets_groups(s.take(b)).len() + gi
    &&& fbuckets_groups(s)[k] == s[b].proxy.groups()[gi]
}

/// Every group of a leading-bytes table comes from one position of one
/// bucket.
proof fn lemma_fbuckets_groups_locate(s: Seq<FbBucket>, k: int)
    requires
        0 <= k < fbuckets_groups(s).len(),
    ensures
        exists|b: int, gi: int| #[trigger] fgroup_at(s, b, gi, k),
    decreases s.len(),
{
    assert(s.len() > 0);
    let pre = fbuckets_groups(s.drop_last());
    if k < pre.len() {
        lemma_fbuckets_groups_locate(s.drop_last(), k);
        let (b, gi): (int, int) = choose|b: int, gi: int|
            #[trigger] fgroup_at(s.drop_last(), b, gi, k);
        assert(s.drop_last()[b] == s[b]);
        assert(s.drop_last().take(b) =~= s.take(b));
        assert(fbuckets_groups(s)[k] == pre[k]);
        assert(fgroup_at(s, b, gi, k));
    } else {
        let b = s.len() - 1;
        let gi = k - pre.len();
        assert(s.take(b) =~= s.drop_last());
        assert(s[b] == s.last());
        assert(fgroup_at(s, b, gi, k));
    }
}

/// Group `k` of a size table is group `gi` of its bucket `b`.
pub open spec fn sgroup_at(s: Seq<SizeBucket>, b: int, gi: int, k: int) -> bool {
    &&& 0 <= b < s.len()
    &&& 0 <= gi < s[b].proxy.groups().len()
    &&& k == sbuckets_groups(s.take(b)).len() + gi
    &&& sbuckets_groups(s)[k] == s[b].proxy.groups()[gi]
}

/// Every group of a size table comes from one position of one bucket.
proof fn lemma_sbuckets_groups_locate(s: Seq<SizeBucket>, k: int)
    requires
        0 <= k < sbuckets_groups(s).len(),
    ensures
        exists|b: int, gi: int| #[trigger] sgroup_at(s, b, gi, k),
    decreases s.len(),
{
    assert(s.len() > 0);
    let pre = sbuckets_groups(s.drop_last());
    if k < pre.len() {
        lemma_sbuckets_groups_locate(s.drop_last(), k);
        let (b, gi): (int, int) = choose|b: int, gi: int|
            #[trigger] sgroup_at(s.drop_last(), b, gi, k);
        assert(s.drop_last()[b] == s[b]);
        assert(s.drop_last().take(b) =~= s.take(b));
        assert(sbuckets_groups(s)[k] == pre[k]);
        assert(sgroup_at(s, b, gi, k));
    } else {
        let b = s.len() - 1;
        let gi = k - pre.len();
        assert(s.take(b) =~= s.drop_last());
        assert(s[b] == s.last());
        assert(sgroup_at(s, b, gi, k));
    }
}

/// A bucket's records are contained in its digest table's records.
proof fn lemma_hbuckets_recs_contain(s: Seq<HashBucket>, i: int)
    requires
        0 <= i < s.len(),
    ensures
        forall|x: Rec| entries_recs(s[i].entries@).count(x) <= hbuckets_recs(s).count(x),
    decreases s.len(),
{
    if i == s.len() - 1 {
        assert forall|x: Rec| entries_recs(s[i].entries@).count(x) <= hbuckets_recs(s).count(
            x,
        ) by {
            assert(hbuckets_recs(s).count(x) == hbuckets_recs(s.drop_last()).count(x)
                + entries_recs(s.last().entries@).count(x));
        }
    } else {
        lemma_hbuckets_recs_contain(s.drop_last(), i);
        assert(s.drop_last()[i] == s[i]);
        assert forall|x: Rec| entries_recs(s[i].entries@).count(x) <= hbuckets_recs(s).count(
            x,
        ) by {
            assert(entries_recs(s[i].entries@).count(x) <= hbuckets_recs(s.drop_last()).count(x));
            assert(hbuckets_recs(s).count(x) == hbuckets_recs(s.drop_last()).count(x)
                + entries_recs(s.last().entries@).count(x));
        }
    }
}

/// Law: one inode identity is reported at most once — provided the
/// records of one identity agree in recorded length, leading bytes and
/// content digest, as names of one inode do — so no actor is ever handed
/// two groups for one inode.
pub proof fn lemma_one_inode_one_group(c: FileCataloger, fs: TestFileSystem, k1: int, k2: int)
    requires
        c.wf(),
        c.classified(fs),
        0 <= k1 < c.groups().len(),
        0 <= k2 < c.groups().len(),
        c.groups()[k1].id == c.groups()[k2].id,
        forall|ra: Rec, rb: Rec|
            #[trigger] c.recs().count(ra) > 0 && #[trigger] c.recs().count(rb) > 0 && ra.id
                == rb.id ==> fs.file_at(ra.path).metadata->Some_0.len == fs.file_at(
                rb.path,
            ).metadata->Some_0.len && first_k(fs.file_at(ra.path).content_bytes()) == first_k(
                fs.file_at(rb.path).content_bytes(),
            ) && digest_of(c.kind, fs.file_at(ra.path).content_bytes()) == digest_of(
                c.kind,
                fs.file_at(rb.path).content_bytes(),
            ),
    ensures
        k1 == k2,
{
    lemma_sbuckets_groups_locate(c.catalog@, k1);
    let (ci1, m1): (int, int) = choose|b: int, gi: int| #[trigger] sgroup_at(c.catalog@, b, gi, k1);
    lemma_sbuckets_groups_locate(c.catalog@, k2);
    let (ci2, m2): (int, int) = choose|b: int, gi: int| #[trigger] sgroup_at(c.catalog@, b, gi, k2);
    let g1 = c.groups()[k1];
    let g2 = c.groups()[k2];
    let p1 = lemma_group_key_facts(c, fs, ci1, m1, k1);
    let p2 = lemma_group_key_facts(c, fs, ci2, m2, k2);
    let r1 = Rec { id: g1.id, path: p1 };
    let r2 = Rec { id: g2.id, path: p2 };
    // one identity, one content class, so the keys agree at every tier
    assert(fs.file_at(p1).metadata->Some_0.len == fs.file_at(p2).metadata->Some_0.len);
    if ci1 != ci2 {
        if ci1 < ci2 {
            assert(c.catalog@[ci1].size != c.catalog@[ci2].size);
        } else {
            assert(c.catalog@[ci2].size != c.catalog@[ci1].size);
        }
        assert(false);
    }
    lemma_same_bucket_same_group(c, fs, ci1, m1, m2, k1, k2, p1, p2);
}

/// The indexed group of a size bucket is non-empty, its first path is a
/// record of the group's identity, and that record's length matches the
/// bucket's key. Returns the first path.
proof fn lemma_group_key_facts(
    c: FileCataloger,
    fs: TestFileSystem,
    ci: int,
    m: int,
    k: int,
) -> (p: Seq<char>)
    requires
        c.wf(),
        c.classified(fs),
        0 <= k < c.groups().len(),
        sgroup_at(c.catalog@, ci, m, k),
    ensures
        ({
            let g = c.groups()[k];
            &&& g.dups.0@.len() >= 1
            &&& p == g.dups.0@[0]@
            &&& c.recs().count(Rec { id: g.id, path: p }) > 0
            &&& c.catalog@[ci].proxy.recs().count(Rec { id: g.id, path: p }) > 0
            &&& fs.file_at(p).metadata->Some_0.len == c.catalog@[ci].size
        }),
{
    let g = c.groups()[k];
    let fkb = c.catalog@[ci].proxy;
    assert(fkb.wf());
    assert(fkb.classified(fs, c.kind));
    assert(proxy_all_size(fkb, fs, c.catalog@[ci].size));
    match fkb {
        FirstKBytesProxy::Pending { .. } => {
            assert(false);
            Seq::empty()
        },
        FirstKBytesProxy::Promoted { buckets: fbs } => {
            lemma_fbuckets_groups_locate(fbs@, m);
            let (fb, h): (int, int) = choose|b: int, gi: int| #[trigger] fgroup_at(fbs@, b, gi, m);
            let hp = fbs@[fb].proxy;
            assert(hp.wf());
            match hp {
                HashProxy::Pending { .. } => {
                    assert(false);
                    Seq::empty()
                },
                HashProxy::Promoted { buckets: hbs } => {
                    lemma_hbuckets_groups_locate(hbs@, h);
                    let (hb, gi): (int, int) = choose|b: int, g2: int|
                        #[trigger] hgroup_at(hbs@, b, g2, h);
                    assert(hbucket_wf(hbs@[hb]));
                    assert(hbs@[hb].entries@.len() >= 2);
                    let e = hbs@[hb].entries@[gi];
                    assert(g == bucket_groups(hbs@[hb])[gi]);
                    assert(g.id == e.id && g.dups == e.dups);
                    assert(e.dups.0@.len() >= 1);
                    let p = e.dups.0@[0]@;
                    let r = Rec { id: e.id, path: p };
                    assert(entry_recs(e).count(r) > 0) by {
                        broadcast use vstd::seq_lib::group_to_multiset_ensures;

                        let mm = e.dups.0@.map(|i: int, q: String| Rec { id: e.id, path: q@ });
                        assert(mm[0] == r);
                        assert(mm.contains(r));
                    }
                    lemma_entries_recs_contain(hbs@[hb].entries@, gi);
                    lemma_hbuckets_recs_contain(hbs@, hb);
                    assert(hp.recs().count(r) > 0);
                    lemma_fbuckets_recs_contain(fbs@, fb);
                    assert(fkb.recs().count(r) > 0);
                    lemma_sbuckets_recs_contain(c.catalog@, ci);
                    assert(c.recs().count(r) > 0);
                    p
                },
            }
        },
    }
}

/// Two groups of one size bucket with one identity and one content class
/// are one group.
proof fn lemma_same_bucket_same_group(
    c: FileCataloger,
    fs: TestFileSystem,
    ci: int,
    m1: int,
    m2: int,
    k1: int,
    k2: int,
    p1: Seq<char>,
    p2: Seq<char>,
)
    requires
        c.wf(),
        c.classified(fs),
        0 <= k1 < c.groups().len(),
        0 <= k2 < c.groups().len(),
        sgroup_at(c.catalog@, ci, m1, k1),
        sgroup_at(c.catalog@, ci, m2, k2),
        c.groups()[k1].id == c.groups()[k2].id,
        c.groups()[k1].dups.0@.len() >= 1,
        c.groups()[k2].dups.0@.len() >= 1,
        p1 == c.groups()[k1].dups.0@[0]@,
        p2 == c.groups()[k2].dups.0@[0]@,
        first_k(fs.file_at(p1).content_bytes()) == first_k(fs.file_at(p2).content_bytes()),
        digest_of(c.kind, fs.file_at(p1).content_bytes()) == digest_of(
            c.kind,
            fs.file_at(p2).content_bytes(),
        ),
    ensures
        k1 == k2,
{
    broadcast use vstd::seq_lib::group_to_multiset_ensures;

    let g1 = c.groups()[k1];
    let g2 = c.groups()[k2];
    let r1 = Rec { id: g1.id, path: p1 };
    let r2 = Rec { id: g2.id, path: p2 };
    let fkb = c.catalog@[ci].proxy;
    assert(fkb.wf());
    assert(fkb.classified(fs, c.kind));
    match fkb {
        FirstKBytesProxy::Pending { .. } => {
            assert(false);
        },
        FirstKBytesProxy::Promoted { buckets: fbs } => {
            lemma_fbuckets_groups_locate(fbs@, m1);
            let (fb1, h1): (int, int) = choose|b: int, gi: int|
                #[trigger] fgroup_at(fbs@, b, gi, m1);
            lemma_fbuckets_groups_locate(fbs@, m2);
            let (fb2, h2): (int, int) = choose|b: int, gi: int|
                #[trigger] fgroup_at(fbs@, b, gi, m2);
            // descend the first chain: its record lives in its own bucket
            let hp1 = fbs@[fb1].proxy;
            assert(hp1.wf());
            let (hb1, gi1): (int, int) = match hp1 {
                HashProxy::Pending { .. } => {
                    assert(false);
                    (0int, 0int)
                },
                HashProxy::Promoted { buckets: hbs } => {
                    lemma_hbuckets_groups_locate(hbs@, h1);
                    let (hb, gi): (int, int) = choose|b: int, g: int|
                        #[trigger] hgroup_at(hbs@, b, g, h1);
                    let e = hbs@[hb].entries@[gi];
                    assert(g1 == bucket_groups(hbs@[hb])[gi]);
                    assert(g1.id == e.id && g1.dups == e.dups);
                    assert(entry_recs(e).count(r1) > 0) by {
                        let mm = e.dups.0@.map(|i: int, q: String| Rec { id: e.id, path: q@ });
                        assert(mm[0] == r1);
                        assert(mm.contains(r1));
                    }
                    lemma_entries_recs_contain(hbs@[hb].entries@, gi);
                    lemma_hbuckets_recs_contain(hbs@, hb);
                    assert(hp1.recs().count(r1) > 0);
                    assert(hbucket_in(hbs@[hb], fs, c.kind));
                    assert(entry_in(e, fs, c.kind, hbs@[hb].digest@));
                    assert(hbs@[hb].digest@ == digest_of(
                        c.kind,
                        fs.file_at(p1).content_bytes(),
                    ));
                    (hb, gi)
                },
            };
            // and the second chain likewise
            let hp2 = fbs@[fb2].proxy;
            assert(hp2.wf());
            let (hb2, gi2): (int, int) = match hp2 {
                HashProxy::Pending { .. } => {
                    assert(false);
                    (0int, 0int)
                },
                HashProxy::Promoted { buckets: hbs } => {
                    lemma_hbuckets_groups_locate(hbs@, h2);
                    let (hb, gi): (int, int) = choose|b: int, g: int|
                        #[trigger] hgroup_at(hbs@, b, g, h2);
                    let e = hbs@[hb].entries@[gi];
                    assert(g2 == bucket_groups(hbs@[hb])[gi]);
                    assert(g2.id == e.id && g2.dups == e.dups);
                    assert(entry_recs(e).count(r2) > 0) by {
                        let mm = e.dups.0@.map(|i: int, q: String| Rec { id: e.id, path: q@ });
                        assert(mm[0] == r2);
                        assert(mm.contains(r2));
                    }
                    lemma_entries_recs_contain(hbs@[hb].entries@, gi);
                    lemma_hbuckets_recs_contain(hbs@, hb);
                    assert(hp2.recs().count(r2) > 0);
                    assert(hbucket_in(hbs@[hb], fs, c.kind));
                    assert(entry_in(e, fs, c.kind, hbs@[hb].digest@));
                    assert(hbs@[hb].digest@ == digest_of(
                        c.kind,
                        fs.file_at(p2).content_bytes(),
                    ));
                    (hb, gi)
                },
            };
            // the leading-bytes keys agree, so the buckets are one
            assert(hp_all_first_k(fbs@[fb1].proxy, fs, fbs@[fb1].first_bytes.0@));
            assert(hp_all_first_k(fbs@[fb2].proxy, fs, fbs@[fb2].first_bytes.0@));
            assert(fbs@[fb1].first_bytes.0@ == first_k(fs.file_at(p1).content_bytes()));
            assert(fbs@[fb2].first_bytes.0@ == first_k(fs.file_at(p2).content_bytes()));
            if fb1 != fb2 {
                if fb1 < fb2 {
                    assert(fbs@[fb1].first_bytes.0@ != fbs@[fb2].first_bytes.0@);
                } else {
                    assert(fbs@[fb2].first_bytes.0@ != fbs@[fb1].first_bytes.0@);
                }
                assert(false);
            }
            assert(hp1 == hp2);
            match hp1 {
                HashProxy::Pending { .. } => {
                    assert(false);
                },
                HashProxy::Promoted { buckets: hbs } => {
                    // the digest keys agree, so the buckets are one
                    assert(hgroup_at(hbs@, hb1, gi1, h1));
                    assert(hgroup_at(hbs@, hb2, gi2, h2));
                    assert(hbs@[hb1].digest@ == digest_of(
                        c.kind,
                        fs.file_at(p1).content_bytes(),
                    ));
                    assert(hbs@[hb2].digest@ == digest_of(
                        c.kind,
                        fs.file_at(p2).content_bytes(),
                    ));
                    if hb1 != hb2 {
                        if hb1 < hb2 {
                            assert(hbs@[hb1].digest@ != hbs@[hb2].digest@);
                        } else {
                            assert(hbs@[hb2].digest@ != hbs@[hb1].digest@);
                        }
                        assert(false);
                    }
                    // one identity, one entry, one group
                    assert(hbucket_wf(hbs@[hb1]));
                    assert(hbs@[hb1].entries@[gi1].id == hbs@[hb1].entries@[gi2].id);
                    if gi1 != gi2 {
                        if gi1 < gi2 {
                            assert(hbs@[hb1].entries@[gi1].id != hbs@[hb1].entries@[gi2].id);
                        } else {
                            assert(hbs@[hb1].entries@[gi2].id != hbs@[hb1].entries@[gi1].id);
                        }
                        assert(false);
                    }
                    assert(h1 == h2);
                    assert(m1 == m2);
                    assert(k1 == k2);
                },
            }
        },
    }
}

/// Law: a catalog fed nothing but hardlinks of one inode reports no
/// duplicate group at all.
pub proof fn lemma_hardlinks_no_repeats(c: FileCataloger, id0: ID)
    requires
        c.wf(),
        forall|r: Rec| c.recs().count(r) > 0 ==> (#[trigger] r.id) == id0,
    ensures
        c.groups().len() == 0,
{
    lemma_repeats_backed_and_paired(c);
    if c.groups().len() > 0 {
        let g = c.groups()[0];
        assert(group_backed(g, c.recs()));
        let x = Rec { id: g.id, path: g.dups.0@[0]@ };
        assert(c.recs().count(x) > 0);
        assert(group_paired(c.groups(), 0));
        let k2 = choose|k2: int|
            0 <= k2 < c.groups().len() && (#[trigger] c.groups()[k2]).digest == g.digest
                && c.groups()[k2].id != g.id;
        let g2 = c.groups()[k2];
        assert(group_backed(g2, c.recs()));
        let x2 = Rec { id: g2.id, path: g2.dups.0@[0]@ };
        assert(c.recs().count(x2) > 0);
        assert(x.id == id0 && x2.id == id0);
        assert(false);
    }
}

} // verus!
