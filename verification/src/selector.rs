//! Selection policies: which path of a duplicate group is the keeper.
//!
//! `PathSelect` keeps the shallowest path (fewest components) and, when
//! reversed, the deepest. `DateSelect` keeps the newest creation time and,
//! when reversed, the oldest. Either way the choice is an element of the
//! group.

use vstd::prelude::*;

use crate::catalog::Duplicates;
use crate::vfs::TestFileSystem;
use crate::paths::{component_count, count_components};

verus! {

/// The creation timestamp the filesystem records for the file at `p`.
pub open spec fn spec_ctime(fs: TestFileSystem, p: Seq<char>) -> u64 {
    fs.file_at(p).metadata->Some_0.creation
}

/// A policy that picks one path of a non-empty duplicate group.
pub trait Selector: Sized {
    /// What the policy needs of the filesystem before selecting.
    spec fn can_select(&self, fs: TestFileSystem, dups: Duplicates) -> bool;

    /// What it means for `r` to be a choice this policy allows.
    spec fn is_choice(&self, fs: TestFileSystem, dups: Duplicates, r: Seq<char>) -> bool;

    /// The policy in its forward direction.
    fn new() -> (r: Self);

    /// The same policy, flipped to the opposite end of its order.
    fn reverse(self) -> (r: Self);

    /// Picks the keeper: always an element of the group, and always a
    /// choice the policy allows.
    fn select(&self, fs: &TestFileSystem, dups: &Duplicates) -> (r: String)
        requires
            fs.wf(),
            dups.0@.len() > 0,
            self.can_select(*fs, *dups),
        ensures
            exists|j: int| 0 <= j < dups.0@.len() && r@ == (#[trigger] dups.0@[j])@,
            self.is_choice(*fs, *dups, r@),
    ;
}

/// Chooses by path depth: fewest path components by default, most when
/// reversed. Ties fall where the scan finds them first.
pub struct PathSelect {
    pub reverse: bool,
}

impl PathSelect {
    /// The element of `dups` with the fewest components, first such wins.
    pub fn min(&self, dups: &Duplicates) -> (r: String)
        requires
            dups.0@.len() > 0,
        ensures
            exists|j: int| 0 <= j < dups.0@.len() && r@ == (#[trigger] dups.0@[j])@,
            forall|j: int|
                0 <= j < dups.0@.len() ==> component_count(r@) <= component_count(
                    (#[trigger] dups.0@[j])@,
                ),
    {
        let mut best: usize = 0;
        let mut best_score: usize = count_components(dups.0[0].as_str());
        let mut i: usize = 1;
        while i < dups.0.len()
            invariant
                1 <= i <= dups.0@.len(),
                best < i,
                best_score == component_count(dups.0@[best as int]@),
                forall|j: int|
                    0 <= j < i ==> best_score <= component_count((#[trigger] dups.0@[j])@),
            decreases dups.0@.len() - i,
        {
            let sc = count_components(dups.0[i].as_str());
            if sc < best_score {
                best = i;
                best_score = sc;
            }
            i = i + 1;
        }
        dups.0[best].clone()
    }

    /// The element of `dups` with the most components, first such wins.
    pub fn max(&self, dups: &Duplicates) -> (r: String)
        requires
            dups.0@.len() > 0,
        ensures
            exists|j: int| 0 <= j < dups.0@.len() && r@ == (#[trigger] dups.0@[j])@,
            forall|j: int|
                0 <= j < dups.0@.len() ==> component_count(r@) >= component_count(
                    (#[trigger] dups.0@[j])@,
                ),
    {
        let mut best: usize = 0;
        let mut best_score: usize = count_components(dups.0[0].as_str());
        let mut i: usize = 1;
        while i < dups.0.len()
            invariant
                1 <= i <= dups.0@.len(),
                best < i,
                best_score == component_count(dups.0@[best as int]@),
                forall|j: int|
                    0 <= j < i ==> best_score >= component_count((#[trigger] dups.0@[j])@),
            decreases dups.0@.len() - i,
        {
            let sc = count_components(dups.0[i].as_str());
            if sc > best_score {
                best = i;
                best_score = sc;
            }
            i = i + 1;
        }
        dups.0[best].clone()
    }
}

impl Selector for PathSelect {
    open spec fn can_select(&self, fs: TestFileSystem, dups: Duplicates) -> bool {
        true
    }

    open spec fn is_choice(&self, fs: TestFileSystem, dups: Duplicates, r: Seq<char>) -> bool {
        if self.reverse {
            forall|j: int|
                0 <= j < dups.0@.len() ==> component_count(r) >= component_count((#[trigger] dups.0@[j])@)
        } else {
            forall|j: int|
                0 <= j < dups.0@.len() ==> component_count(r) <= component_count((#[trigger] dups.0@[j])@)
        }
    }

    fn new() -> (r: Self)
        ensures
            !r.reverse,
    {
        PathSelect { reverse: false }
    }

    fn reverse(self) -> (r: Self)
        ensures
            r.reverse,
    {
        PathSelect { reverse: true }
    }

    fn select(&self, fs: &TestFileSystem, dups: &Duplicates) -> (r: String) {
        if self.reverse {
            self.max(dups)
        } else {
            self.min(dups)
        }
    }
}

/// Chooses by creation time: newest by default, oldest when reversed.
/// Ties fall where the scan finds them first. Every path of the group
/// must resolve to a file with metadata.
pub struct DateSelect {
    pub reverse: bool,
}

impl DateSelect {
    /// Reads the creation time of the file at `p`.
    fn ctime(&self, fs: &TestFileSystem, p: &str) -> (r: u64)
        requires
            fs.wf(),
            fs.has_file(p@),
            fs.file_at(p@).metadata is Some,
        ensures
            r == spec_ctime(*fs, p@),
    {
        let md = match fs.get_metadata(p) {
            Ok(md) => md,
            Err(_) => {
                proof {
                    assert(false);
                }
                crate::vfs::TestMD::new()
            },
        };
        md.get_creation_time()
    }

    /// The element of `dups` with the smallest creation time.
    pub fn min(&self, fs: &TestFileSystem, dups: &Duplicates) -> (r: String)
        requires
            fs.wf(),
            dups.0@.len() > 0,
            forall|j: int|
                0 <= j < dups.0@.len() ==> fs.has_file((#[trigger] dups.0@[j])@) && fs.file_at(
                    dups.0@[j]@,
                ).metadata is Some,
        ensures
            exists|j: int| 0 <= j < dups.0@.len() && r@ == (#[trigger] dups.0@[j])@,
            forall|j: int|
                0 <= j < dups.0@.len() ==> spec_ctime(*fs, r@) <= spec_ctime(
                    *fs,
                    (#[trigger] dups.0@[j])@,
                ),
    {
        let mut best: usize = 0;
        let mut best_score: u64 = self.ctime(fs, dups.0[0].as_str());
        let mut i: usize = 1;
        while i < dups.0.len()
            invariant
                1 <= i <= dups.0@.len(),
                best < i,
                fs.wf(),
                forall|j: int|
                    0 <= j < dups.0@.len() ==> fs.has_file((#[trigger] dups.0@[j])@) && fs.file_at(
                        dups.0@[j]@,
                    ).metadata is Some,
                best_score == spec_ctime(*fs, dups.0@[best as int]@),
                forall|j: int|
                    0 <= j < i ==> best_score <= spec_ctime(*fs, (#[trigger] dups.0@[j])@),
            decreases dups.0@.len() - i,
        {
            let sc = self.ctime(fs, dups.0[i].as_str());
            if sc < best_score {
                best = i;
                best_score = sc;
            }
            i = i + 1;
        }
        dups.0[best].clone()
    }

    /// The element of `dups` with the greatest creation time.
    pub fn max(&self, fs: &TestFileSystem, dups: &Duplicates) -> (r: String)
        requires
            fs.wf(),
            dups.0@.len() > 0,
            forall|j: int|
                0 <= j < dups.0@.len() ==> fs.has_file((#[trigger] dups.0@[j])@) && fs.file_at(
                    dups.0@[j]@,
                ).metadata is Some,
        ensures
            exists|j: int| 0 <= j < dups.0@.len() && r@ == (#[trigger] dups.0@[j])@,
            forall|j: int|
                0 <= j < dups.0@.len() ==> spec_ctime(*fs, r@) >= spec_ctime(
                    *fs,
                    (#[trigger] dups.0@[j])@,
                ),
    {
        let mut best: usize = 0;
        let mut best_score: u64 = self.ctime(fs, dups.0[0].as_str());
        let mut i: usize = 1;
        while i < dups.0.len()
            invariant
                1 <= i <= dups.0@.len(),
                best < i,
                fs.wf(),
                forall|j: int|
                    0 <= j < dups.0@.len() ==> fs.has_file((#[trigger] dups.0@[j])@) && fs.file_at(
                        dups.0@[j]@,
                    ).metadata is Some,
                best_score == spec_ctime(*fs, dups.0@[best as int]@),
                forall|j: int|
                    0 <= j < i ==> best_score >= spec_ctime(*fs, (#[trigger] dups.0@[j])@),
            decreases dups.0@.len() - i,
        {
            let sc = self.ctime(fs, dups.0[i].as_str());
            if sc > best_score {
                best = i;
                best_score = sc;
            }
            i = i + 1;
        }
        dups.0[best].clone()
    }
}

impl Selector for DateSelect {
    open spec fn can_select(&self, fs: TestFileSystem, dups: Duplicates) -> bool {
        forall|j: int|
            0 <= j < dups.0@.len() ==> fs.has_file((#[trigger] dups.0@[j])@) && fs.file_at(
                dups.0@[j]@,
            ).metadata is Some
    }

    open spec fn is_choice(&self, fs: TestFileSystem, dups: Duplicates, r: Seq<char>) -> bool {
        if self.reverse {
            forall|j: int|
                0 <= j < dups.0@.len() ==> spec_ctime(fs, r) <= spec_ctime(
                    fs,
                    (#[trigger] dups.0@[j])@,
                )
        } else {
            forall|j: int|
                0 <= j < dups.0@.len() ==> spec_ctime(fs, r) >= spec_ctime(
                    fs,
                    (#[trigger] dups.0@[j])@,
                )
        }
    }

    fn new() -> (r: Self)
        ensures
            !r.reverse,
    {
        DateSelect { reverse: false }
    }

    fn reverse(self) -> (r: Self)
        ensures
            r.reverse,
    {
        DateSelect { reverse: true }
    }

    fn select(&self, fs: &TestFileSystem, dups: &Duplicates) -> (r: String) {
        if self.reverse {
            self.min(fs, dups)
        } else {
            self.max(fs, dups)
        }
    }
}

} // verus!
