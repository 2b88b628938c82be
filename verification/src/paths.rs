//! Path arithmetic over plain strings: component counting for the
//! shallowest/deepest selection policies, parents for directory listing,
//! prefixes for folder blacklists, and file names for pattern blacklists.
//!
//! A path is any string; `/` separates components.

use vstd::prelude::*;

verus! {

/// Number of path components of `p`, as the standard path semantics
/// counts them: a leading separator is the root component, and every
/// maximal run of non-separator characters is one more component. (A `.`
/// segment counts like any other segment here.) This is the measure the
/// path selection policy orders by.
pub open spec fn component_count(p: Seq<char>) -> nat
    decreases p.len(),
{
    if p.len() == 0 {
        0
    } else {
        component_count(p.drop_last()) + if p.last() == '/' {
            if p.len() == 1 {
                1nat
            } else {
                0nat
            }
        } else {
            if p.len() == 1 || p[p.len() - 2] == '/' {
                1nat
            } else {
                0nat
            }
        }
    }
}

proof fn lemma_component_count_take_step(p: Seq<char>, i: int)
    requires
        0 <= i < p.len(),
    ensures
        component_count(p.take(i + 1)) == component_count(p.take(i)) + if p[i] == '/' {
            if i == 0 {
                1nat
            } else {
                0nat
            }
        } else {
            if i == 0 || p[i - 1] == '/' {
                1nat
            } else {
                0nat
            }
        },
{
    assert(p.take(i + 1).drop_last() =~= p.take(i));
    assert(p.take(i + 1).last() == p[i]);
    if i >= 1 {
        assert(p.take(i + 1)[i - 1] == p[i - 1]);
    }
}

/// Counts the path components of `p`.
pub fn count_components(p: &str) -> (n: usize)
    ensures
        n == component_count(p@),
{
    let len: usize = p.unicode_len();
    let mut n: usize = 0;
    let mut i: usize = 0;
    while i < len
        invariant
            i <= len,
            len == p@.len(),
            n == component_count(p@.take(i as int)),
            n <= i,
        decreases len - i,
    {
        let c = p.get_char(i);
        proof {
            lemma_component_count_take_step(p@, i as int);
        }
        if c == '/' {
            if i == 0 {
                n = n + 1;
            }
        } else {
            if i == 0 || p.get_char(i - 1) == '/' {
                n = n + 1;
            }
        }
        i = i + 1;
    }
    proof {
        assert(p@.take(len as int) =~= p@);
    }
    n
}

/// Index of the last `/` in `p`, or -1 if there is none.
pub open spec fn last_slash(p: Seq<char>) -> int
    decreases p.len(),
{
    if p.len() == 0 {
        -1
    } else if p.last() == '/' {
        p.len() - 1
    } else {
        last_slash(p.drop_last())
    }
}

proof fn lemma_last_slash_bounds(p: Seq<char>)
    ensures
        -1 <= last_slash(p) < p.len(),
        last_slash(p) >= 0 ==> p[last_slash(p)] == '/',
        forall|j: int| last_slash(p) < j < p.len() ==> p[j] != '/',
    decreases p.len(),
{
    if p.len() > 0 && p.last() != '/' {
        lemma_last_slash_bounds(p.drop_last());
        assert forall|j: int| last_slash(p) < j < p.len() implies p[j] != '/' by {
            if j < p.len() - 1 {
                assert(p.drop_last()[j] == p[j]);
            }
        }
    }
}

/// The parent of `p`, as the standard path semantics has it: the root `/`
/// and the empty string have none; a bare name has the empty parent; the
/// parent of anything directly under the root is `/`; otherwise everything
/// before the last separator.
pub open spec fn spec_parent(p: Seq<char>) -> Option<Seq<char>> {
    if p.len() == 0 {
        None
    } else if p.len() == 1 && p[0] == '/' {
        None
    } else if last_slash(p) == -1 {
        Some(Seq::empty())
    } else if last_slash(p) == 0 {
        Some(seq!['/'])
    } else {
        Some(p.take(last_slash(p)))
    }
}

/// Finds the index one past the last `/` of `p`, i.e. `last_slash(p@) + 1`.
fn find_name_start(p: &str) -> (k: usize)
    ensures
        k == last_slash(p@) + 1,
{
    let len: usize = p.unicode_len();
    let mut i: usize = len;
    while i > 0
        invariant
            i <= len,
            len == p@.len(),
            forall|j: int| i <= j < p@.len() ==> p@[j] != '/',
        decreases i,
    {
        let c = p.get_char(i - 1);
        if c == '/' {
            proof {
                lemma_last_slash_at(p@, i - 1);
            }
            return i;
        }
        i = i - 1;
    }
    proof {
        lemma_last_slash_none(p@);
    }
    0
}

proof fn lemma_last_slash_at(p: Seq<char>, i: int)
    requires
        0 <= i < p.len(),
        p[i] == '/',
        forall|j: int| i < j < p.len() ==> p[j] != '/',
    ensures
        last_slash(p) == i,
    decreases p.len(),
{
    if i < p.len() - 1 {
        lemma_last_slash_at(p.drop_last(), i);
    }
}

proof fn lemma_last_slash_none(p: Seq<char>)
    requires
        forall|j: int| 0 <= j < p.len() ==> p[j] != '/',
    ensures
        last_slash(p) == -1,
    decreases p.len(),
{
    if p.len() > 0 {
        lemma_last_slash_none(p.drop_last());
    }
}

/// The parent path of `p`, or `None` where the standard semantics has none.
pub fn parent_of(p: &str) -> (r: Option<String>)
    ensures
        match r {
            Some(q) => spec_parent(p@) == Some(q@),
            None => spec_parent(p@) is None,
        },
{
    let len: usize = p.unicode_len();
    if len == 0 {
        return None;
    }
    let k = find_name_start(p);
    if len == 1 && k == 1 {
        // p is exactly "/"
        proof {
            assert(p@[0] == '/') by {
                lemma_last_slash_bounds(p@);
            }
        }
        return None;
    }
    if k == 0 {
        let e = "";
        proof {
            reveal_strlit("");
        }
        return Some(e.to_owned());
    }
    if k == 1 {
        let s = "/";
        proof {
            reveal_strlit("/");
            lemma_last_slash_bounds(p@);
            assert(seq!['/'] =~= "/"@);
        }
        return Some(s.to_owned());
    }
    proof {
        lemma_last_slash_bounds(p@);
    }
    let q = p.substring_char(0, k - 1);
    proof {
        assert(p@.subrange(0, k - 1) =~= p@.take(last_slash(p@)));
    }
    Some(q.to_owned())
}

/// The file name of `p`: everything after the last separator.
pub open spec fn spec_file_name(p: Seq<char>) -> Seq<char> {
    p.skip(last_slash(p) + 1)
}

/// Returns the file name of `p`.
pub fn file_name_of(p: &str) -> (r: String)
    ensures
        r@ == spec_file_name(p@),
{
    let len: usize = p.unicode_len();
    let k = find_name_start(p);
    proof {
        lemma_last_slash_bounds(p@);
    }
    let n = p.substring_char(k, len);
    proof {
        assert(p@.subrange(k as int, len as int) =~= spec_file_name(p@));
    }
    n.to_owned()
}

/// True when `b` is a prefix of `p` character for character.
pub open spec fn spec_starts_with(p: Seq<char>, b: Seq<char>) -> bool {
    b.len() <= p.len() && p.take(b.len() as int) == b
}

/// Returns whether `p` starts with `b`.
pub fn starts_with(p: &str, b: &str) -> (r: bool)
    ensures
        r == spec_starts_with(p@, b@),
{
    let plen: usize = p.unicode_len();
    let blen: usize = b.unicode_len();
    if blen > plen {
        assert(!spec_starts_with(p@, b@));
        return false;
    }
    let mut i: usize = 0;
    while i < blen
        invariant
            i <= blen <= plen,
            plen == p@.len(),
            blen == b@.len(),
            forall|j: int| 0 <= j < i ==> p@[j] == b@[j],
        decreases blen - i,
    {
        if p.get_char(i) != b.get_char(i) {
            assert(p@.take(blen as int)[i as int] != b@[i as int]);
            return false;
        }
        i = i + 1;
    }
    proof {
        assert(p@.take(blen as int) =~= b@);
    }
    true
}

/// Returns whether the strings are equal.
pub fn str_eq(a: &str, b: &str) -> (r: bool)
    ensures
        r == (a@ == b@),
{
    let alen: usize = a.unicode_len();
    let blen: usize = b.unicode_len();
    if alen != blen {
        return false;
    }
    let mut i: usize = 0;
    while i < alen
        invariant
            i <= alen,
            alen == a@.len() == b@.len(),
            forall|j: int| 0 <= j < i ==> a@[j] == b@[j],
        decreases alen - i,
    {
        if a.get_char(i) != b.get_char(i) {
            return false;
        }
        i = i + 1;
    }
    proof {
        assert(a@ =~= b@);
    }
    true
}

/// Returns whether `v` holds a string equal to `x`.
pub fn contains_string(v: &Vec<String>, x: &str) -> (r: bool)
    ensures
        r == (exists|i: int| 0 <= i < v@.len() && v@[i]@ == x@),
{
    let mut i: usize = 0;
    while i < v.len()
        invariant
            i <= v@.len(),
            forall|j: int| 0 <= j < i ==> v@[j]@ != x@,
        decreases v@.len() - i,
    {
        if str_eq(v[i].as_str(), x) {
            return true;
        }
        i = i + 1;
    }
    false
}

} // verus!
