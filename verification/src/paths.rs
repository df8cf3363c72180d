//! Paths as byte strings, and the small helpers shared by the manifest
//! and the collector: byte-string equality, membership, duplicate
//! freedom, occurrence counts, and the supported-extension test.

use vstd::prelude::*;

verus! {

/// The deep view of a path list has one entry per path.
pub broadcast proof fn lemma_deep_len(list: Vec<Vec<u8>>)
    ensures
        #[trigger] list.deep_view().len() == list@.len(),
{
}

/// Each entry of the deep view is the byte string at that position.
pub broadcast proof fn lemma_deep_index(list: Vec<Vec<u8>>, i: int)
    requires
        0 <= i < list@.len(),
    ensures
        #[trigger] list.deep_view()[i] == list@[i]@,
{
    assert(list@[i].deep_view() =~= list@[i]@);
}

/// Pushing a path appends its bytes to the deep view.
pub proof fn lemma_deep_push(pre: Vec<Vec<u8>>, post: Vec<Vec<u8>>, x: Seq<u8>)
    requires
        post@.len() == pre@.len() + 1,
        forall|k: int| 0 <= k < pre@.len() ==> post@[k] == pre@[k],
        post@[post@.len() - 1]@ == x,
    ensures
        post.deep_view() == pre.deep_view().push(x),
{
    lemma_deep_len(pre);
    lemma_deep_len(post);
    assert forall|k: int| 0 <= k < post.deep_view().len()
        implies post.deep_view()[k] == pre.deep_view().push(x)[k] by {
        lemma_deep_index(post, k);
        if k < pre@.len() {
            lemma_deep_index(pre, k);
        }
    }
    assert(post.deep_view() =~= pre.deep_view().push(x));
}

/// No two entries are equal.
pub open spec fn no_dups(s: Seq<Seq<u8>>) -> bool {
    forall|i: int, j: int| 0 <= i < j < s.len() ==> s[i] != s[j]
}

/// How many entries equal `p`.
pub open spec fn occurrences(s: Seq<Seq<u8>>, p: Seq<u8>) -> nat
    decreases s.len(),
{
    if s.len() == 0 {
        0
    } else {
        occurrences(s.drop_last(), p) + if s.last() == p { 1nat } else { 0nat }
    }
}

/// An absent entry occurs zero times.
pub proof fn lemma_absent_zero(s: Seq<Seq<u8>>, p: Seq<u8>)
    requires
        !s.contains(p),
    ensures
        occurrences(s, p) == 0,
    decreases s.len(),
{
    if s.len() > 0 {
        assert(s[s.len() - 1] != p);
        assert(!s.drop_last().contains(p)) by {
            if s.drop_last().contains(p) {
                let i = choose|i: int| 0 <= i < s.drop_last().len() && s.drop_last()[i] == p;
                assert(s[i] == p);
            }
        }
        lemma_absent_zero(s.drop_last(), p);
    }
}

/// In a duplicate-free list, a present entry occurs exactly once.
pub proof fn lemma_present_once(s: Seq<Seq<u8>>, p: Seq<u8>)
    requires
        no_dups(s),
        s.contains(p),
    ensures
        occurrences(s, p) == 1,
    decreases s.len(),
{
    let pre = s.drop_last();
    assert(no_dups(pre)) by {
        assert forall|i: int, j: int| 0 <= i < j < pre.len() implies pre[i] != pre[j] by {
            assert(pre[i] == s[i] && pre[j] == s[j]);
        }
    }
    if s.last() == p {
        assert(!pre.contains(p)) by {
            if pre.contains(p) {
                let i = choose|i: int| 0 <= i < pre.len() && pre[i] == p;
                assert(s[i] == p && s[s.len() - 1] == p);
            }
        }
        lemma_absent_zero(pre, p);
    } else {
        assert(pre.contains(p)) by {
            let i = choose|i: int| 0 <= i < s.len() && s[i] == p;
            assert(pre[i] == p);
        }
        lemma_present_once(pre, p);
    }
}

/// Byte-string equality.
pub fn eq_bytes(a: &Vec<u8>, b: &Vec<u8>) -> (r: bool)
    ensures
        r == (a@ == b@),
{
    if a.len() != b.len() {
        return false;
    }
    let mut i: usize = 0;
    while i < a.len()
        invariant
            a@.len() == b@.len(),
            i <= a@.len(),
            forall|j: int| 0 <= j < i ==> a@[j] == b@[j],
        decreases a@.len() - i,
    {
        if a[i] != b[i] {
            return false;
        }
        i = i + 1;
    }
    proof {
        assert(a@ =~= b@);
    }
    true
}

/// A fresh copy of a byte string.
pub fn copy_bytes(a: &Vec<u8>) -> (r: Vec<u8>)
    ensures
        r@ == a@,
{
    let mut r: Vec<u8> = Vec::new();
    let mut i: usize = 0;
    while i < a.len()
        invariant
            i <= a@.len(),
            r@ == a@.take(i as int),
        decreases a@.len() - i,
    {
        r.push(a[i]);
        proof {
            assert(a@.take(i as int + 1) =~= a@.take(i as int).push(a@[i as int]));
        }
        i = i + 1;
    }
    proof {
        assert(a@.take(a@.len() as int) =~= a@);
    }
    r
}

/// Whether the list holds `p`.
pub fn holds_path(list: &Vec<Vec<u8>>, p: &Vec<u8>) -> (r: bool)
    ensures
        r == list.deep_view().contains(p@),
{
    broadcast use lemma_deep_len, lemma_deep_index;

    let mut i: usize = 0;
    while i < list.len()
        invariant
            i <= list@.len(),
            forall|j: int| 0 <= j < i ==> list.deep_view()[j] != p@,
        decreases list@.len() - i,
    {
        if eq_bytes(&list[i], p) {
            proof {
                assert(list.deep_view()[i as int] == p@);
            }
            return true;
        }
        proof {
            assert(list.deep_view()[i as int] == list@[i as int]@);
        }
        i = i + 1;
    }
    proof {
        if list.deep_view().contains(p@) {
            let j = choose|j: int| 0 <= j < list.deep_view().len() && list.deep_view()[j] == p@;
            assert(list.deep_view()[j] != p@);
        }
    }
    false
}

/// The path ends in `.png` or `.jpg`.
pub open spec fn supported_ext(p: Seq<u8>) -> bool {
    ||| (p.len() >= 4 && p[p.len() - 4] == 46u8 && p[p.len() - 3] == 112u8
            && p[p.len() - 2] == 110u8 && p[p.len() - 1] == 103u8)
    ||| (p.len() >= 4 && p[p.len() - 4] == 46u8 && p[p.len() - 3] == 106u8
            && p[p.len() - 2] == 112u8 && p[p.len() - 1] == 103u8)
}

/// Whether the path carries a recognized raster-image extension.
pub fn has_supported_ext(p: &Vec<u8>) -> (r: bool)
    ensures
        r == supported_ext(p@),
{
    let n = p.len();
    if n < 4 {
        return false;
    }
    let dot = p[n - 4];
    let a = p[n - 3];
    let b = p[n - 2];
    let c = p[n - 1];
    (dot == 46 && a == 112 && b == 110 && c == 103)
        || (dot == 46 && a == 106 && b == 112 && c == 103)
}

} // verus!
