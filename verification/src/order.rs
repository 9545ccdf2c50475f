//! Byte-wise lexicographic order and a stable insertion sort.
//!
//! The sorts used by the index builder are stable with respect to intake
//! order on ties, so the comparison relations here are total preorders, not
//! total orders: two distinct records may compare equal both ways.  The sort
//! is therefore specified exactly, as the recursive function
//! [`sort_by_stable`], which pins down the result of any stable sort under
//! the given relation.

use vstd::prelude::*;
use vstd::relations::{sorted_by, transitive, strongly_connected};

verus! {

/// Lexicographic (shortlex on equal prefixes) order on byte strings:
/// `a <= b` in the forward byte order.
pub open spec fn lex_le(a: Seq<u8>, b: Seq<u8>) -> bool
    decreases a.len(),
{
    if a.len() == 0 {
        true
    } else if b.len() == 0 {
        false
    } else if a[0] < b[0] {
        true
    } else if a[0] > b[0] {
        false
    } else {
        lex_le(a.skip(1), b.skip(1))
    }
}

pub proof fn lemma_lex_le_total(a: Seq<u8>, b: Seq<u8>)
    ensures
        lex_le(a, b) || lex_le(b, a),
    decreases a.len(),
{
    if a.len() > 0 && b.len() > 0 && a[0] == b[0] {
        lemma_lex_le_total(a.skip(1), b.skip(1));
    }
}

pub proof fn lemma_lex_le_trans(a: Seq<u8>, b: Seq<u8>, c: Seq<u8>)
    requires
        lex_le(a, b),
        lex_le(b, c),
    ensures
        lex_le(a, c),
    decreases a.len(),
{
    if a.len() > 0 {
        if a[0] == b[0] && b[0] == c[0] {
            lemma_lex_le_trans(a.skip(1), b.skip(1), c.skip(1));
        }
    }
}

/// Exact byte-wise comparison of two byte vectors.
pub fn lex_le_bytes(a: &Vec<u8>, b: &Vec<u8>) -> (r: bool)
    ensures
        r == lex_le(a@, b@),
{
    let mut i: usize = 0;
    proof {
        assert(a@.skip(0) =~= a@);
        assert(b@.skip(0) =~= b@);
    }
    loop
        invariant
            i <= a.len(),
            i <= b.len(),
            lex_le(a@, b@) == lex_le(a@.skip(i as int), b@.skip(i as int)),
        decreases a.len() - i,
    {
        if i >= a.len() {
            return true;
        }
        if i >= b.len() {
            return false;
        }
        let x = a[i];
        let y = b[i];
        if x < y {
            return true;
        }
        if x > y {
            return false;
        }
        proof {
            assert(a@.skip(i as int)[0] == a@[i as int]);
            assert(b@.skip(i as int)[0] == b@[i as int]);
            assert(a@.skip(i as int).skip(1) =~= a@.skip(i as int + 1));
            assert(b@.skip(i as int).skip(1) =~= b@.skip(i as int + 1));
        }
        i = i + 1;
    }
}

/// Inserts `x` into `s` directly after the last element `e` with `leq(e, x)`.
/// When `s` is sorted this keeps it sorted and places `x` after every
/// earlier element that ties with it.
pub open spec fn insert_by<T>(leq: spec_fn(T, T) -> bool, x: T, s: Seq<T>) -> Seq<T>
    decreases s.len(),
{
    if s.len() > 0 && !leq(s.last(), x) {
        insert_by(leq, x, s.drop_last()).push(s.last())
    } else {
        s.push(x)
    }
}

/// The stable sort of `s` under the total preorder `leq`: elements are
/// inserted left to right, each after all its ties.
pub open spec fn sort_by_stable<T>(leq: spec_fn(T, T) -> bool, s: Seq<T>) -> Seq<T>
    decreases s.len(),
{
    if s.len() == 0 {
        Seq::empty()
    } else {
        insert_by(leq, s.last(), sort_by_stable(leq, s.drop_last()))
    }
}

pub proof fn lemma_insert_by_multiset<T>(leq: spec_fn(T, T) -> bool, x: T, s: Seq<T>)
    ensures
        insert_by(leq, x, s).len() == s.len() + 1,
        insert_by(leq, x, s).to_multiset() == s.to_multiset().insert(x),
    decreases s.len(),
{
    broadcast use vstd::seq_lib::group_to_multiset_ensures;

    if s.len() > 0 && !leq(s.last(), x) {
        let dl = s.drop_last();
        let l = s.last();
        lemma_insert_by_multiset(leq, x, dl);
        assert(s =~= dl.push(l));
        assert(insert_by(leq, x, s).to_multiset() =~= s.to_multiset().insert(x)) by {
            assert(insert_by(leq, x, s).to_multiset()
                == insert_by(leq, x, dl).to_multiset().insert(l));
            assert(dl.push(l).to_multiset() == dl.to_multiset().insert(l));
        }
    } else {
        assert(s.push(x).to_multiset() == s.to_multiset().insert(x));
    }
}

/// Every element of the insertion result is either `x` or came from `s`.
pub proof fn lemma_insert_by_elems<T>(leq: spec_fn(T, T) -> bool, x: T, s: Seq<T>)
    ensures
        forall|i: int|
            0 <= i < insert_by(leq, x, s).len() ==> s.contains(#[trigger] insert_by(leq, x, s)[i])
                || insert_by(leq, x, s)[i] == x,
    decreases s.len(),
{
    let r = insert_by(leq, x, s);
    if s.len() > 0 && !leq(s.last(), x) {
        let dl = s.drop_last();
        let l = s.last();
        lemma_insert_by_elems(leq, x, dl);
        let t = insert_by(leq, x, dl);
        assert forall|i: int| 0 <= i < r.len() implies s.contains(#[trigger] r[i]) || r[i] == x by {
            if i < t.len() {
                assert(r[i] == t[i]);
                if dl.contains(t[i]) {
                    let j = choose|j: int| 0 <= j < dl.len() && dl[j] == t[i];
                    assert(s[j] == t[i]);
                }
            } else {
                assert(r[i] == l);
                assert(s[s.len() - 1] == l);
            }
        }
    } else {
        assert forall|i: int| 0 <= i < r.len() implies s.contains(#[trigger] r[i]) || r[i] == x by {
            if i < s.len() {
                assert(r[i] == s[i]);
            }
        }
    }
}

pub proof fn lemma_insert_by_sorted<T>(leq: spec_fn(T, T) -> bool, x: T, s: Seq<T>)
    requires
        sorted_by(s, leq),
        transitive(leq),
        strongly_connected(leq),
    ensures
        sorted_by(insert_by(leq, x, s), leq),
    decreases s.len(),
{
    if s.len() > 0 && !leq(s.last(), x) {
        let dl = s.drop_last();
        let l = s.last();
        assert(sorted_by(dl, leq)) by {
            assert forall|i: int, j: int| 0 <= i < j < dl.len() implies leq(dl[i], dl[j]) by {
                assert(leq(s[i], s[j]));
            }
        }
        lemma_insert_by_sorted(leq, x, dl);
        lemma_insert_by_elems(leq, x, dl);
        let t = insert_by(leq, x, dl);
        let r = t.push(l);
        assert forall|i: int, j: int| 0 <= i < j < r.len() implies leq(r[i], r[j]) by {
            if j < t.len() {
                assert(leq(t[i], t[j]));
            } else {
                // r[j] == l; show every element of t is leq l
                assert(r[j] == l);
                assert(r[i] == t[i]);
                if dl.contains(t[i]) {
                    let k = choose|k: int| 0 <= k < dl.len() && dl[k] == t[i];
                    if k < s.len() - 1 {
                        assert(leq(s[k], s[s.len() - 1]));
                    }
                    assert(leq(t[i], l));
                } else {
                    assert(t[i] == x);
                    assert(leq(x, l));
                }
            }
        }
    } else {
        let r = s.push(x);
        assert forall|i: int, j: int| 0 <= i < j < r.len() implies leq(r[i], r[j]) by {
            if j < s.len() {
                assert(leq(s[i], s[j]));
            } else {
                assert(r[j] == x);
                if s.len() > 0 {
                    assert(leq(s.last(), x));
                    if i < s.len() - 1 {
                        assert(leq(s[i], s[s.len() - 1]));
                    }
                }
            }
        }
    }
}

pub proof fn lemma_sort_by_stable_ensures<T>(leq: spec_fn(T, T) -> bool, s: Seq<T>)
    requires
        transitive(leq),
        strongly_connected(leq),
    ensures
        sorted_by(sort_by_stable(leq, s), leq),
        sort_by_stable(leq, s).len() == s.len(),
        sort_by_stable(leq, s).to_multiset() == s.to_multiset(),
    decreases s.len(),
{
    broadcast use vstd::seq_lib::group_to_multiset_ensures;

    if s.len() > 0 {
        let dl = s.drop_last();
        let l = s.last();
        lemma_sort_by_stable_ensures(leq, dl);
        lemma_insert_by_sorted(leq, l, sort_by_stable(leq, dl));
        lemma_insert_by_multiset(leq, l, sort_by_stable(leq, dl));
        assert(s =~= dl.push(l));
        assert(dl.push(l).to_multiset() == dl.to_multiset().insert(l));
        assert(sort_by_stable(leq, s).to_multiset() =~= s.to_multiset());
    }
}

/// Every element of the sorted sequence occurs in the input.
pub proof fn lemma_sort_by_stable_contains<T>(leq: spec_fn(T, T) -> bool, s: Seq<T>, i: int)
    requires
        transitive(leq),
        strongly_connected(leq),
        0 <= i < sort_by_stable(leq, s).len(),
    ensures
        s.contains(sort_by_stable(leq, s)[i]),
{
    broadcast use vstd::seq_lib::group_to_multiset_ensures;

    lemma_sort_by_stable_ensures(leq, s);
    let r = sort_by_stable(leq, s);
    assert(r.to_multiset().count(r[i]) > 0) by {
        assert(r.contains(r[i]));
    }
    assert(s.to_multiset().count(r[i]) > 0);
}

/// Where the exec search for the insertion point lands, the recursive
/// insertion places the element: at index `j`, the first position from the
/// right whose predecessor is `leq` the new element.
pub proof fn lemma_insert_by_at<T>(leq: spec_fn(T, T) -> bool, x: T, s: Seq<T>, j: int)
    requires
        0 <= j <= s.len(),
        forall|k: int| j <= k < s.len() ==> !leq(#[trigger] s[k], x),
        j > 0 ==> leq(s[j - 1], x),
    ensures
        insert_by(leq, x, s) == s.insert(j, x),
    decreases s.len() - j,
{
    if j == s.len() {
        if s.len() > 0 {
            assert(leq(s.last(), x));
        }
        assert(insert_by(leq, x, s) =~= s.insert(j, x));
    } else {
        assert(!leq(s.last(), x));
        let dl = s.drop_last();
        let l = s.last();
        lemma_insert_by_at(leq, x, dl, j);
        assert(insert_by(leq, x, s) == dl.insert(j, x).push(l));
        assert(dl.insert(j, x).push(l) =~= s.insert(j, x));
    }
}

} // verus!
