//! Stable sorting, specified as repeated ordered insertion.
//!
//! `sort_ord` inserts each element, in order, after every already-placed
//! element that compares less-or-equal to it; with a total, transitive
//! relation the result is sorted, and elements that compare equal keep their
//! original relative order (the sort is stable).

use vstd::prelude::*;

verus! {

/// Insert `x` into `s` after every element `e` of `s` with `le(e, x)`,
/// assuming `s` is already sorted by `le`.
pub open spec fn insert_ord<T>(s: Seq<T>, x: T, le: spec_fn(T, T) -> bool) -> Seq<T>
    decreases s.len(),
{
    if s.len() == 0 {
        seq![x]
    } else if le(s.last(), x) {
        s.push(x)
    } else {
        insert_ord(s.drop_last(), x, le).push(s.last())
    }
}

/// Stable sort by `le`: insert the elements one by one, in order.
pub open spec fn sort_ord<T>(s: Seq<T>, le: spec_fn(T, T) -> bool) -> Seq<T>
    decreases s.len(),
{
    if s.len() == 0 {
        Seq::empty()
    } else {
        insert_ord(sort_ord(s.drop_last(), le), s.last(), le)
    }
}

/// Every pair of elements, in order, is related by `le`.
pub open spec fn sorted_ord<T>(s: Seq<T>, le: spec_fn(T, T) -> bool) -> bool {
    forall|i: int, j: int| 0 <= i < j < s.len() ==> le(s[i], s[j])
}

/// `le` relates every pair of values, one way or the other.
pub open spec fn total_ord<T>(le: spec_fn(T, T) -> bool) -> bool {
    forall|a: T, b: T| #[trigger] le(a, b) || #[trigger] le(b, a)
}

/// `le` is transitive.
pub open spec fn transitive_ord<T>(le: spec_fn(T, T) -> bool) -> bool {
    forall|a: T, b: T, c: T| #[trigger] le(a, b) && #[trigger] le(b, c) ==> le(a, c)
}

/// Ordered insertion keeps the length and the one new element.
pub proof fn lemma_insert_ord_len<T>(s: Seq<T>, x: T, le: spec_fn(T, T) -> bool)
    ensures
        insert_ord(s, x, le).len() == s.len() + 1,
    decreases s.len(),
{
    if s.len() > 0 && !le(s.last(), x) {
        lemma_insert_ord_len(s.drop_last(), x, le);
    }
}

/// An element is in the insertion's result exactly when it is the inserted
/// one or was in the input.
pub proof fn lemma_insert_ord_contains<T>(s: Seq<T>, x: T, le: spec_fn(T, T) -> bool, e: T)
    ensures
        insert_ord(s, x, le).contains(e) <==> (e == x || s.contains(e)),
    decreases s.len(),
{
    if s.len() == 0 {
        assert(insert_ord(s, x, le) == seq![x]);
        assert(insert_ord(s, x, le)[0] == x);
    } else if le(s.last(), x) {
        assert(insert_ord(s, x, le) == s.push(x));
        if s.contains(e) {
            let i = choose|i: int| 0 <= i < s.len() && s[i] == e;
            assert(s.push(x)[i] == e);
        }
        if e == x {
            assert(s.push(x).last() == x);
        }
        if s.push(x).contains(e) && e != x {
            let i = choose|i: int| 0 <= i < s.push(x).len() && s.push(x)[i] == e;
            assert(s[i] == e);
        }
    } else {
        lemma_insert_ord_contains(s.drop_last(), x, le, e);
        let inner = insert_ord(s.drop_last(), x, le);
        assert(insert_ord(s, x, le) == inner.push(s.last()));
        if inner.push(s.last()).contains(e) {
            let i = choose|i: int| 0 <= i < inner.len() + 1 && inner.push(s.last())[i] == e;
            if i < inner.len() {
                assert(inner[i] == e);
            } else {
                assert(e == s.last());
                assert(s[s.len() - 1] == e);
            }
        }
        if e == x || s.contains(e) {
            if e == x || s.drop_last().contains(e) {
                let i = choose|i: int| 0 <= i < inner.len() && inner[i] == e;
                assert(inner.push(s.last())[i] == e);
            } else {
                let i = choose|i: int| 0 <= i < s.len() && s[i] == e;
                if i < s.len() - 1 {
                    assert(s.drop_last()[i] == e);
                } else {
                    assert(inner.push(s.last()).last() == e);
                }
            }
        }
    }
}

/// Sorting keeps exactly the elements of the input.
pub proof fn lemma_sort_ord_contains<T>(s: Seq<T>, le: spec_fn(T, T) -> bool, e: T)
    ensures
        sort_ord(s, le).contains(e) <==> s.contains(e),
        sort_ord(s, le).len() == s.len(),
    decreases s.len(),
{
    if s.len() > 0 {
        lemma_sort_ord_contains(s.drop_last(), le, e);
        lemma_insert_ord_contains(sort_ord(s.drop_last(), le), s.last(), le, e);
        lemma_insert_ord_len(sort_ord(s.drop_last(), le), s.last(), le);
        if s.contains(e) && e != s.last() && !s.drop_last().contains(e) {
            let i = choose|i: int| 0 <= i < s.len() && s[i] == e;
            assert(s.drop_last()[i] == e);
        }
        if s.drop_last().contains(e) {
            let i = choose|i: int| 0 <= i < s.len() - 1 && s.drop_last()[i] == e;
            assert(s[i] == e);
        }
        if e == s.last() {
            assert(s[s.len() - 1] == e);
        }
    }
}

/// Inserting into a sorted sequence keeps it sorted.
pub proof fn lemma_insert_ord_sorted<T>(s: Seq<T>, x: T, le: spec_fn(T, T) -> bool)
    requires
        sorted_ord(s, le),
        total_ord(le),
        transitive_ord(le),
    ensures
        sorted_ord(insert_ord(s, x, le), le),
    decreases s.len(),
{
    if s.len() == 0 {
    } else if le(s.last(), x) {
        let r = s.push(x);
        assert forall|i: int, j: int| 0 <= i < j < r.len() implies le(r[i], r[j]) by {
            if j == r.len() - 1 {
                if i < s.len() - 1 {
                    assert(le(s[i], s.last()));
                }
            }
        }
    } else {
        lemma_insert_ord_sorted(s.drop_last(), x, le);
        let inner = insert_ord(s.drop_last(), x, le);
        lemma_insert_ord_len(s.drop_last(), x, le);
        let r = inner.push(s.last());
        // every element of `inner` is `le` the pushed last element
        assert forall|i: int, j: int| 0 <= i < j < r.len() implies le(r[i], r[j]) by {
            if j == r.len() - 1 {
                lemma_insert_ord_contains(s.drop_last(), x, le, inner[i]);
                if inner[i] == x {
                    assert(le(x, s.last()));
                } else {
                    let k = choose|k: int|
                        0 <= k < s.drop_last().len() && s.drop_last()[k] == inner[i];
                    assert(s[k] == inner[i]);
                    assert(le(s[k], s.last()));
                }
            }
        }
    }
}

/// The sort's result is sorted.
pub proof fn lemma_sort_ord_sorted<T>(s: Seq<T>, le: spec_fn(T, T) -> bool)
    requires
        total_ord(le),
        transitive_ord(le),
    ensures
        sorted_ord(sort_ord(s, le), le),
    decreases s.len(),
{
    if s.len() > 0 {
        lemma_sort_ord_sorted(s.drop_last(), le);
        lemma_insert_ord_sorted(sort_ord(s.drop_last(), le), s.last(), le);
    }
}

/// Where `x` belongs according to the scan from the back, the insertion is a
/// splice at that position: after index `j`, every element is strictly above
/// `x`; at `j - 1` (if any) the element is `le(_, x)`.
pub proof fn lemma_insert_ord_at<T>(s: Seq<T>, x: T, le: spec_fn(T, T) -> bool, j: int)
    requires
        0 <= j <= s.len(),
        forall|m: int| j <= m < s.len() ==> !le(#[trigger] s[m], x),
        j > 0 ==> le(s[j - 1], x),
    ensures
        insert_ord(s, x, le) == s.subrange(0, j) + seq![x] + s.subrange(j, s.len() as int),
    decreases s.len(),
{
    if s.len() == 0 {
        assert(insert_ord(s, x, le) =~= s.subrange(0, j) + seq![x] + s.subrange(
            j,
            s.len() as int,
        ));
    } else if le(s.last(), x) {
        assert(j == s.len());
        assert(insert_ord(s, x, le) =~= s.subrange(0, j) + seq![x] + s.subrange(
            j,
            s.len() as int,
        ));
    } else {
        lemma_insert_ord_at(s.drop_last(), x, le, j);
        assert(insert_ord(s.drop_last(), x, le).push(s.last()) =~= s.subrange(0, j) + seq![x]
            + s.subrange(j, s.len() as int));
    }
}

} // verus!
