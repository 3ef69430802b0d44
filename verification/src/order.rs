//! Stable ordering of a sequence by a relation, as a mathematical function,
//! with the laws that make it an ordering: it rearranges, and what it
//! returns is sorted.

use vstd::prelude::*;
use vstd::seq_lib::{to_multiset_build, to_multiset_contains, to_multiset_len};

verus! {

/// `x` put into `sorted` behind the last element that `x` does not have to
/// come before.
pub open spec fn insert_by<A>(sorted: Seq<A>, x: A, le: spec_fn(A, A) -> bool) -> Seq<A>
    decreases sorted.len(),
{
    if sorted.len() == 0 {
        seq![x]
    } else if le(sorted.last(), x) {
        sorted.push(x)
    } else {
        insert_by(sorted.drop_last(), x, le).push(sorted.last())
    }
}

/// `s` ordered by `le`; elements that `le` does not tell apart keep their
/// order.
pub open spec fn stable_sort<A>(s: Seq<A>, le: spec_fn(A, A) -> bool) -> Seq<A>
    decreases s.len(),
{
    if s.len() == 0 {
        Seq::empty()
    } else {
        insert_by(stable_sort(s.drop_last(), le), s.last(), le)
    }
}

/// Whether every element of `s` is `le` every later one.
pub open spec fn is_sorted<A>(s: Seq<A>, le: spec_fn(A, A) -> bool) -> bool {
    forall|i: int, j: int| 0 <= i < j < s.len() ==> #[trigger] le(s[i], s[j])
}

/// Whether `le` relates any two elements one way or the other.
pub open spec fn is_total<A>(le: spec_fn(A, A) -> bool) -> bool {
    forall|a: A, b: A| #[trigger] le(a, b) || #[trigger] le(b, a)
}

/// Whether `le` is transitive.
pub open spec fn is_transitive<A>(le: spec_fn(A, A) -> bool) -> bool {
    forall|a: A, b: A, c: A| #[trigger] le(a, b) && #[trigger] le(b, c) ==> le(a, c)
}

/// Where `insert_by` puts an element: at position `p`, if every element from
/// `p` on has to come after it and the element before `p` does not.
pub proof fn lemma_insert_position<A>(sorted: Seq<A>, x: A, le: spec_fn(A, A) -> bool, p: int)
    requires
        0 <= p <= sorted.len(),
        forall|k: int| p <= k < sorted.len() ==> !#[trigger] le(sorted[k], x),
        p > 0 ==> le(sorted[p - 1], x),
    ensures
        insert_by(sorted, x, le) == sorted.insert(p, x),
    decreases sorted.len(),
{
    if sorted.len() == 0 {
        assert(seq![x] =~= sorted.insert(p, x));
    } else if p == sorted.len() {
        assert(sorted.push(x) =~= sorted.insert(p, x));
    } else {
        let front = sorted.drop_last();
        assert(!le(sorted[sorted.len() - 1], x));
        assert forall|k: int| p <= k < front.len() implies !#[trigger] le(front[k], x) by {
            assert(front[k] == sorted[k]);
        }
        lemma_insert_position(front, x, le, p);
        assert(front.insert(p, x).push(sorted.last()) =~= sorted.insert(p, x));
    }
}

/// Inserting an element adds that element and nothing else.
pub proof fn lemma_insert_permutes<A>(sorted: Seq<A>, x: A, le: spec_fn(A, A) -> bool)
    ensures
        insert_by(sorted, x, le).to_multiset() == sorted.to_multiset().insert(x),
        insert_by(sorted, x, le).len() == sorted.len() + 1,
    decreases sorted.len(),
{
    if sorted.len() == 0 {
        assert(seq![x] =~= sorted.push(x));
        to_multiset_build(sorted, x);
    } else if le(sorted.last(), x) {
        to_multiset_build(sorted, x);
    } else {
        let front = sorted.drop_last();
        let last = sorted.last();
        lemma_insert_permutes(front, x, le);
        to_multiset_build(insert_by(front, x, le), last);
        to_multiset_build(front, last);
        assert(front.push(last) =~= sorted);
        assert(front.to_multiset().insert(x).insert(last) =~= front.to_multiset().insert(
            last,
        ).insert(x));
    }
}

/// Sorting rearranges: it neither adds nor drops an element.
pub proof fn lemma_sort_permutes<A>(s: Seq<A>, le: spec_fn(A, A) -> bool)
    ensures
        stable_sort(s, le).to_multiset() == s.to_multiset(),
        stable_sort(s, le).len() == s.len(),
    decreases s.len(),
{
    if s.len() == 0 {
        assert(s =~= Seq::<A>::empty());
    } else {
        let front = s.drop_last();
        lemma_sort_permutes(front, le);
        lemma_insert_permutes(stable_sort(front, le), s.last(), le);
        to_multiset_build(front, s.last());
        assert(front.push(s.last()) =~= s);
    }
}

/// What is sorted holds exactly the elements of what was given.
pub proof fn lemma_sort_members<A>(s: Seq<A>, le: spec_fn(A, A) -> bool, x: A)
    ensures
        stable_sort(s, le).contains(x) <==> s.contains(x),
{
    lemma_sort_permutes(s, le);
    to_multiset_contains(stable_sort(s, le), x);
    to_multiset_contains(s, x);
}

/// Inserting into a sorted sequence leaves it sorted.
pub proof fn lemma_insert_keeps_sorted<A>(sorted: Seq<A>, x: A, le: spec_fn(A, A) -> bool)
    requires
        is_total(le),
        is_transitive(le),
        is_sorted(sorted, le),
    ensures
        is_sorted(insert_by(sorted, x, le), le),
    decreases sorted.len(),
{
    let result = insert_by(sorted, x, le);
    if sorted.len() == 0 {
    } else if le(sorted.last(), x) {
        assert forall|i: int, j: int| 0 <= i < j < result.len() implies #[trigger] le(
            result[i],
            result[j],
        ) by {
            if j == sorted.len() && i < sorted.len() - 1 {
                assert(le(sorted[i], sorted[sorted.len() - 1]));
            }
        }
    } else {
        let front = sorted.drop_last();
        let last = sorted.last();
        let inner = insert_by(front, x, le);
        assert forall|i: int, j: int| 0 <= i < j < front.len() implies #[trigger] le(
            front[i],
            front[j],
        ) by {
            assert(le(sorted[i], sorted[j]));
        }
        lemma_insert_keeps_sorted(front, x, le);
        lemma_insert_permutes(front, x, le);
        assert(le(last, x) || le(x, last));
        assert forall|i: int, j: int| 0 <= i < j < result.len() implies #[trigger] le(
            result[i],
            result[j],
        ) by {
            if j == inner.len() {
                let y = inner[i];
                assert(inner.contains(y));
                to_multiset_contains(inner, y);
                to_multiset_contains(front, y);
                if y != x {
                    let k = front.index_of(y);
                    assert(le(sorted[k], sorted[sorted.len() - 1]));
                }
            } else {
                assert(le(inner[i], inner[j]));
            }
        }
    }
}

/// What `stable_sort` returns is sorted.
pub proof fn lemma_sort_sorted<A>(s: Seq<A>, le: spec_fn(A, A) -> bool)
    requires
        is_total(le),
        is_transitive(le),
    ensures
        is_sorted(stable_sort(s, le), le),
    decreases s.len(),
{
    if s.len() > 0 {
        lemma_sort_sorted(s.drop_last(), le);
        lemma_insert_keeps_sorted(stable_sort(s.drop_last(), le), s.last(), le);
    }
}

/// Two sorted sequences of the same elements are the same sequence, where
/// the order tells the elements apart.
pub proof fn lemma_sorted_unique<A>(x: Seq<A>, y: Seq<A>, le: spec_fn(A, A) -> bool)
    requires
        is_sorted(x, le),
        is_sorted(y, le),
        x.to_multiset() == y.to_multiset(),
        forall|i: int, j: int|
            0 <= i < x.len() && 0 <= j < x.len() && #[trigger] le(x[i], x[j]) && le(x[j], x[i])
                ==> x[i] == x[j],
    ensures
        x == y,
    decreases x.len(),
{
    to_multiset_len(x);
    to_multiset_len(y);
    if x.len() == 0 {
        assert(x =~= y);
    } else {
        let a = x.last();
        let b = y.last();
        let front = x.drop_last();
        let back = y.drop_last();
        assert(front.push(a) =~= x);
        assert(back.push(b) =~= y);
        assert(y.contains(b));
        to_multiset_contains(y, b);
        to_multiset_contains(x, b);
        let i = x.index_of(b);
        assert(x.contains(a));
        to_multiset_contains(x, a);
        to_multiset_contains(y, a);
        let j = y.index_of(a);
        assert(a == b) by {
            if i < x.len() - 1 && j < y.len() - 1 {
                assert(le(x[i], x[x.len() - 1]));
                assert(le(y[j], y[y.len() - 1]));
            }
        }
        to_multiset_build(front, a);
        to_multiset_build(back, b);
        assert(front.to_multiset() =~= back.to_multiset()) by {
            assert forall|v: A| front.to_multiset().count(v) == back.to_multiset().count(v) by {
                assert(front.to_multiset().insert(a).count(v) == back.to_multiset().insert(a).count(
                    v,
                ));
            }
        }
        assert forall|i: int, j: int| 0 <= i < j < front.len() implies #[trigger] le(
            front[i],
            front[j],
        ) by {
            assert(le(x[i], x[j]));
        }
        assert forall|i: int, j: int| 0 <= i < j < back.len() implies #[trigger] le(
            back[i],
            back[j],
        ) by {
            assert(le(y[i], y[j]));
        }
        assert forall|i: int, j: int|
            0 <= i < front.len() && 0 <= j < front.len() && #[trigger] le(front[i], front[j]) && le(
                front[j],
                front[i],
            ) implies front[i] == front[j] by {
            assert(le(x[i], x[j]) && le(x[j], x[i]));
        }
        lemma_sorted_unique(front, back, le);
    }
}

} // verus!
