//! Stable insertion order and first-match search over sequences, with their lemmas.

use vstd::prelude::*;

verus! {

/// `s` with `x` placed just after the last element that `x` does not come
/// before; elements equal in rank keep their order, and `x` goes after them.
pub open spec fn insert_ordered<A>(s: Seq<A>, x: A, before: spec_fn(A, A) -> bool) -> Seq<A>
    decreases s.len(),
{
    if s.len() == 0 {
        seq![x]
    } else if before(x, s.last()) {
        insert_ordered(s.drop_last(), x, before).push(s.last())
    } else {
        s.push(x)
    }
}

/// `s` sorted by `before`, stably: the result of inserting its elements one
/// after another.
pub open spec fn sort_ordered<A>(s: Seq<A>, before: spec_fn(A, A) -> bool) -> Seq<A>
    decreases s.len(),
{
    if s.len() == 0 {
        seq![]
    } else {
        insert_ordered(sort_ordered(s.drop_last(), before), s.last(), before)
    }
}

/// Inserting at the position found by scanning back from the end over the
/// elements that `x` comes before is what `insert_ordered` does.
pub proof fn lemma_insert_at<A>(s: Seq<A>, x: A, before: spec_fn(A, A) -> bool, p: int)
    requires
        0 <= p <= s.len(),
        forall|j: int| p <= j < s.len() ==> before(x, #[trigger] s[j]),
        p == 0 || !before(x, s[p - 1]),
    ensures
        insert_ordered(s, x, before) == s.subrange(0, p).push(x) + s.subrange(p, s.len() as int),
    decreases s.len(),
{
    if s.len() == 0 {
        assert(s.subrange(0, p).push(x) + s.subrange(p, s.len() as int) =~= seq![x]);
    } else if p == s.len() {
        assert(!before(x, s.last()));
        assert(s.subrange(0, p).push(x) + s.subrange(p, s.len() as int) =~= s.push(x));
    } else {
        assert(before(x, s[s.len() - 1]));
        let d = s.drop_last();
        assert forall|j: int| p <= j < d.len() implies before(x, #[trigger] d[j]) by {
            assert(d[j] == s[j]);
        }
        lemma_insert_at(d, x, before, p);
        assert(d.subrange(0, p).push(x) + d.subrange(p, d.len() as int) + seq![s.last()]
            =~= s.subrange(0, p).push(x) + s.subrange(p, s.len() as int));
    }
}

/// Sorting a sequence with one more element inserts that element into the
/// sorted rest.
pub proof fn lemma_sort_step<A>(s: Seq<A>, i: int, before: spec_fn(A, A) -> bool)
    requires
        0 <= i < s.len(),
    ensures
        sort_ordered(s.take(i + 1), before) == insert_ordered(
            sort_ordered(s.take(i), before),
            s[i],
            before,
        ),
{
    assert(s.take(i + 1).drop_last() =~= s.take(i));
}

/// Sorting keeps the length.
pub proof fn lemma_sort_len<A>(s: Seq<A>, before: spec_fn(A, A) -> bool)
    ensures
        sort_ordered(s, before).len() == s.len(),
    decreases s.len(),
{
    if s.len() > 0 {
        lemma_sort_len(s.drop_last(), before);
        lemma_insert_len(sort_ordered(s.drop_last(), before), s.last(), before);
    }
}

/// Inserting adds one element.
pub proof fn lemma_insert_len<A>(s: Seq<A>, x: A, before: spec_fn(A, A) -> bool)
    ensures
        insert_ordered(s, x, before).len() == s.len() + 1,
    decreases s.len(),
{
    if s.len() > 0 && before(x, s.last()) {
        lemma_insert_len(s.drop_last(), x, before);
    }
}

/// `insert_ordered` puts `x` at some position `p`, after every element it does
/// not come before and ahead of a run of elements it comes before.
pub proof fn lemma_insert_shape<A>(s: Seq<A>, x: A, before: spec_fn(A, A) -> bool) -> (p: int)
    ensures
        0 <= p <= s.len(),
        insert_ordered(s, x, before) == s.subrange(0, p).push(x) + s.subrange(p, s.len() as int),
        forall|j: int| p <= j < s.len() ==> before(x, #[trigger] s[j]),
        p == 0 || !before(x, s[p - 1]),
    decreases s.len(),
{
    if s.len() == 0 {
        assert(s.subrange(0, 0).push(x) + s.subrange(0, 0) =~= seq![x]);
        0
    } else if before(x, s.last()) {
        let d = s.drop_last();
        let q = lemma_insert_shape(d, x, before);
        assert(d.subrange(0, q).push(x) + d.subrange(q, d.len() as int) + seq![s.last()]
            =~= s.subrange(0, q).push(x) + s.subrange(q, s.len() as int));
        assert forall|j: int| q <= j < s.len() implies before(x, #[trigger] s[j]) by {
            if j < d.len() {
                assert(s[j] == d[j]);
            }
        }
        if q > 0 {
            assert(s[q - 1] == d[q - 1]);
        }
        q
    } else {
        assert(s.subrange(0, s.len() as int).push(x) + s.subrange(s.len() as int, s.len() as int)
            =~= s.push(x));
        s.len() as int
    }
}

/// Every element of a sorted sequence comes from the input.
pub proof fn lemma_sort_from<A>(s: Seq<A>, before: spec_fn(A, A) -> bool, k: int)
    requires
        0 <= k < sort_ordered(s, before).len(),
    ensures
        exists|i: int| 0 <= i < s.len() && sort_ordered(s, before)[k] == s[i],
    decreases s.len(),
{
    lemma_sort_len(s, before);
    let d = s.drop_last();
    let sd = sort_ordered(d, before);
    lemma_sort_len(d, before);
    let p = lemma_insert_shape(sd, s.last(), before);
    let r = sort_ordered(s, before);
    if k < p {
        assert(r[k] == sd[k]);
        lemma_sort_from(d, before, k);
        let i = choose|i: int| 0 <= i < d.len() && sd[k] == d[i];
        assert(s[i] == d[i]);
    } else if k == p {
        assert(r[k] == s[s.len() - 1]);
    } else {
        assert(r[k] == sd[k - 1]);
        lemma_sort_from(d, before, k - 1);
        let i = choose|i: int| 0 <= i < d.len() && sd[k - 1] == d[i];
        assert(s[i] == d[i]);
    }
}

/// The first index of `s` whose element satisfies `p`, or -1.
pub open spec fn first_index<A>(s: Seq<A>, p: spec_fn(A) -> bool) -> int
    decreases s.len(),
{
    if s.len() == 0 {
        -1
    } else {
        let k = first_index(s.drop_last(), p);
        if k >= 0 {
            k
        } else if p(s.last()) {
            s.len() - 1
        } else {
            -1
        }
    }
}

/// A scan from the front that stops at `j` finds the first index.
pub proof fn lemma_first_index<A>(s: Seq<A>, p: spec_fn(A) -> bool, j: int)
    requires
        0 <= j <= s.len(),
        forall|i: int| 0 <= i < j ==> !p(#[trigger] s[i]),
        j == s.len() || p(s[j]),
    ensures
        first_index(s, p) == if j == s.len() {
            -1
        } else {
            j
        },
    decreases s.len(),
{
    if s.len() > 0 {
        let d = s.drop_last();
        if j == s.len() {
            assert forall|i: int| 0 <= i < d.len() implies !p(#[trigger] d[i]) by {
                assert(d[i] == s[i]);
            }
            lemma_first_index(d, p, d.len() as int);
        } else {
            if j < d.len() {
                assert forall|i: int| 0 <= i < j implies !p(#[trigger] d[i]) by {
                    assert(d[i] == s[i]);
                }
                lemma_first_index(d, p, j);
            } else {
                assert forall|i: int| 0 <= i < d.len() implies !p(#[trigger] d[i]) by {
                    assert(d[i] == s[i]);
                }
                lemma_first_index(d, p, d.len() as int);
            }
        }
    }
}

/// When some element satisfies `p`, `first_index` names one that does.
pub proof fn lemma_first_index_found<A>(s: Seq<A>, p: spec_fn(A) -> bool, i: int)
    requires
        0 <= i < s.len(),
        p(s[i]),
    ensures
        0 <= first_index(s, p) <= i,
        p(s[first_index(s, p)]),
    decreases s.len(),
{
    let d = s.drop_last();
    if i < d.len() {
        assert(d[i] == s[i]);
        lemma_first_index_found(d, p, i);
        assert(s[first_index(d, p)] == d[first_index(d, p)]);
    } else {
        lemma_first_index_range(d, p);
        if first_index(d, p) >= 0 {
            lemma_first_index_sat(d, p);
            assert(s[first_index(d, p)] == d[first_index(d, p)]);
        }
    }
}

/// A non-negative `first_index` names an element that satisfies `p`.
pub proof fn lemma_first_index_sat<A>(s: Seq<A>, p: spec_fn(A) -> bool)
    requires
        first_index(s, p) >= 0,
    ensures
        first_index(s, p) < s.len(),
        p(s[first_index(s, p)]),
    decreases s.len(),
{
    let d = s.drop_last();
    lemma_first_index_range(s, p);
    if first_index(d, p) >= 0 {
        lemma_first_index_sat(d, p);
        assert(s[first_index(d, p)] == d[first_index(d, p)]);
    }
}

/// `first_index` is -1 or an index of the sequence.
pub proof fn lemma_first_index_range<A>(s: Seq<A>, p: spec_fn(A) -> bool)
    ensures
        -1 <= first_index(s, p) < s.len(),
    decreases s.len(),
{
    if s.len() > 0 {
        lemma_first_index_range(s.drop_last(), p);
    }
}


} // verus!
