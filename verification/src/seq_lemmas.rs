//! Small general lemmas about `Seq::filter`, used to reason about the rows of
//! one round inside the flat run and draw tables.

use vstd::prelude::*;

verus! {

/// Filtering after a push keeps the filtered prefix and appends the new
/// element exactly when it satisfies the predicate.
pub proof fn lemma_filter_push<A>(s: Seq<A>, e: A, p: spec_fn(A) -> bool)
    ensures
        s.push(e).filter(p) == (if p(e) {
            s.filter(p).push(e)
        } else {
            s.filter(p)
        }),
{
    reveal(Seq::filter);
    assert(s.push(e).drop_last() =~= s);
    assert(s.push(e).last() == e);
}

/// A sequence whose elements all satisfy the predicate filters to itself.
pub proof fn lemma_filter_all_true<A>(s: Seq<A>, p: spec_fn(A) -> bool)
    requires
        forall|i: int| 0 <= i < s.len() ==> p(#[trigger] s[i]),
    ensures
        s.filter(p) == s,
    decreases s.len(),
{
    reveal(Seq::filter);
    if s.len() > 0 {
        lemma_filter_all_true(s.drop_last(), p);
        assert(s.drop_last().push(s.last()) =~= s);
    }
}

/// A sequence none of whose elements satisfies the predicate filters to empty.
pub proof fn lemma_filter_all_false<A>(s: Seq<A>, p: spec_fn(A) -> bool)
    requires
        forall|i: int| 0 <= i < s.len() ==> !p(#[trigger] s[i]),
    ensures
        s.filter(p) == Seq::<A>::empty(),
    decreases s.len(),
{
    reveal(Seq::filter);
    if s.len() > 0 {
        lemma_filter_all_false(s.drop_last(), p);
    } else {
        assert(s =~= Seq::<A>::empty());
    }
}

/// Every element of a filtered sequence occurs in the original.
pub proof fn lemma_filter_elements<A>(s: Seq<A>, p: spec_fn(A) -> bool)
    ensures
        forall|i: int| 0 <= i < s.filter(p).len() ==> s.contains(#[trigger] s.filter(p)[i]),
    decreases s.len(),
{
    reveal(Seq::filter);
    if s.len() > 0 {
        let dl = s.drop_last();
        lemma_filter_elements(dl, p);
        assert forall|i: int| 0 <= i < s.filter(p).len() implies s.contains(#[trigger] s.filter(p)[i]) by {
            if i < dl.filter(p).len() {
                let x = dl.filter(p)[i];
                let j = choose|j: int| 0 <= j < dl.len() && dl[j] == x;
                assert(s[j] == x);
            } else {
                assert(s.filter(p)[i] == s.last());
                assert(s[s.len() - 1] == s.last());
            }
        }
    }
}

/// A relation holding between every earlier/later pair of a sequence still
/// holds between every such pair of a filtered copy.
pub proof fn lemma_filter_preserves_pairwise<A>(s: Seq<A>, p: spec_fn(A) -> bool, r: spec_fn(A, A) -> bool)
    requires
        forall|i: int, j: int| 0 <= i < j < s.len() ==> r(#[trigger] s[i], #[trigger] s[j]),
    ensures
        forall|i: int, j: int|
            0 <= i < j < s.filter(p).len() ==> r(#[trigger] s.filter(p)[i], #[trigger] s.filter(p)[j]),
    decreases s.len(),
{
    reveal(Seq::filter);
    if s.len() > 0 {
        let dl = s.drop_last();
        lemma_filter_preserves_pairwise(dl, p, r);
        lemma_filter_elements(dl, p);
        assert forall|i: int, j: int|
            0 <= i < j < s.filter(p).len() implies r(
            #[trigger] s.filter(p)[i],
            #[trigger] s.filter(p)[j],
        ) by {
            if j < dl.filter(p).len() {
                assert(r(dl.filter(p)[i], dl.filter(p)[j]));
            } else {
                // j names the appended last element of s
                assert(s.filter(p)[j] == s.last());
                let x = dl.filter(p)[i];
                let m = choose|m: int| 0 <= m < dl.len() && dl[m] == x;
                assert(s[m] == x);
                assert(r(s[m], s[s.len() - 1]));
            }
        }
    }
}

/// A permutation of a sequence whose elements carry pairwise distinct keys
/// again has pairwise distinct keys.
pub proof fn lemma_perm_distinct_by<A>(src: Seq<A>, dst: Seq<A>, f: spec_fn(A) -> u64)
    requires
        dst.to_multiset() == src.to_multiset(),
        forall|a: int, b: int| 0 <= a < b < src.len() ==> f(#[trigger] src[a]) != f(#[trigger] src[b]),
    ensures
        forall|a: int, b: int| 0 <= a < b < dst.len() ==> f(#[trigger] dst[a]) != f(#[trigger] dst[b]),
{
    broadcast use vstd::seq_lib::group_to_multiset_ensures;

    assert(src.no_duplicates());
    src.lemma_multiset_has_no_duplicates();
    dst.lemma_multiset_has_no_duplicates_conv();
    assert forall|a: int, b: int|
        0 <= a < b < dst.len() implies f(#[trigger] dst[a]) != f(#[trigger] dst[b]) by {
        assert(dst.contains(dst[a]));
        assert(dst.contains(dst[b]));
        assert(src.to_multiset().count(dst[a]) > 0);
        assert(src.to_multiset().count(dst[b]) > 0);
        assert(src.contains(dst[a]));
        assert(src.contains(dst[b]));
        if dst[a] == dst[b] {
            assert(!dst.no_duplicates());
        } else {
            let i = choose|i: int| 0 <= i < src.len() && src[i] == dst[a];
            let j = choose|j: int| 0 <= j < src.len() && src[j] == dst[b];
            assert(i != j);
            if i < j {
                assert(f(src[i]) != f(src[j]));
            } else {
                assert(f(src[j]) != f(src[i]));
            }
        }
    }
}

} // verus!
