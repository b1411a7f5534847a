//! Counting the items of sequences that satisfy a predicate.
use vstd::prelude::*;

verus! {

/// How many items of `s` satisfy `p`.
pub open spec fn count<A>(s: Seq<A>, p: spec_fn(A) -> bool) -> nat
    decreases s.len(),
{
    if s.len() == 0 {
        0
    } else {
        count(s.drop_last(), p) + (if p(s.last()) { 1nat } else { 0nat })
    }
}

/// One if `p` holds of `a`.
pub open spec fn one_if<A>(p: spec_fn(A) -> bool, a: A) -> nat {
    if p(a) {
        1
    } else {
        0
    }
}

pub proof fn lemma_count_push<A>(s: Seq<A>, a: A, p: spec_fn(A) -> bool)
    ensures
        count(s.push(a), p) == count(s, p) + one_if(p, a),
{
    assert(s.push(a).drop_last() =~= s);
}

pub proof fn lemma_count_concat<A>(a: Seq<A>, b: Seq<A>, p: spec_fn(A) -> bool)
    ensures
        count(a + b, p) == count(a, p) + count(b, p),
    decreases b.len(),
{
    if b.len() == 0 {
        assert(a + b =~= a);
    } else {
        lemma_count_concat(a, b.drop_last(), p);
        assert((a + b).drop_last() =~= a + b.drop_last());
        assert((a + b).last() == b.last());
    }
}

pub proof fn lemma_count_remove<A>(s: Seq<A>, k: int, p: spec_fn(A) -> bool)
    requires
        0 <= k < s.len(),
    ensures
        count(s.remove(k), p) + one_if(p, s[k]) == count(s, p),
    decreases s.len(),
{
    if k == s.len() - 1 {
        assert(s.remove(k) =~= s.drop_last());
    } else {
        lemma_count_remove(s.drop_last(), k, p);
        assert(s.remove(k) =~= s.drop_last().remove(k).push(s.last()));
        lemma_count_push(s.drop_last().remove(k), s.last(), p);
    }
}

/// Reordering keeps every count.
pub proof fn lemma_count_permutation<A>(a: Seq<A>, b: Seq<A>, p: spec_fn(A) -> bool)
    requires
        a.to_multiset() == b.to_multiset(),
    ensures
        count(a, p) == count(b, p),
    decreases a.len(),
{
    broadcast use vstd::seq_lib::group_to_multiset_ensures;

    if a.len() == 0 {
        assert(b.to_multiset().len() == 0);
        assert(b.len() == 0);
    } else {
        let e = a.last();
        assert(a =~= a.drop_last().push(e));
        assert(a.to_multiset().count(e) > 0);
        assert(b.contains(e));
        let k = choose|k: int| 0 <= k < b.len() && b[k] == e;
        assert(b.remove(k).to_multiset() == b.to_multiset().remove(e));
        assert(a.drop_last().to_multiset() =~= a.to_multiset().remove(e));
        lemma_count_permutation(a.drop_last(), b.remove(k), p);
        lemma_count_remove(b, k, p);
    }
}

/// The sum of `f` over `s`.
pub open spec fn sum<A>(s: Seq<A>, f: spec_fn(A) -> nat) -> nat
    decreases s.len(),
{
    if s.len() == 0 {
        0
    } else {
        sum(s.drop_last(), f) + f(s.last())
    }
}

pub proof fn lemma_sum_update<A>(s: Seq<A>, k: int, v: A, f: spec_fn(A) -> nat)
    requires
        0 <= k < s.len(),
    ensures
        sum(s.update(k, v), f) + f(s[k]) == sum(s, f) + f(v),
    decreases s.len(),
{
    if k == s.len() - 1 {
        assert(s.update(k, v).drop_last() =~= s.drop_last());
    } else {
        lemma_sum_update(s.drop_last(), k, v, f);
        assert(s.update(k, v).drop_last() =~= s.drop_last().update(k, v));
    }
}

} // verus!
