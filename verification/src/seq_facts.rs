//! Facts about filtering sequences of sample indices.
use vstd::prelude::*;
use vstd::seq_lib::group_to_multiset_ensures;

verus! {

/// Filtering one more item of a prefix.
pub proof fn lemma_filter_take_step(s: Seq<usize>, p: spec_fn(usize) -> bool, j: int)
    requires
        0 <= j < s.len(),
    ensures
        s.take(j + 1).filter(p) == (if p(s[j]) {
            s.take(j).filter(p).push(s[j])
        } else {
            s.take(j).filter(p)
        }),
{
    reveal(Seq::filter);
    assert(s.take(j + 1).drop_last() =~= s.take(j));
    assert(s.take(j + 1).last() == s[j]);
}

/// An item is kept by a filter exactly when it is in the sequence and passes.
pub proof fn lemma_filter_contains(s: Seq<usize>, p: spec_fn(usize) -> bool, x: usize)
    ensures
        s.filter(p).contains(x) <==> (s.contains(x) && p(x)),
    decreases s.len(),
{
    reveal(Seq::filter);
    if s.len() > 0 {
        let init = s.drop_last();
        lemma_filter_contains(init, p, x);
        assert(s =~= init.push(s.last()));
        let sub = init.filter(p);
        if s.contains(x) && p(x) {
            let i = choose|i: int| 0 <= i < s.len() && s[i] == x;
            if i < s.len() - 1 {
                assert(init[i] == x);
                assert(init.contains(x));
                let i2 = choose|i2: int| 0 <= i2 < sub.len() && sub[i2] == x;
                if p(s.last()) {
                    assert(sub.push(s.last())[i2] == x);
                }
            } else {
                assert(sub.push(s.last())[sub.len() as int] == x);
            }
        }
        if s.filter(p).contains(x) {
            let i = choose|i: int| 0 <= i < s.filter(p).len() && s.filter(p)[i] == x;
            if p(s.last()) && i == sub.len() {
                assert(s[s.len() - 1] == x);
            } else {
                assert(sub[i] == x);
                assert(sub.contains(x));
                let i2 = choose|i2: int| 0 <= i2 < init.len() && init[i2] == x;
                assert(s[i2] == x);
            }
        }
    }
}

/// Splitting a sequence by a predicate and its negation keeps every item once.
pub proof fn lemma_filter_partition(s: Seq<usize>, p: spec_fn(usize) -> bool, q: spec_fn(usize) -> bool)
    requires
        forall|x: usize| #[trigger] q(x) == !p(x),
    ensures
        s.filter(p).to_multiset().add(s.filter(q).to_multiset()) =~= s.to_multiset(),
    decreases s.len(),
{
    broadcast use group_to_multiset_ensures;

    reveal(Seq::filter);
    if s.len() == 0 {
        assert(s.filter(p) =~= Seq::<usize>::empty());
        assert(s.filter(q) =~= Seq::<usize>::empty());
    } else {
        let init = s.drop_last();
        lemma_filter_partition(init, p, q);
        assert(s =~= init.push(s.last()));
    }
}

/// Sequences with the same items keep the same items under a map.
pub proof fn lemma_map_same_items<A, B>(a: Seq<A>, b: Seq<A>, h: spec_fn(A) -> B)
    requires
        a.to_multiset() == b.to_multiset(),
    ensures
        a.map_values(h).to_multiset() == b.map_values(h).to_multiset(),
    decreases a.len(),
{
    broadcast use group_to_multiset_ensures;
    broadcast use vstd::seq_lib::to_multiset_remove;

    if a.len() == 0 {
        assert(b.to_multiset().len() == 0);
        assert(b.len() == 0);
        assert(a.map_values(h) =~= Seq::<B>::empty());
        assert(b.map_values(h) =~= Seq::<B>::empty());
    } else {
        let x = a.last();
        let a0 = a.drop_last();
        assert(a =~= a0.push(x));
        assert(a.to_multiset().count(x) > 0);
        assert(b.to_multiset().count(x) > 0);
        assert(b.contains(x));
        let j = choose|j: int| 0 <= j < b.len() && b[j] == x;
        let b0 = b.remove(j);
        assert(b0.to_multiset() == b.to_multiset().remove(x));
        assert(a0.to_multiset() =~= a.to_multiset().remove(x));
        lemma_map_same_items(a0, b0, h);
        assert(a.map_values(h) =~= a0.map_values(h).push(h(x)));
        assert(b0.map_values(h) =~= b.map_values(h).remove(j));
        assert(b.map_values(h)[j] == h(x));
        assert(b.map_values(h).remove(j).to_multiset() == b.map_values(h).to_multiset().remove(h(x)));
        assert(b.map_values(h).to_multiset().count(h(x)) > 0) by {
            assert(b.map_values(h).contains(h(x)));
        }
        assert(a.map_values(h).to_multiset() =~= a0.map_values(h).to_multiset().insert(h(x)));
        assert(b.map_values(h).to_multiset() =~= b.map_values(h).to_multiset().remove(h(x)).insert(h(x)));
    }
}

/// How often an item occurs after filtering.
pub proof fn lemma_filter_count(s: Seq<usize>, p: spec_fn(usize) -> bool, x: usize)
    ensures
        s.filter(p).to_multiset().count(x) == if p(x) {
            s.to_multiset().count(x)
        } else {
            0
        },
    decreases s.len(),
{
    broadcast use group_to_multiset_ensures;

    if s.len() == 0 {
        assert(s.filter(p) =~= Seq::<usize>::empty()) by {
            reveal(Seq::filter);
        }
    } else {
        let s0 = s.drop_last();
        assert(s =~= s0.push(s.last()));
        s0.lemma_filter_push(s.last(), p);
        lemma_filter_count(s0, p, x);
    }
}

/// Sequences with the same items keep the same items under a filter.
pub proof fn lemma_filter_same_items(a: Seq<usize>, b: Seq<usize>, p: spec_fn(usize) -> bool)
    requires
        a.to_multiset() == b.to_multiset(),
    ensures
        a.filter(p).to_multiset() == b.filter(p).to_multiset(),
{
    assert forall|x: usize| a.filter(p).to_multiset().count(x) == b.filter(p).to_multiset().count(x) by {
        lemma_filter_count(a, p, x);
        lemma_filter_count(b, p, x);
    }
    assert(a.filter(p).to_multiset() =~= b.filter(p).to_multiset());
}

/// A filter that keeps a prefix of a sequence and drops the rest.
pub proof fn lemma_filter_prefix(s: Seq<usize>, p: spec_fn(usize) -> bool, q: spec_fn(usize) -> bool, k: int)
    requires
        0 <= k <= s.len(),
        forall|x: usize| #[trigger] q(x) == !p(x),
        forall|j: int| 0 <= j < k ==> #[trigger] p(s[j]),
        forall|j: int| k <= j < s.len() ==> !#[trigger] p(s[j]),
    ensures
        s.filter(p) == s.take(k),
        s.filter(q) == s.skip(k),
{
    assert(s =~= s.take(k) + s.skip(k));
    Seq::filter_distributes_over_add(s.take(k), s.skip(k), p);
    Seq::filter_distributes_over_add(s.take(k), s.skip(k), q);
    lemma_filter_keeps_all(s.take(k), p);
    lemma_filter_keeps_all(s.skip(k), q);
    s.take(k).lemma_all_neg_filter_empty(q);
    s.skip(k).lemma_all_neg_filter_empty(p);
    assert(s.take(k).filter(q) =~= Seq::<usize>::empty());
    assert(s.skip(k).filter(p) =~= Seq::<usize>::empty());
}

/// A filter that every item passes keeps the sequence.
pub proof fn lemma_filter_keeps_all(s: Seq<usize>, p: spec_fn(usize) -> bool)
    requires
        forall|j: int| 0 <= j < s.len() ==> #[trigger] p(s[j]),
    ensures
        s.filter(p) == s,
    decreases s.len(),
{
    if s.len() == 0 {
        assert(s.filter(p) =~= s) by {
            reveal(Seq::filter);
        }
    } else {
        let s0 = s.drop_last();
        assert(s =~= s0.push(s.last()));
        assert forall|j: int| 0 <= j < s0.len() implies #[trigger] p(s0[j]) by {
            assert(s0[j] == s[j]);
        }
        lemma_filter_keeps_all(s0, p);
        s0.lemma_filter_push(s.last(), p);
        assert(p(s[s.len() - 1]));
    }
}

/// A filter that the first `k` items pass keeps at least `k` items.
pub proof fn lemma_filter_len_at_least(s: Seq<usize>, p: spec_fn(usize) -> bool, k: int)
    requires
        0 <= k <= s.len(),
        forall|j: int| 0 <= j < k ==> #[trigger] p(s[j]),
    ensures
        s.filter(p).len() >= k,
{
    assert(s =~= s.take(k) + s.skip(k));
    Seq::filter_distributes_over_add(s.take(k), s.skip(k), p);
    assert forall|j: int| 0 <= j < s.take(k).len() implies #[trigger] p(s.take(k)[j]) by {
        assert(s.take(k)[j] == s[j]);
    }
    lemma_filter_keeps_all(s.take(k), p);
}

} // verus!
