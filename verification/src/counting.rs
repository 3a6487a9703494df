//! Counting class labels: the distinct classes of a sequence of labels, how
//! often each occurs, and a most frequent one.
use vstd::prelude::*;
use vstd::seq_lib::group_to_multiset_ensures;

verus! {

/// How often `v` occurs in `s`.
pub open spec fn count_of(s: Seq<usize>, v: usize) -> nat {
    s.to_multiset().count(v)
}

/// `c` occurs in `s`, and no value occurs in `s` more often than `c`.
pub open spec fn is_most_frequent(s: Seq<usize>, c: usize) -> bool {
    &&& s.contains(c)
    &&& forall|v: usize| #[trigger] count_of(s, v) <= count_of(s, c)
}

/// `classes` lists each value of `s` exactly once, and nothing else.
pub open spec fn lists_classes_of(classes: Seq<usize>, s: Seq<usize>) -> bool {
    &&& classes.no_duplicates()
    &&& forall|v: usize| #[trigger] classes.contains(v) <==> s.contains(v)
}

/// `counts[k]` is how often `classes[k]` occurs in `s`.
pub open spec fn counts_match(classes: Seq<usize>, counts: Seq<usize>, s: Seq<usize>) -> bool {
    &&& counts.len() == classes.len()
    &&& forall|k: int| 0 <= k < classes.len() ==> #[trigger] counts[k] == count_of(s, classes[k])
}

pub proof fn lemma_count_push(s: Seq<usize>, a: usize, v: usize)
    ensures
        count_of(s.push(a), v) == count_of(s, v) + (if a == v { 1nat } else { 0nat }),
{
    broadcast use group_to_multiset_ensures;

    assert(s.push(a).to_multiset() =~= s.to_multiset().insert(a));
}

pub proof fn lemma_count_absent(s: Seq<usize>, v: usize)
    requires
        !s.contains(v),
    ensures
        count_of(s, v) == 0,
{
    broadcast use group_to_multiset_ensures;

}

pub proof fn lemma_count_empty(v: usize)
    ensures
        count_of(Seq::<usize>::empty(), v) == 0,
{
    broadcast use group_to_multiset_ensures;

}

/// The position of `v` in `classes`, if it is there.
pub(crate) fn position_of(classes: &Vec<usize>, v: usize) -> (r: Option<usize>)
    ensures
        r matches Some(k) ==> k < classes@.len() && classes@[k as int] == v,
        r is None ==> !classes@.contains(v),
{
    let n = classes.len();
    let mut k: usize = 0;
    while k < n
        invariant
            n == classes@.len(),
            k <= n,
            forall|j: int| 0 <= j < k ==> classes@[j] != v,
        decreases n - k,
    {
        if classes[k] == v {
            return Some(k);
        }
        k = k + 1;
    }
    None
}

/// A copy of a vector of counts.
pub(crate) fn copy_counts(v: &Vec<usize>) -> (r: Vec<usize>)
    ensures
        r@ == v@,
{
    let n = v.len();
    let mut out: Vec<usize> = Vec::new();
    let mut k: usize = 0;
    while k < n
        invariant
            n == v@.len(),
            k <= n,
            out@ == v@.take(k as int),
        decreases n - k,
    {
        out.push(v[k]);
        k = k + 1;
        assert(out@ =~= v@.take(k as int));
    }
    assert(v@.take(n as int) =~= v@);
    out
}

/// The distinct values of `values`, in the order in which each first occurs,
/// with how often each occurs.
pub fn tally(values: &Vec<usize>) -> (r: (Vec<usize>, Vec<usize>))
    ensures
        lists_classes_of(r.0@, values@),
        counts_match(r.0@, r.1@, values@),
{
    let n = values.len();
    let mut classes: Vec<usize> = Vec::new();
    let mut counts: Vec<usize> = Vec::new();
    let mut j: usize = 0;
    while j < n
        invariant
            n == values@.len(),
            j <= n,
            lists_classes_of(classes@, values@.take(j as int)),
            counts_match(classes@, counts@, values@.take(j as int)),
            forall|k: int| 0 <= k < counts@.len() ==> #[trigger] counts@[k] <= j,
        decreases n - j,
    {
        let v = values[j];
        let ghost before = values@.take(j as int);
        assert(values@.take(j + 1) =~= before.push(v));
        proof {
            assert forall|w: usize| #[trigger] count_of(before.push(v), w) == count_of(before, w) + (
            if v == w {
                1nat
            } else {
                0nat
            }) by {
                lemma_count_push(before, v, w);
            }
        }
        match position_of(&classes, v) {
            Some(k) => {
                let c = counts[k];
                counts.set(k, c + 1);
                proof {
                    assert forall|w: usize| #[trigger] classes@.contains(w) <==> before.push(v).contains(
                        w,
                    ) by {
                        if before.push(v).contains(w) && w != v {
                            let i = choose|i: int|
                                0 <= i < before.push(v).len() && before.push(v)[i] == w;
                            assert(before[i] == w);
                        }
                        if classes@.contains(w) && w != v {
                            assert(before.contains(w));
                            let i2 = choose|i2: int| 0 <= i2 < before.len() && before[i2] == w;
                            assert(before.push(v)[i2] == w);
                        }
                        if w == v {
                            assert(before.push(v)[before.len() as int] == v);
                        }
                    }
                }
            },
            None => {
                proof {
                    lemma_count_absent(before, v);
                }
                let ghost old_classes = classes@;
                classes.push(v);
                counts.push(1);
                proof {
                    assert forall|w: usize| #[trigger] classes@.contains(w) <==> before.push(v).contains(
                        w,
                    ) by {
                        if w == v {
                            assert(classes@[old_classes.len() as int] == v);
                            assert(before.push(v)[before.len() as int] == v);
                        } else {
                            if classes@.contains(w) {
                                let i = choose|i: int| 0 <= i < classes@.len() && classes@[i] == w;
                                assert(old_classes[i] == w);
                                assert(old_classes.contains(w));
                                assert(before.contains(w));
                                let i2 = choose|i2: int| 0 <= i2 < before.len() && before[i2] == w;
                                assert(before.push(v)[i2] == w);
                            }
                            if before.push(v).contains(w) {
                                let i = choose|i: int|
                                    0 <= i < before.push(v).len() && before.push(v)[i] == w;
                                assert(before[i] == w);
                                assert(old_classes.contains(w));
                                let i2 = choose|i2: int| 0 <= i2 < old_classes.len() && old_classes[i2] == w;
                                assert(classes@[i2] == w);
                            }
                        }
                    }
                }
            },
        }
        j = j + 1;
    }
    assert(values@.take(n as int) =~= values@);
    (classes, counts)
}

/// How often each of `classes` occurs in `values`.
pub fn counts_for(classes: &Vec<usize>, values: &Vec<usize>) -> (counts: Vec<usize>)
    requires
        classes@.no_duplicates(),
    ensures
        counts_match(classes@, counts@, values@),
{
    let m = classes.len();
    let mut counts: Vec<usize> = Vec::new();
    let mut k: usize = 0;
    while k < m
        invariant
            m == classes@.len(),
            k <= m,
            counts@.len() == k,
            forall|i: int| 0 <= i < k ==> counts@[i] == 0,
        decreases m - k,
    {
        counts.push(0);
        k = k + 1;
    }
    let n = values.len();
    let mut j: usize = 0;
    proof {
        assert(values@.take(0) =~= Seq::<usize>::empty());
        assert forall|i: int| 0 <= i < m implies #[trigger] counts@[i] == count_of(
            values@.take(0),
            classes@[i],
        ) by {
            lemma_count_empty(classes@[i]);
        }
    }
    while j < n
        invariant
            n == values@.len(),
            m == classes@.len(),
            j <= n,
            classes@.no_duplicates(),
            counts_match(classes@, counts@, values@.take(j as int)),
            forall|i: int| 0 <= i < counts@.len() ==> #[trigger] counts@[i] <= j,
        decreases n - j,
    {
        let v = values[j];
        let ghost before = values@.take(j as int);
        assert(values@.take(j + 1) =~= before.push(v));
        proof {
            assert forall|w: usize| #[trigger] count_of(before.push(v), w) == count_of(before, w) + (
            if v == w {
                1nat
            } else {
                0nat
            }) by {
                lemma_count_push(before, v, w);
            }
        }
        match position_of(classes, v) {
            Some(k) => {
                let c = counts[k];
                counts.set(k, c + 1);
            },
            None => {},
        }
        j = j + 1;
    }
    assert(values@.take(n as int) =~= values@);
    counts
}

/// A most frequent value of `values`, or `None` when there is none.
///
/// When several values are equally frequent, the one that first occurs first wins.
pub fn most_frequent(values: &Vec<usize>) -> (r: Option<usize>)
    ensures
        r is None <==> values@.len() == 0,
        r matches Some(c) ==> is_most_frequent(values@, c),
{
    let (classes, counts) = tally(values);
    let m = classes.len();
    if m == 0 {
        proof {
            if values@.len() > 0 {
                assert(values@.contains(values@[0]));
                assert(classes@.contains(values@[0]));
            }
        }
        return None;
    }
    let mut best: usize = 0;
    let mut k: usize = 1;
    while k < m
        invariant
            m == classes@.len(),
            m == counts@.len(),
            1 <= k <= m,
            best < k,
            forall|i: int| 0 <= i < k ==> counts@[i] <= counts@[best as int],
        decreases m - k,
    {
        if counts[k] > counts[best] {
            best = k;
        }
        k = k + 1;
    }
    let c = classes[best];
    proof {
        assert(classes@.contains(c));
        assert forall|v: usize| #[trigger] count_of(values@, v) <= count_of(values@, c) by {
            if classes@.contains(v) {
                let i = choose|i: int| 0 <= i < classes@.len() && classes@[i] == v;
                assert(counts@[i] == count_of(values@, classes@[i]));
            } else {
                lemma_count_absent(values@, v);
            }
        }
    }
    Some(c)
}

} // verus!
