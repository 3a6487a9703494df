//! Drawing random sample indices.
use vstd::prelude::*;
use rand::Rng;

verus! {

/// `rand::thread_rng().gen_range(0..n)`: an index drawn at random below `n`,
/// from the thread's generator. `gen_range` panics on an empty range, hence
/// the `requires`. Which index comes back is left open: it rests on chance.
#[verifier::external_body]
pub(crate) fn random_index(n: usize) -> (r: usize)
    requires
        n > 0,
    ensures
        r < n,
{
    rand::thread_rng().gen_range(0..n)
}

/// `i` is an index that `random_index(n)` can return: one drawn by the
/// random generator below `n`.
pub closed spec fn from_random_source(n: usize, i: usize) -> bool {
    call_ensures(random_index, (n,), i)
}

/// An index drawn by the random generator below `n` is below `n`.
pub proof fn lemma_random_source_below(n: usize, i: usize)
    requires
        from_random_source(n, i),
    ensures
        i < n,
{
}

/// Drawn by the random generator means exactly: an index that a call
/// `random_index(n)` can return.
pub(crate) proof fn lemma_random_source_is_a_draw(n: usize, i: usize)
    ensures
        from_random_source(n, i) <==> call_ensures(random_index, (n,), i),
{
}

/// `count` indices, each drawn at random below `n` by its own call of the
/// random generator.
pub(crate) fn draw_bootstrap(count: usize, n: usize) -> (r: Vec<usize>)
    requires
        count > 0 ==> n > 0,
    ensures
        r@.len() == count,
        forall|k: int| 0 <= k < count ==> #[trigger] r@[k] < n,
        forall|k: int| 0 <= k < count ==> call_ensures(random_index, (n,), #[trigger] r@[k]),
{
    let mut out: Vec<usize> = Vec::new();
    let mut k: usize = 0;
    while k < count
        invariant
            k <= count,
            count > 0 ==> n > 0,
            out@.len() == k,
            forall|j: int| 0 <= j < k ==> #[trigger] out@[j] < n,
            forall|j: int| 0 <= j < k ==> from_random_source(n, #[trigger] out@[j]),
        decreases count - k,
    {
        let i = random_index(n);
        out.push(i);
        k = k + 1;
    }
    out
}

} // verus!
