use vstd::prelude::*;
use rand::rngs::StdRng;
use rand::seq::SliceRandom;
use rand::{Rng, SeedableRng};

verus! {

#[verifier::external_type_specification]
#[verifier::external_body]
pub struct ExStdRng(rand::rngs::StdRng);

/// `SeedableRng::seed_from_u64`: the standard generator seeded with `seed`.
/// Nothing is claimed of the generator's state.
#[verifier::external_body]
pub(crate) fn rng_from_seed(seed: u64) -> (res: StdRng) {
    StdRng::seed_from_u64(seed)
}

/// `Rng::gen_range(0, n)`: some index below `n`. The crate documents a panic
/// when the range is empty, so `n` must be positive.
#[verifier::external_body]
pub(crate) fn rng_below(rng: &mut StdRng, n: usize) -> (res: usize)
    requires
        n > 0,
    ensures
        res < n,
{
    rng.gen_range(0, n)
}

/// `SliceRandom::shuffle`: the same elements in some order.
#[verifier::external_body]
pub(crate) fn shuffle_indices(v: &mut Vec<usize>, rng: &mut StdRng)
    ensures
        final(v)@.to_multiset() == old(v)@.to_multiset(),
{
    v.shuffle(rng)
}

/// The indices `0..n` in order.
pub fn index_range(n: usize) -> (res: Vec<usize>)
    ensures
        res@.len() == n,
        forall|i: int| 0 <= i < n ==> res@[i] == i,
{
    let mut v: Vec<usize> = Vec::new();
    for i in 0..n
        invariant
            v@.len() == i,
            forall|j: int| 0 <= j < i ==> v@[j] == j,
    {
        v.push(i);
    }
    v
}

/// A permutation of `0..n` holds exactly the indices below `n`.
pub proof fn lemma_perm_of_range(p: Seq<usize>, r: Seq<usize>, n: int)
    requires
        p.to_multiset() == r.to_multiset(),
        r.len() == n,
        forall|i: int| 0 <= i < n ==> r[i] == i,
    ensures
        p.len() == n,
        forall|j: int| 0 <= j < p.len() ==> p[j] < n,
        forall|k: usize| k < n ==> #[trigger] p.contains(k),
{
    p.to_multiset_ensures();
    r.to_multiset_ensures();
    assert forall|j: int| 0 <= j < p.len() implies p[j] < n by {
        assert(p.contains(p[j]));
        assert(r.to_multiset().count(p[j]) > 0);
        assert(r.contains(p[j]));
    }
    assert forall|k: usize| k < n implies #[trigger] p.contains(k) by {
        assert(r[k as int] == k);
        assert(r.contains(k));
        assert(r.to_multiset().count(k) > 0);
        assert(p.to_multiset().count(k) > 0);
    }
}

} // verus!
