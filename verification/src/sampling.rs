//! Choosing vectors at random: the first centroids, and new places for centroids
//! that lost all their vectors.
use rand::rngs::StdRng;
use rand::seq::SliceRandom;
use rand::{RngCore, SeedableRng};
use vstd::prelude::*;

verus! {

/// Declares rand's standard generator. Nothing is known of its state.
#[verifier::external_type_specification]
#[verifier::external_body]
pub struct ExStdRng(StdRng);

/// Calls `StdRng::seed_from_u64`. What the generator will yield is left unsaid: rand
/// does not promise that it can be reproduced.
#[verifier::external_body]
fn seeded(seed: u64) -> (rng: StdRng) {
    StdRng::seed_from_u64(seed)
}

/// Calls `SliceRandom::shuffle`: what stands in the list is the same, each as often as
/// before. In which order is up to the generator.
#[verifier::external_body]
fn shuffle(list: &mut Vec<usize>, rng: &mut StdRng)
    ensures
        final(list)@.to_multiset() == old(list)@.to_multiset(),
{
    list.shuffle(rng);
}

/// Calls `RngCore::next_u64`. Any number can come.
#[verifier::external_body]
fn next_number(rng: &mut StdRng) -> (raw: u64) {
    rng.next_u64()
}

/// The first `k` of a list.
pub fn front(order: &Vec<usize>, k: usize) -> (picks: Vec<usize>)
    requires
        k <= order.len(),
    ensures
        picks@ == order@.take(k as int),
{
    let mut picks: Vec<usize> = Vec::new();
    for i in 0..k
        invariant
            k <= order.len(),
            picks@ == order@.take(i as int),
    {
        picks.push(order[i]);
        assert(picks@ =~= order@.take(i + 1));
    }
    picks
}

/// A number below `n`, from any number.
pub fn reduced(raw: u64, n: usize) -> (index: usize)
    requires
        n > 0,
    ensures
        index == (raw as usize) % n,
        index < n,
{
    let raw: usize = #[verifier::truncate] (raw as usize);
    raw % n
}

/// Chooses vectors at random.
pub struct Sampler {
    rng: StdRng,
}

impl Sampler {
    /// Starts from a seed.
    pub fn new(seed: u64) -> (sampler: Sampler) {
        Sampler { rng: seeded(seed) }
    }

    /// Chooses `k` different ones of `n` vectors.
    pub fn start(&mut self, n: usize, k: usize) -> (picks: Vec<usize>)
        requires
            k <= n,
        ensures
            picks@.len() == k,
            forall|i: int| 0 <= i < k ==> (#[trigger] picks@[i]) < n,
            picks@.no_duplicates(),
    {
        let mut order: Vec<usize> = Vec::new();
        for i in 0..n
            invariant
                order@.len() == i,
                forall|j: int| 0 <= j < i ==> #[trigger] order@[j] == j,
        {
            order.push(i);
        }
        let ghost sorted = order@;
        shuffle(&mut order, &mut self.rng);
        proof {
            assert(sorted.no_duplicates());
            sorted.lemma_multiset_has_no_duplicates();
            order@.lemma_multiset_has_no_duplicates_conv();
            sorted.to_multiset_ensures();
            order@.to_multiset_ensures();
            assert forall|i: int| 0 <= i < n implies (#[trigger] order@[i]) < n by {
                assert(order@.contains(order@[i]));
                assert(sorted.to_multiset().count(order@[i]) > 0);
                assert(sorted.contains(order@[i]));
            }
        }
        front(&order, k)
    }

    /// Chooses one of `n` vectors.
    pub fn pick(&mut self, n: usize) -> (index: usize)
        requires
            n > 0,
        ensures
            index < n,
    {
        reduced(next_number(&mut self.rng), n)
    }
}

/// A number that is small enough is kept, whatever the range, and the picks are the front
/// of the list they are taken from.
pub proof fn lemma_picks(
    raw: u64,
    n: usize,
    index: usize,
    order: &Vec<usize>,
    k: usize,
    picks: Vec<usize>,
)
    requires
        n > 0,
        k <= order@.len(),
        call_ensures(reduced, (raw, n), index),
        call_ensures(front, (order, k), picks),
    ensures
        index < n,
        raw < n ==> index == raw,
        picks@.len() == k,
        forall|i: int| 0 <= i < k ==> #[trigger] picks@[i] == order@[i],
{
    if raw < n {
        vstd::arithmetic::div_mod::lemma_small_mod(raw as nat, n as nat);
    }
}

} // verus!
