//! Seeded sampling of candidates.
use vstd::prelude::*;

use crate::candidate::BeamCandidate;

verus! {

/// `rand`'s seeded generator.
#[verifier::external_type_specification]
#[verifier::external_body]
pub struct ExStdRng(rand::rngs::StdRng);

/// The seed that a generator was made with.
pub uninterp spec fn rng_seed(rng: rand::rngs::StdRng) -> u64;

/// The partial shuffles that a generator has been used for: for each the number of
/// items and the number of places drawn.
pub uninterp spec fn rng_draws(rng: rand::rngs::StdRng) -> Seq<(nat, nat)>;

/// For each place after the last of a generator's partial shuffles, the place that
/// its item came from.
pub uninterp spec fn shuffle_order(seed: u64, draws: Seq<(nat, nat)>) -> Seq<int>;

/// `order` names each of `n` places once.
pub open spec fn is_arrangement(order: Seq<int>, n: nat) -> bool {
    &&& order.len() == n
    &&& forall|k: int| 0 <= k < n ==> 0 <= #[trigger] order[k] < n
    &&& forall|j: int, k: int| 0 <= j < k < n ==> order[j] != order[k]
}

/// Calls `StdRng::seed_from_u64`: the generator's draws depend on the seed alone.
#[verifier::external_body]
pub(crate) fn seeded_rng(seed: u64) -> (rng: rand::rngs::StdRng)
    ensures
        rng_seed(rng) == seed,
        rng_draws(rng) == Seq::<(nat, nat)>::empty(),
{
    rand::SeedableRng::seed_from_u64(seed)
}

/// Calls `rand::seq::SliceRandom::partial_shuffle`: the items are rearranged, none
/// is lost and none is doubled, and the arrangement is a function of the seed and
/// of the numbers of items and places in this and the earlier shuffles. The items that
/// were drawn stand in the last `amount` places.
#[verifier::external_body]
pub(crate) fn partial_shuffle(
    rng: &mut rand::rngs::StdRng,
    items: &mut Vec<BeamCandidate>,
    amount: usize,
)
    ensures
        rng_seed(*final(rng)) == rng_seed(*old(rng)),
        rng_draws(*final(rng)) == rng_draws(*old(rng)).push((old(items)@.len(), amount as nat)),
        is_arrangement(
            shuffle_order(rng_seed(*final(rng)), rng_draws(*final(rng))),
            old(items)@.len(),
        ),
        final(items)@ == Seq::new(
            old(items)@.len(),
            |k: int|
                old(items)@[shuffle_order(rng_seed(*final(rng)), rng_draws(*final(rng)))[k]],
        ),
{
    rand::seq::SliceRandom::partial_shuffle(items.as_mut_slice(), rng, amount);
}

} // verus!
