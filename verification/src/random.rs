//! The random source and what the engine draws from it.

use crate::card::Card;
use rand::rngs::StdRng;
use rand::{Rng, SeedableRng};
use vstd::prelude::*;
use vstd::seq_lib::to_multiset_update;

verus! {

/// The generator `rand::rngs::StdRng`. Nothing is known of its state.
#[verifier::external_type_specification]
#[verifier::external_body]
pub struct ExStdRng(StdRng);

/// `SeedableRng::seed_from_u64` for `StdRng`: a generator made from a seed.
/// Nothing is claimed of the generator.
#[verifier::external_body]
pub(crate) fn seeded_rng(seed: u64) -> (rng: StdRng) {
    StdRng::seed_from_u64(seed)
}

/// `Rng::gen_range` over `0..bound`: a number below `bound`. The call
/// panics on an empty range, so `bound` must be positive. Only the range of
/// the number is claimed.
#[verifier::external_body]
pub(crate) fn random_below(rng: &mut StdRng, bound: usize) -> (r: usize)
    requires
        bound > 0,
    ensures
        r < bound,
{
    rng.gen_range(0..bound)
}

/// The cards with those at positions `i` and `j` changed places.
pub open spec fn exchanged(cards: Seq<Card>, i: int, j: int) -> Seq<Card> {
    cards.update(i, cards[j]).update(j, cards[i])
}

/// The cards after a run of exchanges from the last position down: the
/// first pick changes places with the last card, the next pick with the
/// card before it, and so on.
pub open spec fn shuffled_by(cards: Seq<Card>, picks: Seq<int>) -> Seq<Card>
    decreases picks.len(),
{
    if picks.len() == 0 {
        cards
    } else {
        exchanged(
            shuffled_by(cards, picks.drop_last()),
            cards.len() - picks.len(),
            picks.last(),
        )
    }
}

/// Each pick is a position not after the one it changes places with.
pub open spec fn picks_in_range(len: nat, picks: Seq<int>) -> bool {
    forall|t: int| 0 <= t < picks.len() ==> 0 <= #[trigger] picks[t] <= len - 1 - t
}

/// Changes the places of the cards at positions `i` and `j`.
fn exchange(cards: &mut Vec<Card>, i: usize, j: usize)
    requires
        i < old(cards)@.len(),
        j < old(cards)@.len(),
    ensures
        final(cards)@ == exchanged(old(cards)@, i as int, j as int),
        final(cards)@.to_multiset() == old(cards)@.to_multiset(),
        final(cards)@.len() == old(cards)@.len(),
{
    let a = cards[i];
    let b = cards[j];
    let ghost before = cards@;
    cards.set(i, b);
    cards.set(j, a);
    proof {
        broadcast use vstd::multiset::group_multiset_axioms;

        assert(before.update(i as int, b)[j as int] == b);
        before.to_multiset_ensures();
        assert(before.contains(before[i as int]));
        assert(before.contains(before[j as int]));
        to_multiset_update(before, i as int, b);
        to_multiset_update(before.update(i as int, b), j as int, a);
        assert(cards@.to_multiset() =~= before.to_multiset());
    }
}

/// Shuffles the cards: from the last position down to the second, each card
/// changes places with one at a random position not after it. The cards
/// stay the same cards.
pub fn shuffle(cards: &mut Vec<Card>, rng: &mut StdRng)
    ensures
        exists|picks: Seq<int>|
            #[trigger] shuffled_by(old(cards)@, picks) == final(cards)@ && picks_in_range(
                old(cards)@.len(),
                picks,
            ) && picks.len() == (if old(cards)@.len() == 0 {
                0
            } else {
                old(cards)@.len() - 1
            }),
        final(cards)@.to_multiset() == old(cards)@.to_multiset(),
        final(cards)@.len() == old(cards)@.len(),
{
    let mut i: usize = cards.len();
    let ghost mut picks: Seq<int> = Seq::empty();
    while i > 1
        invariant
            i <= cards.len(),
            cards@.len() == old(cards)@.len(),
            cards@.to_multiset() == old(cards)@.to_multiset(),
            cards@.len() >= 1 ==> i >= 1,
            picks.len() == cards@.len() - i,
            picks_in_range(cards@.len(), picks),
            cards@ == shuffled_by(old(cards)@, picks),
        decreases i,
    {
        i = i - 1;
        let j = random_below(rng, i + 1);
        proof {
            assert(picks.push(j as int).drop_last() == picks);
        }
        exchange(cards, i, j);
        proof {
            picks = picks.push(j as int);
        }
    }
    assert(shuffled_by(old(cards)@, picks) == cards@);
}

} // verus!
