//! Seats at the table and the order in which play goes round them.

use crate::card::Card;
use vstd::arithmetic::div_mod::{lemma_mod_self_0, lemma_small_mod};
use vstd::prelude::*;

verus! {

/// A seat at the table. A game uses the first `n` seats, `n` from 2 to 6.
#[derive(Debug, Clone, Copy, PartialEq, Eq, Hash, Structural)]
pub enum PlayerId {
    P0,
    P1,
    P2,
    P3,
    P4,
    P5,
}

impl Default for PlayerId {
    fn default() -> (p: PlayerId)
        ensures
            p == PlayerId::P0,
    {
        PlayerId::P0
    }
}

/// The seat after seat `i` when play goes round `n` seats.
pub open spec fn seat_after(i: int, n: int) -> int {
    (i + 1) % n
}

/// Going round `n` seats from `start` for at most `steps` seats, the first
/// seat for which `ok` holds.
pub open spec fn seek_seat(start: int, steps: nat, n: int, ok: spec_fn(int) -> bool) -> Option<int>
    decreases steps,
{
    if steps == 0 {
        None
    } else if ok(start) {
        Some(start)
    } else {
        seek_seat(seat_after(start, n), (steps - 1) as nat, n, ok)
    }
}

/// For a seat inside the round, the next seat is one further, and seat 0
/// after the last.
pub proof fn lemma_seat_after(i: int, n: int)
    requires
        0 <= i < n,
    ensures
        seat_after(i, n) == (if i + 1 < n {
            i + 1
        } else {
            0
        }),
        0 <= seat_after(i, n) < n,
{
    if i + 1 < n {
        lemma_small_mod((i + 1) as nat, n as nat);
    } else {
        lemma_mod_self_0(n);
    }
}

/// Number of seats from `from` forward to `to`, going round `n` seats.
pub open spec fn seats_between(from: int, to: int, n: int) -> int {
    if to >= from {
        to - from
    } else {
        to - from + n
    }
}

/// What a search round the table finds: a seat of the round for which `ok`
/// holds, with every seat passed over on the way failing `ok`; and it finds
/// one whenever a seat near enough holds.
pub proof fn lemma_seek_seat(start: int, steps: nat, n: int, ok: spec_fn(int) -> bool)
    requires
        0 <= start < n,
    ensures
        seek_seat(start, steps, n, ok) matches Some(i) ==> 0 <= i < n && ok(i) && seats_between(
            start,
            i,
            n,
        ) < steps && (forall|j: int|
            #![trigger ok(j)]
            0 <= j < n && seats_between(start, j, n) < seats_between(start, i, n) ==> !ok(j)),
        seek_seat(start, steps, n, ok) is None ==> (forall|j: int|
            #![trigger ok(j)]
            0 <= j < n && seats_between(start, j, n) < steps ==> !ok(j)),
    decreases steps,
{
    if steps == 0 {
    } else if ok(start) {
    } else {
        lemma_seat_after(start, n);
        lemma_seek_seat(seat_after(start, n), (steps - 1) as nat, n, ok);
    }
}

/// The test "the hand at seat `i` holds a card".
pub open spec fn holds_cards(hands: Seq<Seq<Card>>) -> spec_fn(int) -> bool {
    |i: int| hands[i].len() > 0
}

/// The hands as sequences of cards.
pub open spec fn hands_view(hands: Seq<Vec<Card>>) -> Seq<Seq<Card>> {
    hands.map_values(|h: Vec<Card>| h@)
}

impl PlayerId {
    /// The seat's number, 0 to 5.
    pub open spec fn spec_index(self) -> usize {
        match self {
            PlayerId::P0 => 0,
            PlayerId::P1 => 1,
            PlayerId::P2 => 2,
            PlayerId::P3 => 3,
            PlayerId::P4 => 4,
            PlayerId::P5 => 5,
        }
    }

    #[verifier::when_used_as_spec(spec_index)]
    pub fn index(self) -> (i: usize)
        ensures
            i == self.spec_index(),
            i <= 5,
    {
        match self {
            PlayerId::P0 => 0,
            PlayerId::P1 => 1,
            PlayerId::P2 => 2,
            PlayerId::P3 => 3,
            PlayerId::P4 => 4,
            PlayerId::P5 => 5,
        }
    }

    /// The seat with number `i`; every number above 5 gives the last seat.
    pub open spec fn spec_from_index(i: usize) -> PlayerId {
        if i == 0 {
            PlayerId::P0
        } else if i == 1 {
            PlayerId::P1
        } else if i == 2 {
            PlayerId::P2
        } else if i == 3 {
            PlayerId::P3
        } else if i == 4 {
            PlayerId::P4
        } else {
            PlayerId::P5
        }
    }

    #[verifier::when_used_as_spec(spec_from_index)]
    pub fn from_index(i: usize) -> (p: PlayerId)
        ensures
            p == PlayerId::spec_from_index(i),
            i <= 5 ==> p.spec_index() == i,
    {
        match i {
            0 => PlayerId::P0,
            1 => PlayerId::P1,
            2 => PlayerId::P2,
            3 => PlayerId::P3,
            4 => PlayerId::P4,
            _ => PlayerId::P5,
        }
    }

    /// The opponent in a game of two: seat 1 for seat 0, and seat 0 for every other seat.
    pub open spec fn spec_other(self) -> PlayerId {
        if self == PlayerId::P0 {
            PlayerId::P1
        } else {
            PlayerId::P0
        }
    }

    #[verifier::when_used_as_spec(spec_other)]
    pub fn other(self) -> (p: PlayerId)
        ensures
            p == self.spec_other(),
    {
        match self {
            PlayerId::P0 => PlayerId::P1,
            PlayerId::P1 => PlayerId::P0,
            _ => PlayerId::P0,
        }
    }

    /// The next seat in a round of `num_players` seats.
    pub open spec fn spec_next(self, num_players: usize) -> PlayerId {
        PlayerId::spec_from_index(seat_after(self.spec_index() as int, num_players as int) as usize)
    }

    #[verifier::when_used_as_spec(spec_next)]
    pub fn next(self, num_players: usize) -> (p: PlayerId)
        requires
            num_players > 0,
        ensures
            p == self.spec_next(num_players),
            num_players <= 6 ==> p.spec_index() == seat_after(
                self.spec_index() as int,
                num_players as int,
            ),
            p.spec_index() < num_players,
    {
        PlayerId::from_index((self.index() + 1) % num_players)
    }

    /// The next seat after `self` whose hand is not empty, looking once round
    /// the table (`self` last); `self` when every hand is empty.
    pub open spec fn spec_next_active(self, num_players: usize, hands: Seq<Seq<Card>>) -> PlayerId {
        match seek_seat(
            self.spec_next(num_players).spec_index() as int,
            num_players as nat,
            num_players as int,
            holds_cards(hands),
        ) {
            Some(i) => PlayerId::spec_from_index(i as usize),
            None => self,
        }
    }

    /// Get the next player, skipping players with empty hands (who are out of the game).
    pub fn next_active(self, num_players: usize, hands: &[Vec<Card>]) -> (p: PlayerId)
        requires
            1 <= num_players <= 6,
            num_players <= hands@.len(),
        ensures
            p == self.spec_next_active(num_players, hands_view(hands@)),
    {
        let ghost ok = holds_cards(hands_view(hands@));
        let mut next = self.next(num_players);
        let ghost start = next.spec_index() as int;
        let mut k: usize = 0;
        while k < num_players
            invariant
                1 <= num_players <= 6,
                num_players <= hands@.len(),
                ok == holds_cards(hands_view(hands@)),
                start == self.spec_next(num_players).spec_index(),
                k <= num_players,
                next.spec_index() < num_players,
                seek_seat(start, num_players as nat, num_players as int, ok) == seek_seat(
                    next.spec_index() as int,
                    (num_players - k) as nat,
                    num_players as int,
                    ok,
                ),
            decreases num_players - k,
        {
            assert(ok(next.spec_index() as int) == (hands@[next.spec_index() as int]@.len() > 0));
            if hands[next.index()].len() > 0 {
                assert(PlayerId::spec_from_index(next.spec_index()) == next);
                return next;
            }
            next = next.next(num_players);
            k = k + 1;
        }
        self
    }
}

} // verus!
