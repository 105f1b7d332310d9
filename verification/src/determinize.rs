//! Filling in what an observer cannot see with cards that could be there.

use crate::card::Card;
use crate::player::PlayerId;
use crate::random::shuffle;
use crate::rules::{is_hidden, nonempty, GameView};
use crate::seqs::{count_where, lemma_count_where_alike, lemma_count_where_step};
use crate::state::GameState;
use rand::rngs::StdRng;
use vstd::prelude::*;

verus! {

/// The test "this card is hidden from everyone but its holder": it is
/// unknown or private.
pub open spec fn is_concealed() -> spec_fn(Card) -> bool {
    |c: Card| c is Unknown || c is Private
}

/// The test for a card hidden from the observer: in the observer's own hand
/// an unknown card, elsewhere any card that is not face up.
pub open spec fn hidden_test(own: bool) -> spec_fn(Card) -> bool {
    if own {
        is_hidden()
    } else {
        is_concealed()
    }
}

/// A private card turned face up; any other card as it is.
pub open spec fn face_up_if_private() -> spec_fn(Card) -> Card {
    |c: Card|
        if c is Private {
            c.spec_as_public()
        } else {
            c
        }
}

/// The smaller of two numbers.
pub open spec fn least(a: nat, b: nat) -> nat {
    if a <= b {
        a
    } else {
        b
    }
}

/// The cards with the hidden ones replaced from the pool: the hidden cards
/// take the pool's cards from position `start` on, in order, and once the
/// pool is used up the cards stay as they are.
pub open spec fn fill_hidden(
    cards: Seq<Card>,
    veil: spec_fn(Card) -> bool,
    pool: Seq<Card>,
    start: nat,
) -> Seq<Card> {
    Seq::new(
        cards.len(),
        |i: int|
            {
                let k = start + count_where(cards.take(i), veil);
                if veil(cards[i]) && k < pool.len() {
                    pool[k as int]
                } else {
                    cards[i]
                }
            },
    )
}

/// Whether seat `h` is the observer's own. With no observer named, every
/// hand is looked at as its holder looks at it.
pub open spec fn own_seat(who: Option<PlayerId>, h: int) -> bool {
    match who {
        Some(p) => h == p.spec_index(),
        None => true,
    }
}

impl GameView {
    /// Number of pool cards dealt to the hands before seat `h`.
    pub open spec fn dealt_before(self, h: int, who: Option<PlayerId>, pool_len: nat) -> nat
        decreases h,
    {
        if h <= 0 {
            0
        } else {
            least(
                pool_len,
                self.dealt_before(h - 1, who, pool_len) + count_where(
                    self.hands[h - 1],
                    hidden_test(own_seat(who, h - 1)),
                ),
            )
        }
    }

    /// The position with the cards of `pool` dealt in order to the places
    /// hidden from the observer `who`: first through the hands by seat, then
    /// through the stock. With no observer named, the hidden places are
    /// those of the unknown cards.
    pub open spec fn filled(self, who: Option<PlayerId>, pool: Seq<Card>) -> GameView {
        GameView {
            hands: Seq::new(
                self.hands.len(),
                |h: int|
                    fill_hidden(
                        self.hands[h],
                        hidden_test(own_seat(who, h)),
                        pool,
                        self.dealt_before(h, who, pool.len()),
                    ),
            ),
            stock: fill_hidden(
                self.stock,
                hidden_test(who is None),
                pool,
                self.dealt_before(self.hands.len() as int, who, pool.len()),
            ),
            ..self
        }
    }

    /// The position as the observer `who` may imagine it: the cards of
    /// `pool` are dealt to the places hidden from `who`, what `who` sees
    /// stays, and the private cards of `who` are turned face up.
    pub open spec fn revealed(self, who: PlayerId, pool: Seq<Card>) -> GameView {
        let filled = self.filled(Some(who), pool);
        let seat = who.spec_index() as int;
        GameView {
            hands: filled.hands.update(seat, filled.hands[seat].map_values(face_up_if_private())),
            ..filled
        }
    }

    /// The position with every unknown card named by elimination: the cards
    /// not accounted for go to the unknown places, the last such card of the
    /// deck first.
    pub open spec fn deduced(self) -> GameView {
        self.filled(None, self.unseen_pool(None).reverse())
    }

    /// The test "this hand holds a card that is not face up".
    pub open spec fn holds_secret() -> spec_fn(Seq<Card>) -> bool {
        |hand: Seq<Card>| exists|i: int| 0 <= i < hand.len() && !((#[trigger] hand[i]) is Public)
    }

    /// Every hidden card can be named by elimination, as the player at seat
    /// 0 sees it: the stock is empty and at most one opponent holds a card
    /// that is not face up.
    pub open spec fn all_deducible(self) -> bool {
        self.stock.len() == 0 && (self.hands.len() <= 1 || count_where(
            self.hands.skip(1),
            GameView::holds_secret(),
        ) <= 1)
    }
}

/// Replaces the hidden cards among `cards` from the pool, starting at the
/// pool's position `used`, and gives the position reached.
fn fill_cards(cards: &mut Vec<Card>, own: bool, pool: &Vec<Card>, used: usize) -> (next: usize)
    requires
        used <= pool.len(),
    ensures
        final(cards)@ == fill_hidden(old(cards)@, hidden_test(own), pool@, used as nat),
        next == least(
            pool@.len(),
            used as nat + count_where(old(cards)@, hidden_test(own)),
        ),
{
    let ghost veil = hidden_test(own);
    let ghost target = fill_hidden(cards@, veil, pool@, used as nat);
    let mut next = used;
    let mut i: usize = 0;
    while i < cards.len()
        invariant
            i <= cards.len(),
            cards@.len() == old(cards)@.len(),
            veil == hidden_test(own),
            target == fill_hidden(old(cards)@, veil, pool@, used as nat),
            used <= next <= pool.len(),
            next == least(pool@.len(), used as nat + count_where(old(cards)@.take(i as int), veil)),
            forall|j: int| 0 <= j < i ==> cards@[j] == target[j],
            forall|j: int| i <= j < cards@.len() ==> cards@[j] == old(cards)@[j],
        decreases cards.len() - i,
    {
        proof {
            lemma_count_where_step(old(cards)@, veil, i as int);
        }
        let c = cards[i];
        let hidden = c.is_unknown() || (c.is_private() && !own);
        assert(hidden == veil(c));
        if hidden {
            if next < pool.len() {
                cards.set(i, pool[next]);
                next = next + 1;
            }
        }
        i = i + 1;
    }
    assert(old(cards)@.take(i as int) == old(cards)@);
    assert(cards@ =~= target);
    next
}

/// Turns every private card among `cards` face up.
fn turn_private_up(cards: &mut Vec<Card>)
    ensures
        final(cards)@ == old(cards)@.map_values(face_up_if_private()),
{
    let mut i: usize = 0;
    while i < cards.len()
        invariant
            i <= cards.len(),
            cards@.len() == old(cards)@.len(),
            forall|j: int| 0 <= j < i ==> cards@[j] == (face_up_if_private())(old(cards)@[j]),
            forall|j: int| i <= j < cards@.len() ==> cards@[j] == old(cards)@[j],
        decreases cards.len() - i,
    {
        let c = cards[i];
        if c.is_private() {
            cards.set(i, c.as_public());
        }
        i = i + 1;
    }
    assert(cards@ =~= old(cards)@.map_values(face_up_if_private()));
}

impl GameState {
    /// The position with the cards of `pool` dealt in order to the places
    /// hidden from the observer `who`.
    fn fill_hidden_places(&self, who: Option<PlayerId>, pool: &Vec<Card>) -> (state: GameState)
        ensures
            state@ == self@.filled(who, pool@),
    {
        let mut state = self.clone();
        let ghost target = self@.filled(who, pool@);
        let mut used: usize = 0;
        let mut h: usize = 0;
        assert(state.hands@.len() == self.hands@.len()) by {
            assert(state@.hands.len() == self@.hands.len());
        }
        assert forall|j: int| 0 <= j < state.hands.len() implies (#[trigger] state.hands@[j])@
            == self.hands@[j]@ by {
            assert(state@.hands[j] == self@.hands[j]);
        }
        while h < state.hands.len()
            invariant
                h <= state.hands.len(),
                state.hands.len() == self.hands.len(),
                target == self@.filled(who, pool@),
                used <= pool.len(),
                used == self@.dealt_before(h as int, who, pool@.len()),
                state@ =~= (GameView { hands: state@.hands, ..self@ }),
                forall|j: int| 0 <= j < h ==> (#[trigger] state.hands@[j])@ == target.hands[j],
                forall|j: int|
                    h <= j < state.hands.len() ==> (#[trigger] state.hands@[j])@ == self.hands@[j]@,
            decreases state.hands.len() - h,
        {
            let own = match who {
                Some(p) => h == p.index(),
                None => true,
            };
            assert(self@.hands[h as int] == self.hands@[h as int]@);
            let hand = &mut state.hands[h];
            used = fill_cards(hand, own, pool, used);
            h = h + 1;
        }
        used = fill_cards(&mut state.stock, who.is_none(), pool, used);
        assert(state@.hands =~= target.hands);
        assert(state@ =~= target);
        state
    }

    /// The position as `perspective` may imagine it, with the cards of
    /// `pool` dealt in order to the places hidden from `perspective`.
    pub fn assign_hidden(&self, perspective: PlayerId, pool: &Vec<Card>) -> (state: GameState)
        requires
            perspective.spec_index() < self.hands.len(),
        ensures
            state@ == self@.revealed(perspective, pool@),
    {
        let mut state = self.fill_hidden_places(Some(perspective), pool);
        let ghost filled = state@;
        assert(state.hands@.len() == self.hands@.len()) by {
            assert(state@.hands.len() == self@.hands.len());
        }
        let hand = &mut state.hands[perspective.index()];
        turn_private_up(hand);
        assert(state@ =~= self@.revealed(perspective, pool@));
        state
    }

    /// A copy of the position in which everything `perspective` cannot see
    /// is made up: the cards not accounted for are shuffled and dealt to the
    /// hidden places, and all of `perspective`'s cards are turned face up.
    pub fn determinize(&self, perspective: PlayerId, rng: &mut StdRng) -> (state: GameState)
        requires
            perspective.spec_index() < self.hands.len(),
        ensures
            exists|pool: Seq<Card>|
                pool.to_multiset() == self@.unseen_pool(Some(perspective)).to_multiset()
                    && #[trigger] self@.revealed(perspective, pool) == state@,
            self@.wf() ==> state@.wf(),
            self@.wf() && self@.coherent() ==> state@.coherent(),
    {
        let mut pool = self.unseen_cards(Some(perspective));
        shuffle(&mut pool, rng);
        let state = self.assign_hidden(perspective, &pool);
        assert(self@.revealed(perspective, pool@) == state@);
        proof {
            law_revealing_keeps_what_is_seen(self@, perspective, pool@);
        }
        state
    }
}

/// What an observer sees survives: however the pool is dealt, the shape of
/// the position stays, every face-up card stays where and what it is, the
/// observer's own private cards stay the same cards and turn face up, and a
/// hidden card either stays or gives way to a card of the pool (face up, in
/// the observer's own hand). A position that is well formed, or one that
/// play can reach, stays so.
pub proof fn law_revealing_keeps_what_is_seen(v: GameView, who: PlayerId, pool: Seq<Card>)
    requires
        who.spec_index() < v.hands.len(),
    ensures
        ({
            let r = v.revealed(who, pool);
            &&& r == (GameView { hands: r.hands, stock: r.stock, ..v })
            &&& r.hands.len() == v.hands.len()
            &&& r.stock.len() == v.stock.len()
            &&& forall|h: int|
                0 <= h < v.hands.len() ==> (#[trigger] r.hands[h]).len() == v.hands[h].len()
            &&& forall|h: int, i: int|
                0 <= h < v.hands.len() && 0 <= i < v.hands[h].len() ==> {
                    let before = #[trigger] v.hands[h][i];
                    let after = r.hands[h][i];
                    &&& before is Public ==> after == before
                    &&& before is Private && h == who.spec_index() ==> after
                        == before.spec_as_public()
                    &&& after == before || after == before.spec_as_public() || exists|k: int|
                        0 <= k < pool.len() && (after == #[trigger] pool[k] || after
                            == pool[k].spec_as_public())
                }
            &&& forall|i: int|
                0 <= i < v.stock.len() ==> {
                    let before = #[trigger] v.stock[i];
                    let after = r.stock[i];
                    &&& before is Public ==> after == before
                    &&& after == before || pool.contains(after)
                }
            &&& v.wf() ==> r.wf()
            &&& v.wf() && v.coherent() ==> r.coherent()
        }),
{
    let r = v.revealed(who, pool);
    let f = v.filled(Some(who), pool);
    assert forall|h: int| 0 <= h < v.hands.len() implies (nonempty())(#[trigger] v.hands[h]) == (
    nonempty())(r.hands[h]) by {
        assert(r.hands[h].len() == v.hands[h].len());
    }
    lemma_count_where_alike(v.hands, r.hands, nonempty());
    if v.wf() && v.coherent() {
        assert(r.stock.len() > 0 ==> forall|p: int| v.attacks(p) ==> r.attacks(p));
        assert(r.hands[v.defender.spec_index() as int].len() == v.hands[v.defender.spec_index() as int].len());
    }
    assert forall|h: int, i: int| 0 <= h < v.hands.len() && 0 <= i < v.hands[h].len() implies {
        let before = #[trigger] v.hands[h][i];
        let after = r.hands[h][i];
        &&& before is Public ==> after == before
        &&& before is Private && h == who.spec_index() ==> after == before.spec_as_public()
        &&& after == before || after == before.spec_as_public() || exists|k: int|
            0 <= k < pool.len() && (after == #[trigger] pool[k] || after == pool[k].spec_as_public())
    } by {
        let own = own_seat(Some(who), h);
        let k = v.dealt_before(h, Some(who), pool.len()) + count_where(
            v.hands[h].take(i),
            hidden_test(own),
        );
        if k < pool.len() {
            assert(pool[k as int] == pool[k as int]);
        }
        assert(f.hands[h][i] == (if (hidden_test(own))(v.hands[h][i]) && k < pool.len() {
            pool[k as int]
        } else {
            v.hands[h][i]
        }));
    }
    assert forall|i: int| 0 <= i < v.stock.len() implies {
        let before = #[trigger] v.stock[i];
        let after = r.stock[i];
        &&& before is Public ==> after == before
        &&& after == before || pool.contains(after)
    } by {
        let k = v.dealt_before(v.hands.len() as int, Some(who), pool.len()) + count_where(
            v.stock.take(i),
            hidden_test(false),
        );
        if k < pool.len() {
            assert(pool.contains(pool[k as int]));
        }
    }
}

/// Whether every hidden card can be named by elimination, as the player at
/// seat 0 sees it: the stock is empty and at most one opponent holds a card
/// that is not face up.
pub fn all_cards_deducible(state: &GameState) -> (b: bool)
    ensures
        b == state@.all_deducible(),
{
    if state.stock.len() > 0 {
        return false;
    }
    let ghost others = state@.hands.skip(1);
    let mut secretive: usize = 0;
    let mut h: usize = 1;
    if state.hands.len() <= 1 {
        return true;
    }
    assert(others.take(0).len() == 0);
    while h < state.hands.len()
        invariant
            1 <= h <= state.hands.len(),
            others == state@.hands.skip(1),
            secretive <= h - 1,
            secretive == count_where(others.take(h - 1), GameView::holds_secret()),
        decreases state.hands.len() - h,
    {
        proof {
            lemma_count_where_step(others, GameView::holds_secret(), h - 1);
            assert(others[h - 1] == state.hands@[h as int]@);
        }
        let hand = &state.hands[h];
        let mut secret = false;
        let mut i: usize = 0;
        while i < hand.len() && !secret
            invariant
                i <= hand.len(),
                secret ==> (GameView::holds_secret())(hand@),
                !secret ==> forall|j: int| 0 <= j < i ==> (#[trigger] hand@[j]) is Public,
            decreases hand.len() - i + if secret { 0int } else { 1int },
        {
            if !hand[i].is_public() {
                assert(!(hand@[i as int] is Public));
                secret = true;
            } else {
                i = i + 1;
            }
        }
        if secret {
            secretive = secretive + 1;
        }
        h = h + 1;
    }
    assert(others.take(h - 1) == others);
    secretive <= 1
}

/// Names every unknown card by elimination: the cards not accounted for
/// replace the unknown cards, in the hands by seat and then in the stock,
/// the last such card of the deck first. This gives the true cards only
/// where `all_cards_deducible` holds.
pub fn deduce_cards(state: &GameState) -> (deduced: GameState)
    ensures
        deduced@ == state@.deduced(),
{
    let remaining = state.unseen_cards(None);
    let mut pool: Vec<Card> = Vec::new();
    let mut i: usize = remaining.len();
    while i > 0
        invariant
            i <= remaining.len(),
            pool@.len() == remaining.len() - i,
            forall|j: int| 0 <= j < pool@.len() ==> #[trigger] pool@[j] == remaining@[remaining.len() - 1 - j],
        decreases i,
    {
        i = i - 1;
        pool.push(remaining[i]);
    }
    assert(pool@ =~= remaining@.reverse());
    state.fill_hidden_places(None, &pool)
}

} // verus!
