//! What holds of every game: the laws that moves obey.

use crate::card::Card;
use crate::model::{Action, Phase, Pile};
use crate::player::{lemma_seat_after, PlayerId};
use crate::proofs::{
    lemma_attackers_from, lemma_cards_in_hands_update, lemma_first_open_exists,
    lemma_holder_exists, lemma_next_active_player_found, lemma_next_active_player_seated,
    lemma_pile_cards_public, lemma_pile_cards_push, lemma_pile_cards_update, lemma_refill,
    lemma_reflect_target,
};
use crate::rules::{
    is_hidden, listed, matching, nonempty, pile_cards, refill, show_card,
    take_card, total_cards, GameView,
};
use crate::seqs::{count_where, first_where, lemma_first_where};
use vstd::prelude::*;

verus! {

/// A card that can be played from a hand leaves the hand one card shorter.
pub proof fn lemma_take_card(hand: Seq<Card>, card: Card)
    ensures
        take_card(hand, card) matches Some(rest) ==> rest.len() + 1 == hand.len(),
{
    lemma_first_where(hand, matching(card));
    lemma_first_where(hand, is_hidden());
}

/// Showing a card leaves the hand as long as it was.
pub proof fn lemma_show_card(hand: Seq<Card>, card: Card)
    ensures
        show_card(hand, card).len() == hand.len(),
{
    lemma_first_where(hand, matching(card));
}

/// The start of a trick: the players named sit at the table, the defender
/// is no attacker, everyone else attacks while the stock lasts, and the
/// cards stay where they are.
pub proof fn lemma_new_trick(v: GameView, main: PlayerId)
    requires
        v.seated(),
        main.spec_index() < v.hands.len(),
    ensures
        ({
            let t = v.new_trick(main);
            &&& t.seated()
            &&& t.hands == v.hands
            &&& t.stock == v.stock
            &&& t.discard == v.discard
            &&& t.table.len() == 0
            &&& t.phase == Phase::Attacking
            &&& t.current_attacker_idx == 0
            &&& forall|i: int| 0 <= i < t.attackers.len() ==> (#[trigger] t.attackers[i]) != t.defender
            &&& t.stock.len() > 0 ==> t.all_attack()
            &&& (t.stock.len() > 0 || count_where(t.hands, nonempty()) > 0) ==> t.is_active(
                t.defender,
            )
        }),
{
    let n = v.hands.len();
    let lead = if v.is_active(main) {
        main
    } else {
        v.next_active_player(main)
    };
    lemma_next_active_player_seated(v, main);
    lemma_next_active_player_seated(v, lead);
    let defender = v.next_active_player(lead);
    let seated = GameView { attacker: lead, defender, ..v };
    lemma_attackers_from(seated, lead, n);
    let t = v.new_trick(main);
    if t.stock.len() > 0 {
        assert forall|p: int| 0 <= p < t.hands.len() && p != t.defender.spec_index() implies #[trigger] t.attacks(
            p,
        ) by {
            assert((seated.active_attacker_seat())(p));
            assert(listed(seated.attackers_from(lead, n), p));
        }
    }
    if t.stock.len() > 0 || count_where(t.hands, nonempty()) > 0 {
        if t.stock.len() > 0 {
            lemma_next_active_player_found(v, lead, 0);
        } else {
            lemma_holder_exists(v.hands);
            let j = choose|j: int| 0 <= j < v.hands.len() && (#[trigger] v.hands[j]).len() > 0;
            lemma_next_active_player_found(v, lead, j);
        }
    }
}

/// The end of a trick, from the position `pre` in which the table has been
/// cleared: after the refill and the start of the next trick the position is
/// well formed and coherent, and holds as many cards as before.
pub proof fn lemma_trick_end(pre: GameView, main: PlayerId)
    requires
        pre.wf(),
        pre.table.len() == 0,
        main.spec_index() < pre.hands.len(),
        pre.stock.len() > 0 ==> pre.all_attack(),
    ensures
        pre.refilled().new_trick(main).wf(),
        pre.refilled().new_trick(main).coherent(),
        total_cards(pre.refilled().new_trick(main)) == total_cards(pre),
{
    let order = pre.attackers.push(pre.defender);
    lemma_refill(pre.hands, pre.stock, order);
    let r = pre.refilled();
    assert(r.seated());
    lemma_new_trick(r, main);
    let t = r.new_trick(main);
    assert(t.table =~= Seq::<Pile>::empty());
    assert(pile_cards(t.table).len() == 0);
    assert(pile_cards(pre.table).len() == 0);
    if !t.is_terminal() {
        if t.stock.len() > 0 {
            let d = t.defender.spec_index() as int;
            if d == pre.defender.spec_index() {
                assert(order[order.len() - 1] == pre.defender);
            } else {
                assert(pre.attacks(d));
                let i = choose|i: int|
                    0 <= i < pre.attackers.len() && (#[trigger] pre.attackers[i]).spec_index() == d;
                assert(order[i] == pre.attackers[i]);
            }
            assert(r.hands[d].len() >= 6);
        } else {
            assert(t.is_active(t.defender));
        }
    }
}

/// A move that is accepted in a well-formed position leaves a well-formed position.
pub proof fn lemma_step_keeps_wf(v: GameView, action: Action)
    requires
        v.wf(),
        v.step(action) is Ok,
    ensures
        v.step(action)->Ok_0.wf(),
{
    let next = v.step(action)->Ok_0;
    let n = v.hands.len();
    match (v.phase, action) {
        (Phase::Attacking, Action::Attack { card }) => {},
        (Phase::Attacking, Action::PassAttack) => {
            lemma_ends_keep_wf(v);
        },
        (Phase::Defending, Action::Defend { pile_index, card }) => {},
        (Phase::Defending, Action::Take) => {},
        (Phase::Defending, Action::Reflect { card }) => {
            let target = v.reflect_target()->Some_0;
            lemma_reflect_target(v);
            let hand = take_card(v.hand(v.defender), card)->Some_0;
            let laid = v.with_card_laid(v.defender, hand, card);
            let seated = GameView { attacker: laid.defender, defender: target, ..laid };
            lemma_attackers_from(seated, laid.defender, n);
        },
        (Phase::Defending, Action::ReflectTrump { card }) => {
            let target = v.reflect_target()->Some_0;
            lemma_reflect_target(v);
            let shown = GameView {
                reflected_trumps: v.reflected_trumps.push(card.spec_as_public()),
                hands: v.hands.update(
                    v.defender.spec_index() as int,
                    show_card(v.hand(v.defender), card),
                ),
                ..v
            };
            let seated = GameView { attacker: shown.defender, defender: target, ..shown };
            lemma_attackers_from(seated, shown.defender, n);
        },
        (Phase::Throwing, Action::Throw { card: Some(card) }) => {},
        (Phase::Throwing, Action::Throw { card: None }) => {
            lemma_ends_keep_wf(v);
        },
        _ => {},
    }
}

/// Passing and stopping to throw leave a well-formed position, whether or
/// not they end the trick.
pub proof fn lemma_ends_keep_wf(v: GameView)
    requires
        v.wf(),
    ensures
        v.step_pass() matches Ok(next) ==> next.wf(),
        v.step_throw_done() matches Ok(next) ==> next.wf(),
{
    let n = v.hands.len();
    let moved = GameView { current_attacker_idx: v.next_attacker_idx(), ..v };
    if v.step_pass() is Ok {
        if !(v.attackers.len() > 0 && v.attackers[moved.current_attacker_idx as int]
            != v.last_played_attacker) {
            let cleared = GameView {
                discard: v.discard + pile_cards(v.table),
                table: Seq::empty(),
                ..moved
            };
            lemma_pile_cards_public(v.table);
            let order = cleared.attackers.push(cleared.defender);
            lemma_refill(cleared.hands, cleared.stock, order);
            lemma_new_trick(cleared.refilled(), v.defender);
            assert(cleared.refilled().new_trick(v.defender).table =~= cleared.table);
        }
    }
    if !(v.attackers.len() > 0 && moved.current_attacker_idx != v.throw_start_idx) {
        let d = v.defender.spec_index() as int;
        let taken = GameView {
            hands: v.hands.update(d, v.hands[d] + pile_cards(v.table)),
            table: Seq::empty(),
            ..moved
        };
        let main = v.defender.spec_next(n as usize);
        lemma_seat_after(d, n as int);
        let order = taken.attackers.push(taken.defender);
        lemma_refill(taken.hands, taken.stock, order);
        lemma_new_trick(taken.refilled(), main);
        assert(taken.refilled().new_trick(main).table =~= taken.table);
    }
}

/// Redirecting an attack seats the new defender outside the attackers and,
/// while the stock lasts, makes everyone else an attacker.
pub proof fn lemma_redirected(laid: GameView, target: PlayerId)
    requires
        laid.seated(),
        target.spec_index() < laid.hands.len(),
    ensures
        ({
            let next = laid.redirected(target);
            &&& forall|i: int|
                0 <= i < next.attackers.len() ==> (#[trigger] next.attackers[i]) != next.defender
            &&& next.stock.len() > 0 ==> next.all_attack()
        }),
{
    let n = laid.hands.len();
    let seated = GameView { attacker: laid.defender, defender: target, ..laid };
    lemma_attackers_from(seated, laid.defender, n);
    let next = laid.redirected(target);
    if next.stock.len() > 0 {
        assert forall|p: int|
            0 <= p < next.hands.len() && p != next.defender.spec_index() implies #[trigger] next.attacks(
            p,
        ) by {
            assert((seated.active_attacker_seat())(p));
            assert(listed(seated.attackers_from(laid.defender, n), p));
        }
    }
}

/// A move that is accepted in a position that play can reach leaves a
/// position that play can reach.
pub proof fn lemma_step_keeps_coherent(v: GameView, action: Action)
    requires
        v.wf(),
        v.coherent(),
        v.step(action) is Ok,
    ensures
        v.step(action)->Ok_0.coherent(),
{
    let next = v.step(action)->Ok_0;
    let n = v.hands.len();
    let moved = GameView { current_attacker_idx: v.next_attacker_idx(), ..v };
    match (v.phase, action) {
        (Phase::Attacking, Action::Attack { card }) => {
            lemma_first_open_exists(next.table, v.table.len() as int);
            assert(v.stock.len() > 0 ==> forall|p: int| v.attacks(p) ==> next.attacks(p));
        },
        (Phase::Attacking, Action::PassAttack) => {
            if v.attackers.len() > 0 && v.attackers[moved.current_attacker_idx as int]
                != v.last_played_attacker {
                assert(v.stock.len() > 0 ==> forall|p: int| v.attacks(p) ==> next.attacks(p));
            } else {
                let cleared = GameView {
                    discard: v.discard + pile_cards(v.table),
                    table: Seq::empty(),
                    ..moved
                };
                lemma_pile_cards_public(v.table);
                assert(v.stock.len() > 0 ==> forall|p: int| v.attacks(p) ==> cleared.attacks(p));
                lemma_trick_end(cleared, v.defender);
            }
        },
        (Phase::Defending, Action::Defend { pile_index, card }) => {
            assert(v.stock.len() > 0 ==> forall|p: int| v.attacks(p) ==> next.attacks(p));
        },
        (Phase::Defending, Action::Take) => {
            assert(v.stock.len() > 0 ==> forall|p: int| v.attacks(p) ==> next.attacks(p));
        },
        (Phase::Defending, Action::Reflect { card }) => {
            let target = v.reflect_target()->Some_0;
            lemma_reflect_target(v);
            let hand = take_card(v.hand(v.defender), card)->Some_0;
            let laid = v.with_card_laid(v.defender, hand, card);
            lemma_redirected(laid, target);
            lemma_first_open_exists(next.table, v.table.len() as int);
        },
        (Phase::Defending, Action::ReflectTrump { card }) => {
            let target = v.reflect_target()->Some_0;
            lemma_reflect_target(v);
            let shown = GameView {
                reflected_trumps: v.reflected_trumps.push(card.spec_as_public()),
                hands: v.hands.update(
                    v.defender.spec_index() as int,
                    show_card(v.hand(v.defender), card),
                ),
                ..v
            };
            lemma_redirected(shown, target);
        },
        (Phase::Throwing, Action::Throw { card: Some(card) }) => {
            assert(v.stock.len() > 0 ==> forall|p: int| v.attacks(p) ==> next.attacks(p));
        },
        (Phase::Throwing, Action::Throw { card: None }) => {
            if v.attackers.len() > 0 && moved.current_attacker_idx != v.throw_start_idx {
                assert(v.stock.len() > 0 ==> forall|p: int| v.attacks(p) ==> next.attacks(p));
            } else {
                let d = v.defender.spec_index() as int;
                let taken = GameView {
                    hands: v.hands.update(d, v.hands[d] + pile_cards(v.table)),
                    table: Seq::empty(),
                    ..moved
                };
                lemma_seat_after(d, n as int);
                assert(v.stock.len() > 0 ==> forall|p: int| v.attacks(p) ==> taken.attacks(p));
                lemma_trick_end(taken, v.defender.spec_next(n as usize));
            }
        },
        _ => {},
    }
}

/// No move creates or destroys a card: an accepted move leaves as many cards
/// in the hands, the stock, the table and the discard together as it found.
pub proof fn law_cards_are_conserved(v: GameView, action: Action)
    requires
        v.wf(),
        v.step(action) is Ok,
    ensures
        total_cards(v.step(action)->Ok_0) == total_cards(v),
{
    let next = v.step(action)->Ok_0;
    let n = v.hands.len();
    let moved = GameView { current_attacker_idx: v.next_attacker_idx(), ..v };
    let d = v.defender.spec_index() as int;
    let a = v.actor().spec_index() as int;
    match (v.phase, action) {
        (Phase::Attacking, Action::Attack { card }) => {
            let hand = take_card(v.hand(v.actor()), card)->Some_0;
            lemma_take_card(v.hand(v.actor()), card);
            lemma_actor_seated(v);
            lemma_cards_in_hands_update(v.hands, a, hand);
            lemma_pile_cards_push(v.table, Pile { attack: card.spec_as_public(), defense: None });
        },
        (Phase::Attacking, Action::PassAttack) => {
            if !(v.attackers.len() > 0 && v.attackers[moved.current_attacker_idx as int]
                != v.last_played_attacker) {
                let cleared = GameView {
                    discard: v.discard + pile_cards(v.table),
                    table: Seq::empty(),
                    ..moved
                };
                lemma_pile_cards_public(v.table);
                lemma_trick_end_conserves(cleared, v.defender);
                assert(pile_cards(cleared.table).len() == 0);
            }
        },
        (Phase::Defending, Action::Defend { pile_index, card }) => {
            let hand = take_card(v.hand(v.defender), card)->Some_0;
            lemma_take_card(v.hand(v.defender), card);
            lemma_cards_in_hands_update(v.hands, d, hand);
            lemma_pile_cards_update(
                v.table,
                pile_index as int,
                Pile {
                    attack: v.table[pile_index as int].attack,
                    defense: Some(card.spec_as_public()),
                },
            );
        },
        (Phase::Defending, Action::Take) => {},
        (Phase::Defending, Action::Reflect { card }) => {
            let hand = take_card(v.hand(v.defender), card)->Some_0;
            lemma_take_card(v.hand(v.defender), card);
            lemma_cards_in_hands_update(v.hands, d, hand);
            lemma_pile_cards_push(v.table, Pile { attack: card.spec_as_public(), defense: None });
        },
        (Phase::Defending, Action::ReflectTrump { card }) => {
            lemma_show_card(v.hand(v.defender), card);
            lemma_cards_in_hands_update(v.hands, d, show_card(v.hand(v.defender), card));
        },
        (Phase::Throwing, Action::Throw { card: Some(card) }) => {
            let hand = take_card(v.hand(v.actor()), card)->Some_0;
            lemma_take_card(v.hand(v.actor()), card);
            lemma_actor_seated(v);
            lemma_cards_in_hands_update(v.hands, a, hand);
            lemma_pile_cards_push(v.table, Pile { attack: card.spec_as_public(), defense: None });
        },
        (Phase::Throwing, Action::Throw { card: None }) => {
            if !(v.attackers.len() > 0 && moved.current_attacker_idx != v.throw_start_idx) {
                let taken = GameView {
                    hands: v.hands.update(d, v.hands[d] + pile_cards(v.table)),
                    table: Seq::empty(),
                    ..moved
                };
                lemma_seat_after(d, n as int);
                lemma_cards_in_hands_update(v.hands, d, v.hands[d] + pile_cards(v.table));
                lemma_trick_end_conserves(taken, v.defender.spec_next(n as usize));
                assert(pile_cards(taken.table).len() == 0);
            }
        },
        _ => {},
    }
}

/// The player to move sits at the table.
pub proof fn lemma_actor_seated(v: GameView)
    requires
        v.seated(),
    ensures
        v.actor().spec_index() < v.hands.len(),
{
    if v.phase != Phase::Defending && v.attackers.len() > 0 {
        let i = (v.current_attacker_idx as int) % (v.attackers.len() as int);
        assert(0 <= i < v.attackers.len());
    }
}

/// Refilling and starting the next trick moves cards from the stock to the
/// hands and loses none.
pub proof fn lemma_trick_end_conserves(pre: GameView, main: PlayerId)
    requires
        pre.seated(),
        pre.table.len() == 0,
        main.spec_index() < pre.hands.len(),
    ensures
        total_cards(pre.refilled().new_trick(main)) == total_cards(pre),
{
    let order = pre.attackers.push(pre.defender);
    lemma_refill(pre.hands, pre.stock, order);
    let r = pre.refilled();
    lemma_new_trick(r, main);
    let t = r.new_trick(main);
    assert(t.table =~= Seq::<Pile>::empty());
    assert(pile_cards(t.table).len() == 0);
    assert(pile_cards(pre.table).len() == 0);
}

/// Playing a card costs the player one card: after an accepted attack,
/// defense, redirect with a played card or thrown card, the hand of the
/// player who moved is exactly one card shorter.
pub proof fn law_played_card_leaves_hand(v: GameView, action: Action)
    requires
        v.wf(),
        v.step(action) is Ok,
        action is Attack || action is Defend || action is Reflect || action matches (Action::Throw {
            card: Some(_),
        }),
    ensures
        v.step(action)->Ok_0.hand_size(v.actor()) + 1 == v.hand_size(v.actor()),
{
    lemma_actor_seated(v);
    let card = action.card()->Some_0;
    lemma_take_card(v.hand(v.actor()), card);
}

/// Showing a trump costs no card: after an accepted redirect by a shown
/// trump the defender's hand is as long as before, its first card that
/// matches the trump is face up, and every other card in it is as it was.
pub proof fn law_shown_trump_stays_in_hand(v: GameView, card: Card)
    requires
        v.wf(),
        v.step(Action::ReflectTrump { card }) is Ok,
    ensures
        ({
            let next = v.step(Action::ReflectTrump { card })->Ok_0;
            let before = v.hand(v.actor());
            let after = next.hand(v.actor());
            &&& after.len() == before.len()
            &&& forall|i: int|
                0 <= i < before.len() ==> #[trigger] after[i] == (if first_where(
                    before,
                    matching(card),
                ) == Some(i) {
                    before[i].spec_as_public()
                } else {
                    before[i]
                })
            &&& first_where(before, matching(card)) matches Some(i) ==> after[i] is Public
                && after[i].spec_matches(card)
        }),
{
    let before = v.hand(v.defender);
    lemma_show_card(before, card);
    lemma_first_where(before, matching(card));
}

/// A pile that has been defended cannot be defended again: whatever the
/// card, the move is refused, in every phase.
pub proof fn law_defended_pile_stays_defended(v: GameView, pile_index: usize, card: Card)
    requires
        pile_index < v.table.len(),
        v.table[pile_index as int].defense is Some,
    ensures
        v.step(Action::Defend { pile_index, card }) is Err,
        !v.asks_unknown(Action::Defend { pile_index, card }),
{
}

} // verus!
