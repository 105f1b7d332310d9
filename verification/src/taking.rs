//! The game of two in which the defender always takes: it ends, and the
//! defender loses.

use crate::card::Card;
use crate::legal::opening_attack;
use crate::model::{Action, Phase};
use crate::player::{lemma_seat_after, lemma_seek_seat, PlayerId};
use crate::rules::{is_hidden, matching, nonempty, pile_cards, refill, swap_out, GameView};
use crate::seqs::{count_where, gather, lemma_first_where_at, lemma_first_where_none};
use vstd::prelude::*;

verus! {

/// Every card is known.
pub open spec fn all_known(cards: Seq<Card>) -> bool {
    forall|i: int| 0 <= i < cards.len() ==> (#[trigger] cards[i]).known()
}

/// The move of players who never defend: the attacker plays the first
/// legal move, the defender takes, and nobody throws in.
pub open spec fn taking_move(v: GameView) -> Action {
    match v.phase {
        Phase::Attacking => v.legal()[0],
        Phase::Defending => Action::Take,
        Phase::Throwing => Action::Throw { card: None },
    }
}

/// The position after at most `n` such moves, the game stopping when it is over.
pub open spec fn taking_game(v: GameView, n: nat) -> GameView
    decreases n,
{
    if n == 0 || v.is_terminal() {
        v
    } else {
        taking_game(v.after(taking_move(v)), (n - 1) as nat)
    }
}

/// Each of these moves is accepted.
pub open spec fn taking_accepted(v: GameView, n: nat) -> bool
    decreases n,
{
    n == 0 || v.is_terminal() || (v.step(taking_move(v)) is Ok && taking_accepted(
        v.after(taking_move(v)),
        (n - 1) as nat,
    ))
}

/// Two hands hold cards in as many of them as are not empty.
pub proof fn lemma_two_hands(hands: Seq<Seq<Card>>)
    requires
        hands.len() == 2,
    ensures
        count_where(hands, nonempty()) == (if hands[0].len() > 0 {
            1nat
        } else {
            0nat
        }) + (if hands[1].len() > 0 {
            1nat
        } else {
            0nat
        }),
{
    let one = hands.drop_last();
    assert(one.len() == 1);
    assert(one.last() == hands[0]);
    assert(hands.last() == hands[1]);
    assert(one.drop_last().len() == 0);
    assert(count_where(one.drop_last(), nonempty()) == 0);
    assert(count_where(one, nonempty()) == count_where(one.drop_last(), nonempty()) + if (
    nonempty())(one.last()) {
        1nat
    } else {
        0nat
    });
}

/// The opening attacks are one for each card, in the order of the cards.
pub proof fn lemma_opening_attacks(cards: Seq<Card>)
    ensures
        gather(cards, opening_attack()).len() == cards.len(),
        forall|k: int|
            0 <= k < cards.len() ==> #[trigger] gather(cards, opening_attack())[k] == (
            Action::Attack { card: cards[k] }),
    decreases cards.len(),
{
    if cards.len() > 0 {
        let rest = cards.drop_last();
        lemma_opening_attacks(rest);
        assert(forall|k: int| 0 <= k < rest.len() ==> rest[k] == cards[k]);
        assert(cards.last() == cards[cards.len() - 1]);
    }
}

/// The start of a trick of two in which the stock was drawn from in turn:
/// `a` attacks alone and holds six known cards while the stock lasts, at
/// least one after that, and `d` defends and holds six or more.
pub open spec fn duel_trick(v: GameView, a: PlayerId, d: PlayerId) -> bool {
    &&& v.wf()
    &&& v.hands.len() == 2
    &&& v.phase == Phase::Attacking
    &&& v.table.len() == 0
    &&& v.attacker == a
    &&& v.defender == d
    &&& a != d
    &&& a.spec_index() < 2
    &&& d.spec_index() < 2
    &&& v.attackers == seq![a]
    &&& v.current_attacker_idx == 0
    &&& all_known(v.hand(a))
    &&& all_known(v.stock)
    &&& 1 <= v.hand(a).len() <= 6
    &&& v.hand(d).len() >= 6
    &&& v.stock.len() > 0 ==> v.hand(a).len() == 6
}

/// The position after the attack of such a trick: one open pile, the
/// attacker one card short.
pub open spec fn duel_attacked(v: GameView, a: PlayerId, d: PlayerId, before: GameView) -> bool {
    &&& v.wf()
    &&& v.hands.len() == 2
    &&& v.phase == Phase::Defending
    &&& v.table.len() == 1
    &&& v.table[0].defense is None
    &&& v.attacker == a
    &&& v.defender == d
    &&& v.attackers == seq![a]
    &&& v.current_attacker_idx == 0
    &&& v.stock == before.stock
    &&& all_known(v.hand(a))
    &&& v.hand(a).len() + 1 == before.hand(a).len()
    &&& v.hand(d) == before.hand(d)
}

/// The attack of such a trick is accepted and lays the attacker's first card.
pub proof fn lemma_duel_attack(v: GameView, a: PlayerId, d: PlayerId)
    requires
        duel_trick(v, a, d),
    ensures
        !v.is_terminal(),
        v.step(taking_move(v)) is Ok,
        duel_attacked(v.after(taking_move(v)), a, d, v),
{
    lemma_two_hands(v.hands);
    let hand = v.hand(a);
    assert(v.actor() == a);
    assert forall|j: int| #![trigger hand[j]] 0 <= j < hand.len() implies !(is_hidden())(
        hand[j],
    ) by {}
    lemma_first_where_none(hand, is_hidden());
    assert(v.usable(a) == hand);
    lemma_opening_attacks(hand);
    let card = hand[0];
    assert(v.legal() == gather(hand, opening_attack()));
    assert(taking_move(v) == Action::Attack { card });
    assert((matching(card))(hand[0]));
    lemma_first_where_at(hand, matching(card), 0);
    let rest = swap_out(hand, 0);
    assert forall|i: int| 0 <= i < rest.len() implies (#[trigger] rest[i]).known() by {
        if i == 0 {
            assert(rest[i] == hand[hand.len() - 1]);
        } else {
            assert(rest[i] == hand[i]);
        }
    }
    crate::laws::lemma_step_keeps_wf(v, taking_move(v));
}

/// In a game of two, the seat after one player is the other's.
proof fn lemma_other_seat(a: PlayerId, d: PlayerId)
    requires
        a != d,
        a.spec_index() < 2,
        d.spec_index() < 2,
    ensures
        d.spec_next(2) == a,
        a.spec_next(2) == d,
{
    lemma_seat_after(a.spec_index() as int, 2);
    lemma_seat_after(d.spec_index() as int, 2);
}

/// After the attack the defender takes and the attacker throws nothing
/// in: both moves are accepted, the defender picks up the card, the
/// attacker draws one if the stock has one, and the same trick starts again.
pub proof fn lemma_duel_taken(v1: GameView, a: PlayerId, d: PlayerId, v: GameView)
    requires
        duel_trick(v, a, d),
        duel_attacked(v1, a, d, v),
        !v1.is_terminal(),
    ensures
        v1.step(taking_move(v1)) is Ok,
        !v1.after(taking_move(v1)).is_terminal(),
        ({
            let v2 = v1.after(taking_move(v1));
            let v3 = v2.after(taking_move(v2));
            &&& v2.step(taking_move(v2)) is Ok
            &&& duel_trick(v3, a, d)
            &&& v3.hand(d).len() == v.hand(d).len() + 1
            &&& v.stock.len() > 0 ==> v3.stock.len() + 1 == v.stock.len() && v3.hand(a).len() == 6
            &&& v.stock.len() == 0 ==> v3.stock.len() == 0 && v3.hand(a).len() + 1 == v.hand(
                a,
            ).len()
        }),
{
    let ai = a.spec_index() as int;
    let di = d.spec_index() as int;
    lemma_two_hands(v1.hands);
    lemma_other_seat(a, d);
    assert(taking_move(v1) == Action::Take);
    let v2 = v1.after(Action::Take);
    assert(v2.hands == v1.hands);
    assert(v2.stock == v1.stock);
    assert(taking_move(v2) == Action::Throw { card: None });
    // the throwing ends at once: there is one attacker
    assert(v2.next_attacker_idx() == 0) by {
        assert((0 + 1) % 1 == 0int);
    }
    let moved = GameView { current_attacker_idx: 0, ..v2 };
    assert(pile_cards(v2.table) =~= seq![v2.table[0].attack]) by {
        reveal_with_fuel(pile_cards, 3);
        assert(v2.table.drop_last().len() == 0);
        assert(v2.table.last() == v2.table[0]);
    }
    let picked = v2.hands[di] + pile_cards(v2.table);
    let taken = GameView {
        hands: v2.hands.update(di, picked),
        table: Seq::empty(),
        ..moved
    };
    assert(v2.step_throw_done() == Ok::<GameView, crate::rules::Refusal>(
        taken.refilled().new_trick(d.spec_next(2)),
    ));
    // the refill: the attacker draws, the defender holds more than six
    let order = taken.attackers.push(taken.defender);
    assert(order =~= seq![a, d]);
    let hand_a = taken.hands[ai];
    let drawn = crate::rules::hand_after_draw(hand_a, taken.stock);
    let left = crate::rules::stock_after_draw(hand_a, taken.stock);
    let h1 = taken.hands.update(ai, drawn);
    assert(refill(taken.hands, taken.stock, order) == (h1, left)) by {
        reveal_with_fuel(refill, 4);
        assert(order[0] == a);
        assert(order.drop_first() =~= seq![d]);
        assert(order.drop_first()[0] == d);
        assert(order.drop_first().drop_first().len() == 0);
        assert(h1[di] == picked);
        assert(crate::rules::draw_count(picked.len(), left.len()) == 0);
        assert(crate::rules::hand_after_draw(picked, left) =~= picked);
        assert(crate::rules::stock_after_draw(picked, left) =~= left);
        assert(h1.update(di, picked) =~= h1);
    }
    let r = taken.refilled();
    assert(r.hands == h1);
    assert(r.stock == left);
    assert(r.hands[ai].len() >= 1);
    assert(r.hands[di].len() >= 1);
    // the next trick: the same roles
    assert(r.is_active(a));
    lemma_seek_seat(di, 2, 2, r.active_seat());
    assert((r.active_seat())(di));
    assert(r.next_active_player(a) == d) by {
        assert(crate::player::seek_seat(di, 2, 2, r.active_seat()) == Some(di));
    }
    let seated = GameView { attacker: a, defender: d, ..r };
    assert(seated.attackers_from(a, 2) =~= seq![a]) by {
        reveal_with_fuel(GameView::attackers_from, 4);
        assert(seated.is_active(a));
    }
    let v3 = r.new_trick(a);
    assert(v3.attackers == seq![a]);
    assert(v3.hands == h1);
    assert(v3.stock == left);
    assert(all_known(v3.hand(a)));
    assert(all_known(v3.stock));
    crate::laws::lemma_step_keeps_wf(v1, Action::Take);
    crate::laws::lemma_step_keeps_wf(v2, Action::Throw { card: None });
}

/// From the start of such a trick the game ends within three moves for
/// every card that the attacker holds or can still draw, less two: the
/// attacker runs out of cards and the defender is left as the loser.
pub proof fn lemma_taking_game(v: GameView, a: PlayerId, d: PlayerId, n: nat)
    requires
        duel_trick(v, a, d),
        n >= 3 * (v.stock.len() + v.hand(a).len() - 1) + 1,
    ensures
        taking_accepted(v, n),
        taking_game(v, n).is_terminal(),
        taking_game(v, n).durak() == Some(d),
        taking_game(v, n).stock.len() == 0,
        taking_game(v, n).holders() == 1,
    decreases v.stock.len() + v.hand(a).len(),
{
    lemma_duel_attack(v, a, d);
    let v1 = v.after(taking_move(v));
    lemma_two_hands(v1.hands);
    let ai = a.spec_index() as int;
    let di = d.spec_index() as int;
    assert(taking_game(v, n) == taking_game(v1, (n - 1) as nat));
    assert(taking_accepted(v, n) == taking_accepted(v1, (n - 1) as nat));
    if v1.is_terminal() {
        assert(taking_accepted(v1, (n - 1) as nat));
        assert(v1.hands[ai].len() == 0);
        assert forall|j: int| #![trigger v1.hands[j]] 0 <= j < di implies !(nonempty())(
            v1.hands[j],
        ) by {
            assert(j == ai);
        }
        lemma_first_where_at(v1.hands, nonempty(), di);
        assert(PlayerId::spec_from_index(di as usize) == d);
    } else {
        lemma_duel_taken(v1, a, d, v);
        let v2 = v1.after(taking_move(v1));
        let v3 = v2.after(taking_move(v2));
        assert(taking_game(v1, (n - 1) as nat) == taking_game(v2, (n - 2) as nat));
        assert(taking_game(v2, (n - 2) as nat) == taking_game(v3, (n - 3) as nat));
        assert(taking_accepted(v2, (n - 2) as nat) == taking_accepted(v3, (n - 3) as nat));
        assert(taking_accepted(v1, (n - 1) as nat) == taking_accepted(v2, (n - 2) as nat));
        lemma_taking_game(v3, a, d, (n - 3) as nat);
    }
}

/// Who holds the lowest trump of all sits at the table.
proof fn lemma_lowest_trump_holder(hands: Seq<Seq<Card>>, trump: crate::card::Suit)
    ensures
        crate::deal::lowest_trump_holder(hands, trump) matches Some((p, _)) ==> 0 <= p
            < hands.len(),
    decreases hands.len(),
{
    if hands.len() > 0 {
        lemma_lowest_trump_holder(hands.drop_last(), trump);
    }
}

/// A game of two with thirty-six cards in which the defender always takes
/// and nobody throws in is over within ninety moves, however the deck was
/// shuffled before the deal:
/// every move is accepted, the stock is used up, the first attacker has
/// played every card, and the first defender is the one player left with
/// cards, the loser.
pub proof fn law_always_taking_ends(deck: Seq<Card>, config: crate::model::GameConfig)
    requires
        config.num_players == 2,
        config.deck_size == 36,
        deck.to_multiset() == crate::card::deck_cards(36).to_multiset(),
    ensures
        ({
            let start = crate::deal::dealt_game(deck, config);
            let end = taking_game(start, 90);
            &&& taking_accepted(start, 90)
            &&& end.is_terminal()
            &&& end.durak() == Some(start.defender)
            &&& end.stock.len() == 0
            &&& end.holders() == 1
        }),
{
    let fresh = crate::card::deck_cards(36);
    vstd::seq_lib::to_multiset_len(deck);
    vstd::seq_lib::to_multiset_len(fresh);
    assert(fresh.len() == 36);
    assert forall|i: int| 0 <= i < deck.len() implies (#[trigger] deck[i]).known() by {
        assert(deck.contains(deck[i]));
        vstd::seq_lib::to_multiset_contains(deck, deck[i]);
        vstd::seq_lib::to_multiset_contains(fresh, deck[i]);
        let j = choose|j: int| 0 <= j < fresh.len() && fresh[j] == deck[i];
        crate::card::lemma_deck_cards_known(36, j);
    }
    let start = crate::deal::dealt_game(deck, config);
    let trump = deck[0].spec_suit();
    let marked = deck.update(0, deck[0].spec_as_public());
    let taken = crate::deal::taken_hands(marked, 2);
    let hands = Seq::new(2, |h: int| crate::deal::lowest_trump_shown(taken[h], trump));
    lemma_lowest_trump_holder(taken, trump);
    let a = start.attacker;
    let d = start.defender;
    assert(a.spec_index() < 2);
    lemma_seat_after(a.spec_index() as int, 2);
    assert(d == a.spec_next(2));
    assert(d.spec_index() < 2);
    assert(a != d);
    assert forall|h: int| 0 <= h < 2 implies (#[trigger] hands[h]).len() == 6 && all_known(
        hands[h],
    ) by {
        crate::deal::lemma_lowest_trump_index(taken[h], trump);
        assert(taken[h].len() == 6);
        assert forall|i: int| 0 <= i < taken[h].len() implies (#[trigger] taken[h][i]).known() by {
            assert(marked[36 - 6 * (h + 1) + i].known());
        }
    }
    assert(start.hands =~= hands);
    crate::deal::lemma_opening(trump, a, hands, start.stock, config);
    assert(start.attackers =~= seq![a]) by {
        reveal_with_fuel(crate::deal::seats_except, 4);
        lemma_seat_after(d.spec_index() as int, 2);
    }
    assert(all_known(start.stock));
    assert(start.stock.len() == 24);
    assert(duel_trick(start, a, d));
    lemma_taking_game(start, a, d, 90);
}

} // verus!
