//! Facts about the rules that the engine's own proofs rest on.

use crate::card::Card;
use crate::model::Pile;
use crate::player::{lemma_seat_after, lemma_seek_seat, seats_between, PlayerId};
use crate::rules::{
    cards_in_hands, hand_after_draw, is_open, listed, nonempty, pile_cards, refill,
    stock_after_draw, GameView,
};
use crate::seqs::{count_where, first_where, lemma_count_where_bounds, lemma_first_where};
use vstd::prelude::*;

verus! {

/// Replacing one hand changes the number of cards held by the change in that hand.
pub proof fn lemma_cards_in_hands_update(hands: Seq<Seq<Card>>, i: int, hand: Seq<Card>)
    requires
        0 <= i < hands.len(),
    ensures
        cards_in_hands(hands.update(i, hand)) + hands[i].len() == cards_in_hands(hands)
            + hand.len(),
    decreases hands.len(),
{
    let t = hands.update(i, hand);
    if i == hands.len() - 1 {
        assert(t.drop_last() == hands.drop_last());
    } else {
        lemma_cards_in_hands_update(hands.drop_last(), i, hand);
        assert(t.drop_last() == hands.drop_last().update(i, hand));
    }
}

/// A new pile adds its cards after those already on the table.
pub proof fn lemma_pile_cards_push(table: Seq<Pile>, p: Pile)
    ensures
        pile_cards(table.push(p)) == pile_cards(table) + p.cards(),
{
    assert(table.push(p).drop_last() == table);
}

/// Replacing one pile changes the number of cards on the table by the
/// change in that pile.
pub proof fn lemma_pile_cards_update(table: Seq<Pile>, i: int, p: Pile)
    requires
        0 <= i < table.len(),
    ensures
        pile_cards(table.update(i, p)).len() + table[i].cards().len() == pile_cards(table).len()
            + p.cards().len(),
    decreases table.len(),
{
    let t = table.update(i, p);
    if i == table.len() - 1 {
        assert(t.drop_last() == table.drop_last());
    } else {
        lemma_pile_cards_update(table.drop_last(), i, p);
        assert(t.drop_last() == table.drop_last().update(i, p));
    }
}

/// The cards of piles whose cards are all face up are all face up.
pub proof fn lemma_pile_cards_public(table: Seq<Pile>)
    requires
        forall|i: int| 0 <= i < table.len() ==> (#[trigger] table[i]).attack is Public,
        forall|i: int|
            0 <= i < table.len() ==> ((#[trigger] table[i]).defense matches Some(d)
                ==> d is Public),
    ensures
        forall|k: int| 0 <= k < pile_cards(table).len() ==> (#[trigger] pile_cards(table)[k]) is Public,
    decreases table.len(),
{
    if table.len() > 0 {
        let rest = table.drop_last();
        assert(forall|i: int| 0 <= i < rest.len() ==> rest[i] == table[i]);
        lemma_pile_cards_public(rest);
        let last = table.last();
        assert(last == table[table.len() - 1]);
    }
}

/// What refilling does to the shape of the position: the number of hands
/// stays, no hand shrinks, the cards drawn are the cards the stock loses,
/// and if the stock is not used up every player who drew holds six or more.
pub proof fn lemma_refill(hands: Seq<Seq<Card>>, stock: Seq<Card>, order: Seq<PlayerId>)
    requires
        forall|k: int| 0 <= k < order.len() ==> (#[trigger] order[k]).spec_index() < hands.len(),
    ensures
        ({
            let (h, s) = refill(hands, stock, order);
            &&& h.len() == hands.len()
            &&& s.len() <= stock.len()
            &&& cards_in_hands(h) + s.len() == cards_in_hands(hands) + stock.len()
            &&& forall|i: int| 0 <= i < hands.len() ==> (#[trigger] h[i]).len() >= hands[i].len()
            &&& s.len() > 0 ==> forall|k: int|
                0 <= k < order.len() ==> h[(#[trigger] order[k]).spec_index() as int].len() >= 6
        }),
    decreases order.len(),
{
    if order.len() > 0 {
        let p = order[0].spec_index() as int;
        let h1 = hands.update(p, hand_after_draw(hands[p], stock));
        let s1 = stock_after_draw(hands[p], stock);
        let rest = order.drop_first();
        assert(forall|k: int| 0 <= k < rest.len() ==> rest[k] == order[k + 1]);
        lemma_refill(h1, s1, rest);
        lemma_cards_in_hands_update(hands, p, hand_after_draw(hands[p], stock));
        let (h, s) = refill(h1, s1, rest);
        assert forall|i: int| 0 <= i < hands.len() implies (#[trigger] h[i]).len()
            >= hands[i].len() by {
            assert(h1[i].len() >= hands[i].len());
        }
        if s.len() > 0 {
            assert forall|k: int| 0 <= k < order.len() implies h[(#[trigger] order[k]).spec_index() as int].len()
                >= 6 by {
                if k == 0 {
                    assert(h1[p].len() >= 6);
                    assert(h[p].len() >= h1[p].len());
                } else {
                    assert(rest[k - 1] == order[k]);
                }
            }
        }
    }
}

/// The attackers gathered round the table sit at it, are in the game and do
/// not defend; and every such player within reach is gathered.
pub proof fn lemma_attackers_from(v: GameView, pid: PlayerId, steps: nat)
    requires
        1 <= v.hands.len() <= 6,
        pid.spec_index() < v.hands.len(),
    ensures
        v.attackers_from(pid, steps).len() <= steps,
        forall|i: int|
            0 <= i < v.attackers_from(pid, steps).len() ==> {
                let a = #[trigger] v.attackers_from(pid, steps)[i];
                a.spec_index() < v.hands.len() && a != v.defender && v.is_active(a)
            },
        forall|p: int|
            0 <= p < v.hands.len() && seats_between(pid.spec_index() as int, p, v.hands.len() as int)
                < steps && (v.active_attacker_seat())(p) ==> #[trigger] listed(
                v.attackers_from(pid, steps),
                p,
            ),
    decreases steps,
{
    if steps > 0 {
        let n = v.hands.len();
        let next = pid.spec_next(n as usize);
        lemma_seat_after(pid.spec_index() as int, n as int);
        lemma_attackers_from(v, next, (steps - 1) as nat);
        let rest = v.attackers_from(next, (steps - 1) as nat);
        let all = v.attackers_from(pid, steps);
        let takes = pid != v.defender && v.is_active(pid);
        assert forall|p: int|
            0 <= p < n && seats_between(pid.spec_index() as int, p, n as int) < steps && (
            v.active_attacker_seat())(p) implies #[trigger] listed(all, p) by {
            if p == pid.spec_index() {
                assert(takes);
                assert(all[0] == pid);
            } else {
                assert(seats_between(next.spec_index() as int, p, n as int) < steps - 1);
                assert(listed(rest, p));
                let i = choose|i: int| 0 <= i < rest.len() && (#[trigger] rest[i]).spec_index() == p;
                if takes {
                    assert(all[i + 1] == rest[i]);
                } else {
                    assert(all[i] == rest[i]);
                }
            }
        }
        assert forall|i: int| 0 <= i < all.len() implies {
            let a = #[trigger] all[i];
            a.spec_index() < n && a != v.defender && v.is_active(a)
        } by {
            if takes {
                if i > 0 {
                    assert(all[i] == rest[i - 1]);
                }
            } else {
                assert(all[i] == rest[i]);
            }
        }
    }
}

/// The next player in the game sits at the table.
pub proof fn lemma_next_active_player_seated(v: GameView, from: PlayerId)
    requires
        1 <= v.hands.len() <= 6,
        from.spec_index() < v.hands.len(),
    ensures
        v.next_active_player(from).spec_index() < v.hands.len(),
{
    let n = v.hands.len();
    let start = from.spec_next(n as usize).spec_index() as int;
    lemma_seat_after(from.spec_index() as int, n as int);
    lemma_seek_seat(start, n, n as int, v.active_seat());
}

/// Where the player at some seat `j` is in the game, the next player in the
/// game after any player is in the game.
pub proof fn lemma_next_active_player_found(v: GameView, from: PlayerId, j: int)
    requires
        1 <= v.hands.len() <= 6,
        from.spec_index() < v.hands.len(),
        0 <= j < v.hands.len(),
        v.hands[j].len() > 0 || v.stock.len() > 0,
    ensures
        v.is_active(v.next_active_player(from)),
        v.next_active_player(from).spec_index() < v.hands.len(),
{
    let n = v.hands.len();
    let start = from.spec_next(n as usize).spec_index() as int;
    let ok = v.active_seat();
    lemma_seat_after(from.spec_index() as int, n as int);
    lemma_seek_seat(start, n, n as int, ok);
    assert(ok(j));
    assert(seats_between(start, j, n as int) < n);
}

/// Who defends after a redirect sits at the table and is not the defender.
pub proof fn lemma_reflect_target(v: GameView)
    requires
        v.seated(),
    ensures
        v.reflect_target() matches Some(t) ==> t.spec_index() < v.hands.len(),
{
    let n = v.hands.len();
    let start = v.defender.spec_next(n as usize).spec_index() as int;
    lemma_seat_after(v.defender.spec_index() as int, n as int);
    lemma_seek_seat(start, n, n as int, v.active_attacker_seat());
}

/// A table with an open pile has a first open pile.
pub proof fn lemma_first_open_exists(table: Seq<Pile>, i: int)
    requires
        0 <= i < table.len(),
        table[i].defense is None,
    ensures
        first_where(table, is_open()) is Some,
{
    lemma_first_where(table, is_open());
}

/// Where two or more players hold cards, some player holds cards.
pub proof fn lemma_holder_exists(hands: Seq<Seq<Card>>)
    requires
        count_where(hands, nonempty()) > 0,
    ensures
        exists|j: int| 0 <= j < hands.len() && (#[trigger] hands[j]).len() > 0,
{
    lemma_count_where_bounds(hands, nonempty());
    if !exists|j: int| 0 <= j < hands.len() && (#[trigger] hands[j]).len() > 0 {
        assert forall|j: int| #![trigger hands[j]] 0 <= j < hands.len() implies !(nonempty())(
            hands[j],
        ) by {}
    }
}

} // verus!
