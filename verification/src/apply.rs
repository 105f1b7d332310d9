//! Applying a move to the position.

use crate::card::Card;
use crate::model::{Action, EngineError, Phase, Pile};
use crate::player::PlayerId;
use crate::laws::{
    law_cards_are_conserved, lemma_actor_seated, lemma_step_keeps_coherent, lemma_step_keeps_wf,
};
use crate::rules::{
    total_cards, draw_count, hand_after_draw, is_hidden, matching, pile_cards, refill, stock_after_draw,
    swap_out, take_card, GameView, Refusal,
};
use crate::seqs::{lemma_first_where_at, lemma_first_where_none};
use crate::state::GameState;
use crate::wording::{describe_action, seat_name};
use vstd::prelude::*;
use vstd::string::StringExecFns;

verus! {

/// The error for a move that does not belong to the current phase.
fn wrong_phase(action: &Action) -> (e: EngineError)
    ensures
        e.reason() == Refusal::WrongPhase(*action).text(),
{
    EngineError::IllegalMove(
        String::from_str("action not allowed in this phase: ").concat(
            describe_action(action).as_str(),
        ),
    )
}

/// The error for a card that the player at `pid` cannot play.
fn not_in_hand(pid: PlayerId) -> (e: EngineError)
    ensures
        e.reason() == Refusal::CardNotInHand(pid).text(),
{
    EngineError::IllegalMove(
        String::from_str("card not in ").concat(seat_name(pid)).concat("'s hand"),
    )
}

/// The error for a refusal with the fixed wording `text`.
fn illegal(text: &str) -> (e: EngineError)
    ensures
        e.reason() == text@,
{
    EngineError::IllegalMove(text.to_owned())
}

/// How the outcome of a move shows in the position and in the result: a
/// move that is accepted leaves the next position, a move that is refused
/// leaves the position as it was and gives an error with the refusal's reason.
pub open spec fn applied(
    pre: GameView,
    post: GameView,
    outcome: Result<GameView, Refusal>,
    res: Result<(), EngineError>,
) -> bool {
    match outcome {
        Ok(next) => res is Ok && post == next,
        Err(refusal) => post == pre && (res matches Err(e) && e.reason() == refusal.text()),
    }
}

impl GameState {
    /// Takes `card` out of `pid`'s hand. Where no card matches and the hand
    /// holds an unknown card, an unknown card leaves instead: the hidden card
    /// turns out to have been this one.
    pub(crate) fn remove_from_hand(&mut self, pid: PlayerId, card: &Card) -> (res: Result<
        (),
        EngineError,
    >)
        requires
            pid.spec_index() < old(self).hands.len(),
        ensures
            match take_card(old(self)@.hand(pid), *card) {
                Some(hand) => res is Ok && final(self)@ == (GameView {
                    hands: old(self)@.hands.update(pid.spec_index() as int, hand),
                    ..old(self)@
                }),
                None => res matches Err(e) && e.reason() == Refusal::CardNotInHand(pid).text()
                    && final(self)@ == old(self)@,
            },
    {
        let p = pid.index();
        let ghost hand = self@.hand(pid);
        let len = self.hands[p].len();
        let mut i: usize = 0;
        while i < len
            invariant
                *self == *old(self),
                p == pid.spec_index(),
                p < self.hands.len(),
                hand == self@.hand(pid),
                len == hand.len(),
                i <= len,
                forall|j: int| 0 <= j < i ==> !(matching(*card))(#[trigger] hand[j]),
            decreases len - i,
        {
            if self.hands[p][i].matches(card) {
                proof {
                    lemma_first_where_at(hand, matching(*card), i as int);
                }
                let hand_mut = &mut self.hands[p];
                hand_mut.swap_remove(i);
                assert(self@ =~= (GameView {
                    hands: old(self)@.hands.update(p as int, swap_out(hand, i as int)),
                    ..old(self)@
                }));
                return Ok(());
            }
            i = i + 1;
        }
        proof {
            lemma_first_where_none(hand, matching(*card));
        }
        let mut i: usize = 0;
        while i < len
            invariant
                *self == *old(self),
                p == pid.spec_index(),
                p < self.hands.len(),
                hand == self@.hand(pid),
                len == hand.len(),
                i <= len,
                crate::seqs::first_where(hand, matching(*card)) is None,
                forall|j: int| 0 <= j < i ==> !(is_hidden())(#[trigger] hand[j]),
            decreases len - i,
        {
            if self.hands[p][i].is_unknown() {
                proof {
                    lemma_first_where_at(hand, is_hidden(), i as int);
                }
                let hand_mut = &mut self.hands[p];
                hand_mut.swap_remove(i);
                assert(self@ =~= (GameView {
                    hands: old(self)@.hands.update(p as int, swap_out(hand, i as int)),
                    ..old(self)@
                }));
                return Ok(());
            }
            i = i + 1;
        }
        proof {
            lemma_first_where_none(hand, is_hidden());
        }
        Err(not_in_hand(pid))
    }

    /// One player draws from the end of the stock until holding six cards or
    /// until the stock is empty.
    fn draw_up(&mut self, pid: PlayerId)
        requires
            pid.spec_index() < old(self).hands.len(),
        ensures
            final(self)@ == (GameView {
                hands: old(self)@.hands.update(
                    pid.spec_index() as int,
                    hand_after_draw(old(self)@.hand(pid), old(self)@.stock),
                ),
                stock: stock_after_draw(old(self)@.hand(pid), old(self)@.stock),
                ..old(self)@
            }),
    {
        let p = pid.index();
        let ghost h0 = self@.hand(pid);
        let ghost s0 = self@.stock;
        let ghost mut j: nat = 0;
        while self.hands[p].len() < 6 && self.stock.len() > 0
            invariant
                p == pid.spec_index(),
                p < self.hands.len(),
                p < old(self).hands.len(),
                h0 == old(self)@.hand(pid),
                s0 == old(self)@.stock,
                j <= s0.len(),
                self.hands@[p as int]@.len() == h0.len() + j,
                self.stock@.len() == s0.len() - j,
                h0.len() >= 6 ==> j == 0,
                j > 0 ==> h0.len() + j <= 6,
                self@ =~= (GameView {
                    hands: old(self)@.hands.update(
                        p as int,
                        h0 + Seq::new(j, |i: int| s0[s0.len() - 1 - i]),
                    ),
                    stock: s0.take(s0.len() - j),
                    ..old(self)@
                }),
            decreases self.stock.len(),
        {
            let ghost pre = self@;
            let drawn = self.stock.pop();
            assert(self.stock@ =~= s0.take(s0.len() - (j + 1)));
            match drawn {
                Some(card) => {
                    let card = if card.is_public() || card.is_unknown() {
                        card
                    } else {
                        card.as_private()
                    };
                    assert(card == s0[s0.len() - 1 - j]);
                    let hand_mut = &mut self.hands[p];
                    hand_mut.push(card);
                    assert(self@.hands =~= pre.hands.update(p as int, pre.hands[p as int].push(card)));
                    proof {
                        assert(Seq::new(j + 1, |i: int| s0[s0.len() - 1 - i]) =~= Seq::new(
                            j,
                            |i: int| s0[s0.len() - 1 - i],
                        ).push(card));
                        assert(h0 + Seq::new(j + 1, |i: int| s0[s0.len() - 1 - i]) =~= (h0
                            + Seq::new(j, |i: int| s0[s0.len() - 1 - i])).push(card));
                        j = j + 1;
                    }
                },
                None => {},
            }
        }
        assert(j == draw_count(h0.len(), s0.len()));
        assert(self@.hands =~= old(self)@.hands.update(p as int, hand_after_draw(h0, s0)));
    }

    /// Refills the hands from the stock at the end of a trick: the attackers
    /// draw first, in their order, then the defender.
    pub(crate) fn refill_hands(&mut self)
        requires
            old(self)@.seated(),
        ensures
            final(self)@ == old(self)@.refilled(),
            final(self)@.hands.len() == old(self)@.hands.len(),
    {
        let mut order: Vec<PlayerId> = self.attackers.clone();
        order.push(self.defender);
        let mut k: usize = 0;
        assert(order@.skip(0) == order@);
        while k < order.len()
            invariant
                k <= order.len(),
                order@ == old(self)@.attackers.push(old(self)@.defender),
                old(self)@.seated(),
                self@.hands.len() == old(self)@.hands.len(),
                self@ =~= (GameView { hands: self@.hands, stock: self@.stock, ..old(self)@ }),
                refill(self@.hands, self@.stock, order@.skip(k as int)) == refill(
                    old(self)@.hands,
                    old(self)@.stock,
                    order@,
                ),
            decreases order.len() - k,
        {
            let pid = order[k];
            assert(order@.skip(k as int)[0] == pid);
            assert(order@.skip(k as int).drop_first() == order@.skip(k as int + 1));
            self.draw_up(pid);
            k = k + 1;
        }
        assert(order@.skip(k as int).len() == 0);
    }

    /// Starts a trick led by `main`, or by the next player in the game where
    /// `main` is out.
    pub(crate) fn new_trick(&mut self, main: PlayerId)
        requires
            1 <= old(self).hands.len() <= 6,
            main.spec_index() < old(self).hands.len(),
        ensures
            final(self)@ == old(self)@.new_trick(main),
    {
        let lead = if self.is_player_active(main) {
            main
        } else {
            self.next_active_player(main)
        };
        let defender = self.next_active_player(lead);
        proof {
            crate::proofs::lemma_next_active_player_seated(self@, main);
            crate::proofs::lemma_next_active_player_seated(self@, lead);
        }
        self.attacker = lead;
        self.defender = defender;
        self.attackers = self.build_attackers(lead);
        self.current_attacker_idx = 0;
        self.last_played_attacker = lead;
        self.throw_start_idx = 0;
        self.phase = Phase::Attacking;
        self.reflected_trumps.clear();
        self.table.clear();
        assert(self@ =~= old(self)@.new_trick(main));
    }

    /// Moves every card on the table to the discard and clears the table.
    fn discard_table(&mut self)
        ensures
            final(self)@ == (GameView {
                discard: old(self)@.discard + pile_cards(old(self)@.table),
                table: Seq::empty(),
                ..old(self)@
            }),
    {
        let mut i: usize = 0;
        while i < self.table.len()
            invariant
                i <= self.table.len(),
                self@ =~= (GameView {
                    discard: old(self)@.discard + pile_cards(old(self)@.table.take(i as int)),
                    ..old(self)@
                }),
            decreases self.table.len() - i,
        {
            let pile = self.table[i];
            proof {
                assert(self@.table.take(i as int + 1).drop_last() == self@.table.take(i as int));
            }
            self.discard.push(pile.attack);
            match pile.defense {
                Some(d) => {
                    self.discard.push(d);
                },
                None => {},
            }
            i = i + 1;
        }
        assert(self@.table.take(i as int) == self@.table);
        self.table.clear();
    }

    /// Moves every card on the table to the defender's hand and clears the table.
    fn take_table(&mut self)
        requires
            old(self).defender.spec_index() < old(self).hands.len(),
        ensures
            final(self)@ == (GameView {
                hands: old(self)@.hands.update(
                    old(self).defender.spec_index() as int,
                    old(self)@.hand(old(self).defender) + pile_cards(old(self)@.table),
                ),
                table: Seq::empty(),
                ..old(self)@
            }),
    {
        let d = self.defender.index();
        let ghost h0 = self@.hand(self.defender);
        let mut i: usize = 0;
        while i < self.table.len()
            invariant
                i <= self.table.len(),
                d == old(self).defender.spec_index(),
                d < old(self).hands.len(),
                d < self.hands.len(),
                h0 == old(self)@.hand(old(self).defender),
                self@ =~= (GameView {
                    hands: old(self)@.hands.update(
                        d as int,
                        h0 + pile_cards(old(self)@.table.take(i as int)),
                    ),
                    ..old(self)@
                }),
            decreases self.table.len() - i,
        {
            let pile = self.table[i];
            let ghost pre = self@;
            proof {
                assert(self@.table.take(i as int + 1).drop_last() == self@.table.take(i as int));
            }
            let hand_mut = &mut self.hands[d];
            hand_mut.push(pile.attack);
            assert(self@.hands =~= pre.hands.update(d as int, pre.hands[d as int].push(pile.attack)));
            match pile.defense {
                Some(c) => {
                    let hand_mut = &mut self.hands[d];
                    hand_mut.push(c);
                    assert(pre.hands[d as int].push(pile.attack).push(c) =~= pre.hands[d as int]
                        + pile.cards());
                    assert(self@.hands =~= pre.hands.update(
                        d as int,
                        pre.hands[d as int] + pile.cards(),
                    ));
                },
                None => {
                    assert(pre.hands[d as int].push(pile.attack) =~= pre.hands[d as int]
                        + pile.cards());
                },
            }
            assert(self@.hands =~= pre.hands.update(d as int, pre.hands[d as int] + pile.cards()));
            assert(h0 + pile_cards(old(self)@.table.take(i as int + 1)) =~= (h0 + pile_cards(
                old(self)@.table.take(i as int),
            )) + pile.cards());
            i = i + 1;
        }
        assert(self@.table.take(i as int) == self@.table);
        self.table.clear();
    }

    fn apply_attack(&mut self, card: Card) -> (res: Result<(), EngineError>)
        requires
            old(self)@.wf(),
            old(self).phase == Phase::Attacking,
            !old(self)@.asks_unknown(Action::Attack { card }),
        ensures
            applied(old(self)@, final(self)@, old(self)@.step_attack(card), res),
    {
        let actor = self.actor_to_move();
        if self.hand_size(self.defender) == 0 {
            return Err(illegal("too many piles"));
        }
        if self.table.len() > 0 {
            if !self.rank_on_table(card.rank()) {
                return Err(illegal("attack rank not on table"));
            }
        }
        match self.remove_from_hand(actor, &card) {
            Err(e) => {
                return Err(e);
            },
            Ok(()) => {},
        }
        self.table.push(Pile { attack: card.as_public(), defense: None });
        self.last_played_attacker = actor;
        self.phase = Phase::Defending;
        assert(self@ =~= old(self)@.step_attack(card)->Ok_0);
        Ok(())
    }

    fn apply_pass(&mut self) -> (res: Result<(), EngineError>)
        requires
            old(self)@.wf(),
            old(self).phase == Phase::Attacking,
        ensures
            applied(old(self)@, final(self)@, old(self)@.step_pass(), res),
    {
        if self.open_pile_index().is_some() {
            return Err(illegal("cannot pass while there are undefended piles"));
        }
        if self.attackers.len() > 0 {
            self.current_attacker_idx = (self.current_attacker_idx + 1) % self.attackers.len();
            let next_attacker = self.attackers[self.current_attacker_idx];
            if next_attacker != self.last_played_attacker {
                assert(self@ =~= old(self)@.step_pass()->Ok_0);
                return Ok(());
            }
        }
        self.discard_table();
        self.refill_hands();
        self.new_trick(self.defender);
        Ok(())
    }

    fn apply_defend(&mut self, pile_index: usize, card: Card) -> (res: Result<(), EngineError>)
        requires
            old(self)@.wf(),
            old(self).phase == Phase::Defending,
            !old(self)@.asks_unknown(Action::Defend { pile_index, card }),
        ensures
            applied(old(self)@, final(self)@, old(self)@.step_defend(pile_index, card), res),
    {
        if pile_index >= self.table.len() {
            return Err(illegal("bad pile index"));
        }
        if self.table[pile_index].defense.is_some() {
            return Err(illegal("pile already defended"));
        }
        let attack = self.table[pile_index].attack;
        assert(self@.table[pile_index as int].attack is Public);
        if !card.beats(&attack, self.trump) {
            return Err(illegal("defense card does not beat attack"));
        }
        match self.remove_from_hand(self.defender, &card) {
            Err(e) => {
                return Err(e);
            },
            Ok(()) => {},
        }
        self.table.set(pile_index, Pile { attack, defense: Some(card.as_public()) });
        if self.open_pile_index().is_none() {
            self.phase = Phase::Attacking;
        }
        assert(self@ =~= old(self)@.step_defend(pile_index, card)->Ok_0);
        Ok(())
    }

    fn apply_take(&mut self) -> (res: Result<(), EngineError>)
        requires
            old(self).phase == Phase::Defending,
        ensures
            applied(old(self)@, final(self)@, old(self)@.step_take(), res),
    {
        self.throw_start_idx = self.current_attacker_idx;
        self.phase = Phase::Throwing;
        assert(self@ =~= old(self)@.step_take()->Ok_0);
        Ok(())
    }

    /// The checks that both kinds of redirect share, for a card of rank
    /// `card.rank()`: no pile defended yet, a pile open, and the rank that of
    /// the attack.
    fn check_redirect(&self, card: &Card, enabled: bool) -> (res: Result<(), EngineError>)
        requires
            self@.wf(),
            enabled,
            card is Unknown ==> !self@.redirect_open(enabled),
        ensures
            match self@.redirect_refusal(card.spec_rank()) {
                Some(r) => res matches Err(e) && r.text() == e.reason(),
                None => res is Ok && card.known(),
            },
    {
        if self.any_defended() {
            return Err(illegal("cannot reflect after defending a pile"));
        }
        let pile_index = match self.open_pile_index() {
            Some(i) => i,
            None => {
                return Err(illegal("no open pile to reflect"));
            },
        };
        let attack = self.table[pile_index].attack;
        assert(self@.table[pile_index as int].attack is Public);
        if card.rank() != attack.rank() {
            return Err(illegal("reflect card must have same rank as attack"));
        }
        Ok(())
    }

    /// Hands the attack on: the defender becomes the attacker and `target` defends.
    fn redirect_to(&mut self, target: PlayerId)
        requires
            old(self)@.wf(),
        ensures
            final(self)@ == old(self)@.redirected(target),
    {
        let old_defender = self.defender;
        self.attacker = old_defender;
        self.defender = target;
        self.attackers = self.build_attackers(self.attacker);
        self.current_attacker_idx = 0;
        self.last_played_attacker = self.attacker;
        self.phase = Phase::Defending;
        assert(self@ =~= old(self)@.redirected(target));
    }

    fn apply_reflect(&mut self, card: Card) -> (res: Result<(), EngineError>)
        requires
            old(self)@.wf(),
            old(self).phase == Phase::Defending,
            !old(self)@.asks_unknown(Action::Reflect { card }),
        ensures
            applied(old(self)@, final(self)@, old(self)@.step_reflect(card), res),
    {
        if !self.config.reflecting {
            return Err(illegal("reflecting not enabled"));
        }
        match self.check_redirect(&card, true) {
            Err(e) => {
                return Err(e);
            },
            Ok(()) => {},
        }
        let new_defender = match self.potential_reflect_defender() {
            Some(d) => d,
            None => {
                return Err(illegal("no active player to become defender"));
            },
        };
        match self.remove_from_hand(self.defender, &card) {
            Err(e) => {
                return Err(e);
            },
            Ok(()) => {},
        }
        self.table.push(Pile { attack: card.as_public(), defense: None });
        let ghost laid = self@;
        assert(laid =~= old(self)@.with_card_laid(
            old(self).defender,
            take_card(old(self)@.hand(old(self).defender), card)->Some_0,
            card,
        ));
        assert(laid.wf());
        self.redirect_to(new_defender);
        Ok(())
    }

    /// Turns the first card of the defender's hand that matches `card` face up.
    fn show_in_hand(&mut self, card: &Card)
        requires
            old(self).defender.spec_index() < old(self).hands.len(),
        ensures
            final(self)@ == (GameView {
                hands: old(self)@.hands.update(
                    old(self).defender.spec_index() as int,
                    crate::rules::show_card(old(self)@.hand(old(self).defender), *card),
                ),
                ..old(self)@
            }),
    {
        let d = self.defender.index();
        let ghost hand = self@.hand(self.defender);
        let len = self.hands[d].len();
        let mut i: usize = 0;
        while i < len
            invariant
                *self == *old(self),
                d == self.defender.spec_index(),
                d < self.hands.len(),
                hand == self@.hand(self.defender),
                len == hand.len(),
                i <= len,
                forall|j: int| 0 <= j < i ==> !(matching(*card))(#[trigger] hand[j]),
            decreases len - i,
        {
            let held = self.hands[d][i];
            if held.matches(card) {
                proof {
                    lemma_first_where_at(hand, matching(*card), i as int);
                }
                self.hands[d][i] = held.as_public();
                assert(self@ =~= (GameView {
                    hands: old(self)@.hands.update(
                        d as int,
                        hand.update(i as int, hand[i as int].spec_as_public()),
                    ),
                    ..old(self)@
                }));
                return ;
            }
            i = i + 1;
        }
        proof {
            lemma_first_where_none(hand, matching(*card));
            assert(self@ =~= (GameView {
                hands: old(self)@.hands.update(d as int, hand),
                ..old(self)@
            }));
        }
    }

    fn apply_reflect_trump(&mut self, card: Card) -> (res: Result<(), EngineError>)
        requires
            old(self)@.wf(),
            old(self).phase == Phase::Defending,
            !old(self)@.asks_unknown(Action::ReflectTrump { card }),
        ensures
            applied(old(self)@, final(self)@, old(self)@.step_reflect_trump(card), res),
    {
        if !self.config.trump_reflecting {
            return Err(illegal("trump reflecting not enabled"));
        }
        match self.check_redirect(&card, true) {
            Err(e) => {
                return Err(e);
            },
            Ok(()) => {},
        }
        if card.suit() != self.trump {
            return Err(illegal("trump reflect requires a trump card"));
        }
        if self.already_shown(&card) {
            return Err(illegal("this trump has already been used for reflecting this turn"));
        }
        let new_defender = match self.potential_reflect_defender() {
            Some(d) => d,
            None => {
                return Err(illegal("no active player to become defender"));
            },
        };
        if !self.holds_match(self.defender, &card) && !self.holds_unknown(self.defender) {
            return Err(not_in_hand(self.defender));
        }
        self.reflected_trumps.push(card.as_public());
        self.show_in_hand(&card);
        let ghost shown = self@;
        assert(shown.wf());
        self.redirect_to(new_defender);
        Ok(())
    }

    fn apply_throw(&mut self, card: Option<Card>) -> (res: Result<(), EngineError>)
        requires
            old(self)@.wf(),
            old(self).phase == Phase::Throwing,
            !old(self)@.asks_unknown(Action::Throw { card }),
        ensures
            applied(
                old(self)@,
                final(self)@,
                match card {
                    Some(c) => old(self)@.step_throw_card(c),
                    None => old(self)@.step_throw_done(),
                },
                res,
            ),
    {
        let actor = self.actor_to_move();
        match card {
            Some(c) => {
                if !self.rank_on_table(c.rank()) {
                    return Err(illegal("thrown rank not on table"));
                }
                if !self.defender_has_capacity() {
                    return Err(illegal("defender has no capacity"));
                }
                match self.remove_from_hand(actor, &c) {
                    Err(e) => {
                        return Err(e);
                    },
                    Ok(()) => {},
                }
                self.table.push(Pile { attack: c.as_public(), defense: None });
                assert(self@ =~= old(self)@.step_throw_card(c)->Ok_0);
                return Ok(());
            },
            None => {},
        }
        if self.attackers.len() > 0 {
            self.current_attacker_idx = (self.current_attacker_idx + 1) % self.attackers.len();
            if self.current_attacker_idx != self.throw_start_idx {
                assert(self@ =~= old(self)@.step_throw_done()->Ok_0);
                return Ok(());
            }
        }
        self.take_table();
        self.refill_hands();
        let num_players = self.num_players();
        let new_main_attacker = self.defender.next(num_players);
        self.new_trick(new_main_attacker);
        Ok(())
    }

    /// Whether `pid` holds a card that matches `card`.
    fn holds_match(&self, pid: PlayerId, card: &Card) -> (b: bool)
        requires
            pid.spec_index() < self.hands.len(),
        ensures
            b == (crate::seqs::first_where(self@.hand(pid), matching(*card)) is Some),
    {
        let p = pid.index();
        let ghost hand = self@.hand(pid);
        let mut i: usize = 0;
        while i < self.hands[p].len()
            invariant
                p == pid.spec_index(),
                p < self.hands.len(),
                hand == self.hands@[p as int]@,
                i <= hand.len(),
                forall|j: int| 0 <= j < i ==> !(matching(*card))(#[trigger] hand[j]),
            decreases hand.len() - i,
        {
            if self.hands[p][i].matches(card) {
                proof {
                    lemma_first_where_at(hand, matching(*card), i as int);
                }
                return true;
            }
            i = i + 1;
        }
        proof {
            lemma_first_where_none(hand, matching(*card));
        }
        false
    }

    /// Whether `pid` holds an unknown card.
    fn holds_unknown(&self, pid: PlayerId) -> (b: bool)
        requires
            pid.spec_index() < self.hands.len(),
        ensures
            b == (crate::seqs::first_where(self@.hand(pid), is_hidden()) is Some),
    {
        let p = pid.index();
        let ghost hand = self@.hand(pid);
        let mut i: usize = 0;
        while i < self.hands[p].len()
            invariant
                p == pid.spec_index(),
                p < self.hands.len(),
                hand == self.hands@[p as int]@,
                i <= hand.len(),
                forall|j: int| 0 <= j < i ==> !(is_hidden())(#[trigger] hand[j]),
            decreases hand.len() - i,
        {
            if self.hands[p][i].is_unknown() {
                proof {
                    lemma_first_where_at(hand, is_hidden(), i as int);
                }
                return true;
            }
            i = i + 1;
        }
        proof {
            lemma_first_where_none(hand, is_hidden());
        }
        false
    }

    /// Whether the move names an unknown card that the rules would have to
    /// look at. Such a move has no meaning and must not be applied.
    pub fn asks_unknown(&self, action: &Action) -> (b: bool)
        requires
            self@.wf(),
        ensures
            b == self@.asks_unknown(*action),
    {
        proof {
            lemma_actor_seated(self@);
        }
        match self.phase {
            Phase::Attacking => match action {
                Action::Attack { card } => {
                    proof {
                        if card is Unknown {
                            lemma_first_where_none(self@.hand(self@.actor()), matching(*card));
                        }
                    }
                    card.is_unknown() && self.hand_size(self.defender) != 0 && (self.table.len()
                        > 0 || self.holds_unknown(self.actor_to_move()))
                },
                _ => false,
            },
            Phase::Defending => match action {
                Action::Defend { pile_index, card } => card.is_unknown() && *pile_index
                    < self.table.len() && self.table[*pile_index].defense.is_none(),
                Action::Reflect { card } => card.is_unknown() && self.config.reflecting
                    && !self.any_defended() && self.open_pile_index().is_some(),
                Action::ReflectTrump { card } => card.is_unknown() && self.config.trump_reflecting
                    && !self.any_defended() && self.open_pile_index().is_some(),
                _ => false,
            },
            Phase::Throwing => match action {
                Action::Throw { card: Some(card) } => card.is_unknown(),
                _ => false,
            },
        }
    }

    /// Applies a move. A move that the rules refuse leaves the position
    /// untouched and comes back as an error that says why.
    pub fn apply(&mut self, action: &Action) -> (res: Result<(), EngineError>)
        requires
            old(self)@.wf(),
            !old(self)@.asks_unknown(*action),
        ensures
            applied(old(self)@, final(self)@, old(self)@.step(*action), res),
            final(self)@ == old(self)@.after(*action),
            final(self)@.wf(),
            old(self)@.coherent() ==> final(self)@.coherent(),
            total_cards(final(self)@) == total_cards(old(self)@),
    {
        proof {
            if old(self)@.step(*action) is Ok {
                lemma_step_keeps_wf(old(self)@, *action);
                law_cards_are_conserved(old(self)@, *action);
                if old(self)@.coherent() {
                    lemma_step_keeps_coherent(old(self)@, *action);
                }
            }
        }
        match self.phase {
            Phase::Attacking => match action {
                Action::Attack { card } => self.apply_attack(*card),
                Action::PassAttack => self.apply_pass(),
                _ => Err(wrong_phase(action)),
            },
            Phase::Defending => match action {
                Action::Defend { pile_index, card } => self.apply_defend(*pile_index, *card),
                Action::Take => self.apply_take(),
                Action::Reflect { card } => self.apply_reflect(*card),
                Action::ReflectTrump { card } => self.apply_reflect_trump(*card),
                _ => Err(wrong_phase(action)),
            },
            Phase::Throwing => match action {
                Action::Throw { card } => self.apply_throw(*card),
                _ => Err(wrong_phase(action)),
            },
        }
    }
}

} // verus!
