//! The rules of the game as mathematics: a game position as plain sequences,
//! and what each move does to it.

use crate::card::{Card, Rank, Suit};
use crate::model::{Action, GameConfig, Phase, Pile};
use crate::player::{seek_seat, PlayerId};
use crate::seqs::{count_where, first_where};
use crate::wording::{action_text, seat_text};
use vstd::prelude::*;

verus! {

/// A game position with its collections read as sequences.
#[verifier::ext_equal]
pub struct GameView {
    pub trump: Suit,
    pub attacker: PlayerId,
    pub defender: PlayerId,
    pub phase: Phase,
    pub attackers: Seq<PlayerId>,
    pub current_attacker_idx: usize,
    pub last_played_attacker: PlayerId,
    pub throw_start_idx: usize,
    pub hands: Seq<Seq<Card>>,
    pub stock: Seq<Card>,
    pub table: Seq<Pile>,
    pub discard: Seq<Card>,
    pub reflected_trumps: Seq<Card>,
    pub config: GameConfig,
}

/// Why a move is refused.
pub enum Refusal {
    TooManyPiles,
    AttackRankNotOnTable,
    UndefendedPiles,
    BadPileIndex,
    PileAlreadyDefended,
    DoesNotBeat,
    ReflectingDisabled,
    TrumpReflectingDisabled,
    ReflectAfterDefense,
    NoOpenPile,
    ReflectRankMismatch,
    NotATrump,
    TrumpAlreadyShown,
    NoNextDefender,
    ThrownRankNotOnTable,
    NoCapacity,
    /// The acting player holds neither the card nor an unknown card that could be it.
    CardNotInHand(PlayerId),
    /// The move does not belong to the current phase.
    WrongPhase(Action),
}

impl Refusal {
    /// The reason given for the refusal.
    pub open spec fn text(self) -> Seq<char> {
        match self {
            Refusal::TooManyPiles => "too many piles"@,
            Refusal::AttackRankNotOnTable => "attack rank not on table"@,
            Refusal::UndefendedPiles => "cannot pass while there are undefended piles"@,
            Refusal::BadPileIndex => "bad pile index"@,
            Refusal::PileAlreadyDefended => "pile already defended"@,
            Refusal::DoesNotBeat => "defense card does not beat attack"@,
            Refusal::ReflectingDisabled => "reflecting not enabled"@,
            Refusal::TrumpReflectingDisabled => "trump reflecting not enabled"@,
            Refusal::ReflectAfterDefense => "cannot reflect after defending a pile"@,
            Refusal::NoOpenPile => "no open pile to reflect"@,
            Refusal::ReflectRankMismatch => "reflect card must have same rank as attack"@,
            Refusal::NotATrump => "trump reflect requires a trump card"@,
            Refusal::TrumpAlreadyShown => "this trump has already been used for reflecting this turn"@,
            Refusal::NoNextDefender => "no active player to become defender"@,
            Refusal::ThrownRankNotOnTable => "thrown rank not on table"@,
            Refusal::NoCapacity => "defender has no capacity"@,
            Refusal::CardNotInHand(pid) => "card not in "@ + seat_text(pid) + "'s hand"@,
            Refusal::WrongPhase(action) => "action not allowed in this phase: "@ + action_text(
                action,
            ),
        }
    }
}

/// The test "this pile has no defense card".
pub open spec fn is_open() -> spec_fn(Pile) -> bool {
    |p: Pile| p.defense is None
}

/// The test "this card matches `card`".
pub open spec fn matching(card: Card) -> spec_fn(Card) -> bool {
    |c: Card| c.spec_matches(card)
}

/// The test "this card is unknown".
pub open spec fn is_hidden() -> spec_fn(Card) -> bool {
    |c: Card| c is Unknown
}

/// The test "this hand holds a card".
pub open spec fn nonempty() -> spec_fn(Seq<Card>) -> bool {
    |h: Seq<Card>| h.len() > 0
}

/// A pile shows a rank when its attack card or its defense card has it.
pub open spec fn pile_shows(p: Pile, r: Rank) -> bool {
    p.attack.spec_rank() == r || (p.defense matches Some(d) && d.spec_rank() == r)
}

/// All cards of the piles in table order, each attack card before its defense card.
pub open spec fn pile_cards(table: Seq<Pile>) -> Seq<Card>
    decreases table.len(),
{
    if table.len() == 0 {
        Seq::empty()
    } else {
        pile_cards(table.drop_last()) + table.last().cards()
    }
}

/// Number of cards in all hands together.
pub open spec fn cards_in_hands(hands: Seq<Seq<Card>>) -> nat
    decreases hands.len(),
{
    if hands.len() == 0 {
        0
    } else {
        cards_in_hands(hands.drop_last()) + hands.last().len()
    }
}

/// `s` without the element at `i`, the last element taking its place.
pub open spec fn swap_out(s: Seq<Card>, i: int) -> Seq<Card> {
    s.update(i, s.last()).drop_last()
}

/// The hand after `card` is played from it: the first card that matches
/// leaves; where none matches, the first unknown card leaves in its stead;
/// where there is neither, the card cannot be played.
pub open spec fn take_card(hand: Seq<Card>, card: Card) -> Option<Seq<Card>> {
    match first_where(hand, matching(card)) {
        Some(i) => Some(swap_out(hand, i)),
        None => match first_where(hand, is_hidden()) {
            Some(i) => Some(swap_out(hand, i)),
            None => None,
        },
    }
}

/// The hand after the first card that matches `card` is turned face up.
pub open spec fn show_card(hand: Seq<Card>, card: Card) -> Seq<Card> {
    match first_where(hand, matching(card)) {
        Some(i) => hand.update(i, hand[i].spec_as_public()),
        None => hand,
    }
}

/// Number of cards a hand of `hand_len` cards draws from a stock of `stock_len` cards.
pub open spec fn draw_count(hand_len: nat, stock_len: nat) -> nat {
    if hand_len >= 6 {
        0
    } else if 6 - hand_len <= stock_len {
        (6 - hand_len) as nat
    } else {
        stock_len
    }
}

/// The hand after drawing up to six cards from the end of the stock, the last
/// stock card first.
pub open spec fn hand_after_draw(hand: Seq<Card>, stock: Seq<Card>) -> Seq<Card> {
    hand + Seq::new(draw_count(hand.len(), stock.len()), |i: int| stock[stock.len() - 1 - i])
}

/// The stock after a hand has drawn from it.
pub open spec fn stock_after_draw(hand: Seq<Card>, stock: Seq<Card>) -> Seq<Card> {
    stock.take(stock.len() - draw_count(hand.len(), stock.len()))
}

/// Hands and stock after the players in `order` have drawn, one after another.
pub open spec fn refill(hands: Seq<Seq<Card>>, stock: Seq<Card>, order: Seq<PlayerId>) -> (
    Seq<Seq<Card>>,
    Seq<Card>,
)
    decreases order.len(),
{
    if order.len() == 0 {
        (hands, stock)
    } else {
        let p = order[0].spec_index() as int;
        refill(
            hands.update(p, hand_after_draw(hands[p], stock)),
            stock_after_draw(hands[p], stock),
            order.drop_first(),
        )
    }
}

/// The player at seat `p` is in the list.
pub open spec fn listed(list: Seq<PlayerId>, p: int) -> bool {
    exists|i: int| 0 <= i < list.len() && (#[trigger] list[i]).spec_index() == p
}

/// Number of cards in the position: in the hands, in the stock, on the table
/// and in the discard. A trump shown to redirect an attack stays in its hand
/// and is counted there.
pub open spec fn total_cards(v: GameView) -> nat {
    cards_in_hands(v.hands) + v.stock.len() + pile_cards(v.table).len() + v.discard.len()
}

impl GameView {
    pub open spec fn num_players(self) -> nat {
        self.hands.len()
    }

    pub open spec fn hand(self, p: PlayerId) -> Seq<Card> {
        self.hands[p.spec_index() as int]
    }

    pub open spec fn hand_size(self, p: PlayerId) -> nat {
        self.hand(p).len()
    }

    /// A player is in the game while holding a card or able to draw one.
    pub open spec fn is_active(self, p: PlayerId) -> bool {
        self.hand_size(p) > 0 || self.stock.len() > 0
    }

    /// The test "the player at seat `i` is in the game".
    pub open spec fn active_seat(self) -> spec_fn(int) -> bool {
        |i: int| self.hands[i].len() > 0 || self.stock.len() > 0
    }

    /// The test "the player at seat `i` is in the game and is not the defender".
    pub open spec fn active_attacker_seat(self) -> spec_fn(int) -> bool {
        |i: int|
            i != self.defender.spec_index() && (self.hands[i].len() > 0 || self.stock.len() > 0)
    }

    /// Number of players who hold a card.
    pub open spec fn holders(self) -> nat {
        count_where(self.hands, nonempty())
    }

    /// The game is over once the stock is empty and at most one player holds cards.
    pub open spec fn is_terminal(self) -> bool {
        self.stock.len() == 0 && self.holders() <= 1
    }

    /// The loser: the one player left with cards when the game is over.
    pub open spec fn durak(self) -> Option<PlayerId> {
        if self.is_terminal() && self.holders() == 1 {
            match first_where(self.hands, nonempty()) {
                Some(i) => Some(PlayerId::spec_from_index(i as usize)),
                None => None,
            }
        } else {
            None
        }
    }

    /// The player whose move it is.
    pub open spec fn actor(self) -> PlayerId {
        match self.phase {
            Phase::Defending => self.defender,
            _ => if self.attackers.len() == 0 {
                self.attacker
            } else {
                self.attackers[(self.current_attacker_idx as int) % (self.attackers.len() as int)]
            },
        }
    }

    /// Some card on the table has rank `r`.
    pub open spec fn rank_on_table(self, r: Rank) -> bool {
        exists|i: int| 0 <= i < self.table.len() && pile_shows(#[trigger] self.table[i], r)
    }

    /// Index of the first pile without a defense card.
    pub open spec fn first_open(self) -> Option<int> {
        first_where(self.table, is_open())
    }

    /// Number of piles without a defense card.
    pub open spec fn open_count(self) -> nat {
        count_where(self.table, is_open())
    }

    /// The defender can still answer one more card.
    pub open spec fn has_capacity(self) -> bool {
        self.open_count() < self.hand_size(self.defender)
    }

    /// Some pile has been defended.
    pub open spec fn any_defended(self) -> bool {
        exists|i: int| 0 <= i < self.table.len() && (#[trigger] self.table[i]).defense is Some
    }

    /// The trump `card` has already been shown in this trick.
    pub open spec fn already_shown(self, card: Card) -> bool {
        exists|i: int|
            0 <= i < self.reflected_trumps.len() && (#[trigger] self.reflected_trumps[i]).spec_matches(
                card,
            )
    }

    /// The next player after `from` who is in the game, looking once round
    /// the table; `from` where there is none.
    pub open spec fn next_active_player(self, from: PlayerId) -> PlayerId {
        match seek_seat(
            from.spec_next(self.hands.len() as usize).spec_index() as int,
            self.hands.len(),
            self.hands.len() as int,
            self.active_seat(),
        ) {
            Some(i) => PlayerId::spec_from_index(i as usize),
            None => from,
        }
    }

    /// Who defends after the defender redirects the attack: the second
    /// attacker if in the game, else the first player after the defender who is.
    pub open spec fn reflect_target(self) -> Option<PlayerId> {
        if self.attackers.len() > 1 && self.is_active(self.attackers[1]) {
            Some(self.attackers[1])
        } else {
            match seek_seat(
                self.defender.spec_next(self.hands.len() as usize).spec_index() as int,
                self.hands.len(),
                self.hands.len() as int,
                self.active_attacker_seat(),
            ) {
                Some(i) => Some(PlayerId::spec_from_index(i as usize)),
                None => None,
            }
        }
    }

    /// The players in the game other than the defender, in seat order from
    /// `pid` on, over `steps` seats.
    pub open spec fn attackers_from(self, pid: PlayerId, steps: nat) -> Seq<PlayerId>
        decreases steps,
    {
        if steps == 0 {
            Seq::empty()
        } else {
            let rest = self.attackers_from(
                pid.spec_next(self.hands.len() as usize),
                (steps - 1) as nat,
            );
            if pid != self.defender && self.is_active(pid) {
                seq![pid] + rest
            } else {
                rest
            }
        }
    }

    /// The position after the attackers in turn and then the defender have
    /// drawn from the stock.
    pub open spec fn refilled(self) -> GameView {
        let (hands, stock) = refill(self.hands, self.stock, self.attackers.push(self.defender));
        GameView { hands, stock, ..self }
    }

    /// The position at the start of a trick led by `main`, or by the next
    /// player in the game where `main` is out.
    pub open spec fn new_trick(self, main: PlayerId) -> GameView {
        let lead = if self.is_active(main) {
            main
        } else {
            self.next_active_player(main)
        };
        let defender = self.next_active_player(lead);
        let seated = GameView { attacker: lead, defender, ..self };
        GameView {
            attackers: seated.attackers_from(lead, self.hands.len()),
            current_attacker_idx: 0,
            last_played_attacker: lead,
            throw_start_idx: 0,
            phase: Phase::Attacking,
            reflected_trumps: Seq::empty(),
            table: Seq::empty(),
            ..seated
        }
    }

    /// The position after `card` from `who`'s hand is laid as a new open pile.
    pub open spec fn with_card_laid(self, who: PlayerId, hand: Seq<Card>, card: Card) -> GameView {
        GameView {
            hands: self.hands.update(who.spec_index() as int, hand),
            table: self.table.push(Pile { attack: card.spec_as_public(), defense: None }),
            ..self
        }
    }

    /// The position after the defender has handed the attack on to `target`.
    pub open spec fn redirected(self, target: PlayerId) -> GameView {
        let seated = GameView { attacker: self.defender, defender: target, ..self };
        GameView {
            attackers: seated.attackers_from(self.defender, self.hands.len()),
            current_attacker_idx: 0,
            last_played_attacker: self.defender,
            phase: Phase::Defending,
            ..seated
        }
    }

    /// The index of the attacker to move after the current one.
    pub open spec fn next_attacker_idx(self) -> usize {
        if self.attackers.len() == 0 {
            self.current_attacker_idx
        } else {
            ((self.current_attacker_idx + 1) % (self.attackers.len() as int)) as usize
        }
    }

    /// The checks a redirect must pass before the card itself is looked at.
    pub open spec fn redirect_open(self, enabled: bool) -> bool {
        enabled && !self.any_defended() && self.first_open() is Some
    }

    /// What an attack with `card` does.
    pub open spec fn step_attack(self, card: Card) -> Result<GameView, Refusal> {
        let actor = self.actor();
        if self.hand_size(self.defender) == 0 {
            Err(Refusal::TooManyPiles)
        } else if self.table.len() > 0 && !self.rank_on_table(card.spec_rank()) {
            Err(Refusal::AttackRankNotOnTable)
        } else {
            match take_card(self.hand(actor), card) {
                None => Err(Refusal::CardNotInHand(actor)),
                Some(hand) => Ok(
                    GameView {
                        last_played_attacker: actor,
                        phase: Phase::Defending,
                        ..self.with_card_laid(actor, hand, card)
                    },
                ),
            }
        }
    }

    /// What passing does. When the pass comes round to the attacker who
    /// played last, the trick is won by the defender: the table goes to the
    /// discard, the hands are refilled and the defender leads the next trick.
    pub open spec fn step_pass(self) -> Result<GameView, Refusal> {
        if self.first_open() is Some {
            Err(Refusal::UndefendedPiles)
        } else {
            let moved = GameView { current_attacker_idx: self.next_attacker_idx(), ..self };
            if self.attackers.len() > 0 && self.attackers[moved.current_attacker_idx as int]
                != self.last_played_attacker {
                Ok(moved)
            } else {
                let cleared = GameView {
                    discard: self.discard + pile_cards(self.table),
                    table: Seq::empty(),
                    ..moved
                };
                Ok(cleared.refilled().new_trick(self.defender))
            }
        }
    }

    /// What defending pile `pile_index` with `card` does.
    pub open spec fn step_defend(self, pile_index: usize, card: Card) -> Result<
        GameView,
        Refusal,
    > {
        if pile_index >= self.table.len() {
            Err(Refusal::BadPileIndex)
        } else if self.table[pile_index as int].defense is Some {
            Err(Refusal::PileAlreadyDefended)
        } else if !card.spec_beats(self.table[pile_index as int].attack, self.trump) {
            Err(Refusal::DoesNotBeat)
        } else {
            match take_card(self.hand(self.defender), card) {
                None => Err(Refusal::CardNotInHand(self.defender)),
                Some(hand) => {
                    let covered = GameView {
                        hands: self.hands.update(self.defender.spec_index() as int, hand),
                        table: self.table.update(
                            pile_index as int,
                            Pile {
                                attack: self.table[pile_index as int].attack,
                                defense: Some(card.spec_as_public()),
                            },
                        ),
                        ..self
                    };
                    Ok(
                        GameView {
                            phase: if covered.first_open() is None {
                                Phase::Attacking
                            } else {
                                self.phase
                            },
                            ..covered
                        },
                    )
                },
            }
        }
    }

    /// What taking does: the attackers may throw in, starting with the one to move.
    pub open spec fn step_take(self) -> Result<GameView, Refusal> {
        Ok(GameView { throw_start_idx: self.current_attacker_idx, phase: Phase::Throwing, ..self })
    }

    /// The refusal common to both kinds of redirect, if any, for a card of rank `rank`.
    pub open spec fn redirect_refusal(self, rank: Rank) -> Option<Refusal> {
        if self.any_defended() {
            Some(Refusal::ReflectAfterDefense)
        } else {
            match self.first_open() {
                None => Some(Refusal::NoOpenPile),
                Some(i) => if rank != self.table[i].attack.spec_rank() {
                    Some(Refusal::ReflectRankMismatch)
                } else {
                    None
                },
            }
        }
    }

    /// What redirecting the attack by playing `card` does.
    pub open spec fn step_reflect(self, card: Card) -> Result<GameView, Refusal> {
        if !self.config.reflecting {
            Err(Refusal::ReflectingDisabled)
        } else {
            match self.redirect_refusal(card.spec_rank()) {
                Some(r) => Err(r),
                None => match self.reflect_target() {
                    None => Err(Refusal::NoNextDefender),
                    Some(target) => match take_card(self.hand(self.defender), card) {
                        None => Err(Refusal::CardNotInHand(self.defender)),
                        Some(hand) => Ok(
                            self.with_card_laid(self.defender, hand, card).redirected(target),
                        ),
                    },
                },
            }
        }
    }

    /// What redirecting the attack by showing the trump `card` does. The
    /// defender must hold the card, or an unknown card that could be it; the
    /// card stays in the hand and is turned face up where it is held.
    pub open spec fn step_reflect_trump(self, card: Card) -> Result<GameView, Refusal> {
        if !self.config.trump_reflecting {
            Err(Refusal::TrumpReflectingDisabled)
        } else {
            match self.redirect_refusal(card.spec_rank()) {
                Some(r) => Err(r),
                None => if card.spec_suit() != self.trump {
                    Err(Refusal::NotATrump)
                } else if self.already_shown(card) {
                    Err(Refusal::TrumpAlreadyShown)
                } else {
                    match self.reflect_target() {
                        None => Err(Refusal::NoNextDefender),
                        Some(target) => if take_card(self.hand(self.defender), card) is None {
                            Err(Refusal::CardNotInHand(self.defender))
                        } else {
                            Ok(
                                GameView {
                                    reflected_trumps: self.reflected_trumps.push(
                                        card.spec_as_public(),
                                    ),
                                    hands: self.hands.update(
                                        self.defender.spec_index() as int,
                                        show_card(self.hand(self.defender), card),
                                    ),
                                    ..self
                                }.redirected(target),
                            )
                        },
                    }
                },
            }
        }
    }

    /// What throwing in `card` does. The card must have a rank that is on
    /// the table, and the defender must hold more cards than piles are open.
    pub open spec fn step_throw_card(self, card: Card) -> Result<GameView, Refusal> {
        let actor = self.actor();
        if !self.rank_on_table(card.spec_rank()) {
            Err(Refusal::ThrownRankNotOnTable)
        } else if !self.has_capacity() {
            Err(Refusal::NoCapacity)
        } else {
            match take_card(self.hand(actor), card) {
                None => Err(Refusal::CardNotInHand(actor)),
                Some(hand) => Ok(self.with_card_laid(actor, hand, card)),
            }
        }
    }

    /// What an attacker who throws nothing more does. When the turn comes
    /// back to the attacker who threw first, the defender picks up the table,
    /// the hands are refilled and the player after the defender leads.
    pub open spec fn step_throw_done(self) -> Result<GameView, Refusal> {
        let moved = GameView { current_attacker_idx: self.next_attacker_idx(), ..self };
        if self.attackers.len() > 0 && moved.current_attacker_idx != self.throw_start_idx {
            Ok(moved)
        } else {
            let d = self.defender.spec_index() as int;
            let taken = GameView {
                hands: self.hands.update(d, self.hands[d] + pile_cards(self.table)),
                table: Seq::empty(),
                ..moved
            };
            Ok(taken.refilled().new_trick(self.defender.spec_next(self.hands.len() as usize)))
        }
    }

    /// What a move does to the position: the next position, or why the move is refused.
    pub open spec fn step(self, action: Action) -> Result<GameView, Refusal> {
        match (self.phase, action) {
            (Phase::Attacking, Action::Attack { card }) => self.step_attack(card),
            (Phase::Attacking, Action::PassAttack) => self.step_pass(),
            (Phase::Defending, Action::Defend { pile_index, card }) => self.step_defend(
                pile_index,
                card,
            ),
            (Phase::Defending, Action::Take) => self.step_take(),
            (Phase::Defending, Action::Reflect { card }) => self.step_reflect(card),
            (Phase::Defending, Action::ReflectTrump { card }) => self.step_reflect_trump(card),
            (Phase::Throwing, Action::Throw { card: Some(card) }) => self.step_throw_card(card),
            (Phase::Throwing, Action::Throw { card: None }) => self.step_throw_done(),
            _ => Err(Refusal::WrongPhase(action)),
        }
    }

    /// The position after a move is tried: the next position where the
    /// move is accepted, the same position where it is refused.
    pub open spec fn after(self, action: Action) -> GameView {
        match self.step(action) {
            Ok(next) => next,
            Err(_) => self,
        }
    }

    /// The move names an unknown card, and none of the checks that come
    /// before the card's suit or rank is looked at refuses it. Such a move
    /// has no meaning.
    pub open spec fn asks_unknown(self, action: Action) -> bool {
        match (self.phase, action) {
            (Phase::Attacking, Action::Attack { card }) => card is Unknown && self.hand_size(
                self.defender,
            ) != 0 && (self.table.len() > 0 || take_card(self.hand(self.actor()), card) is Some),
            (Phase::Defending, Action::Defend { pile_index, card }) => card is Unknown && pile_index
                < self.table.len() && self.table[pile_index as int].defense is None,
            (Phase::Defending, Action::Reflect { card }) => card is Unknown && self.redirect_open(
                self.config.reflecting,
            ),
            (Phase::Defending, Action::ReflectTrump { card }) => card is Unknown
                && self.redirect_open(self.config.trump_reflecting),
            (Phase::Throwing, Action::Throw { card: Some(card) }) => card is Unknown,
            _ => false,
        }
    }

    /// Every card on the table and in the discard is face up.
    pub open spec fn played_cards_public(self) -> bool {
        &&& forall|i: int|
            0 <= i < self.table.len() ==> (#[trigger] self.table[i]).attack is Public
        &&& forall|i: int|
            0 <= i < self.table.len() ==> ((#[trigger] self.table[i]).defense matches Some(d)
                ==> d is Public)
        &&& forall|i: int| 0 <= i < self.discard.len() ==> (#[trigger] self.discard[i]) is Public
    }

    /// Two to six players, no more attackers than players, and every player
    /// named sits at the table.
    pub open spec fn seated(self) -> bool {
        &&& 2 <= self.hands.len() <= 6
        &&& self.attackers.len() <= self.hands.len()
        &&& self.attacker.spec_index() < self.hands.len()
        &&& self.defender.spec_index() < self.hands.len()
        &&& forall|i: int|
            0 <= i < self.attackers.len() ==> (#[trigger] self.attackers[i]).spec_index()
                < self.hands.len()
    }

    /// The position is well formed: two to six hands, every player named
    /// sits at the table, and played cards are face up.
    pub open spec fn wf(self) -> bool {
        &&& self.seated()
        &&& self.current_attacker_idx < usize::MAX
        &&& self.played_cards_public()
    }

    /// The player at seat `p` is among the attackers.
    pub open spec fn attacks(self, p: int) -> bool {
        listed(self.attackers, p)
    }

    /// Every player but the defender is among the attackers.
    pub open spec fn all_attack(self) -> bool {
        forall|p: int|
            0 <= p < self.hands.len() && p != self.defender.spec_index() ==> #[trigger] self.attacks(
                p,
            )
    }

    /// The position is one that play can reach: the defender is not among the
    /// attackers; while defending, a pile is open; a trick that has not begun
    /// has a defender who holds cards, unless the game is over; and while the
    /// stock lasts everyone but the defender attacks.
    pub open spec fn coherent(self) -> bool {
        &&& forall|i: int|
            0 <= i < self.attackers.len() ==> (#[trigger] self.attackers[i]) != self.defender
        &&& self.phase == Phase::Defending ==> self.first_open() is Some
        &&& self.phase == Phase::Attacking && self.table.len() == 0 && !self.is_terminal()
            ==> self.hand_size(self.defender) > 0
        &&& self.stock.len() > 0 ==> self.all_attack()
    }
}

} // verus!
