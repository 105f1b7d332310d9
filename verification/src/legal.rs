//! Which cards a player can play, and which moves are legal.

use crate::card::{deck_cards, full_deck, Card};
use crate::model::{Action, Phase};
use crate::player::PlayerId;
use crate::laws::lemma_actor_seated;
use crate::rules::{is_hidden, is_open, matching, take_card, GameView};
use crate::seqs::{
    first_where, gather, lemma_count_where_bounds, lemma_first_where, lemma_first_where_at,
    lemma_first_where_none, lemma_gather_member, lemma_gather_step,
};
use crate::state::GameState;
use vstd::prelude::*;

verus! {

/// Some card among `cards` matches `c`; with `public_only`, some face-up card does.
pub open spec fn holds_face(cards: Seq<Card>, c: Card, public_only: bool) -> bool {
    exists|i: int|
        0 <= i < cards.len() && (#[trigger] cards[i]).spec_matches(c) && (public_only
            ==> cards[i] is Public)
}

/// A known card is kept, an unknown card dropped.
pub open spec fn keep_known() -> spec_fn(Card) -> Seq<Card> {
    |c: Card|
        if c.known() {
            seq![c]
        } else {
            Seq::empty()
        }
}

/// Every card makes an opening attack.
pub open spec fn opening_attack() -> spec_fn(Card) -> Seq<Action> {
    |c: Card| seq![Action::Attack { card: c }]
}

impl GameView {
    /// Some card on the table matches `c`.
    pub open spec fn face_on_table(self, c: Card) -> bool {
        exists|i: int|
            0 <= i < self.table.len() && ((#[trigger] self.table[i]).attack.spec_matches(c) || (
            self.table[i].defense matches Some(d) && d.spec_matches(c)))
    }

    /// Some hand shows a card that matches `c` to the observer `who`: a
    /// face-up card in any hand, or any known card in the observer's own
    /// hand. With no observer named, any known card in any hand counts.
    pub open spec fn face_in_hands(self, c: Card, who: Option<PlayerId>) -> bool {
        exists|h: int| 0 <= h < self.hands.len() && #[trigger] self.hand_shows(h, c, who)
    }

    /// The hand at seat `h` shows a card that matches `c` to the observer `who`.
    pub open spec fn hand_shows(self, h: int, c: Card, who: Option<PlayerId>) -> bool {
        holds_face(self.hands[h], c, who matches Some(p) && p.spec_index() != h)
    }

    /// The card `c` is accounted for: it lies on the table or in the
    /// discard, shows in a hand, or lies face up in the stock.
    pub open spec fn seen(self, c: Card, who: Option<PlayerId>) -> bool {
        ||| self.face_on_table(c)
        ||| holds_face(self.discard, c, false)
        ||| self.face_in_hands(c, who)
        ||| holds_face(self.stock, c, true)
    }

    /// A card not accounted for is kept, face up; any other is dropped.
    pub open spec fn unseen_face_up(self, who: Option<PlayerId>) -> spec_fn(Card) -> Seq<Card> {
        |c: Card|
            if self.seen(c, who) {
                Seq::empty()
            } else {
                seq![c.spec_as_public()]
            }
    }

    /// The cards of the deck that are not accounted for, face up, in deck order.
    pub open spec fn unseen_pool(self, who: Option<PlayerId>) -> Seq<Card> {
        gather(deck_cards(self.config.deck_size), self.unseen_face_up(who))
    }

    /// The cards that player `p` may turn out to play. A hand without
    /// unknown cards is taken as it is. Of a hand with unknown cards, the
    /// known cards come first, then every card of the deck that is not
    /// accounted for, face up.
    pub open spec fn usable(self, p: PlayerId) -> Seq<Card> {
        let hand = self.hand(p);
        if first_where(hand, is_hidden()) is None {
            hand
        } else {
            gather(hand, keep_known()) + self.unseen_pool(None)
        }
    }

    /// A card whose rank is on the table makes an attack.
    pub open spec fn further_attack(self) -> spec_fn(Card) -> Seq<Action> {
        |c: Card|
            if self.rank_on_table(c.spec_rank()) {
                seq![Action::Attack { card: c }]
            } else {
                Seq::empty()
            }
    }

    /// A card whose rank is on the table can be thrown in.
    pub open spec fn throw_in(self) -> spec_fn(Card) -> Seq<Action> {
        |c: Card|
            if self.rank_on_table(c.spec_rank()) {
                seq![Action::Throw { card: Some(c) }]
            } else {
                Seq::empty()
            }
    }

    /// The attack may be redirected: no pile is defended yet and someone can
    /// take the defender's place.
    pub open spec fn can_reflect(self) -> bool {
        !self.any_defended() && self.reflect_target() is Some
    }

    /// The answers that card `c` gives to the attack on pile `pile_index`:
    /// a defense if it beats the attack, a redirect if it has the attack's
    /// rank and redirects are allowed, and a redirect by showing if it is
    /// also a trump not shown before in this trick.
    pub open spec fn answers(self, pile_index: usize) -> spec_fn(Card) -> Seq<Action> {
        |c: Card|
            {
                let attack = self.table[pile_index as int].attack;
                let same_rank = c.spec_rank() == attack.spec_rank();
                (if c.spec_beats(attack, self.trump) {
                    seq![Action::Defend { pile_index, card: c }]
                } else {
                    Seq::empty()
                }) + (if self.can_reflect() && self.config.reflecting && same_rank {
                    seq![Action::Reflect { card: c }]
                } else {
                    Seq::empty()
                }) + (if self.can_reflect() && self.config.trump_reflecting && same_rank
                    && c.spec_suit() == self.trump && !self.already_shown(c) {
                    seq![Action::ReflectTrump { card: c }]
                } else {
                    Seq::empty()
                })
            }
    }

    /// The legal moves, in the order in which they are listed.
    pub open spec fn legal(self) -> Seq<Action> {
        if self.is_terminal() {
            Seq::empty()
        } else {
            match self.phase {
                Phase::Attacking => if self.table.len() == 0 {
                    gather(self.usable(self.actor()), opening_attack())
                } else {
                    (if self.first_open() is None {
                        seq![Action::PassAttack]
                    } else {
                        Seq::empty()
                    }) + (if self.has_capacity() {
                        gather(self.usable(self.actor()), self.further_attack())
                    } else {
                        Seq::empty()
                    })
                },
                Phase::Defending => match self.first_open() {
                    None => seq![Action::Take],
                    Some(i) => gather(self.usable(self.defender), self.answers(i as usize))
                        + seq![Action::Take],
                },
                Phase::Throwing => seq![Action::Throw { card: None }] + (if self.has_capacity() {
                    gather(self.usable(self.actor()), self.throw_in())
                } else {
                    Seq::empty()
                }),
            }
        }
    }
}

/// The position after the moves have been tried one after another.
pub open spec fn played(v: GameView, moves: Seq<Action>) -> GameView
    decreases moves.len(),
{
    if moves.len() == 0 {
        v
    } else {
        played(v, moves.drop_last()).after(moves.last())
    }
}

/// Each of the moves is legal in the position in which it is tried.
pub open spec fn legal_line(v: GameView, moves: Seq<Action>) -> bool
    decreases moves.len(),
{
    moves.len() == 0 || (legal_line(v, moves.drop_last()) && played(
        v,
        moves.drop_last(),
    ).legal().contains(moves.last()))
}

/// Whether some card among `cards` matches `c`; with `public_only`, whether
/// some face-up card does.
pub(crate) fn has_face(cards: &Vec<Card>, c: &Card, public_only: bool) -> (b: bool)
    ensures
        b == holds_face(cards@, *c, public_only),
{
    let mut i: usize = 0;
    while i < cards.len()
        invariant
            i <= cards.len(),
            forall|j: int|
                0 <= j < i ==> !((#[trigger] cards@[j]).spec_matches(*c) && (public_only
                    ==> cards@[j] is Public)),
        decreases cards.len() - i,
    {
        if cards[i].matches(c) && (!public_only || cards[i].is_public()) {
            assert(cards@[i as int].spec_matches(*c));
            return true;
        }
        i = i + 1;
    }
    false
}

impl GameState {
    /// Whether some card on the table matches `c`.
    fn face_on_table(&self, c: &Card) -> (b: bool)
        ensures
            b == self@.face_on_table(*c),
    {
        let mut i: usize = 0;
        while i < self.table.len()
            invariant
                i <= self.table.len(),
                forall|j: int|
                    0 <= j < i ==> !((#[trigger] self@.table[j]).attack.spec_matches(*c) || (
                    self@.table[j].defense matches Some(d) && d.spec_matches(*c))),
            decreases self.table.len() - i,
        {
            let pile = self.table[i];
            assert(pile == self@.table[i as int]);
            if pile.attack.matches(c) {
                return true;
            }
            match pile.defense {
                Some(d) => {
                    if d.matches(c) {
                        return true;
                    }
                },
                None => {},
            }
            i = i + 1;
        }
        false
    }

    /// Whether some hand shows a card that matches `c` to the observer `who`.
    fn face_in_hands(&self, c: &Card, who: Option<PlayerId>) -> (b: bool)
        ensures
            b == self@.face_in_hands(*c, who),
    {
        let mut h: usize = 0;
        while h < self.hands.len()
            invariant
                h <= self.hands.len(),
                forall|j: int| 0 <= j < h ==> !#[trigger] self@.hand_shows(j, *c, who),
            decreases self.hands.len() - h,
        {
            let public_only = match who {
                Some(p) => p.index() != h,
                None => false,
            };
            assert(self@.hands[h as int] == self.hands@[h as int]@);
            if has_face(&self.hands[h], c, public_only) {
                assert(self@.hand_shows(h as int, *c, who));
                return true;
            }
            h = h + 1;
        }
        false
    }

    /// Whether the card `c` is accounted for, as the observer `who` sees it.
    pub(crate) fn is_seen(&self, c: &Card, who: Option<PlayerId>) -> (b: bool)
        ensures
            b == self@.seen(*c, who),
    {
        self.face_on_table(c) || has_face(&self.discard, c, false) || self.face_in_hands(c, who)
            || has_face(&self.stock, c, true)
    }

    /// The cards of the deck that are not accounted for, face up, in deck order.
    pub(crate) fn unseen_cards(&self, who: Option<PlayerId>) -> (pool: Vec<Card>)
        ensures
            pool@ == self@.unseen_pool(who),
    {
        let deck = full_deck(self.config.deck_size);
        let mut pool: Vec<Card> = Vec::new();
        let mut i: usize = 0;
        while i < deck.len()
            invariant
                i <= deck.len(),
                deck@ == deck_cards(self.config.deck_size),
                pool@ == gather(deck@.take(i as int), self@.unseen_face_up(who)),
            decreases deck.len() - i,
        {
            proof {
                lemma_gather_step(deck@, self@.unseen_face_up(who), i as int);
                crate::card::lemma_deck_cards_known(self.config.deck_size, i as int);
            }
            let c = deck[i];
            if !self.is_seen(&c, who) {
                pool.push(c.as_public());
            }
            i = i + 1;
        }
        assert(deck@.take(i as int) == deck@);
        pool
    }

    /// The cards a player can use for a move.
    pub(crate) fn usable_cards(&self, pid: PlayerId) -> (cards: Vec<Card>)
        requires
            pid.spec_index() < self.hands.len(),
        ensures
            cards@ == self@.usable(pid),
    {
        let p = pid.index();
        let ghost hand = self@.hand(pid);
        let len = self.hands[p].len();
        let mut i: usize = 0;
        let mut hidden = false;
        while i < len && !hidden
            invariant
                p == pid.spec_index(),
                p < self.hands.len(),
                hand == self.hands@[p as int]@,
                len == hand.len(),
                i <= len,
                !hidden ==> forall|j: int| 0 <= j < i ==> !(is_hidden())(#[trigger] hand[j]),
                hidden ==> first_where(hand, is_hidden()) is Some,
            decreases len - i + if hidden { 0int } else { 1int },
        {
            if self.hands[p][i].is_unknown() {
                proof {
                    lemma_first_where_at(hand, is_hidden(), i as int);
                }
                hidden = true;
            } else {
                i = i + 1;
            }
        }
        if !hidden {
            proof {
                lemma_first_where_none(hand, is_hidden());
            }
            return self.hands[p].clone();
        }
        let mut cards: Vec<Card> = Vec::new();
        let mut i: usize = 0;
        while i < len
            invariant
                p == pid.spec_index(),
                p < self.hands.len(),
                hand == self.hands@[p as int]@,
                len == hand.len(),
                i <= len,
                cards@ == gather(hand.take(i as int), keep_known()),
            decreases len - i,
        {
            proof {
                lemma_gather_step(hand, keep_known(), i as int);
            }
            let c = self.hands[p][i];
            if c.is_public() || c.is_private() {
                cards.push(c);
            }
            i = i + 1;
        }
        assert(hand.take(i as int) == hand);
        let mut pool = self.unseen_cards(None);
        cards.append(&mut pool);
        cards
    }
}

/// Every usable card is known, and can be played from the hand it is usable for.
pub proof fn lemma_usable(v: GameView, p: PlayerId, k: int)
    requires
        0 <= k < v.usable(p).len(),
    ensures
        v.usable(p)[k].known(),
        take_card(v.hand(p), v.usable(p)[k]) is Some,
{
    let hand = v.hand(p);
    let c = v.usable(p)[k];
    lemma_first_where(hand, is_hidden());
    lemma_first_where(hand, matching(c));
    if first_where(hand, is_hidden()) is None {
        assert(!(is_hidden())(hand[k]));
        assert((matching(c))(hand[k]));
    } else {
        let own = gather(hand, keep_known());
        if k < own.len() {
            let at = lemma_gather_member(hand, keep_known(), k);
        } else {
            let deck = deck_cards(v.config.deck_size);
            let at = lemma_gather_member(deck, v.unseen_face_up(None), k - own.len());
        }
    }
}

impl GameState {
    /// Adds an attack for each usable card: for every card when `opening`,
    /// else for the cards whose rank is on the table.
    fn push_attacks(&self, usable: &Vec<Card>, acts: &mut Vec<Action>, opening: bool)
        requires
            self@.played_cards_public(),
            forall|k: int| 0 <= k < usable@.len() ==> (#[trigger] usable@[k]).known(),
        ensures
            final(acts)@ == old(acts)@ + gather(
                usable@,
                if opening {
                    opening_attack()
                } else {
                    self@.further_attack()
                },
            ),
    {
        let ghost f = if opening {
            opening_attack()
        } else {
            self@.further_attack()
        };
        let mut i: usize = 0;
        assert(acts@ + gather(usable@.take(0), f) == acts@);
        while i < usable.len()
            invariant
                i <= usable.len(),
                self@.played_cards_public(),
                forall|k: int| 0 <= k < usable@.len() ==> (#[trigger] usable@[k]).known(),
                f == (if opening {
                    opening_attack()
                } else {
                    self@.further_attack()
                }),
                acts@ == old(acts)@ + gather(usable@.take(i as int), f),
            decreases usable.len() - i,
        {
            proof {
                lemma_gather_step(usable@, f, i as int);
            }
            let c = usable[i];
            if opening || self.rank_on_table(c.rank()) {
                acts.push(Action::Attack { card: c });
            }
            assert(acts@ == old(acts)@ + gather(usable@.take(i as int + 1), f));
            i = i + 1;
        }
        assert(usable@.take(i as int) == usable@);
    }

    /// Adds a throw for each usable card whose rank is on the table.
    fn push_throws(&self, usable: &Vec<Card>, acts: &mut Vec<Action>)
        requires
            self@.played_cards_public(),
            forall|k: int| 0 <= k < usable@.len() ==> (#[trigger] usable@[k]).known(),
        ensures
            final(acts)@ == old(acts)@ + gather(usable@, self@.throw_in()),
    {
        let ghost f = self@.throw_in();
        let mut i: usize = 0;
        assert(acts@ + gather(usable@.take(0), f) == acts@);
        while i < usable.len()
            invariant
                i <= usable.len(),
                self@.played_cards_public(),
                forall|k: int| 0 <= k < usable@.len() ==> (#[trigger] usable@[k]).known(),
                f == self@.throw_in(),
                acts@ == old(acts)@ + gather(usable@.take(i as int), f),
            decreases usable.len() - i,
        {
            proof {
                lemma_gather_step(usable@, f, i as int);
            }
            let c = usable[i];
            if self.rank_on_table(c.rank()) {
                acts.push(Action::Throw { card: Some(c) });
            }
            assert(acts@ == old(acts)@ + gather(usable@.take(i as int + 1), f));
            i = i + 1;
        }
        assert(usable@.take(i as int) == usable@);
    }

    /// Adds the answers that each usable card gives to the attack on pile `pile_index`.
    fn push_answers(&self, usable: &Vec<Card>, acts: &mut Vec<Action>, pile_index: usize)
        requires
            self@.wf(),
            pile_index < self.table.len(),
            forall|k: int| 0 <= k < usable@.len() ==> (#[trigger] usable@[k]).known(),
        ensures
            final(acts)@ == old(acts)@ + gather(usable@, self@.answers(pile_index)),
    {
        let ghost f = self@.answers(pile_index);
        let attack = self.table[pile_index].attack;
        assert(self@.table[pile_index as int].attack is Public);
        let can_reflect = !self.any_defended() && self.potential_reflect_defender().is_some();
        let mut i: usize = 0;
        assert(acts@ + gather(usable@.take(0), f) == acts@);
        while i < usable.len()
            invariant
                i <= usable.len(),
                self@.wf(),
                pile_index < self.table.len(),
                attack == self@.table[pile_index as int].attack,
                attack is Public,
                can_reflect == self@.can_reflect(),
                forall|k: int| 0 <= k < usable@.len() ==> (#[trigger] usable@[k]).known(),
                f == self@.answers(pile_index),
                acts@ == old(acts)@ + gather(usable@.take(i as int), f),
            decreases usable.len() - i,
        {
            proof {
                lemma_gather_step(usable@, f, i as int);
            }
            let ghost before = acts@;
            let c = usable[i];
            if c.beats(&attack, self.trump) {
                acts.push(Action::Defend { pile_index, card: c });
            }
            if can_reflect && self.config.reflecting && c.rank() == attack.rank() {
                acts.push(Action::Reflect { card: c });
            }
            if can_reflect && self.config.trump_reflecting && c.rank() == attack.rank() && c.suit()
                == self.trump && !self.already_shown(&c) {
                acts.push(Action::ReflectTrump { card: c });
            }
            assert(acts@ == before + f(c));
            assert(acts@ == old(acts)@ + gather(usable@.take(i as int + 1), f));
            i = i + 1;
        }
        assert(usable@.take(i as int) == usable@);
    }

    /// The usable cards of `pid`, each of them known.
    fn known_usable_cards(&self, pid: PlayerId) -> (cards: Vec<Card>)
        requires
            pid.spec_index() < self.hands.len(),
        ensures
            cards@ == self@.usable(pid),
            forall|k: int| 0 <= k < cards@.len() ==> (#[trigger] cards@[k]).known(),
    {
        let cards = self.usable_cards(pid);
        proof {
            assert forall|k: int| 0 <= k < cards@.len() implies (#[trigger] cards@[k]).known() by {
                lemma_usable(self@, pid, k);
            }
        }
        cards
    }

    /// The moves the player to move may make, none once the game is over.
    pub fn legal_actions(&self) -> (acts: Vec<Action>)
        requires
            self@.wf(),
        ensures
            acts@ == self@.legal(),
            forall|k: int| 0 <= k < acts@.len() ==> (#[trigger] acts@[k]).names_known_card(),
    {
        proof {
            assert forall|k: int| 0 <= k < self@.legal().len() implies (
            #[trigger] self@.legal()[k]).names_known_card() by {
                lemma_legal_known(self@, k);
            }
        }
        if self.is_terminal() {
            return Vec::new();
        }
        proof {
            lemma_actor_seated(self@);
        }
        let current_attacker = self.actor_to_move();
        let mut acts: Vec<Action> = Vec::new();
        match self.phase {
            Phase::Attacking => {
                let usable = self.known_usable_cards(current_attacker);
                if self.table.len() == 0 {
                    self.push_attacks(&usable, &mut acts, true);
                } else {
                    if self.open_pile_index().is_none() {
                        acts.push(Action::PassAttack);
                    }
                    if self.defender_has_capacity() {
                        self.push_attacks(&usable, &mut acts, false);
                    }
                }
            },
            Phase::Defending => {
                let pile_index = match self.open_pile_index() {
                    Some(i) => i,
                    None => {
                        acts.push(Action::Take);
                        return acts;
                    },
                };
                let usable = self.known_usable_cards(self.defender);
                self.push_answers(&usable, &mut acts, pile_index);
                acts.push(Action::Take);
            },
            Phase::Throwing => {
                acts.push(Action::Throw { card: None });
                let usable = self.known_usable_cards(current_attacker);
                if self.defender_has_capacity() {
                    self.push_throws(&usable, &mut acts);
                }
            },
        }
        assert(acts@ =~= self@.legal());
        acts
    }
}

/// A move that names no unknown card never asks for the suit or rank of one.
pub proof fn lemma_known_move_asks_nothing(v: GameView, action: Action)
    requires
        action.names_known_card(),
    ensures
        !v.asks_unknown(action),
{
}

/// While attacking, every legal move names a known card, if it names one.
proof fn lemma_legal_known_attacking(v: GameView, k: int)
    requires
        v.phase == Phase::Attacking,
        0 <= k < v.legal().len(),
    ensures
        v.legal()[k].names_known_card(),
{
    let usable = v.usable(v.actor());
    if v.table.len() == 0 {
        let at = lemma_gather_member(usable, opening_attack(), k);
        lemma_usable(v, v.actor(), at.0);
    } else {
        let pass: Seq<Action> = if v.first_open() is None {
            seq![Action::PassAttack]
        } else {
            Seq::empty()
        };
        if k >= pass.len() {
            let at = lemma_gather_member(usable, v.further_attack(), k - pass.len());
            lemma_usable(v, v.actor(), at.0);
        }
    }
}

/// While defending, every legal move names a known card, if it names one.
proof fn lemma_legal_known_defending(v: GameView, k: int)
    requires
        v.phase == Phase::Defending,
        0 <= k < v.legal().len(),
    ensures
        v.legal()[k].names_known_card(),
{
    match v.first_open() {
        Some(i) => {
            let usable = v.usable(v.defender);
            let answers = gather(usable, v.answers(i as usize));
            if k < answers.len() {
                let at = lemma_gather_member(usable, v.answers(i as usize), k);
                lemma_usable(v, v.defender, at.0);
            }
        },
        None => {},
    }
}

/// While throwing, every legal move names a known card, if it names one.
proof fn lemma_legal_known_throwing(v: GameView, k: int)
    requires
        v.phase == Phase::Throwing,
        0 <= k < v.legal().len(),
    ensures
        v.legal()[k].names_known_card(),
{
    if k >= 1 {
        let usable = v.usable(v.actor());
        let at = lemma_gather_member(usable, v.throw_in(), k - 1);
        lemma_usable(v, v.actor(), at.0);
    }
}

/// Every legal move names a known card, if it names one.
pub proof fn lemma_legal_known(v: GameView, k: int)
    requires
        0 <= k < v.legal().len(),
    ensures
        v.legal()[k].names_known_card(),
{
    match v.phase {
        Phase::Attacking => {
            lemma_legal_known_attacking(v, k);
        },
        Phase::Defending => {
            lemma_legal_known_defending(v, k);
        },
        Phase::Throwing => {
            lemma_legal_known_throwing(v, k);
        },
    }
}

/// While attacking, every legal move is accepted.
proof fn lemma_legal_attacking(v: GameView, k: int)
    requires
        v.wf(),
        v.coherent(),
        v.phase == Phase::Attacking,
        0 <= k < v.legal().len(),
    ensures
        v.legal()[k] matches Action::Attack { card } ==> card.known() && v.step_attack(card) is Ok,
        v.legal()[k] is PassAttack ==> v.step_pass() is Ok,
        v.legal()[k] is Attack || v.legal()[k] is PassAttack,
{
    lemma_actor_seated(v);
    lemma_count_where_bounds(v.table, is_open());
    let usable = v.usable(v.actor());
    if v.table.len() == 0 {
        let at = lemma_gather_member(usable, opening_attack(), k);
        lemma_usable(v, v.actor(), at.0);
    } else {
        let pass: Seq<Action> = if v.first_open() is None {
            seq![Action::PassAttack]
        } else {
            Seq::empty()
        };
        if k >= pass.len() {
            let at = lemma_gather_member(usable, v.further_attack(), k - pass.len());
            lemma_usable(v, v.actor(), at.0);
        }
    }
}

/// While defending, every legal move is accepted.
proof fn lemma_legal_defending(v: GameView, k: int)
    requires
        v.wf(),
        v.coherent(),
        v.table.len() <= usize::MAX,
        v.phase == Phase::Defending,
        0 <= k < v.legal().len(),
    ensures
        match v.legal()[k] {
            Action::Defend { pile_index, card } => card.known() && v.step_defend(pile_index, card) is Ok,
            Action::Reflect { card } => card.known() && v.step_reflect(card) is Ok,
            Action::ReflectTrump { card } => card.known() && v.step_reflect_trump(card) is Ok,
            Action::Take => true,
            _ => false,
        },
{
    let i = v.first_open()->Some_0;
    lemma_first_where(v.table, is_open());
    let usable = v.usable(v.defender);
    let answers = gather(usable, v.answers(i as usize));
    if k < answers.len() {
        let at = lemma_gather_member(usable, v.answers(i as usize), k);
        lemma_usable(v, v.defender, at.0);
    }
}

/// While throwing, every legal move is accepted.
proof fn lemma_legal_throwing(v: GameView, k: int)
    requires
        v.wf(),
        v.coherent(),
        v.phase == Phase::Throwing,
        0 <= k < v.legal().len(),
    ensures
        match v.legal()[k] {
            Action::Throw { card: Some(card) } => card.known() && v.step_throw_card(card) is Ok,
            Action::Throw { card: None } => true,
            _ => false,
        },
{
    lemma_actor_seated(v);
    lemma_count_where_bounds(v.table, is_open());
    if k >= 1 {
        let usable = v.usable(v.actor());
        let at = lemma_gather_member(usable, v.throw_in(), k - 1);
        lemma_usable(v, v.actor(), at.0);
    }
}

/// Every legal move is accepted: in a position that play can reach, applying
/// any move that `legal_actions` lists succeeds.
pub proof fn law_legal_moves_are_accepted(state: GameState, k: int)
    requires
        state@.wf(),
        state@.coherent(),
        0 <= k < state@.legal().len(),
    ensures
        state@.step(state@.legal()[k]) is Ok,
        !state@.asks_unknown(state@.legal()[k]),
{
    let v = state@;
    assert(v.table.len() == state.table.len());
    match v.phase {
        Phase::Attacking => {
            lemma_legal_attacking(v, k);
        },
        Phase::Defending => {
            lemma_legal_defending(v, k);
        },
        Phase::Throwing => {
            lemma_legal_throwing(v, k);
        },
    }
}

} // verus!
