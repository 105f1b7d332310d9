//! The game position and the questions that can be asked of it.

use crate::card::{Card, Rank, Suit};
use crate::model::{GameConfig, Phase, Pile};
use crate::player::{hands_view, seek_seat, PlayerId};
use crate::rules::{is_open, nonempty, pile_shows, GameView};
use crate::seqs::{
    count_where, first_where, lemma_count_where_prefix, lemma_count_where_step,
    lemma_first_where_at, lemma_first_where_none,
};
use vstd::prelude::*;

verus! {

/// A game position with full card tracking.
///
/// Each card carries who knows it. In a dealt game every card is known to
/// the engine and private to its holder until played. In a manually entered
/// game only one hand is known and the other cards are unknown.
#[derive(Debug, PartialEq, Eq)]
pub struct GameState {
    /// Trump suit.
    pub trump: Suit,
    /// Primary attacker of the trick.
    pub attacker: PlayerId,
    pub defender: PlayerId,
    pub phase: Phase,
    /// The players who may attack in this trick, the primary attacker first.
    pub attackers: Vec<PlayerId>,
    /// Index into `attackers` of the attacker to move.
    pub current_attacker_idx: usize,
    /// The attacker who last played a card.
    pub last_played_attacker: PlayerId,
    /// The attacker index at which throwing began.
    pub throw_start_idx: usize,
    /// The hands, by seat.
    pub hands: Vec<Vec<Card>>,
    /// The stock. Cards are drawn from the end; the first card is the trump card.
    pub stock: Vec<Card>,
    pub table: Vec<Pile>,
    pub discard: Vec<Card>,
    /// Trumps shown in this trick to redirect an attack.
    pub reflected_trumps: Vec<Card>,
    pub config: GameConfig,
}

impl View for GameState {
    type V = GameView;

    open spec fn view(&self) -> GameView {
        GameView {
            trump: self.trump,
            attacker: self.attacker,
            defender: self.defender,
            phase: self.phase,
            attackers: self.attackers@,
            current_attacker_idx: self.current_attacker_idx,
            last_played_attacker: self.last_played_attacker,
            throw_start_idx: self.throw_start_idx,
            hands: hands_view(self.hands@),
            stock: self.stock@,
            table: self.table@,
            discard: self.discard@,
            reflected_trumps: self.reflected_trumps@,
            config: self.config,
        }
    }
}

impl Clone for GameState {
    fn clone(&self) -> (copy: GameState)
        ensures
            copy@ == self@,
    {
        let mut hands: Vec<Vec<Card>> = Vec::new();
        let mut h: usize = 0;
        while h < self.hands.len()
            invariant
                h <= self.hands.len(),
                hands@.len() == h,
                forall|j: int| 0 <= j < h ==> (#[trigger] hands@[j])@ == self.hands@[j]@,
            decreases self.hands.len() - h,
        {
            hands.push(self.hands[h].clone());
            h = h + 1;
        }
        let copy = GameState {
            trump: self.trump,
            attacker: self.attacker,
            defender: self.defender,
            phase: self.phase,
            attackers: self.attackers.clone(),
            current_attacker_idx: self.current_attacker_idx,
            last_played_attacker: self.last_played_attacker,
            throw_start_idx: self.throw_start_idx,
            hands,
            stock: self.stock.clone(),
            table: self.table.clone(),
            discard: self.discard.clone(),
            reflected_trumps: self.reflected_trumps.clone(),
            config: self.config,
        };
        assert(copy@ =~= self@);
        copy
    }
}

impl GameState {
    pub fn hand_size(&self, pid: PlayerId) -> (size: usize)
        requires
            pid.spec_index() < self.hands.len(),
        ensures
            size == self@.hand_size(pid),
    {
        self.hands[pid.index()].len()
    }

    pub fn num_players(&self) -> (n: usize)
        ensures
            n == self@.num_players(),
    {
        self.hands.len()
    }

    /// Whether a player is still in the game (holds cards or can draw).
    pub(crate) fn is_player_active(&self, pid: PlayerId) -> (b: bool)
        requires
            pid.spec_index() < self.hands.len(),
        ensures
            b == self@.is_active(pid),
            b == (self@.active_seat())(pid.spec_index() as int),
    {
        self.hand_size(pid) > 0 || self.stock.len() > 0
    }

    /// Number of players who hold a card.
    pub(crate) fn count_holders(&self) -> (count: usize)
        ensures
            count == self@.holders(),
    {
        let mut count: usize = 0;
        let mut i: usize = 0;
        while i < self.hands.len()
            invariant
                i <= self.hands.len(),
                count <= i,
                count == count_where(self@.hands.take(i as int), nonempty()),
            decreases self.hands.len() - i,
        {
            proof {
                lemma_count_where_step(self@.hands, nonempty(), i as int);
            }
            if self.hands[i].len() > 0 {
                count = count + 1;
            }
            i = i + 1;
        }
        assert(self@.hands.take(i as int) == self@.hands);
        count
    }

    /// The game is over once the stock is empty and at most one player holds cards.
    pub fn is_terminal(&self) -> (b: bool)
        ensures
            b == self@.is_terminal(),
            b <==> self.stock@.len() == 0 && self@.holders() <= 1,
    {
        if self.stock.len() > 0 {
            return false;
        }
        self.count_holders() <= 1
    }

    /// The loser, once the game is over: the one player who still holds
    /// cards. `None` while the game goes on, and when nobody holds cards.
    pub fn durak(&self) -> (loser: Option<PlayerId>)
        requires
            self.hands.len() <= 6,
        ensures
            loser == self@.durak(),
            loser is Some <==> self@.is_terminal() && self@.holders() == 1,
            loser matches Some(p) ==> p.spec_index() < self.hands.len() && self@.hand_size(p) > 0,
    {
        if !self.is_terminal() {
            return None;
        }
        let mut found: Option<PlayerId> = None;
        let mut i: usize = 0;
        while i < self.hands.len()
            invariant
                i <= self.hands.len() <= 6,
                self@.holders() <= 1,
                count_where(self@.hands.take(i as int), nonempty()) == (if found is Some {
                    1nat
                } else {
                    0nat
                }),
                found matches Some(p) ==> p.spec_index() < i && self@.hands[p.spec_index() as int].len()
                    > 0 && first_where(self@.hands, nonempty()) == Some(p.spec_index() as int),
                found is None ==> forall|j: int|
                    #![trigger self@.hands[j]]
                    0 <= j < i ==> !(nonempty())(self@.hands[j]),
            decreases self.hands.len() - i,
        {
            proof {
                lemma_count_where_step(self@.hands, nonempty(), i as int);
                lemma_count_where_prefix(self@.hands, nonempty(), i as int + 1);
            }
            let pid = PlayerId::from_index(i);
            if self.hand_size(pid) > 0 {
                proof {
                    lemma_first_where_at(self@.hands, nonempty(), i as int);
                }
                found = Some(pid);
            }
            i = i + 1;
        }
        proof {
            assert(self@.hands.take(i as int) == self@.hands);
            if found is None {
                lemma_first_where_none(self@.hands, nonempty());
            }
        }
        found
    }

    /// The player whose move it is.
    pub fn actor_to_move(&self) -> (p: PlayerId)
        ensures
            p == self@.actor(),
    {
        match self.phase {
            Phase::Defending => self.defender,
            _ => {
                if self.attackers.len() == 0 {
                    self.attacker
                } else {
                    self.attackers[self.current_attacker_idx % self.attackers.len()]
                }
            },
        }
    }

    /// Whether some card on the table has rank `rank`.
    pub(crate) fn rank_on_table(&self, rank: Rank) -> (b: bool)
        requires
            self@.played_cards_public(),
        ensures
            b == self@.rank_on_table(rank),
    {
        let mut i: usize = 0;
        while i < self.table.len()
            invariant
                i <= self.table.len(),
                self@.played_cards_public(),
                forall|j: int| 0 <= j < i ==> !pile_shows(#[trigger] self.table@[j], rank),
            decreases self.table.len() - i,
        {
            let pile = self.table[i];
            assert(self@.table[i as int] == pile);
            if pile.attack.rank() == rank {
                return true;
            }
            match pile.defense {
                Some(d) => {
                    if d.rank() == rank {
                        return true;
                    }
                },
                None => {},
            }
            i = i + 1;
        }
        false
    }

    /// Index of the first pile without a defense card.
    pub(crate) fn open_pile_index(&self) -> (found: Option<usize>)
        ensures
            match found {
                Some(i) => self@.first_open() == Some(i as int) && i < self.table.len()
                    && self.table@[i as int].defense is None,
                None => self@.first_open() is None,
            },
    {
        let mut i: usize = 0;
        while i < self.table.len()
            invariant
                i <= self.table.len(),
                forall|j: int| 0 <= j < i ==> !(is_open())(#[trigger] self.table@[j]),
            decreases self.table.len() - i,
        {
            if self.table[i].defense.is_none() {
                proof {
                    lemma_first_where_at(self.table@, is_open(), i as int);
                }
                return Some(i);
            }
            i = i + 1;
        }
        proof {
            lemma_first_where_none(self.table@, is_open());
        }
        None
    }

    /// Number of piles without a defense card.
    pub(crate) fn undefended_pile_count(&self) -> (count: usize)
        ensures
            count == self@.open_count(),
    {
        let mut count: usize = 0;
        let mut i: usize = 0;
        while i < self.table.len()
            invariant
                i <= self.table.len(),
                count <= i,
                count == count_where(self.table@.take(i as int), is_open()),
            decreases self.table.len() - i,
        {
            proof {
                lemma_count_where_step(self.table@, is_open(), i as int);
            }
            if self.table[i].defense.is_none() {
                count = count + 1;
            }
            i = i + 1;
        }
        assert(self.table@.take(i as int) == self.table@);
        count
    }

    /// Whether one more card may be attacked or thrown with: the defender
    /// holds more cards than there are open piles.
    pub(crate) fn defender_has_capacity(&self) -> (b: bool)
        requires
            self.defender.spec_index() < self.hands.len(),
        ensures
            b == self@.has_capacity(),
    {
        self.undefended_pile_count() < self.hand_size(self.defender)
    }

    /// Whether some pile has been defended.
    pub(crate) fn any_defended(&self) -> (b: bool)
        ensures
            b == self@.any_defended(),
    {
        let mut i: usize = 0;
        while i < self.table.len()
            invariant
                i <= self.table.len(),
                forall|j: int| 0 <= j < i ==> (#[trigger] self.table@[j]).defense is None,
            decreases self.table.len() - i,
        {
            if self.table[i].defense.is_some() {
                return true;
            }
            i = i + 1;
        }
        false
    }

    /// Whether the trump `card` has already been shown in this trick.
    pub(crate) fn already_shown(&self, card: &Card) -> (b: bool)
        ensures
            b == self@.already_shown(*card),
    {
        let mut i: usize = 0;
        while i < self.reflected_trumps.len()
            invariant
                i <= self.reflected_trumps.len(),
                forall|j: int|
                    0 <= j < i ==> !(#[trigger] self.reflected_trumps@[j]).spec_matches(*card),
            decreases self.reflected_trumps.len() - i,
        {
            if self.reflected_trumps[i].matches(card) {
                assert(self@.reflected_trumps[i as int].spec_matches(*card));
                assert(0 <= i < self@.reflected_trumps.len());
                return true;
            }
            i = i + 1;
        }
        false
    }

    /// The next player after `from` who is in the game; `from` where there is none.
    pub(crate) fn next_active_player(&self, from: PlayerId) -> (p: PlayerId)
        requires
            1 <= self.hands.len() <= 6,
        ensures
            p == self@.next_active_player(from),
    {
        let n = self.num_players();
        let ghost ok = self@.active_seat();
        let mut pid = from.next(n);
        let ghost start = pid.spec_index() as int;
        let mut k: usize = 0;
        while k < n
            invariant
                n == self.hands.len(),
                1 <= n <= 6,
                ok == self@.active_seat(),
                start == from.spec_next(n).spec_index(),
                k <= n,
                pid.spec_index() < n,
                seek_seat(start, n as nat, n as int, ok) == seek_seat(
                    pid.spec_index() as int,
                    (n - k) as nat,
                    n as int,
                    ok,
                ),
            decreases n - k,
        {
            if self.is_player_active(pid) {
                assert(PlayerId::spec_from_index(pid.spec_index()) == pid);
                return pid;
            }
            pid = pid.next(n);
            k = k + 1;
        }
        from
    }

    /// The players in the game other than the defender, in seat order from `main` on.
    pub(crate) fn build_attackers(&self, main: PlayerId) -> (list: Vec<PlayerId>)
        requires
            1 <= self.hands.len() <= 6,
            main.spec_index() < self.hands.len(),
        ensures
            list@ == self@.attackers_from(main, self.hands.len() as nat),
    {
        let n = self.num_players();
        let mut list: Vec<PlayerId> = Vec::new();
        let mut pid = main;
        let mut k: usize = 0;
        while k < n
            invariant
                n == self.hands.len(),
                1 <= n <= 6,
                k <= n,
                pid.spec_index() < n,
                list@ + self@.attackers_from(pid, (n - k) as nat) == self@.attackers_from(
                    main,
                    n as nat,
                ),
            decreases n - k,
        {
            let ghost before = list@;
            let ghost rest = self@.attackers_from(pid.spec_next(n), (n - k - 1) as nat);
            if pid != self.defender && self.is_player_active(pid) {
                list.push(pid);
                assert(list@ + rest == before + (seq![pid] + rest));
            }
            pid = pid.next(n);
            k = k + 1;
        }
        assert(list@ + Seq::<PlayerId>::empty() == list@);
        list
    }

    /// Who would defend if the defender redirected the attack.
    pub(crate) fn potential_reflect_defender(&self) -> (target: Option<PlayerId>)
        requires
            self@.wf(),
        ensures
            target == self@.reflect_target(),
    {
        if self.attackers.len() > 1 {
            let candidate = self.attackers[1];
            if self.is_player_active(candidate) {
                return Some(candidate);
            }
        }
        let n = self.num_players();
        let ghost ok = self@.active_attacker_seat();
        let mut pid = self.defender.next(n);
        let ghost start = pid.spec_index() as int;
        let mut k: usize = 0;
        while k < n
            invariant
                n == self.hands.len(),
                1 <= n <= 6,
                ok == self@.active_attacker_seat(),
                !(self.attackers.len() > 1 && self@.is_active(self.attackers@[1])),
                start == self.defender.spec_next(n).spec_index(),
                k <= n,
                pid.spec_index() < n,
                seek_seat(start, n as nat, n as int, ok) == seek_seat(
                    pid.spec_index() as int,
                    (n - k) as nat,
                    n as int,
                    ok,
                ),
            decreases n - k,
        {
            if pid != self.defender && self.is_player_active(pid) {
                assert(PlayerId::spec_from_index(pid.spec_index()) == pid);
                assert(ok(pid.spec_index() as int));
                return Some(pid);
            }
            assert(!ok(pid.spec_index() as int));
            pid = pid.next(n);
            k = k + 1;
        }
        None
    }

    /// Whether the position is well formed, so that moves can be listed and
    /// applied: two to six hands, no more attackers than players, every
    /// player named at the table, and every played card face up.
    pub fn is_well_formed(&self) -> (b: bool)
        ensures
            b == self@.wf(),
    {
        let n = self.hands.len();
        if n < 2 || n > 6 || self.attackers.len() > n || self.attacker.index() >= n
            || self.defender.index() >= n || self.current_attacker_idx == usize::MAX {
            return false;
        }
        let mut i: usize = 0;
        while i < self.attackers.len()
            invariant
                i <= self.attackers.len(),
                n == self.hands.len(),
                forall|j: int| 0 <= j < i ==> (#[trigger] self.attackers@[j]).spec_index() < n,
            decreases self.attackers.len() - i,
        {
            if self.attackers[i].index() >= n {
                return false;
            }
            i = i + 1;
        }
        let mut i: usize = 0;
        while i < self.table.len()
            invariant
                i <= self.table.len(),
                forall|j: int| 0 <= j < i ==> (#[trigger] self.table@[j]).attack is Public,
                forall|j: int|
                    0 <= j < i ==> ((#[trigger] self.table@[j]).defense matches Some(d)
                        ==> d is Public),
            decreases self.table.len() - i,
        {
            let pile = self.table[i];
            if !pile.attack.is_public() {
                return false;
            }
            match pile.defense {
                Some(d) => {
                    if !d.is_public() {
                        return false;
                    }
                },
                None => {},
            }
            i = i + 1;
        }
        let mut i: usize = 0;
        while i < self.discard.len()
            invariant
                i <= self.discard.len(),
                forall|j: int| 0 <= j < i ==> (#[trigger] self.discard@[j]) is Public,
            decreases self.discard.len() - i,
        {
            if !self.discard[i].is_public() {
                return false;
            }
            i = i + 1;
        }
        true
    }
}

} // verus!
