//! Setting up a game: dealing from a shuffled deck, or entering a game by hand.

use crate::card::{deck_cards, full_deck, Card, Rank, Suit};
use crate::model::{EngineError, GameConfig, Phase};
use crate::player::{lemma_seat_after, seats_between, PlayerId};
use crate::random::{seeded_rng, shuffle};
use crate::rules::{listed, GameView};
use crate::seqs::{first_where, lemma_first_where_at, lemma_first_where_none};
use crate::state::GameState;
use vstd::prelude::*;
use vstd::seq_lib::to_multiset_contains;

verus! {

/// Index of the lowest trump among `cards`: the first card of the trump
/// suit that no other card of the trump suit undercuts.
pub open spec fn lowest_trump_index(cards: Seq<Card>, trump: Suit) -> Option<int>
    decreases cards.len(),
{
    if cards.len() == 0 {
        None
    } else {
        let last = cards.last();
        match lowest_trump_index(cards.drop_last(), trump) {
            None => if last.spec_suit() == trump {
                Some(cards.len() - 1)
            } else {
                None
            },
            Some(i) => if last.spec_suit() == trump && last.spec_rank().spec_value()
                < cards[i].spec_rank().spec_value() {
                Some(cards.len() - 1)
            } else {
                Some(i)
            },
        }
    }
}

/// The hand with its lowest trump turned face up, as announced at the start.
pub open spec fn lowest_trump_shown(cards: Seq<Card>, trump: Suit) -> Seq<Card> {
    match lowest_trump_index(cards, trump) {
        Some(i) => cards.update(i, cards[i].spec_as_public()),
        None => cards,
    }
}

/// The lowest trump is a card of the trump suit that no trump of the hand
/// undercuts, and the first such card; there is none only where the hand
/// holds no trump.
pub proof fn lemma_lowest_trump_index(cards: Seq<Card>, trump: Suit)
    ensures
        match lowest_trump_index(cards, trump) {
            Some(i) => 0 <= i < cards.len() && cards[i].spec_suit() == trump && (forall|j: int|
                0 <= j < cards.len() && (#[trigger] cards[j]).spec_suit() == trump ==> {
                    let lowest = cards[i].spec_rank().spec_value();
                    let other = cards[j].spec_rank().spec_value();
                    lowest < other || (lowest == other && i <= j)
                }),
            None => forall|j: int|
                0 <= j < cards.len() ==> (#[trigger] cards[j]).spec_suit() != trump,
        },
    decreases cards.len(),
{
    if cards.len() > 0 {
        let rest = cards.drop_last();
        lemma_lowest_trump_index(rest, trump);
        assert(forall|j: int| 0 <= j < rest.len() ==> rest[j] == cards[j]);
        assert(cards.last() == cards[cards.len() - 1]);
        match lowest_trump_index(cards, trump) {
            Some(i) => {
                assert forall|j: int|
                    0 <= j < cards.len() && (#[trigger] cards[j]).spec_suit() == trump implies {
                    let lowest = cards[i].spec_rank().spec_value();
                    let other = cards[j].spec_rank().spec_value();
                    lowest < other || (lowest == other && i <= j)
                } by {
                    if j < rest.len() {
                        assert(rest[j].spec_suit() == trump);
                    }
                }
            },
            None => {
                assert forall|j: int| 0 <= j < cards.len() implies (#[trigger] cards[j]).spec_suit()
                    != trump by {
                    if j < rest.len() {
                        assert(rest[j].spec_suit() != trump);
                    }
                }
            },
        }
    }
}

/// Who holds the lowest trump of all, and its rank: the first seat whose
/// lowest trump no other seat undercuts. `None` when nobody holds a trump.
pub open spec fn lowest_trump_holder(hands: Seq<Seq<Card>>, trump: Suit) -> Option<(int, Rank)>
    decreases hands.len(),
{
    if hands.len() == 0 {
        None
    } else {
        let before = lowest_trump_holder(hands.drop_last(), trump);
        match lowest_trump_index(hands.last(), trump) {
            None => before,
            Some(i) => {
                let rank = hands.last()[i].spec_rank();
                match before {
                    None => Some((hands.len() - 1, rank)),
                    Some((p, r)) => if rank.spec_value() < r.spec_value() {
                        Some((hands.len() - 1, rank))
                    } else {
                        before
                    },
                }
            },
        }
    }
}

/// The seats from `pid` on, over `steps` seats of a table of `n`, without `defender`.
pub open spec fn seats_except(pid: PlayerId, defender: PlayerId, n: usize, steps: nat) -> Seq<
    PlayerId,
>
    decreases steps,
{
    if steps == 0 {
        Seq::empty()
    } else {
        let rest = seats_except(pid.spec_next(n), defender, n, (steps - 1) as nat);
        if pid != defender {
            seq![pid] + rest
        } else {
            rest
        }
    }
}

/// The seats gathered at the start sit at the table and leave out the
/// defender; there are no more of them than seats looked at; and every other
/// seat within reach is among them.
pub proof fn lemma_seats_except(pid: PlayerId, defender: PlayerId, n: usize, steps: nat)
    requires
        1 <= n <= 6,
        pid.spec_index() < n,
    ensures
        seats_except(pid, defender, n, steps).len() <= steps,
        forall|i: int|
            0 <= i < seats_except(pid, defender, n, steps).len() ==> {
                let a = #[trigger] seats_except(pid, defender, n, steps)[i];
                a.spec_index() < n && a != defender
            },
        forall|p: int|
            0 <= p < n && seats_between(pid.spec_index() as int, p, n as int) < steps && p
                != defender.spec_index() ==> #[trigger] listed(
                seats_except(pid, defender, n, steps),
                p,
            ),
    decreases steps,
{
    if steps > 0 {
        let next = pid.spec_next(n);
        lemma_seat_after(pid.spec_index() as int, n as int);
        lemma_seats_except(next, defender, n, (steps - 1) as nat);
        let rest = seats_except(next, defender, n, (steps - 1) as nat);
        let all = seats_except(pid, defender, n, steps);
        let takes = pid != defender;
        assert forall|p: int|
            0 <= p < n && seats_between(pid.spec_index() as int, p, n as int) < steps && p
                != defender.spec_index() implies #[trigger] listed(all, p) by {
            if p == pid.spec_index() {
                assert(all[0] == pid);
            } else {
                assert(seats_between(next.spec_index() as int, p, n as int) < steps - 1);
                assert(listed(rest, p));
                let i = choose|i: int| 0 <= i < rest.len() && (#[trigger] rest[i]).spec_index() == p;
                if takes {
                    assert(all[i + 1] == rest[i]);
                } else {
                    assert(all[i] == rest[i]);
                }
            }
        }
        assert forall|i: int| 0 <= i < all.len() implies {
            let a = #[trigger] all[i];
            a.spec_index() < n && a != defender
        } by {
            if takes {
                if i > 0 {
                    assert(all[i] == rest[i - 1]);
                }
            } else {
                assert(all[i] == rest[i]);
            }
        }
    }
}

/// The position at the start of a game with the given trump, hands and
/// stock, led by `attacker`: the next seat defends, and everyone else attacks.
pub open spec fn opening(
    trump: Suit,
    attacker: PlayerId,
    hands: Seq<Seq<Card>>,
    stock: Seq<Card>,
    config: GameConfig,
) -> GameView {
    let defender = attacker.spec_next(config.num_players);
    GameView {
        trump,
        attacker,
        defender,
        phase: Phase::Attacking,
        attackers: seats_except(attacker, defender, config.num_players, config.num_players as nat),
        current_attacker_idx: 0,
        last_played_attacker: attacker,
        throw_start_idx: 0,
        hands,
        stock,
        table: Seq::empty(),
        discard: Seq::empty(),
        reflected_trumps: Seq::empty(),
        config,
    }
}

/// An opening position with a hand of cards for each of two to six players,
/// led by a player at the table, is well formed and one that play can start from.
pub proof fn lemma_opening(
    trump: Suit,
    attacker: PlayerId,
    hands: Seq<Seq<Card>>,
    stock: Seq<Card>,
    config: GameConfig,
)
    requires
        2 <= config.num_players <= 6,
        hands.len() == config.num_players,
        attacker.spec_index() < config.num_players,
        forall|h: int| 0 <= h < hands.len() ==> (#[trigger] hands[h]).len() > 0,
    ensures
        opening(trump, attacker, hands, stock, config).wf(),
        opening(trump, attacker, hands, stock, config).coherent(),
{
    let n = config.num_players;
    let defender = attacker.spec_next(n);
    lemma_seat_after(attacker.spec_index() as int, n as int);
    lemma_seats_except(attacker, defender, n, n as nat);
    let v = opening(trump, attacker, hands, stock, config);
    assert forall|p: int| 0 <= p < v.hands.len() && p != v.defender.spec_index() implies #[trigger] v.attacks(
        p,
    ) by {
        assert(listed(seats_except(attacker, defender, n, n as nat), p));
    }
}

/// The hand of an opponent in a game entered by hand: the declared lowest
/// trump, face up, if one was declared, and unknown cards up to six.
pub open spec fn declared_hand(trump: Suit, declared: Option<Rank>) -> Seq<Card> {
    match declared {
        Some(rank) => seq![Card::Public { suit: trump, rank }] + Seq::new(5, |i: int| Card::Unknown),
        None => Seq::new(6, |i: int| Card::Unknown),
    }
}

/// The test "this declaration is about player `pid`".
pub open spec fn declares_for(pid: PlayerId) -> spec_fn((PlayerId, Option<Rank>)) -> bool {
    |entry: (PlayerId, Option<Rank>)| entry.0 == pid
}

/// The lowest trump declared for `pid`: that of the first declaration about `pid`.
pub open spec fn declared_rank(declared: Seq<(PlayerId, Option<Rank>)>, pid: PlayerId) -> Option<
    Rank,
> {
    match first_where(declared, declares_for(pid)) {
        Some(i) => declared[i].1,
        None => None,
    }
}

/// The stock of a game entered by hand: the trump card, face up, under
/// unknown cards, `size` cards in all and never fewer than the trump card.
pub open spec fn manual_stock(trump_card: Card, size: nat) -> Seq<Card> {
    seq![trump_card.spec_as_public()] + Seq::new(
        if size >= 1 {
            (size - 1) as nat
        } else {
            0
        },
        |i: int| Card::Unknown,
    )
}

/// The position of a game entered by hand.
pub open spec fn manual_game(
    trump_card: Card,
    player_hand: Seq<Card>,
    starting_player: u8,
    declared: Seq<(PlayerId, Option<Rank>)>,
    config: GameConfig,
) -> GameView {
    let trump = trump_card.spec_suit();
    let own = lowest_trump_shown(player_hand.map_values(|c: Card| c.spec_as_private()), trump);
    opening(
        trump,
        PlayerId::spec_from_index(starting_player as usize),
        Seq::new(
            config.num_players as nat,
            |h: int|
                if h == 0 {
                    own
                } else {
                    declared_hand(
                        trump,
                        declared_rank(declared, PlayerId::spec_from_index(h as usize)),
                    )
                },
        ),
        manual_stock(trump_card, (config.deck_size - config.num_players * 6) as nat),
        config,
    )
}

/// The position dealt from the shuffled `deck`: the first card is turned
/// face up and names the trump; each player in turn takes the last six
/// cards and shows the lowest trump among them; the rest is the stock; and
/// the holder of the lowest trump of all leads, seat 0 if there is none.
pub open spec fn dealt_game(deck: Seq<Card>, config: GameConfig) -> GameView {
    let trump = deck[0].spec_suit();
    let marked = deck.update(0, deck[0].spec_as_public());
    let taken = taken_hands(marked, config.num_players as nat);
    opening(
        trump,
        match lowest_trump_holder(taken, trump) {
            Some((p, _)) => PlayerId::spec_from_index(p as usize),
            None => PlayerId::P0,
        },
        Seq::new(taken.len(), |h: int| lowest_trump_shown(taken[h], trump)),
        marked.take(deck.len() - 6 * config.num_players),
        config,
    )
}

/// The cards that each of `n` players takes from `deck`: the first player
/// the last six, the next player the six before those, and so on.
pub open spec fn taken_hands(deck: Seq<Card>, n: nat) -> Seq<Seq<Card>> {
    Seq::new(n, |h: int| deck.subrange(deck.len() - 6 * (h + 1), deck.len() - 6 * h))
}

/// Index of the lowest trump among the cards.
fn find_lowest_trump(cards: &Vec<Card>, trump: Suit) -> (found: Option<usize>)
    requires
        forall|i: int| 0 <= i < cards@.len() ==> (#[trigger] cards@[i]).known(),
    ensures
        match found {
            Some(i) => lowest_trump_index(cards@, trump) == Some(i as int) && i < cards.len(),
            None => lowest_trump_index(cards@, trump) is None,
        },
{
    let mut found: Option<usize> = None;
    let mut i: usize = 0;
    while i < cards.len()
        invariant
            i <= cards.len(),
            forall|i: int| 0 <= i < cards@.len() ==> (#[trigger] cards@[i]).known(),
            match found {
                Some(k) => lowest_trump_index(cards@.take(i as int), trump) == Some(k as int) && k
                    < i,
                None => lowest_trump_index(cards@.take(i as int), trump) is None,
            },
        decreases cards.len() - i,
    {
        proof {
            assert(cards@.take(i as int + 1).drop_last() == cards@.take(i as int));
        }
        let c = cards[i];
        if c.suit() == trump {
            let better = match found {
                Some(k) => c.rank().value() < cards[k].rank().value(),
                None => true,
            };
            if better {
                found = Some(i);
            }
        }
        i = i + 1;
    }
    assert(cards@.take(i as int) == cards@);
    found
}

/// Turns the lowest trump of the hand face up and gives its rank.
fn show_lowest_trump(hand: &mut Vec<Card>, trump: Suit) -> (shown: Option<Rank>)
    requires
        forall|i: int| 0 <= i < old(hand)@.len() ==> (#[trigger] old(hand)@[i]).known(),
    ensures
        final(hand)@ == lowest_trump_shown(old(hand)@, trump),
        match lowest_trump_index(old(hand)@, trump) {
            Some(i) => shown == Some(old(hand)@[i].spec_rank()),
            None => shown is None,
        },
{
    match find_lowest_trump(hand, trump) {
        Some(i) => {
            let rank = hand[i].rank();
            let card = hand[i].as_public();
            hand.set(i, card);
            Some(rank)
        },
        None => None,
    }
}

/// The attackers at the start of a game: everyone but the defender, from
/// the leader round the table.
fn initial_attackers(attacker: PlayerId, defender: PlayerId, num_players: usize) -> (list: Vec<
    PlayerId,
>)
    requires
        num_players > 0,
    ensures
        list@ == seats_except(attacker, defender, num_players, num_players as nat),
{
    let mut list: Vec<PlayerId> = Vec::new();
    let mut pid = attacker;
    let mut k: usize = 0;
    while k < num_players
        invariant
            num_players > 0,
            k <= num_players,
            list@ + seats_except(pid, defender, num_players, (num_players - k) as nat)
                == seats_except(attacker, defender, num_players, num_players as nat),
        decreases num_players - k,
    {
        let ghost before = list@;
        let ghost rest = seats_except(
            pid.spec_next(num_players),
            defender,
            num_players,
            (num_players - k - 1) as nat,
        );
        if pid != defender {
            list.push(pid);
            assert(list@ + rest == before + (seq![pid] + rest));
        }
        pid = pid.next(num_players);
        k = k + 1;
    }
    assert(list@ + Seq::<PlayerId>::empty() == list@);
    list
}

/// The opening position with the given trump, leader, hands and stock.
fn open_game(
    trump: Suit,
    attacker: PlayerId,
    hands: Vec<Vec<Card>>,
    stock: Vec<Card>,
    config: GameConfig,
) -> (state: GameState)
    requires
        config.num_players > 0,
    ensures
        state@ == opening(trump, attacker, crate::player::hands_view(hands@), stock@, config),
{
    let defender = attacker.next(config.num_players);
    let attackers = initial_attackers(attacker, defender, config.num_players);
    let state = GameState {
        trump,
        attacker,
        defender,
        phase: Phase::Attacking,
        attackers,
        current_attacker_idx: 0,
        last_played_attacker: attacker,
        throw_start_idx: 0,
        hands,
        stock,
        table: Vec::new(),
        discard: Vec::new(),
        reflected_trumps: Vec::new(),
        config,
    };
    assert(state@ =~= opening(
        trump,
        attacker,
        crate::player::hands_view(hands@),
        stock@,
        config,
    ));
    state
}

/// The hand of an opponent in a game entered by hand.
fn declare_hand(trump: Suit, declared: Option<Rank>) -> (hand: Vec<Card>)
    ensures
        hand@ == declared_hand(trump, declared),
{
    let mut hand: Vec<Card> = Vec::new();
    match declared {
        Some(rank) => {
            hand.push(Card::public(trump, rank));
        },
        None => {},
    }
    let ghost first = hand@;
    while hand.len() < 6
        invariant
            first.len() <= hand@.len() <= 6,
            first.len() <= 1,
            hand@ == first + Seq::new((hand@.len() - first.len()) as nat, |i: int| Card::Unknown),
        decreases 6 - hand.len(),
    {
        hand.push(Card::Unknown);
    }
    assert(hand@ =~= declared_hand(trump, declared));
    hand
}

/// The lowest trump declared for `pid`.
fn find_declared(declared: &Vec<(PlayerId, Option<Rank>)>, pid: PlayerId) -> (rank: Option<Rank>)
    ensures
        rank == declared_rank(declared@, pid),
{
    let mut i: usize = 0;
    while i < declared.len()
        invariant
            i <= declared.len(),
            forall|j: int| 0 <= j < i ==> !(declares_for(pid))(#[trigger] declared@[j]),
        decreases declared.len() - i,
    {
        if declared[i].0 == pid {
            proof {
                lemma_first_where_at(declared@, declares_for(pid), i as int);
            }
            return declared[i].1;
        }
        i = i + 1;
    }
    proof {
        lemma_first_where_none(declared@, declares_for(pid));
    }
    None
}

impl GameState {
    /// Deals a game from a deck that has been shuffled: the first card names
    /// the trump and stays at the bottom of the stock, face up; each player
    /// in turn takes the last six cards and shows the lowest trump among
    /// them; the holder of the lowest trump of all leads.
    pub fn deal(deck: Vec<Card>, config: GameConfig) -> (state: GameState)
        requires
            2 <= config.num_players <= 6,
            6 * config.num_players <= deck@.len(),
            forall|i: int| 0 <= i < deck@.len() ==> (#[trigger] deck@[i]).known(),
        ensures
            state@ == dealt_game(deck@, config),
            state@.wf(),
            state@.coherent(),
    {
        let mut deck = deck;
        let ghost shuffled = deck@;
        let first = deck[0].as_public();
        deck.set(0, first);
        let trump = first.suit();
        let ghost marked = deck@;
        let ghost taken = taken_hands(marked, config.num_players as nat);
        let mut hands: Vec<Vec<Card>> = Vec::new();
        let mut lowest: Option<(usize, Rank)> = None;
        let mut k: usize = 0;
        while k < config.num_players
            invariant
                2 <= config.num_players <= 6,
                6 * config.num_players <= marked.len(),
                k <= config.num_players,
                marked.len() == shuffled.len(),
                forall|i: int| 0 <= i < marked.len() ==> (#[trigger] marked[i]).known(),
                taken == taken_hands(marked, config.num_players as nat),
                deck@ == marked.take(marked.len() - 6 * k),
                hands@.len() == k,
                forall|h: int|
                    0 <= h < k ==> (#[trigger] hands@[h])@ == lowest_trump_shown(taken[h], trump),
                forall|h: int| 0 <= h < k ==> (#[trigger] hands@[h])@.len() == 6,
                match lowest {
                    Some((p, r)) => lowest_trump_holder(taken.take(k as int), trump) == Some(
                        (p as int, r),
                    ) && p < k,
                    None => lowest_trump_holder(taken.take(k as int), trump) is None,
                },
            decreases config.num_players - k,
        {
            let at = deck.len() - 6;
            let mut hand = deck.split_off(at);
            proof {
                assert(hand@ =~= taken[k as int]);
                assert(deck@ =~= marked.take(marked.len() - 6 * (k + 1)));
                assert(taken.take(k as int + 1).drop_last() == taken.take(k as int));
                assert(taken.take(k as int + 1).last() == taken[k as int]);
                lemma_lowest_trump_index(hand@, trump);
            }
            match show_lowest_trump(&mut hand, trump) {
                Some(rank) => {
                    let better = match lowest {
                        Some((_, r)) => rank.value() < r.value(),
                        None => true,
                    };
                    if better {
                        lowest = Some((k, rank));
                    }
                },
                None => {},
            }
            hands.push(hand);
            k = k + 1;
        }
        let attacker = PlayerId::from_index(
            match lowest {
                Some((p, _)) => p,
                None => 0,
            },
        );
        proof {
            assert(taken.take(k as int) == taken);
            let shown = Seq::new(taken.len(), |h: int| lowest_trump_shown(taken[h], trump));
            assert(crate::player::hands_view(hands@) =~= shown);
            lemma_opening(trump, attacker, shown, deck@, config);
        }
        open_game(trump, attacker, hands, deck, config)
    }

    /// Creates a game with a deck shuffled from `seed`. All cards are known
    /// to the engine and private to their holders until played.
    pub fn new_computer_game(seed: u64, config: GameConfig) -> (state: GameState)
        requires
            2 <= config.num_players <= 6,
            6 * config.num_players <= deck_cards(config.deck_size).len(),
        ensures
            exists|deck: Seq<Card>|
                deck.to_multiset() == deck_cards(config.deck_size).to_multiset()
                    && #[trigger] dealt_game(deck, config) == state@,
            state@.wf(),
            state@.coherent(),
    {
        let mut rng = seeded_rng(seed);
        let mut deck = full_deck(config.deck_size);
        shuffle(&mut deck, &mut rng);
        proof {
            let fresh = deck_cards(config.deck_size);
            assert forall|i: int| 0 <= i < deck@.len() implies (#[trigger] deck@[i]).known() by {
                assert(deck@.contains(deck@[i]));
                to_multiset_contains(deck@, deck@[i]);
                to_multiset_contains(fresh, deck@[i]);
                assert(fresh.contains(deck@[i]));
                let j = choose|j: int| 0 <= j < fresh.len() && fresh[j] == deck@[i];
                crate::card::lemma_deck_cards_known(config.deck_size, j);
            }
        }
        let ghost shuffled = deck@;
        let state = GameState::deal(deck, config);
        assert(dealt_game(shuffled, config) == state@);
        state
    }

    /// Creates a game entered by hand, in which only the hand of the player
    /// at seat 0 is known: these cards are private, and the cards of the
    /// opponents are unknown but for the lowest trumps they declared.
    pub fn new_manual_game(
        trump_card: Card,
        player_hand: Vec<Card>,
        starting_player: u8,
        opponent_lowest_trumps: Vec<(PlayerId, Option<Rank>)>,
        config: GameConfig,
    ) -> (res: Result<GameState, EngineError>)
        requires
            player_hand@.len() == 6 ==> {
                &&& trump_card.known()
                &&& forall|i: int| 0 <= i < 6 ==> (#[trigger] player_hand@[i]).known()
                &&& 2 <= config.num_players <= 6
                &&& 6 * config.num_players <= config.deck_size
            },
        ensures
            player_hand@.len() != 6 ==> (res matches Err(e) && e.reason()
                == "manual start requires exactly 6 cards in your hand"@),
            player_hand@.len() == 6 ==> (res matches Ok(state) && state@ == manual_game(
                trump_card,
                player_hand@,
                starting_player,
                opponent_lowest_trumps@,
                config,
            ) && (starting_player < config.num_players ==> state@.wf() && state@.coherent())),
    {
        if player_hand.len() != 6 {
            return Err(
                EngineError::IllegalMove(
                    "manual start requires exactly 6 cards in your hand".to_owned(),
                ),
            );
        }
        let trump = trump_card.suit();
        let mut own: Vec<Card> = Vec::new();
        let mut i: usize = 0;
        while i < 6
            invariant
                i <= 6,
                player_hand@.len() == 6,
                forall|j: int| 0 <= j < 6 ==> (#[trigger] player_hand@[j]).known(),
                own@.len() == i,
                forall|j: int| 0 <= j < i ==> #[trigger] own@[j] == player_hand@[j].spec_as_private(),
            decreases 6 - i,
        {
            own.push(player_hand[i].as_private());
            i = i + 1;
        }
        assert(own@ =~= player_hand@.map_values(|c: Card| c.spec_as_private()));
        show_lowest_trump(&mut own, trump);
        let ghost target = manual_game(
            trump_card,
            player_hand@,
            starting_player,
            opponent_lowest_trumps@,
            config,
        );
        proof {
            lemma_lowest_trump_index(player_hand@.map_values(|c: Card| c.spec_as_private()), trump);
        }
        let mut hands: Vec<Vec<Card>> = Vec::new();
        hands.push(own);
        let mut h: usize = 1;
        while h < config.num_players
            invariant
                2 <= config.num_players <= 6,
                1 <= h <= config.num_players,
                hands@.len() == h,
                target == manual_game(
                    trump_card,
                    player_hand@,
                    starting_player,
                    opponent_lowest_trumps@,
                    config,
                ),
                trump == trump_card.spec_suit(),
                forall|j: int| 0 <= j < h ==> (#[trigger] hands@[j])@ == target.hands[j],
            decreases config.num_players - h,
        {
            let pid = PlayerId::from_index(h);
            let rank = find_declared(&opponent_lowest_trumps, pid);
            hands.push(declare_hand(trump, rank));
            h = h + 1;
        }
        let stock_size = config.deck_size - config.num_players * 6;
        let mut stock: Vec<Card> = Vec::new();
        stock.push(trump_card.as_public());
        let mut k: usize = 1;
        while k < stock_size
            invariant
                1 <= k,
                k <= stock_size || k == 1,
                stock@ == seq![trump_card.spec_as_public()] + Seq::new(
                    (k - 1) as nat,
                    |i: int| Card::Unknown,
                ),
            decreases stock_size - k,
        {
            stock.push(Card::Unknown);
            k = k + 1;
        }
        let attacker = PlayerId::from_index(starting_player as usize);
        proof {
            assert(stock@.len() == manual_stock(trump_card, stock_size as nat).len());
            assert(stock@ =~= manual_stock(trump_card, stock_size as nat));
            assert(crate::player::hands_view(hands@) =~= target.hands);
            if starting_player < config.num_players {
                lemma_opening(trump, attacker, target.hands, stock@, config);
            }
        }
        Ok(open_game(trump, attacker, hands, stock, config))
    }
}

} // verus!
