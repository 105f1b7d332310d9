use durak_core::{
    full_deck, shuffle, Card, EngineError, GameConfig, GameState, Phase, PlayerId, Rank, Suit,
};
use rand::rngs::StdRng;
use rand::SeedableRng;

fn config(deck_size: usize, num_players: usize) -> GameConfig {
    GameConfig { deck_size, num_players, trump_reflecting: false, reflecting: false }
}

fn all_cards(state: &GameState) -> Vec<Card> {
    let mut cards: Vec<Card> = Vec::new();
    for hand in &state.hands {
        cards.extend(hand.iter().copied());
    }
    cards.extend(state.stock.iter().copied());
    for pile in &state.table {
        cards.push(pile.attack);
        if let Some(d) = pile.defense {
            cards.push(d);
        }
    }
    cards.extend(state.discard.iter().copied());
    cards
}

#[test]
fn default_config_is_two_players_thirty_six_cards() {
    let c = GameConfig::default();
    assert_eq!(c, config(36, 2));
}

#[test]
fn computer_game_deals_six_cards_each() {
    for n in 2..=6usize {
        let state = GameState::new_computer_game(7, config(36, n));
        assert_eq!(state.num_players(), n);
        for h in 0..n {
            assert_eq!(state.hand_size(PlayerId::from_index(h)), 6);
        }
        assert_eq!(state.stock.len(), 36 - 6 * n);
        assert_eq!(state.phase, Phase::Attacking);
        assert!(state.table.is_empty() && state.discard.is_empty());
        assert_eq!(state.current_attacker_idx, 0);
    }
}

#[test]
fn computer_game_holds_every_card_of_the_deck_once() {
    for size in [32usize, 36, 52] {
        let state = GameState::new_computer_game(99, config(size, 3));
        let cards = all_cards(&state);
        assert_eq!(cards.len(), size);
        for wanted in full_deck(size) {
            assert_eq!(cards.iter().filter(|c| c.matches(&wanted)).count(), 1);
        }
    }
}

#[test]
fn computer_game_shows_the_trump_card_at_the_bottom_of_the_stock() {
    let state = GameState::new_computer_game(5, config(36, 2));
    assert!(state.stock[0].is_public());
    assert_eq!(state.stock[0].suit(), state.trump);
    assert!(state.stock[1..].iter().all(|c| c.is_private()));
}

#[test]
fn computer_game_shows_each_lowest_trump_and_starts_with_its_holder() {
    for seed in 0..40u64 {
        let state = GameState::new_computer_game(seed, config(36, 3));
        let mut best: Option<(usize, u8)> = None;
        for (h, hand) in state.hands.iter().enumerate() {
            let lowest = hand
                .iter()
                .filter(|c| c.suit() == state.trump)
                .map(|c| c.rank().value())
                .min();
            for c in hand {
                let is_lowest = c.suit() == state.trump && Some(c.rank().value()) == lowest;
                assert_eq!(c.is_public(), is_lowest);
            }
            if let Some(v) = lowest {
                if best.map_or(true, |(_, b)| v < b) {
                    best = Some((h, v));
                }
            }
        }
        let starter = PlayerId::from_index(best.map_or(0, |(h, _)| h));
        assert_eq!(state.attacker, starter);
        assert_eq!(state.defender, starter.next(3));
        assert_eq!(state.last_played_attacker, starter);
        assert_eq!(state.attackers, vec![starter, starter.next(3).next(3)]);
    }
}

#[test]
fn computer_game_is_the_same_for_the_same_seed() {
    let a = GameState::new_computer_game(1234, config(36, 4));
    let b = GameState::new_computer_game(1234, config(36, 4));
    assert_eq!(a, b);
}

#[test]
fn computer_game_differs_between_seeds() {
    let a = GameState::new_computer_game(1, config(36, 2));
    let differs = (2..12u64).any(|s| GameState::new_computer_game(s, config(36, 2)) != a);
    assert!(differs);
}

#[test]
fn shuffle_keeps_the_cards_and_reorders_them() {
    let fresh = full_deck(36);
    let mut deck = fresh.clone();
    let mut rng = StdRng::seed_from_u64(42);
    shuffle(&mut deck, &mut rng);
    assert_eq!(deck.len(), 36);
    for c in &fresh {
        assert_eq!(deck.iter().filter(|d| *d == c).count(), 1);
    }
    assert_ne!(deck, fresh);
}

#[test]
fn deal_takes_hands_from_the_end_of_the_deck() {
    let deck = full_deck(36);
    let state = GameState::deal(deck.clone(), config(36, 2));
    assert_eq!(state.trump, Suit::Clubs);
    assert_eq!(state.stock[0], Card::public(Suit::Clubs, Rank::Six));
    assert_eq!(state.stock.len(), 24);
    assert_eq!(state.stock[1..], deck[1..24]);
    assert_eq!(state.hands[0], deck[30..36].to_vec());
    assert_eq!(state.hands[1], deck[24..30].to_vec());
    assert_eq!(state.attacker, PlayerId::P0);
    assert_eq!(state.defender, PlayerId::P1);
}

#[test]
fn deal_lets_the_lowest_trump_lead_and_the_first_seat_win_ties() {
    let mut deck = full_deck(36);
    deck.swap(0, 35); // spades ace first: spades are trumps
    deck.swap(24, 27); // hand of seat 1 gets the six of spades
    let state = GameState::deal(deck, config(36, 2));
    assert_eq!(state.trump, Suit::Spades);
    assert_eq!(state.attacker, PlayerId::P1);
    assert_eq!(state.defender, PlayerId::P0);
    assert_eq!(state.attackers, vec![PlayerId::P1]);
    let shown: Vec<&Card> = state.hands[1].iter().filter(|c| c.is_public()).collect();
    assert_eq!(shown, vec![&Card::public(Suit::Spades, Rank::Six)]);
}

fn six_cards() -> Vec<Card> {
    vec![
        Card::public(Suit::Hearts, Rank::Ten),
        Card::private(Suit::Clubs, Rank::Six),
        Card::private(Suit::Hearts, Rank::Seven),
        Card::private(Suit::Spades, Rank::Ace),
        Card::private(Suit::Hearts, Rank::Jack),
        Card::private(Suit::Diamonds, Rank::Nine),
    ]
}

#[test]
fn manual_game_needs_exactly_six_cards() {
    let mut hand = six_cards();
    hand.pop();
    let res = GameState::new_manual_game(
        Card::public(Suit::Hearts, Rank::Six),
        hand,
        0,
        vec![],
        config(36, 2),
    );
    match res {
        Err(EngineError::IllegalMove(reason)) => {
            assert_eq!(reason, "manual start requires exactly 6 cards in your hand");
        }
        Ok(_) => panic!("a hand of five cards was accepted"),
    }
    let mut hand = six_cards();
    hand.push(Card::private(Suit::Diamonds, Rank::Ten));
    assert!(GameState::new_manual_game(
        Card::private(Suit::Hearts, Rank::Six),
        hand,
        0,
        vec![],
        config(36, 2)
    )
    .is_err());
}

#[test]
fn manual_game_knows_one_hand_only() {
    let state = GameState::new_manual_game(
        Card::private(Suit::Hearts, Rank::Six),
        six_cards(),
        1,
        vec![(PlayerId::P2, Some(Rank::Eight)), (PlayerId::P1, None), (PlayerId::P2, Some(Rank::Nine))],
        config(36, 3),
    )
    .unwrap();
    assert_eq!(state.trump, Suit::Hearts);
    assert_eq!(
        state.hands[0],
        vec![
            Card::private(Suit::Hearts, Rank::Ten),
            Card::private(Suit::Clubs, Rank::Six),
            Card::public(Suit::Hearts, Rank::Seven),
            Card::private(Suit::Spades, Rank::Ace),
            Card::private(Suit::Hearts, Rank::Jack),
            Card::private(Suit::Diamonds, Rank::Nine),
        ]
    );
    assert_eq!(state.hands[1], vec![Card::Unknown; 6]);
    let mut declared = vec![Card::Unknown; 6];
    declared[0] = Card::public(Suit::Hearts, Rank::Eight);
    assert_eq!(state.hands[2], declared);
    assert_eq!(state.stock.len(), 18);
    assert_eq!(state.stock[0], Card::public(Suit::Hearts, Rank::Six));
    assert!(state.stock[1..].iter().all(|c| c.is_unknown()));
    assert_eq!(state.attacker, PlayerId::P1);
    assert_eq!(state.defender, PlayerId::P2);
    assert_eq!(state.attackers, vec![PlayerId::P1, PlayerId::P0]);
    assert_eq!(state.phase, Phase::Attacking);
    assert_eq!(state.actor_to_move(), PlayerId::P1);
}

#[test]
fn manual_game_with_no_cards_left_for_the_stock_keeps_the_trump_card() {
    let state = GameState::new_manual_game(
        Card::public(Suit::Clubs, Rank::Six),
        six_cards(),
        0,
        vec![],
        config(36, 6),
    )
    .unwrap();
    assert_eq!(state.stock, vec![Card::public(Suit::Clubs, Rank::Six)]);
    assert_eq!(state.hands.len(), 6);
}

#[test]
fn engine_error_reads_as_an_illegal_move() {
    let e = EngineError::IllegalMove("bad pile index".to_string());
    assert_eq!(e.to_string(), "illegal move: bad pile index");
}

#[test]
fn shuffle_leaves_a_single_card_in_place_and_exchanges_from_the_end() {
    let mut one = vec![Card::private(Suit::Clubs, Rank::Six)];
    let mut rng = StdRng::seed_from_u64(3);
    shuffle(&mut one, &mut rng);
    assert_eq!(one, vec![Card::private(Suit::Clubs, Rank::Six)]);
    let mut none: Vec<Card> = vec![];
    shuffle(&mut none, &mut rng);
    assert!(none.is_empty());
    let pair = vec![Card::private(Suit::Clubs, Rank::Six), Card::private(Suit::Clubs, Rank::Seven)];
    let mut orders = Vec::new();
    for seed in 0..40u64 {
        let mut cards = pair.clone();
        let mut rng = StdRng::seed_from_u64(seed);
        shuffle(&mut cards, &mut rng);
        assert!(cards == pair || cards == vec![pair[1], pair[0]]);
        if !orders.contains(&cards) {
            orders.push(cards);
        }
    }
    assert_eq!(orders.len(), 2);
}
