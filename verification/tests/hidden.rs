use durak_core::{
    all_cards_deducible, deduce_cards, full_deck, Card, GameConfig, GameState, Phase, Pile,
    PlayerId, Rank, Suit,
};
use rand::rngs::StdRng;
use rand::SeedableRng;

fn config(deck_size: usize, num_players: usize) -> GameConfig {
    GameConfig { deck_size, num_players, trump_reflecting: false, reflecting: false }
}

fn manual() -> GameState {
    GameState::new_manual_game(
        Card::public(Suit::Hearts, Rank::Six),
        vec![
            Card::private(Suit::Hearts, Rank::Ten),
            Card::private(Suit::Clubs, Rank::Six),
            Card::private(Suit::Hearts, Rank::Seven),
            Card::private(Suit::Spades, Rank::Ace),
            Card::private(Suit::Hearts, Rank::Jack),
            Card::private(Suit::Diamonds, Rank::Nine),
        ],
        0,
        vec![(PlayerId::P1, Some(Rank::Eight))],
        config(36, 3),
    )
    .unwrap()
}

fn cards_of(state: &GameState) -> Vec<Card> {
    let mut cards: Vec<Card> = state.hands.iter().flatten().copied().collect();
    cards.extend(state.stock.iter().copied());
    for p in &state.table {
        cards.push(p.attack);
        cards.extend(p.defense);
    }
    cards.extend(state.discard.iter().copied());
    cards
}

#[test]
fn determinize_keeps_what_the_observer_sees() {
    for seed in 0..20u64 {
        let state = GameState::new_computer_game(seed, config(36, 3));
        for who in [PlayerId::P0, PlayerId::P1, PlayerId::P2] {
            let mut rng = StdRng::seed_from_u64(seed + 100);
            let known = state.determinize(who, &mut rng);
            assert_eq!(known.trump, state.trump);
            assert_eq!(known.attackers, state.attackers);
            assert_eq!(known.stock.len(), state.stock.len());
            assert_eq!(known.stock[0], state.stock[0]);
            for (h, hand) in state.hands.iter().enumerate() {
                assert_eq!(known.hands[h].len(), hand.len());
                for (i, c) in hand.iter().enumerate() {
                    if c.is_public() {
                        assert_eq!(known.hands[h][i], *c);
                    } else if h == who.index() {
                        assert_eq!(known.hands[h][i], c.as_public());
                    }
                }
            }
            // every card is face up and the deck is whole
            let cards = cards_of(&known);
            assert!(cards.iter().all(|c| c.is_public()));
            for wanted in full_deck(36) {
                assert_eq!(cards.iter().filter(|c| c.matches(&wanted)).count(), 1);
            }
        }
    }
}

#[test]
fn determinize_fills_unknown_cards_of_a_manual_game() {
    let state = manual();
    let mut rng = StdRng::seed_from_u64(1);
    let known = state.determinize(PlayerId::P0, &mut rng);
    let cards = cards_of(&known);
    assert_eq!(cards.len(), 36);
    assert!(cards.iter().all(|c| c.is_public()));
    for wanted in full_deck(36) {
        assert_eq!(cards.iter().filter(|c| c.matches(&wanted)).count(), 1);
    }
    assert_eq!(known.hands[1][0], Card::public(Suit::Hearts, Rank::Eight));
    assert_eq!(known.stock[0], Card::public(Suit::Hearts, Rank::Six));
    for (i, c) in state.hands[0].iter().enumerate() {
        assert_eq!(known.hands[0][i], c.as_public());
    }
}

#[test]
fn determinize_depends_on_the_seed_only() {
    let state = GameState::new_computer_game(4, config(36, 2));
    let draw = |seed: u64| {
        let mut rng = StdRng::seed_from_u64(seed);
        state.determinize(PlayerId::P0, &mut rng)
    };
    assert_eq!(draw(10), draw(10));
    assert!((11..20u64).any(|s| draw(s) != draw(10)));
}

#[test]
fn assign_hidden_deals_the_pool_in_order() {
    let mut state = manual();
    state.hands[2] = vec![Card::Unknown, Card::private(Suit::Clubs, Rank::King)];
    state.stock = vec![Card::public(Suit::Hearts, Rank::Six), Card::Unknown, Card::Unknown];
    state.hands[0][1] = Card::Unknown;
    let pool: Vec<Card> = full_deck(36).into_iter().take(9).map(|c| c.as_public()).collect();
    let known = state.assign_hidden(PlayerId::P0, &pool);
    // seat 0: the unknown card is replaced, private cards turn face up
    assert_eq!(known.hands[0][1], pool[0]);
    assert_eq!(known.hands[0][0], Card::public(Suit::Hearts, Rank::Ten));
    // seat 1: five unknown cards after the declared trump
    assert_eq!(known.hands[1][0], Card::public(Suit::Hearts, Rank::Eight));
    assert_eq!(known.hands[1][1..], pool[1..6]);
    // seat 2: the unknown card and the private card of another player
    assert_eq!(known.hands[2], vec![pool[6], pool[7]]);
    // the stock: the pool runs out after one more card
    assert_eq!(
        known.stock,
        vec![Card::public(Suit::Hearts, Rank::Six), pool[8], Card::Unknown]
    );
}

#[test]
fn cards_are_deducible_when_one_opponent_hides_cards_and_the_stock_is_empty() {
    let mut state = manual();
    assert!(!all_cards_deducible(&state));
    state.stock.clear();
    assert!(!all_cards_deducible(&state));
    state.hands[2] = vec![Card::public(Suit::Clubs, Rank::King)];
    assert!(all_cards_deducible(&state));
    state.hands[1] = vec![Card::public(Suit::Clubs, Rank::Queen)];
    assert!(all_cards_deducible(&state));
    state.hands[2] = vec![Card::private(Suit::Clubs, Rank::King)];
    state.hands[1] = vec![Card::Unknown];
    assert!(!all_cards_deducible(&state));
    // the hand at seat 0 does not count
    state.hands[1] = vec![];
    assert!(all_cards_deducible(&state));
}

#[test]
fn deduce_cards_names_the_cards_that_are_left() {
    let deck = full_deck(36);
    let last = &deck[33..36]; // spades queen, king, ace
    let state = GameState {
        trump: Suit::Hearts,
        attacker: PlayerId::P0,
        defender: PlayerId::P1,
        phase: Phase::Attacking,
        attackers: vec![PlayerId::P0],
        current_attacker_idx: 0,
        last_played_attacker: PlayerId::P0,
        throw_start_idx: 0,
        hands: vec![
            vec![Card::private(Suit::Clubs, Rank::Six)],
            vec![Card::Unknown, Card::public(Suit::Clubs, Rank::Seven), Card::Unknown, Card::Unknown],
        ],
        stock: vec![],
        table: vec![Pile {
            attack: Card::public(Suit::Clubs, Rank::Eight),
            defense: Some(Card::public(Suit::Clubs, Rank::Nine)),
        }],
        discard: deck[4..33].iter().map(|c| c.as_public()).collect(),
        reflected_trumps: vec![],
        config: config(36, 2),
    };
    assert!(all_cards_deducible(&state));
    let deduced = deduce_cards(&state);
    assert_eq!(
        deduced.hands[1],
        vec![
            last[2].as_public(),
            Card::public(Suit::Clubs, Rank::Seven),
            last[1].as_public(),
            last[0].as_public(),
        ]
    );
    assert_eq!(deduced.hands[0], state.hands[0]);
    assert_eq!(deduced.discard, state.discard);
    assert_eq!(deduced.table, state.table);
}
