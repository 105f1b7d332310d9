use durak_core::{
    mcts_evaluate_actions, normalize_action_key, pick_random_action, rank_results, simulate, Action,
    ActionKind, Card, GameConfig, GameState, NodeStats, Phase, Pile, PlayerId, Rank,
    RolloutActionResult, Suit,
};
use rand::rngs::StdRng;
use rand::SeedableRng;

fn config(num_players: usize) -> GameConfig {
    GameConfig { deck_size: 36, num_players, trump_reflecting: false, reflecting: false }
}

/// The usual rule: win rate plus an exploration bonus, a child never
/// visited first, and of equal children the last.
fn uct(c: f64) -> impl Fn(&Vec<NodeStats>, u32) -> usize {
    move |children: &Vec<NodeStats>, parent_visits: u32| {
        let ln_n = (parent_visits as f64).ln();
        let score = |s: &NodeStats| {
            if s.visits == 0 {
                f64::INFINITY
            } else {
                s.wins as f64 / s.visits as f64 + c * (ln_n / s.visits as f64).sqrt()
            }
        };
        let mut best = 0;
        for i in 1..children.len() {
            if score(&children[i]) >= score(&children[best]) {
                best = i;
            }
        }
        best
    }
}

fn entry(action: Action, visits: u32, wins: u32) -> RolloutActionResult {
    RolloutActionResult { action, visits, wins }
}

#[test]
fn search_without_rollouts_reports_nothing() {
    let state = GameState::new_computer_game(3, config(2));
    let eval = mcts_evaluate_actions(&state, 1, PlayerId::P0, 0, 50, uct(1.41));
    assert_eq!(eval.total_rollouts, 0);
    assert!(eval.actions.is_empty());
}

#[test]
fn search_visits_add_up_to_at_most_the_rollouts() {
    for seed in 0..5u64 {
        let state = GameState::new_computer_game(seed, config(3));
        let mut rng = StdRng::seed_from_u64(seed);
        let known = state.determinize(state.actor_to_move(), &mut rng);
        let legal = known.legal_actions();
        for rollouts in [1u32, 5, 40] {
            let eval =
                mcts_evaluate_actions(&known, seed, known.actor_to_move(), rollouts, 30, uct(1.41));
            assert_eq!(eval.total_rollouts, rollouts);
            let visits: u32 = eval.actions.iter().map(|a| a.visits).sum();
            assert_eq!(visits, rollouts);
            assert!(eval.actions.len() <= rollouts as usize);
            assert!(eval.actions.len() <= legal.len());
            for (i, a) in eval.actions.iter().enumerate() {
                assert!(a.visits >= 1 && a.wins <= a.visits);
                assert!(legal.contains(&a.action));
                assert!(eval.actions[..i].iter().all(|b| b.action != a.action));
            }
            for pair in eval.actions.windows(2) {
                assert!(pair[0].visits >= pair[1].visits);
                if pair[0].visits == pair[1].visits {
                    assert!(pair[0].wins >= pair[1].wins);
                }
            }
        }
    }
}

#[test]
fn search_is_the_same_for_the_same_seed() {
    let state = GameState::new_computer_game(11, config(2));
    let mut rng = StdRng::seed_from_u64(5);
    let known = state.determinize(PlayerId::P0, &mut rng);
    let a = mcts_evaluate_actions(&known, 77, PlayerId::P0, 60, 40, uct(1.41));
    let b = mcts_evaluate_actions(&known, 77, PlayerId::P0, 60, 40, uct(1.41));
    assert_eq!(a, b);
}

#[test]
fn search_prefers_the_defense_that_wins_to_taking() {
    // P1 defends with the last card and is out; taking instead loses.
    let state = GameState {
        trump: Suit::Hearts,
        attacker: PlayerId::P0,
        defender: PlayerId::P1,
        phase: Phase::Defending,
        attackers: vec![PlayerId::P0],
        current_attacker_idx: 0,
        last_played_attacker: PlayerId::P0,
        throw_start_idx: 0,
        hands: vec![
            vec![Card::public(Suit::Clubs, Rank::Seven), Card::public(Suit::Spades, Rank::Eight)],
            vec![Card::public(Suit::Clubs, Rank::Ace)],
        ],
        stock: vec![],
        table: vec![Pile { attack: Card::public(Suit::Clubs, Rank::Six), defense: None }],
        discard: vec![],
        reflected_trumps: vec![],
        config: config(2),
    };
    let eval = mcts_evaluate_actions(&state, 9, PlayerId::P1, 400, 60, uct(1.41));
    let defend = Action::Defend { pile_index: 0, card: Card::public(Suit::Clubs, Rank::Ace) };
    assert_eq!(eval.actions.len(), 2);
    assert_eq!(eval.actions[0].action, defend);
    assert_eq!(eval.actions[0].wins, eval.actions[0].visits);
    assert_eq!(eval.actions[1].action, Action::Take);
    assert!(eval.actions[0].visits > 3 * eval.actions[1].visits);
}

#[test]
fn pick_random_action_picks_a_legal_move() {
    let state = GameState::new_computer_game(8, config(4));
    let legal = state.legal_actions();
    let mut seen = Vec::new();
    for seed in 0..40u64 {
        let a = pick_random_action(&state, seed).unwrap();
        assert!(legal.contains(&a));
        assert_eq!(pick_random_action(&state, seed), Some(a));
        if !seen.contains(&a) {
            seen.push(a);
        }
    }
    assert!(seen.len() > 1);
}

#[test]
fn pick_random_action_has_nothing_to_pick_when_the_game_is_over() {
    let mut state = GameState::new_computer_game(8, config(2));
    state.stock.clear();
    state.hands[0].clear();
    assert_eq!(pick_random_action(&state, 1), None);
}

#[test]
fn simulate_plays_to_the_end_and_keeps_the_cards() {
    for seed in 0..10u64 {
        let mut state = GameState::new_computer_game(seed, config(3));
        let mut rng = StdRng::seed_from_u64(seed);
        simulate(&mut state, &mut rng, 5);
        assert!(!state.is_terminal());
        simulate(&mut state, &mut rng, 5000);
        assert!(state.is_terminal() || state.legal_actions().is_empty());
        let cards: usize = state.hands.iter().map(|h| h.len()).sum::<usize>()
            + state.table.iter().map(|p| 1 + p.defense.iter().count()).sum::<usize>()
            + state.discard.len();
        assert_eq!(cards, 36);
    }
}

#[test]
fn simulate_with_no_depth_leaves_the_position_alone() {
    let mut state = GameState::new_computer_game(2, config(2));
    let before = state.clone();
    let mut rng = StdRng::seed_from_u64(2);
    simulate(&mut state, &mut rng, 0);
    assert_eq!(state, before);
}

#[test]
fn action_key_ignores_visibility() {
    let a = Action::Attack { card: Card::public(Suit::Hearts, Rank::Ten) };
    let b = Action::Attack { card: Card::private(Suit::Hearts, Rank::Ten) };
    let c = Action::Throw { card: Some(Card::private(Suit::Hearts, Rank::Ten)) };
    assert_eq!(normalize_action_key(&a), normalize_action_key(&b));
    assert_ne!(normalize_action_key(&a), normalize_action_key(&c));
    let key = normalize_action_key(&Action::Defend {
        pile_index: 3,
        card: Card::private(Suit::Spades, Rank::Ace),
    });
    assert_eq!(key.kind, ActionKind::Defend);
    assert_eq!((key.pile_index, key.suit, key.rank), (3, 3, 14));
    assert_eq!(normalize_action_key(&Action::Throw { card: None }).kind, ActionKind::ThrowDone);
    assert_eq!(normalize_action_key(&Action::Take).kind, ActionKind::Take);
    assert_eq!(normalize_action_key(&Action::PassAttack).kind, ActionKind::PassAttack);
}

#[test]
fn rank_results_by_visits_then_score() {
    let card = |r| Action::Attack { card: Card::public(Suit::Clubs, r) };
    let mut list = vec![
        entry(card(Rank::Six), 3, 1),
        entry(card(Rank::Seven), 10, 2),
        entry(card(Rank::Eight), 3, 3),
        entry(card(Rank::Nine), 10, 2),
        entry(card(Rank::Ten), 0, 0),
    ];
    rank_results(&mut list, true);
    let order: Vec<Action> = list.iter().map(|e| e.action).collect();
    assert_eq!(
        order,
        vec![card(Rank::Seven), card(Rank::Nine), card(Rank::Eight), card(Rank::Six), card(Rank::Ten)]
    );
}

#[test]
fn rank_results_by_score_alone() {
    let card = |r| Action::Attack { card: Card::public(Suit::Clubs, r) };
    let mut list = vec![
        entry(card(Rank::Six), 3, 1),
        entry(card(Rank::Seven), 10, 5),
        entry(card(Rank::Eight), 0, 0),
        entry(card(Rank::Nine), 4, 2),
        entry(card(Rank::Ten), 2, 2),
    ];
    rank_results(&mut list, false);
    let order: Vec<Action> = list.iter().map(|e| e.action).collect();
    assert_eq!(
        order,
        vec![card(Rank::Ten), card(Rank::Seven), card(Rank::Nine), card(Rank::Six), card(Rank::Eight)]
    );
}

#[test]
fn simulate_plays_one_legal_move_per_step() {
    for seed in 0..20u64 {
        let start = GameState::new_computer_game(seed, config(3));
        let mut state = start.clone();
        let mut rng = StdRng::seed_from_u64(seed);
        simulate(&mut state, &mut rng, 1);
        let reached: Vec<GameState> = start
            .legal_actions()
            .iter()
            .map(|a| {
                let mut next = start.clone();
                next.apply(a).unwrap();
                next
            })
            .collect();
        assert!(reached.contains(&state));
    }
}

#[test]
fn search_reports_one_more_move_for_each_rollout_until_all_are_tried() {
    let state = GameState::new_computer_game(6, config(2));
    let mut rng = StdRng::seed_from_u64(6);
    let known = state.determinize(state.actor_to_move(), &mut rng);
    let legal = known.legal_actions();
    assert_eq!(legal.len(), 6);
    for rollouts in 1..10u32 {
        let eval =
            mcts_evaluate_actions(&known, 3, known.actor_to_move(), rollouts, 20, uct(1.41));
        let tried = (rollouts as usize).min(legal.len());
        assert_eq!(eval.actions.len(), tried);
        for a in &legal[legal.len() - tried..] {
            assert!(eval.actions.iter().any(|e| e.action == *a));
        }
        let visits: u32 = eval.actions.iter().map(|e| e.visits).sum();
        assert_eq!(visits, rollouts);
    }
}
