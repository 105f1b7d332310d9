use durak_core::{
    absorb_results, solve, Action, Card, GameConfig, GameState, NodeStats, Phase, Pile, PlayerId,
    Rank, RolloutActionResult, Suit,
};

fn config(num_players: usize) -> GameConfig {
    GameConfig { deck_size: 36, num_players, trump_reflecting: false, reflecting: false }
}

fn first_child() -> impl Fn(&Vec<NodeStats>, u32) -> usize {
    |_children: &Vec<NodeStats>, _parent: u32| 0
}

fn least_visited() -> impl Fn(&Vec<NodeStats>, u32) -> usize {
    |children: &Vec<NodeStats>, _parent: u32| {
        let mut best = 0;
        for i in 1..children.len() {
            if children[i].visits < children[best].visits {
                best = i;
            }
        }
        best
    }
}

fn entry(action: Action, visits: u32, wins: u32) -> RolloutActionResult {
    RolloutActionResult { action, visits, wins }
}

#[test]
fn absorb_results_adds_by_move_whatever_the_visibility() {
    let ten_up = Action::Attack { card: Card::public(Suit::Hearts, Rank::Ten) };
    let ten_down = Action::Attack { card: Card::private(Suit::Hearts, Rank::Ten) };
    let six = Action::Attack { card: Card::private(Suit::Clubs, Rank::Six) };
    let mut totals = vec![entry(ten_down, 5, 2), entry(Action::PassAttack, 1, 1), entry(six, 0, 0)];
    let results = vec![
        entry(ten_up, 7, 3),
        entry(Action::Take, 9, 9),
        entry(ten_down, 1, 1),
        entry(Action::PassAttack, 4, 0),
    ];
    absorb_results(&mut totals, &results);
    assert_eq!(
        totals,
        vec![entry(ten_down, 13, 6), entry(Action::PassAttack, 5, 1), entry(six, 0, 0)]
    );
}

#[test]
fn solve_reports_every_legal_move_once() {
    let state = GameState::new_computer_game(21, config(3));
    let legal = state.legal_actions();
    let out = solve(&state, &vec![1, 2, 3], 30, 40, least_visited());
    assert_eq!(out.determinizations, 3);
    assert_eq!(out.total_visits, 90);
    assert_eq!(out.actions.len(), legal.len());
    for a in &legal {
        assert_eq!(out.actions.iter().filter(|e| e.action == *a).count(), 1);
    }
    let visits: u32 = out.actions.iter().map(|e| e.visits).sum();
    assert_eq!(visits, 90);
    for pair in out.actions.windows(2) {
        let (a, b) = (pair[0], pair[1]);
        let left = a.wins as u64 * b.visits.max(1) as u64;
        let right = b.wins as u64 * a.visits.max(1) as u64;
        assert!(left >= right);
    }
    for e in &out.actions {
        assert!(e.wins <= e.visits);
    }
}

#[test]
fn solve_without_seeds_reports_the_moves_unvisited() {
    let state = GameState::new_computer_game(21, config(2));
    let out = solve(&state, &vec![], 30, 40, first_child());
    assert_eq!(out.determinizations, 0);
    assert_eq!(out.total_visits, 0);
    let moves: Vec<Action> = out.actions.iter().map(|e| e.action).collect();
    assert_eq!(moves, state.legal_actions());
    assert!(out.actions.iter().all(|e| e.visits == 0 && e.wins == 0));
}

#[test]
fn solve_without_rollouts_reports_the_moves_unvisited() {
    let state = GameState::new_computer_game(5, config(2));
    let out = solve(&state, &vec![4, 5], 0, 40, first_child());
    assert_eq!(out.determinizations, 2);
    assert_eq!(out.total_visits, 0);
    assert_eq!(out.actions.len(), state.legal_actions().len());
    assert!(out.actions.iter().all(|e| e.visits == 0 && e.wins == 0));
}

#[test]
fn solve_has_nothing_to_report_when_the_game_is_over() {
    let mut state = GameState::new_computer_game(5, config(2));
    state.stock.clear();
    state.hands[1].clear();
    let out = solve(&state, &vec![4, 5, 6], 10, 40, first_child());
    assert_eq!(out.determinizations, 3);
    assert_eq!(out.total_visits, 0);
    assert!(out.actions.is_empty());
}

#[test]
fn solve_ranks_the_winning_defense_first() {
    let state = GameState {
        trump: Suit::Hearts,
        attacker: PlayerId::P0,
        defender: PlayerId::P1,
        phase: Phase::Defending,
        attackers: vec![PlayerId::P0],
        current_attacker_idx: 0,
        last_played_attacker: PlayerId::P0,
        throw_start_idx: 0,
        hands: vec![
            vec![Card::public(Suit::Clubs, Rank::Seven), Card::public(Suit::Spades, Rank::Eight)],
            vec![Card::private(Suit::Clubs, Rank::Ace)],
        ],
        stock: vec![],
        table: vec![Pile { attack: Card::public(Suit::Clubs, Rank::Six), defense: None }],
        discard: vec![],
        reflected_trumps: vec![],
        config: config(2),
    };
    let out = solve(&state, &vec![7, 8], 50, 60, least_visited());
    assert_eq!(out.actions.len(), 2);
    // the private card of the position, though the search saw it face up
    assert_eq!(
        out.actions[0].action,
        Action::Defend { pile_index: 0, card: Card::private(Suit::Clubs, Rank::Ace) }
    );
    assert_eq!(out.actions[0].wins, out.actions[0].visits);
    assert!(out.actions[0].visits > 0);
    assert_eq!(out.actions[1].action, Action::Take);
    assert!(out.actions[1].wins < out.actions[1].visits);
}

#[test]
fn well_formed_positions_are_recognised() {
    let state = GameState::new_computer_game(1, config(4));
    assert!(state.is_well_formed());
    let mut broken = state.clone();
    broken.hands.truncate(1);
    assert!(!broken.is_well_formed());
    let mut broken = state.clone();
    broken.attackers.push(PlayerId::P5);
    assert!(!broken.is_well_formed());
    let mut broken = state.clone();
    broken.defender = PlayerId::P4;
    assert!(!broken.is_well_formed());
    let mut broken = state.clone();
    broken.discard.push(Card::private(Suit::Clubs, Rank::Six));
    assert!(!broken.is_well_formed());
    let mut broken = state.clone();
    broken.table.push(Pile { attack: Card::Unknown, defense: None });
    assert!(!broken.is_well_formed());
    let mut fine = state.clone();
    fine.table.push(Pile {
        attack: Card::public(Suit::Clubs, Rank::Six),
        defense: Some(Card::public(Suit::Clubs, Rank::Seven)),
    });
    assert!(fine.is_well_formed());
}

#[test]
fn moves_that_ask_about_unknown_cards_are_recognised() {
    let mut state = GameState::new_computer_game(1, config(2));
    assert!(!state.asks_unknown(&Action::Attack { card: Card::Unknown }));
    assert!(!state.asks_unknown(&Action::Take));
    assert!(!state.asks_unknown(&Action::Throw { card: Some(Card::Unknown) }));
    let actor = state.actor_to_move().index();
    state.hands[actor][0] = Card::Unknown;
    assert!(state.asks_unknown(&Action::Attack { card: Card::Unknown }));
    let first = state.legal_actions()[0];
    assert!(!state.asks_unknown(&first));
    state.apply(&first).unwrap();
    assert!(state.asks_unknown(&Action::Defend { pile_index: 0, card: Card::Unknown }));
    assert!(!state.asks_unknown(&Action::Defend { pile_index: 1, card: Card::Unknown }));
    assert!(!state.asks_unknown(&Action::Reflect { card: Card::Unknown }));
    state.apply(&Action::Take).unwrap();
    assert!(state.asks_unknown(&Action::Throw { card: Some(Card::Unknown) }));
    assert!(!state.asks_unknown(&Action::Throw { card: None }));
}

#[test]
fn solve_counts_every_rollout_for_one_move() {
    for seed in 0..6u64 {
        let state = GameState::new_computer_game(seed, config(2));
        let out = solve(&state, &vec![seed, seed + 1, seed + 2, seed + 3], 25, 30, least_visited());
        assert_eq!(out.total_visits, 100);
        let visits: u32 = out.actions.iter().map(|e| e.visits).sum();
        assert_eq!(visits, 100);
        assert!(out.actions.iter().any(|e| e.visits > 0));
    }
}
