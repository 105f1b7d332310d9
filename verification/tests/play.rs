use durak_core::{
    Action, Card, EngineError, GameConfig, GameState, Phase, Pile, PlayerId, Rank, Suit,
};

fn config(deck_size: usize, num_players: usize, reflecting: bool, trump_reflecting: bool) -> GameConfig {
    GameConfig { deck_size, num_players, trump_reflecting, reflecting }
}

fn pu(suit: Suit, rank: Rank) -> Card {
    Card::public(suit, rank)
}

fn pr(suit: Suit, rank: Rank) -> Card {
    Card::private(suit, rank)
}

/// A two-player position with hearts as trumps and an empty stock.
fn duel(p0: Vec<Card>, p1: Vec<Card>) -> GameState {
    GameState {
        trump: Suit::Hearts,
        attacker: PlayerId::P0,
        defender: PlayerId::P1,
        phase: Phase::Attacking,
        attackers: vec![PlayerId::P0],
        current_attacker_idx: 0,
        last_played_attacker: PlayerId::P0,
        throw_start_idx: 0,
        hands: vec![p0, p1],
        stock: vec![],
        table: vec![],
        discard: vec![],
        reflected_trumps: vec![],
        config: config(36, 2, false, false),
    }
}

fn reason(res: Result<(), EngineError>) -> String {
    match res {
        Err(EngineError::IllegalMove(r)) => r,
        Ok(()) => panic!("the move was accepted"),
    }
}

fn total_cards(state: &GameState) -> usize {
    state.hands.iter().map(|h| h.len()).sum::<usize>()
        + state.stock.len()
        + state.table.iter().map(|p| 1 + p.defense.iter().count()).sum::<usize>()
        + state.discard.len()
}

#[test]
fn attack_lays_the_card_face_up_and_hands_over_to_the_defender() {
    let mut s = duel(
        vec![pr(Suit::Clubs, Rank::Six), pr(Suit::Clubs, Rank::Seven), pr(Suit::Spades, Rank::Ten)],
        vec![pr(Suit::Clubs, Rank::Ten), pr(Suit::Diamonds, Rank::Ten)],
    );
    s.apply(&Action::Attack { card: pr(Suit::Clubs, Rank::Six) }).unwrap();
    assert_eq!(s.phase, Phase::Defending);
    assert_eq!(s.table, vec![Pile { attack: pu(Suit::Clubs, Rank::Six), defense: None }]);
    // the last card takes the place of the card played
    assert_eq!(s.hands[0], vec![pr(Suit::Spades, Rank::Ten), pr(Suit::Clubs, Rank::Seven)]);
    assert_eq!(s.last_played_attacker, PlayerId::P0);
    assert_eq!(s.actor_to_move(), PlayerId::P1);
}

#[test]
fn attack_needs_a_rank_that_is_on_the_table() {
    let mut s = duel(
        vec![pr(Suit::Clubs, Rank::Six), pr(Suit::Spades, Rank::Ten), pr(Suit::Spades, Rank::Seven)],
        vec![pr(Suit::Clubs, Rank::Ten), pr(Suit::Diamonds, Rank::Ten), pr(Suit::Diamonds, Rank::Six)],
    );
    s.apply(&Action::Attack { card: pr(Suit::Clubs, Rank::Six) }).unwrap();
    s.apply(&Action::Defend { pile_index: 0, card: pr(Suit::Clubs, Rank::Ten) }).unwrap();
    assert_eq!(s.phase, Phase::Attacking);
    let before = s.clone();
    assert_eq!(
        reason(s.apply(&Action::Attack { card: pr(Suit::Spades, Rank::Seven) })),
        "attack rank not on table"
    );
    assert_eq!(s, before);
    // the ten is on the table as a defense card
    s.apply(&Action::Attack { card: pr(Suit::Spades, Rank::Ten) }).unwrap();
    assert_eq!(s.table.len(), 2);
}

#[test]
fn attack_fails_when_the_defender_holds_nothing() {
    let mut s = duel(vec![pr(Suit::Clubs, Rank::Six)], vec![]);
    s.stock = vec![pu(Suit::Hearts, Rank::Six)];
    assert_eq!(reason(s.apply(&Action::Attack { card: pr(Suit::Clubs, Rank::Six) })), "too many piles");
}

#[test]
fn attack_with_a_card_not_held_is_refused() {
    let mut s = duel(vec![pr(Suit::Clubs, Rank::Six)], vec![pr(Suit::Clubs, Rank::Ten)]);
    assert_eq!(
        reason(s.apply(&Action::Attack { card: pr(Suit::Clubs, Rank::Seven) })),
        "card not in P0's hand"
    );
}

#[test]
fn an_unknown_card_stands_in_for_a_card_not_seen() {
    let mut s = duel(
        vec![Card::Unknown, pu(Suit::Clubs, Rank::Six), Card::Unknown],
        vec![pr(Suit::Clubs, Rank::Ten)],
    );
    s.apply(&Action::Attack { card: pu(Suit::Spades, Rank::King) }).unwrap();
    assert_eq!(s.hands[0], vec![Card::Unknown, pu(Suit::Clubs, Rank::Six)]);
    assert_eq!(s.table[0].attack, pu(Suit::Spades, Rank::King));
}

#[test]
fn a_matching_card_leaves_before_an_unknown_one() {
    let mut s = duel(
        vec![Card::Unknown, pu(Suit::Clubs, Rank::Six), pr(Suit::Clubs, Rank::Nine)],
        vec![pr(Suit::Clubs, Rank::Ten)],
    );
    s.apply(&Action::Attack { card: pu(Suit::Clubs, Rank::Six) }).unwrap();
    assert_eq!(s.hands[0], vec![Card::Unknown, pr(Suit::Clubs, Rank::Nine)]);
}

#[test]
fn defend_covers_the_pile_and_returns_to_the_attacker() {
    let mut s = duel(
        vec![pr(Suit::Clubs, Rank::Six), pr(Suit::Spades, Rank::Ten)],
        vec![pr(Suit::Clubs, Rank::Ten), pr(Suit::Hearts, Rank::Six)],
    );
    s.apply(&Action::Attack { card: pr(Suit::Clubs, Rank::Six) }).unwrap();
    assert_eq!(
        reason(s.apply(&Action::Defend { pile_index: 1, card: pr(Suit::Clubs, Rank::Ten) })),
        "bad pile index"
    );
    s.apply(&Action::Defend { pile_index: 0, card: pr(Suit::Hearts, Rank::Six) }).unwrap();
    assert_eq!(
        s.table,
        vec![Pile { attack: pu(Suit::Clubs, Rank::Six), defense: Some(pu(Suit::Hearts, Rank::Six)) }]
    );
    assert_eq!(s.phase, Phase::Attacking);
    assert_eq!(s.hands[1], vec![pr(Suit::Clubs, Rank::Ten)]);
}

#[test]
fn defend_needs_a_card_that_beats_the_attack() {
    let mut s = duel(
        vec![pr(Suit::Clubs, Rank::Ten), pr(Suit::Spades, Rank::Ten)],
        vec![pr(Suit::Clubs, Rank::Six), pr(Suit::Spades, Rank::Ace)],
    );
    s.apply(&Action::Attack { card: pr(Suit::Clubs, Rank::Ten) }).unwrap();
    let before = s.clone();
    assert_eq!(
        reason(s.apply(&Action::Defend { pile_index: 0, card: pr(Suit::Clubs, Rank::Six) })),
        "defense card does not beat attack"
    );
    assert_eq!(
        reason(s.apply(&Action::Defend { pile_index: 0, card: pr(Suit::Spades, Rank::Ace) })),
        "defense card does not beat attack"
    );
    assert_eq!(
        reason(s.apply(&Action::Defend { pile_index: 0, card: pr(Suit::Clubs, Rank::Jack) })),
        "card not in P1's hand"
    );
    assert_eq!(s, before);
}

#[test]
fn defend_on_defended_pile_fails_whatever_the_card() {
    let mut s = duel(
        vec![pr(Suit::Clubs, Rank::Six), pr(Suit::Spades, Rank::Six), pr(Suit::Spades, Rank::Ten)],
        vec![pr(Suit::Clubs, Rank::Ten), pr(Suit::Hearts, Rank::Six), pr(Suit::Hearts, Rank::Ace)],
    );
    s.apply(&Action::Attack { card: pr(Suit::Clubs, Rank::Six) }).unwrap();
    s.apply(&Action::Defend { pile_index: 0, card: pr(Suit::Clubs, Rank::Ten) }).unwrap();
    s.apply(&Action::Attack { card: pr(Suit::Spades, Rank::Six) }).unwrap();
    assert_eq!(s.phase, Phase::Defending);
    let before = s.clone();
    for card in [
        pr(Suit::Hearts, Rank::Ace),
        pr(Suit::Hearts, Rank::Six),
        pu(Suit::Clubs, Rank::Seven),
        Card::Unknown,
    ] {
        assert_eq!(
            reason(s.apply(&Action::Defend { pile_index: 0, card })),
            "pile already defended"
        );
        assert_eq!(s, before);
    }
}

#[test]
fn moves_of_another_phase_are_refused() {
    let mut s = duel(vec![pr(Suit::Clubs, Rank::Six)], vec![pr(Suit::Clubs, Rank::Ten)]);
    let before = s.clone();
    assert_eq!(reason(s.apply(&Action::Take)), "action not allowed in this phase: Take");
    assert_eq!(
        reason(s.apply(&Action::Throw { card: None })),
        "action not allowed in this phase: Throw { card: None }"
    );
    assert_eq!(
        reason(s.apply(&Action::Defend { pile_index: 0, card: Card::Unknown })),
        "action not allowed in this phase: Defend { pile_index: 0, card: Unknown }"
    );
    assert_eq!(
        reason(s.apply(&Action::Reflect { card: pu(Suit::Clubs, Rank::Six) })),
        "action not allowed in this phase: Reflect { card: Public { suit: Clubs, rank: Six } }"
    );
    assert_eq!(s, before);
    s.apply(&Action::Attack { card: pr(Suit::Clubs, Rank::Six) }).unwrap();
    assert_eq!(
        reason(s.apply(&Action::PassAttack)),
        "action not allowed in this phase: PassAttack"
    );
    assert_eq!(
        reason(s.apply(&Action::Attack { card: pr(Suit::Clubs, Rank::Six) })),
        "action not allowed in this phase: Attack { card: Private { suit: Clubs, rank: Six } }"
    );
}

#[test]
fn pass_with_an_open_pile_is_refused() {
    let mut s = duel(vec![pr(Suit::Clubs, Rank::Six)], vec![pr(Suit::Clubs, Rank::Ten)]);
    s.table = vec![Pile { attack: pu(Suit::Spades, Rank::Six), defense: None }];
    assert_eq!(
        reason(s.apply(&Action::PassAttack)),
        "cannot pass while there are undefended piles"
    );
}

#[test]
fn pass_by_the_last_attacker_discards_the_table_and_refills() {
    let mut s = duel(
        vec![pr(Suit::Clubs, Rank::Six), pr(Suit::Spades, Rank::Ten)],
        vec![pr(Suit::Clubs, Rank::Ten), pr(Suit::Diamonds, Rank::Six)],
    );
    s.stock = vec![
        pu(Suit::Hearts, Rank::Six),
        pr(Suit::Diamonds, Rank::Seven),
        pr(Suit::Diamonds, Rank::Eight),
        pr(Suit::Diamonds, Rank::Nine),
        pr(Suit::Diamonds, Rank::Ten),
        pr(Suit::Diamonds, Rank::Jack),
        pr(Suit::Diamonds, Rank::Queen),
        pr(Suit::Diamonds, Rank::King),
    ];
    s.reflected_trumps = vec![pu(Suit::Hearts, Rank::Nine)];
    s.apply(&Action::Attack { card: pr(Suit::Clubs, Rank::Six) }).unwrap();
    s.apply(&Action::Defend { pile_index: 0, card: pr(Suit::Clubs, Rank::Ten) }).unwrap();
    assert_eq!(total_cards(&s), 12);
    s.apply(&Action::PassAttack).unwrap();
    assert_eq!(s.discard, vec![pu(Suit::Clubs, Rank::Six), pu(Suit::Clubs, Rank::Ten)]);
    assert!(s.table.is_empty());
    assert!(s.reflected_trumps.is_empty());
    // the attacker draws first, from the end of the stock, then the defender
    assert_eq!(
        s.hands[0],
        vec![
            pr(Suit::Spades, Rank::Ten),
            pr(Suit::Diamonds, Rank::King),
            pr(Suit::Diamonds, Rank::Queen),
            pr(Suit::Diamonds, Rank::Jack),
            pr(Suit::Diamonds, Rank::Ten),
            pr(Suit::Diamonds, Rank::Nine),
        ]
    );
    assert_eq!(
        s.hands[1],
        vec![
            pr(Suit::Diamonds, Rank::Six),
            pr(Suit::Diamonds, Rank::Eight),
            pr(Suit::Diamonds, Rank::Seven),
            pu(Suit::Hearts, Rank::Six),
        ]
    );
    assert!(s.stock.is_empty());
    assert_eq!(s.attacker, PlayerId::P1);
    assert_eq!(s.defender, PlayerId::P0);
    assert_eq!(s.attackers, vec![PlayerId::P1]);
    assert_eq!(s.phase, Phase::Attacking);
    assert_eq!(total_cards(&s), 12);
}

#[test]
fn pass_stays_in_the_attack_while_other_attackers_have_not_passed() {
    let mut s = duel(vec![pr(Suit::Clubs, Rank::Six)], vec![pr(Suit::Clubs, Rank::Ten)]);
    s.hands.push(vec![pr(Suit::Spades, Rank::Six)]);
    s.attackers = vec![PlayerId::P0, PlayerId::P2];
    s.config.num_players = 3;
    s.table = vec![Pile { attack: pu(Suit::Spades, Rank::Seven), defense: Some(pu(Suit::Spades, Rank::Eight)) }];
    s.apply(&Action::PassAttack).unwrap();
    assert_eq!(s.phase, Phase::Attacking);
    assert_eq!(s.current_attacker_idx, 1);
    assert_eq!(s.actor_to_move(), PlayerId::P2);
    assert_eq!(s.table.len(), 1);
    s.apply(&Action::PassAttack).unwrap();
    // back at the attacker who played last: the trick is over
    assert!(s.table.is_empty());
    assert_eq!(s.discard.len(), 2);
    assert_eq!(s.attacker, PlayerId::P1);
    assert_eq!(s.defender, PlayerId::P2);
    assert_eq!(s.attackers, vec![PlayerId::P1, PlayerId::P0]);
}

#[test]
fn take_then_throwing_ends_with_the_defender_picking_up() {
    let mut s = duel(
        vec![pr(Suit::Clubs, Rank::Six), pr(Suit::Spades, Rank::Six), pr(Suit::Spades, Rank::Ten)],
        vec![pr(Suit::Clubs, Rank::Ten), pr(Suit::Diamonds, Rank::Six)],
    );
    s.apply(&Action::Attack { card: pr(Suit::Clubs, Rank::Six) }).unwrap();
    s.apply(&Action::Take).unwrap();
    assert_eq!(s.phase, Phase::Throwing);
    assert_eq!(s.throw_start_idx, 0);
    assert_eq!(s.actor_to_move(), PlayerId::P0);
    assert_eq!(
        reason(s.apply(&Action::Throw { card: Some(pr(Suit::Spades, Rank::Ten)) })),
        "thrown rank not on table"
    );
    s.apply(&Action::Throw { card: Some(pr(Suit::Spades, Rank::Six)) }).unwrap();
    assert_eq!(s.table.len(), 2);
    assert_eq!(s.phase, Phase::Throwing);
    s.apply(&Action::Throw { card: None }).unwrap();
    assert_eq!(
        s.hands[1],
        vec![
            pr(Suit::Clubs, Rank::Ten),
            pr(Suit::Diamonds, Rank::Six),
            pu(Suit::Clubs, Rank::Six),
            pu(Suit::Spades, Rank::Six),
        ]
    );
    assert_eq!(s.hands[0], vec![pr(Suit::Spades, Rank::Ten)]);
    assert!(s.table.is_empty());
    assert!(s.discard.is_empty());
    // the player after the defender leads again
    assert_eq!(s.attacker, PlayerId::P0);
    assert_eq!(s.defender, PlayerId::P1);
    assert_eq!(s.phase, Phase::Attacking);
}

#[test]
fn throw_is_refused_when_the_defender_holds_nothing() {
    let mut s = duel(vec![pr(Suit::Spades, Rank::Six)], vec![]);
    s.phase = Phase::Throwing;
    s.stock = vec![pu(Suit::Hearts, Rank::Six)];
    s.table = vec![Pile { attack: pu(Suit::Clubs, Rank::Six), defense: None }];
    assert_eq!(
        reason(s.apply(&Action::Throw { card: Some(pr(Suit::Spades, Rank::Six)) })),
        "defender has no capacity"
    );
}

fn three_handed(reflecting: bool, trump_reflecting: bool) -> GameState {
    let mut s = duel(
        vec![pr(Suit::Clubs, Rank::Six), pr(Suit::Spades, Rank::Ten)],
        vec![pr(Suit::Spades, Rank::Six), pr(Suit::Hearts, Rank::Six), pr(Suit::Diamonds, Rank::Ten)],
    );
    s.hands.push(vec![pr(Suit::Diamonds, Rank::Six), pr(Suit::Clubs, Rank::Ace)]);
    s.attackers = vec![PlayerId::P0, PlayerId::P2];
    s.config = config(36, 3, reflecting, trump_reflecting);
    s
}

#[test]
fn reflect_passes_the_attack_to_the_next_player() {
    let mut s = three_handed(true, false);
    s.apply(&Action::Attack { card: pr(Suit::Clubs, Rank::Six) }).unwrap();
    s.apply(&Action::Reflect { card: pr(Suit::Spades, Rank::Six) }).unwrap();
    assert_eq!(s.phase, Phase::Defending);
    assert_eq!(s.attacker, PlayerId::P1);
    assert_eq!(s.defender, PlayerId::P2);
    assert_eq!(s.attackers, vec![PlayerId::P1, PlayerId::P0]);
    assert_eq!(s.current_attacker_idx, 0);
    assert_eq!(s.last_played_attacker, PlayerId::P1);
    assert_eq!(
        s.table,
        vec![
            Pile { attack: pu(Suit::Clubs, Rank::Six), defense: None },
            Pile { attack: pu(Suit::Spades, Rank::Six), defense: None },
        ]
    );
    assert_eq!(s.hands[1].len(), 2);
}

#[test]
fn reflect_is_refused_when_disabled_or_mismatched() {
    let mut s = three_handed(false, false);
    s.apply(&Action::Attack { card: pr(Suit::Clubs, Rank::Six) }).unwrap();
    assert_eq!(
        reason(s.apply(&Action::Reflect { card: pr(Suit::Spades, Rank::Six) })),
        "reflecting not enabled"
    );
    assert_eq!(
        reason(s.apply(&Action::ReflectTrump { card: pr(Suit::Hearts, Rank::Six) })),
        "trump reflecting not enabled"
    );
    let mut s = three_handed(true, true);
    s.apply(&Action::Attack { card: pr(Suit::Clubs, Rank::Six) }).unwrap();
    assert_eq!(
        reason(s.apply(&Action::Reflect { card: pr(Suit::Diamonds, Rank::Ten) })),
        "reflect card must have same rank as attack"
    );
    assert_eq!(
        reason(s.apply(&Action::ReflectTrump { card: pr(Suit::Spades, Rank::Six) })),
        "trump reflect requires a trump card"
    );
}

#[test]
fn reflect_is_refused_after_a_defense() {
    let mut s = three_handed(true, true);
    s.phase = Phase::Defending;
    s.table = vec![
        Pile { attack: pu(Suit::Clubs, Rank::Seven), defense: Some(pu(Suit::Clubs, Rank::Eight)) },
        Pile { attack: pu(Suit::Diamonds, Rank::Seven), defense: None },
    ];
    assert_eq!(
        reason(s.apply(&Action::Reflect { card: pr(Suit::Spades, Rank::Six) })),
        "cannot reflect after defending a pile"
    );
    assert_eq!(
        reason(s.apply(&Action::ReflectTrump { card: pr(Suit::Hearts, Rank::Six) })),
        "cannot reflect after defending a pile"
    );
}

#[test]
fn reflect_needs_someone_to_defend() {
    let mut s = three_handed(true, true);
    s.hands[0] = vec![];
    s.hands[2] = vec![];
    s.phase = Phase::Defending;
    s.table = vec![Pile { attack: pu(Suit::Clubs, Rank::Six), defense: None }];
    assert_eq!(
        reason(s.apply(&Action::Reflect { card: pr(Suit::Spades, Rank::Six) })),
        "no active player to become defender"
    );
}

#[test]
fn reflect_trump_shows_the_card_and_keeps_it() {
    let mut s = three_handed(false, true);
    s.apply(&Action::Attack { card: pr(Suit::Clubs, Rank::Six) }).unwrap();
    let before = total_cards(&s);
    s.apply(&Action::ReflectTrump { card: pr(Suit::Hearts, Rank::Six) }).unwrap();
    assert_eq!(
        s.hands[1],
        vec![pr(Suit::Spades, Rank::Six), pu(Suit::Hearts, Rank::Six), pr(Suit::Diamonds, Rank::Ten)]
    );
    assert_eq!(s.reflected_trumps, vec![pu(Suit::Hearts, Rank::Six)]);
    assert_eq!(s.table.len(), 1);
    assert_eq!(s.attacker, PlayerId::P1);
    assert_eq!(s.defender, PlayerId::P2);
    assert_eq!(total_cards(&s), before);
    // the same trump cannot be shown again in this trick
    s.config.num_players = 3;
    s.attacker = PlayerId::P0;
    s.defender = PlayerId::P1;
    assert_eq!(
        reason(s.apply(&Action::ReflectTrump { card: pu(Suit::Hearts, Rank::Six) })),
        "this trump has already been used for reflecting this turn"
    );
}

#[test]
fn terminal_means_empty_stock_and_at_most_one_holder() {
    let mut s = duel(vec![pr(Suit::Clubs, Rank::Six)], vec![pr(Suit::Clubs, Rank::Ten)]);
    assert!(!s.is_terminal());
    assert_eq!(s.durak(), None);
    s.hands[0].clear();
    assert!(s.is_terminal());
    assert_eq!(s.durak(), Some(PlayerId::P1));
    assert!(s.legal_actions().is_empty());
    s.stock = vec![pu(Suit::Hearts, Rank::Six)];
    assert!(!s.is_terminal());
    assert_eq!(s.durak(), None);
    s.stock.clear();
    s.hands[1].clear();
    assert!(s.is_terminal());
    assert_eq!(s.durak(), None);
}

#[test]
fn legal_actions_follow_the_phase() {
    let mut s = duel(
        vec![pr(Suit::Clubs, Rank::Six), pr(Suit::Spades, Rank::Six), pr(Suit::Spades, Rank::Ten)],
        vec![pr(Suit::Clubs, Rank::Ten), pr(Suit::Hearts, Rank::Seven), pr(Suit::Clubs, Rank::Seven)],
    );
    assert_eq!(
        s.legal_actions(),
        vec![
            Action::Attack { card: pr(Suit::Clubs, Rank::Six) },
            Action::Attack { card: pr(Suit::Spades, Rank::Six) },
            Action::Attack { card: pr(Suit::Spades, Rank::Ten) },
        ]
    );
    s.apply(&Action::Attack { card: pr(Suit::Clubs, Rank::Six) }).unwrap();
    assert_eq!(
        s.legal_actions(),
        vec![
            Action::Defend { pile_index: 0, card: pr(Suit::Clubs, Rank::Ten) },
            Action::Defend { pile_index: 0, card: pr(Suit::Hearts, Rank::Seven) },
            Action::Defend { pile_index: 0, card: pr(Suit::Clubs, Rank::Seven) },
            Action::Take,
        ]
    );
    s.apply(&Action::Defend { pile_index: 0, card: pr(Suit::Clubs, Rank::Ten) }).unwrap();
    assert_eq!(
        s.legal_actions(),
        vec![Action::PassAttack, Action::Attack { card: pr(Suit::Spades, Rank::Ten) }, Action::Attack { card: pr(Suit::Spades, Rank::Six) }]
    );
    s.apply(&Action::Attack { card: pr(Suit::Spades, Rank::Six) }).unwrap();
    s.apply(&Action::Take).unwrap();
    assert_eq!(
        s.legal_actions(),
        vec![Action::Throw { card: None }, Action::Throw { card: Some(pr(Suit::Spades, Rank::Ten)) }]
    );
}

#[test]
fn legal_actions_offer_redirects_when_enabled() {
    let mut s = three_handed(true, true);
    s.apply(&Action::Attack { card: pr(Suit::Clubs, Rank::Six) }).unwrap();
    assert_eq!(
        s.legal_actions(),
        vec![
            Action::Reflect { card: pr(Suit::Spades, Rank::Six) },
            Action::Defend { pile_index: 0, card: pr(Suit::Hearts, Rank::Six) },
            Action::Reflect { card: pr(Suit::Hearts, Rank::Six) },
            Action::ReflectTrump { card: pr(Suit::Hearts, Rank::Six) },
            Action::Take,
        ]
    );
}

#[test]
fn no_further_attack_without_defender_capacity() {
    let mut s = duel(
        vec![pr(Suit::Clubs, Rank::Six), pr(Suit::Spades, Rank::Ten)],
        vec![pr(Suit::Clubs, Rank::Ten)],
    );
    s.stock = vec![pu(Suit::Hearts, Rank::Six)];
    s.apply(&Action::Attack { card: pr(Suit::Clubs, Rank::Six) }).unwrap();
    s.apply(&Action::Defend { pile_index: 0, card: pr(Suit::Clubs, Rank::Ten) }).unwrap();
    assert_eq!(s.legal_actions(), vec![Action::PassAttack]);
}

#[test]
fn hidden_hands_may_play_any_card_not_accounted_for() {
    let state = GameState::new_manual_game(
        Card::public(Suit::Hearts, Rank::Six),
        vec![
            pr(Suit::Hearts, Rank::Ten),
            pr(Suit::Clubs, Rank::Six),
            pr(Suit::Hearts, Rank::Seven),
            pr(Suit::Spades, Rank::Ace),
            pr(Suit::Hearts, Rank::Jack),
            pr(Suit::Diamonds, Rank::Nine),
        ],
        1,
        vec![(PlayerId::P1, Some(Rank::Eight))],
        config(36, 2, false, false),
    )
    .unwrap();
    let acts = state.legal_actions();
    // the declared trump, then the 36 - 6 - 1 - 1 cards seen nowhere
    assert_eq!(acts.len(), 1 + 28);
    assert_eq!(acts[0], Action::Attack { card: pu(Suit::Hearts, Rank::Eight) });
    assert_eq!(acts[1], Action::Attack { card: pu(Suit::Clubs, Rank::Seven) });
    for a in &acts {
        match a {
            Action::Attack { card } => {
                assert!(card.is_public());
                assert!(!state.hands[0].iter().any(|c| c.matches(card)));
                assert!(!card.matches(&state.stock[0]));
            }
            other => panic!("unexpected move {:?}", other),
        }
    }
}

fn next_number(state: &mut u64) -> u64 {
    *state = state.wrapping_mul(6364136223846793005).wrapping_add(1442695040888963407);
    *state >> 33
}

#[test]
fn every_legal_action_is_accepted_and_no_card_is_lost() {
    for seed in 0..30u64 {
        for (n, reflecting, trump_reflecting) in
            [(2usize, false, false), (3, true, false), (4, true, true), (6, false, true)]
        {
            let mut state =
                GameState::new_computer_game(seed, config(36, n, reflecting, trump_reflecting));
            let mut picker = seed * 31 + n as u64;
            let mut steps = 0;
            while !state.is_terminal() && steps < 2000 {
                let acts = state.legal_actions();
                if acts.is_empty() {
                    break;
                }
                for a in &acts {
                    let mut copy = state.clone();
                    assert!(copy.apply(a).is_ok(), "{:?} refused in {:?}", a, state);
                    assert_eq!(total_cards(&copy), 36);
                }
                let pick = (next_number(&mut picker) % acts.len() as u64) as usize;
                let actor = state.actor_to_move();
                let before = state.hand_size(actor);
                state.apply(&acts[pick]).unwrap();
                match acts[pick] {
                    Action::Attack { .. }
                    | Action::Defend { .. }
                    | Action::Reflect { .. }
                    | Action::Throw { card: Some(_) } => {
                        assert_eq!(state.hand_size(actor) + 1, before)
                    }
                    Action::ReflectTrump { card } => {
                        assert_eq!(state.hand_size(actor), before);
                        let held = state.hands[actor.index()].iter().find(|c| c.matches(&card));
                        assert!(held.unwrap().is_public());
                    }
                    _ => {}
                }
                assert_eq!(total_cards(&state), 36);
                assert!(!state.attackers.contains(&state.defender));
                steps += 1;
            }
            if state.is_terminal() {
                let holders = state.hands.iter().filter(|h| !h.is_empty()).count();
                assert_eq!(state.durak().is_some(), holders == 1);
            }
        }
    }
}

#[test]
fn always_taking_ends_with_exactly_one_durak() {
    for seed in [0u64, 1, 2, 17, 2024] {
        let mut state = GameState::new_computer_game(seed, config(36, 2, false, false));
        let defender = state.defender;
        let mut steps = 0;
        while !state.is_terminal() {
            let action = match state.phase {
                Phase::Defending => Action::Take,
                Phase::Throwing => Action::Throw { card: None },
                Phase::Attacking => state.legal_actions()[0],
            };
            state.apply(&action).unwrap();
            steps += 1;
            assert!(steps <= 90);
        }
        assert_eq!(state.durak(), Some(defender));
        // the attacker's last card still lies on the table
        assert_eq!(state.hands[defender.index()].len(), 35);
        assert_eq!(state.table.len(), 1);
        assert!(state.hands[defender.other().index()].is_empty());
        assert!(state.stock.is_empty());
    }
}

#[test]
fn reflect_needs_an_open_pile() {
    let mut s = three_handed(true, true);
    s.phase = Phase::Defending;
    assert_eq!(
        reason(s.apply(&Action::Reflect { card: pr(Suit::Spades, Rank::Six) })),
        "no open pile to reflect"
    );
    assert_eq!(
        reason(s.apply(&Action::ReflectTrump { card: pr(Suit::Hearts, Rank::Six) })),
        "no open pile to reflect"
    );
}

#[test]
fn a_failed_move_leaves_the_position_untouched() {
    let mut state = GameState::new_computer_game(3, config(36, 3, true, true));
    let refused = [
        Action::Take,
        Action::PassAttack,
        Action::Throw { card: None },
        Action::Defend { pile_index: 0, card: pu(Suit::Clubs, Rank::Six) },
        Action::Reflect { card: pu(Suit::Clubs, Rank::Six) },
    ];
    for _ in 0..40 {
        let before = state.clone();
        for a in &refused {
            let mut copy = state.clone();
            if copy.apply(a).is_err() {
                assert_eq!(copy, before);
            }
        }
        let acts = state.legal_actions();
        if acts.is_empty() {
            break;
        }
        state.apply(&acts[acts.len() / 2]).unwrap();
    }
}

#[test]
fn moves_read_as_their_debug_form() {
    let moves = [
        Action::Attack { card: pu(Suit::Clubs, Rank::Two) },
        Action::Attack { card: pr(Suit::Diamonds, Rank::Queen) },
        Action::Attack { card: Card::Unknown },
        Action::PassAttack,
        Action::Defend { pile_index: 0, card: pr(Suit::Hearts, Rank::Ace) },
        Action::Defend { pile_index: 7, card: pu(Suit::Spades, Rank::Jack) },
        Action::Defend { pile_index: 10, card: pu(Suit::Spades, Rank::King) },
        Action::Defend { pile_index: 1203, card: Card::Unknown },
        Action::Defend { pile_index: usize::MAX, card: pu(Suit::Spades, Rank::Three) },
        Action::Take,
        Action::Throw { card: None },
        Action::Throw { card: Some(pr(Suit::Clubs, Rank::Nine)) },
        Action::Throw { card: Some(Card::Unknown) },
        Action::Reflect { card: pu(Suit::Hearts, Rank::Four) },
        Action::ReflectTrump { card: pr(Suit::Hearts, Rank::Five) },
    ];
    for a in moves {
        assert_eq!(durak_core::describe_action(&a), format!("{:?}", a));
    }
    for suit in [Suit::Clubs, Suit::Diamonds, Suit::Hearts, Suit::Spades] {
        for value in 2..=14u8 {
            let a = Action::Reflect { card: pu(suit, Rank::from_value(value)) };
            assert_eq!(durak_core::describe_action(&a), format!("{:?}", a));
        }
    }
}

#[test]
fn a_card_missing_from_any_seat_is_named_with_the_seat() {
    for seat in 0..6usize {
        let mut s = duel(vec![], vec![]);
        s.hands = vec![vec![pr(Suit::Clubs, Rank::Six)]; 6];
        s.config.num_players = 6;
        let actor = PlayerId::from_index(seat);
        s.attacker = actor;
        s.attackers = vec![actor];
        s.defender = actor.next(6);
        assert_eq!(
            reason(s.apply(&Action::Attack { card: pr(Suit::Clubs, Rank::Seven) })),
            format!("card not in {:?}'s hand", actor)
        );
    }
}

#[test]
fn throw_needs_more_defender_cards_than_open_piles() {
    let mut s = duel(vec![pr(Suit::Spades, Rank::Six)], vec![pr(Suit::Diamonds, Rank::Nine)]);
    s.phase = Phase::Throwing;
    s.table = vec![Pile { attack: pu(Suit::Clubs, Rank::Six), defense: None }];
    let before = s.clone();
    assert_eq!(
        reason(s.apply(&Action::Throw { card: Some(pr(Suit::Spades, Rank::Six)) })),
        "defender has no capacity"
    );
    assert_eq!(s, before);
    assert_eq!(s.legal_actions(), vec![Action::Throw { card: None }]);
    // with a second card in the defender's hand the throw goes through
    s.hands[1].push(pr(Suit::Diamonds, Rank::Ten));
    s.apply(&Action::Throw { card: Some(pr(Suit::Spades, Rank::Six)) }).unwrap();
    assert_eq!(s.table.len(), 2);
}

#[test]
fn a_trump_that_is_not_held_cannot_be_shown() {
    let mut s = three_handed(false, true);
    s.apply(&Action::Attack { card: pr(Suit::Clubs, Rank::Six) }).unwrap();
    s.hands[1] = vec![pr(Suit::Spades, Rank::Six), pr(Suit::Diamonds, Rank::Ten)];
    let before = s.clone();
    assert_eq!(
        reason(s.apply(&Action::ReflectTrump { card: pr(Suit::Hearts, Rank::Six) })),
        "card not in P1's hand"
    );
    assert_eq!(s, before);
    // an unknown card may turn out to be the trump
    s.hands[1].push(Card::Unknown);
    s.apply(&Action::ReflectTrump { card: pu(Suit::Hearts, Rank::Six) }).unwrap();
    assert_eq!(
        s.hands[1],
        vec![pr(Suit::Spades, Rank::Six), pr(Suit::Diamonds, Rank::Ten), Card::Unknown]
    );
    assert_eq!(s.reflected_trumps, vec![pu(Suit::Hearts, Rank::Six)]);
    assert_eq!(s.defender, PlayerId::P2);
}

#[test]
fn a_defender_without_an_open_pile_may_take() {
    let mut s = duel(vec![pr(Suit::Clubs, Rank::Six)], vec![pr(Suit::Clubs, Rank::Ten)]);
    s.phase = Phase::Defending;
    assert_eq!(s.legal_actions(), vec![Action::Take]);
    s.apply(&Action::Take).unwrap();
    assert_eq!(s.phase, Phase::Throwing);
}
