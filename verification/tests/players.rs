use durak_core::{Card, PlayerId, Rank, Suit};

fn some_card() -> Card {
    Card::private(Suit::Clubs, Rank::Six)
}

#[test]
fn from_index_clamps_to_the_last_seat() {
    assert_eq!(PlayerId::from_index(0), PlayerId::P0);
    assert_eq!(PlayerId::from_index(3), PlayerId::P3);
    assert_eq!(PlayerId::from_index(5), PlayerId::P5);
    assert_eq!(PlayerId::from_index(6), PlayerId::P5);
    assert_eq!(PlayerId::from_index(1000), PlayerId::P5);
    for i in 0..6 {
        assert_eq!(PlayerId::from_index(i).index(), i);
    }
}

#[test]
fn default_player_is_seat_zero() {
    assert_eq!(PlayerId::default(), PlayerId::P0);
}

#[test]
fn other_swaps_the_first_two_seats() {
    assert_eq!(PlayerId::P0.other(), PlayerId::P1);
    assert_eq!(PlayerId::P1.other(), PlayerId::P0);
    assert_eq!(PlayerId::P4.other(), PlayerId::P0);
}

#[test]
fn next_goes_round_the_table() {
    assert_eq!(PlayerId::P0.next(2), PlayerId::P1);
    assert_eq!(PlayerId::P1.next(2), PlayerId::P0);
    assert_eq!(PlayerId::P2.next(4), PlayerId::P3);
    assert_eq!(PlayerId::P3.next(4), PlayerId::P0);
    assert_eq!(PlayerId::P5.next(6), PlayerId::P0);
    assert_eq!(PlayerId::P5.next(2), PlayerId::P0);
}

#[test]
fn next_active_skips_empty_hands() {
    let hands = vec![vec![some_card()], vec![], vec![], vec![some_card()]];
    assert_eq!(PlayerId::P0.next_active(4, &hands), PlayerId::P3);
    assert_eq!(PlayerId::P3.next_active(4, &hands), PlayerId::P0);
    assert_eq!(PlayerId::P1.next_active(4, &hands), PlayerId::P3);
}

#[test]
fn next_active_returns_self_when_nobody_else_holds_cards() {
    let alone = vec![vec![], vec![some_card()], vec![]];
    assert_eq!(PlayerId::P1.next_active(3, &alone), PlayerId::P1);
    let nobody: Vec<Vec<Card>> = vec![vec![], vec![], vec![]];
    assert_eq!(PlayerId::P2.next_active(3, &nobody), PlayerId::P2);
    assert_eq!(PlayerId::P0.next_active(3, &alone), PlayerId::P1);
}
