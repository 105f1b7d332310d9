use durak_core::{full_deck, Card, Rank, Suit};

#[test]
fn full_deck_has_the_requested_size() {
    for size in [32usize, 36, 40, 44, 48, 52] {
        assert_eq!(full_deck(size).len(), size);
    }
}

#[test]
fn full_deck_falls_back_to_thirty_six_cards() {
    assert_eq!(full_deck(7), full_deck(36));
    assert_eq!(full_deck(0).len(), 36);
}

#[test]
fn full_deck_is_ordered_by_suit_then_rank_and_private() {
    let deck = full_deck(32);
    assert_eq!(deck[0], Card::private(Suit::Clubs, Rank::Seven));
    assert_eq!(deck[7], Card::private(Suit::Clubs, Rank::Ace));
    assert_eq!(deck[8], Card::private(Suit::Diamonds, Rank::Seven));
    assert_eq!(deck[16], Card::private(Suit::Hearts, Rank::Seven));
    assert_eq!(deck[31], Card::private(Suit::Spades, Rank::Ace));
    assert!(deck.iter().all(|c| c.is_private()));
    let big = full_deck(52);
    assert_eq!(big[0], Card::private(Suit::Clubs, Rank::Two));
    assert_eq!(big[51], Card::private(Suit::Spades, Rank::Ace));
}

#[test]
fn full_deck_holds_no_card_twice() {
    for size in [32usize, 36, 40, 44, 48, 52] {
        let deck = full_deck(size);
        for i in 0..deck.len() {
            for j in 0..i {
                assert!(!deck[i].matches(&deck[j]));
            }
        }
    }
}

#[test]
fn trump_beats_any_other_suit() {
    let six = Card::public(Suit::Hearts, Rank::Six);
    let ace = Card::public(Suit::Spades, Rank::Ace);
    assert!(six.beats(&ace, Suit::Hearts));
    assert!(!ace.beats(&six, Suit::Hearts));
    assert!(!six.beats(&ace, Suit::Clubs));
    assert!(!ace.beats(&six, Suit::Clubs));
}

#[test]
fn higher_rank_beats_lower_of_the_same_suit() {
    let ten = Card::private(Suit::Clubs, Rank::Ten);
    let jack = Card::public(Suit::Clubs, Rank::Jack);
    assert!(jack.beats(&ten, Suit::Hearts));
    assert!(!ten.beats(&jack, Suit::Hearts));
    assert!(!ten.beats(&ten, Suit::Hearts));
    assert!(jack.beats(&ten, Suit::Clubs));
    assert!(!ten.beats(&jack, Suit::Clubs));
}

#[test]
fn matches_ignores_visibility() {
    let a = Card::public(Suit::Spades, Rank::Queen);
    let b = Card::private(Suit::Spades, Rank::Queen);
    let c = Card::private(Suit::Spades, Rank::King);
    assert!(a.matches(&b));
    assert!(b.matches(&a));
    assert!(!a.matches(&c));
    assert_ne!(a, b);
}

#[test]
fn unknown_matches_nothing() {
    let a = Card::public(Suit::Spades, Rank::Queen);
    assert!(!Card::Unknown.matches(&a));
    assert!(!a.matches(&Card::Unknown));
    assert!(!Card::Unknown.matches(&Card::Unknown));
}

#[test]
fn visibility_changes_keep_suit_and_rank() {
    let a = Card::private(Suit::Diamonds, Rank::Nine);
    let up = a.as_public();
    assert_eq!(up, Card::Public { suit: Suit::Diamonds, rank: Rank::Nine });
    assert!(up.is_public() && !up.is_private() && !up.is_unknown());
    assert_eq!(up.as_private(), a);
    assert_eq!(up.suit(), Suit::Diamonds);
    assert_eq!(up.rank(), Rank::Nine);
    assert!(Card::Unknown.is_unknown());
}

#[test]
fn rank_values_run_from_two_to_fourteen() {
    let ranks = [
        Rank::Two, Rank::Three, Rank::Four, Rank::Five, Rank::Six, Rank::Seven, Rank::Eight,
        Rank::Nine, Rank::Ten, Rank::Jack, Rank::Queen, Rank::King, Rank::Ace,
    ];
    for (i, r) in ranks.iter().enumerate() {
        assert_eq!(r.value() as usize, i + 2);
        assert_eq!(Rank::from_value(r.value()), *r);
    }
    for pair in ranks.windows(2) {
        assert!(pair[0] < pair[1]);
    }
    assert_eq!(Rank::from_value(0), Rank::Ace);
    assert_eq!(Rank::from_value(200), Rank::Ace);
}

#[test]
fn suit_indices_follow_declaration_order() {
    assert_eq!(Suit::Clubs.index(), 0);
    assert_eq!(Suit::Diamonds.index(), 1);
    assert_eq!(Suit::Hearts.index(), 2);
    assert_eq!(Suit::Spades.index(), 3);
}
