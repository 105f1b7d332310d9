//! The wording of moves, cards and seats in error messages.

use crate::card::{Card, Rank, Suit};
use crate::model::Action;
use crate::player::PlayerId;
use vstd::prelude::*;
use vstd::string::StringExecFns;

verus! {

pub open spec fn suit_text(suit: Suit) -> Seq<char> {
    match suit {
        Suit::Clubs => "Clubs"@,
        Suit::Diamonds => "Diamonds"@,
        Suit::Hearts => "Hearts"@,
        Suit::Spades => "Spades"@,
    }
}

pub open spec fn rank_text(rank: Rank) -> Seq<char> {
    match rank {
        Rank::Two => "Two"@,
        Rank::Three => "Three"@,
        Rank::Four => "Four"@,
        Rank::Five => "Five"@,
        Rank::Six => "Six"@,
        Rank::Seven => "Seven"@,
        Rank::Eight => "Eight"@,
        Rank::Nine => "Nine"@,
        Rank::Ten => "Ten"@,
        Rank::Jack => "Jack"@,
        Rank::Queen => "Queen"@,
        Rank::King => "King"@,
        Rank::Ace => "Ace"@,
    }
}

pub open spec fn seat_text(pid: PlayerId) -> Seq<char> {
    match pid {
        PlayerId::P0 => "P0"@,
        PlayerId::P1 => "P1"@,
        PlayerId::P2 => "P2"@,
        PlayerId::P3 => "P3"@,
        PlayerId::P4 => "P4"@,
        PlayerId::P5 => "P5"@,
    }
}

/// The card as its debug form reads: the visibility, then suit and rank in
/// braces, or `Unknown`.
pub open spec fn card_text(card: Card) -> Seq<char> {
    match card {
        Card::Public { suit, rank } => "Public { suit: "@ + suit_text(suit) + ", rank: "@
            + rank_text(rank) + " }"@,
        Card::Private { suit, rank } => "Private { suit: "@ + suit_text(suit) + ", rank: "@
            + rank_text(rank) + " }"@,
        Card::Unknown => "Unknown"@,
    }
}

pub open spec fn digit_text(d: nat) -> Seq<char> {
    if d == 0 {
        "0"@
    } else if d == 1 {
        "1"@
    } else if d == 2 {
        "2"@
    } else if d == 3 {
        "3"@
    } else if d == 4 {
        "4"@
    } else if d == 5 {
        "5"@
    } else if d == 6 {
        "6"@
    } else if d == 7 {
        "7"@
    } else if d == 8 {
        "8"@
    } else {
        "9"@
    }
}

/// The number in decimal digits.
pub open spec fn decimal_text(n: nat) -> Seq<char>
    decreases n,
{
    if n < 10 {
        digit_text(n)
    } else {
        decimal_text(n / 10) + digit_text(n % 10)
    }
}

/// The move as its debug form reads: the kind, then the fields in braces.
pub open spec fn action_text(action: Action) -> Seq<char> {
    match action {
        Action::Attack { card } => "Attack { card: "@ + card_text(card) + " }"@,
        Action::PassAttack => "PassAttack"@,
        Action::Defend { pile_index, card } => "Defend { pile_index: "@ + decimal_text(
            pile_index as nat,
        ) + ", card: "@ + card_text(card) + " }"@,
        Action::Take => "Take"@,
        Action::Throw { card: Some(card) } => "Throw { card: Some("@ + card_text(card) + ") }"@,
        Action::Throw { card: None } => "Throw { card: None }"@,
        Action::Reflect { card } => "Reflect { card: "@ + card_text(card) + " }"@,
        Action::ReflectTrump { card } => "ReflectTrump { card: "@ + card_text(card) + " }"@,
    }
}

fn suit_name(suit: Suit) -> (text: &'static str)
    ensures
        text@ == suit_text(suit),
{
    match suit {
        Suit::Clubs => "Clubs",
        Suit::Diamonds => "Diamonds",
        Suit::Hearts => "Hearts",
        Suit::Spades => "Spades",
    }
}

fn rank_name(rank: Rank) -> (text: &'static str)
    ensures
        text@ == rank_text(rank),
{
    match rank {
        Rank::Two => "Two",
        Rank::Three => "Three",
        Rank::Four => "Four",
        Rank::Five => "Five",
        Rank::Six => "Six",
        Rank::Seven => "Seven",
        Rank::Eight => "Eight",
        Rank::Nine => "Nine",
        Rank::Ten => "Ten",
        Rank::Jack => "Jack",
        Rank::Queen => "Queen",
        Rank::King => "King",
        Rank::Ace => "Ace",
    }
}

pub(crate) fn seat_name(pid: PlayerId) -> (text: &'static str)
    ensures
        text@ == seat_text(pid),
{
    match pid {
        PlayerId::P0 => "P0",
        PlayerId::P1 => "P1",
        PlayerId::P2 => "P2",
        PlayerId::P3 => "P3",
        PlayerId::P4 => "P4",
        PlayerId::P5 => "P5",
    }
}

fn digit_name(d: usize) -> (text: &'static str)
    requires
        d < 10,
    ensures
        text@ == digit_text(d as nat),
{
    if d == 0 {
        "0"
    } else if d == 1 {
        "1"
    } else if d == 2 {
        "2"
    } else if d == 3 {
        "3"
    } else if d == 4 {
        "4"
    } else if d == 5 {
        "5"
    } else if d == 6 {
        "6"
    } else if d == 7 {
        "7"
    } else if d == 8 {
        "8"
    } else {
        "9"
    }
}

fn decimal(n: usize) -> (text: String)
    ensures
        text@ == decimal_text(n as nat),
    decreases n,
{
    if n < 10 {
        String::from_str(digit_name(n))
    } else {
        decimal(n / 10).concat(digit_name(n % 10))
    }
}

fn describe_card(card: &Card) -> (text: String)
    ensures
        text@ == card_text(*card),
{
    match card {
        Card::Public { suit, rank } => String::from_str("Public { suit: ").concat(
            suit_name(*suit),
        ).concat(", rank: ").concat(rank_name(*rank)).concat(" }"),
        Card::Private { suit, rank } => String::from_str("Private { suit: ").concat(
            suit_name(*suit),
        ).concat(", rank: ").concat(rank_name(*rank)).concat(" }"),
        Card::Unknown => String::from_str("Unknown"),
    }
}

/// The move in words, as its debug form reads.
pub fn describe_action(action: &Action) -> (text: String)
    ensures
        text@ == action_text(*action),
{
    match action {
        Action::Attack { card } => String::from_str("Attack { card: ").concat(
            describe_card(card).as_str(),
        ).concat(" }"),
        Action::PassAttack => String::from_str("PassAttack"),
        Action::Defend { pile_index, card } => String::from_str("Defend { pile_index: ").concat(
            decimal(*pile_index).as_str(),
        ).concat(", card: ").concat(describe_card(card).as_str()).concat(" }"),
        Action::Take => String::from_str("Take"),
        Action::Throw { card: Some(card) } => String::from_str("Throw { card: Some(").concat(
            describe_card(card).as_str(),
        ).concat(") }"),
        Action::Throw { card: None } => String::from_str("Throw { card: None }"),
        Action::Reflect { card } => String::from_str("Reflect { card: ").concat(
            describe_card(card).as_str(),
        ).concat(" }"),
        Action::ReflectTrump { card } => String::from_str("ReflectTrump { card: ").concat(
            describe_card(card).as_str(),
        ).concat(" }"),
    }
}

} // verus!
