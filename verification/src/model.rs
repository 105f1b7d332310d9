//! The plain data of a game: piles, phases, settings, moves and errors.

use crate::card::Card;
use vstd::prelude::*;
use vstd::string::StringExecFns;

verus! {

/// One attack card on the table with the card that beat it, if any.
#[derive(Debug, Clone, Copy, PartialEq, Eq, Hash)]
pub struct Pile {
    pub attack: Card,
    pub defense: Option<Card>,
}

impl Pile {
    /// A pile is open until a defense card lies on it.
    pub open spec fn open(self) -> bool {
        self.defense is None
    }

    /// The cards of the pile: the attack card, then the defense card if there is one.
    pub open spec fn cards(self) -> Seq<Card> {
        match self.defense {
            Some(d) => seq![self.attack, d],
            None => seq![self.attack],
        }
    }
}

#[derive(Debug, Clone, Copy, PartialEq, Eq, Hash, Structural)]
pub enum Phase {
    /// An attacker may add a card or end the attack.
    Attacking,
    /// The defender must beat the open pile, redirect the attack, or take.
    Defending,
    /// The defender has decided to take; attackers may throw extra cards.
    Throwing,
}

/// How a seat is played.
#[derive(Debug, Clone, Copy, PartialEq, Eq, Hash, Structural)]
pub enum PlayerType {
    /// A person enters the moves.
    Human,
    /// Picks a legal move at random.
    Random,
    /// Searches with determinized Monte Carlo tree search.
    MCTS,
}

#[derive(Debug, Clone, Copy, PartialEq, Eq, Hash, Structural)]
pub struct GameConfig {
    /// Number of cards in the deck (32, 36, 40, 44, 48 or 52).
    pub deck_size: usize,
    /// Number of players (2 to 6).
    pub num_players: usize,
    /// Whether a defender may redirect an attack by showing a trump of the same rank.
    pub trump_reflecting: bool,
    /// Whether a defender may redirect an attack by playing a card of the same rank.
    pub reflecting: bool,
}

impl Default for GameConfig {
    fn default() -> (config: GameConfig)
        ensures
            config == (GameConfig {
                deck_size: 36,
                num_players: 2,
                trump_reflecting: false,
                reflecting: false,
            }),
    {
        GameConfig { deck_size: 36, num_players: 2, trump_reflecting: false, reflecting: false }
    }
}

#[derive(Debug)]
pub enum EngineError {
    /// The move or the game setup breaks a rule; the text says which.
    IllegalMove(String),
}

impl EngineError {
    /// The reason the error carries.
    pub open spec fn reason(self) -> Seq<char> {
        match self {
            EngineError::IllegalMove(reason) => reason@,
        }
    }

    /// The error as a line of text.
    pub fn to_string(&self) -> (text: String)
        ensures
            text@ == "illegal move: "@ + self.reason(),
    {
        match self {
            EngineError::IllegalMove(reason) => {
                String::from_str("illegal move: ").concat(reason.as_str())
            },
        }
    }
}

#[allow(inconsistent_fields)]
#[derive(Debug, Clone, Copy, PartialEq, Eq, Hash)]
pub enum Action {
    /// The attacker to move plays a card onto the table.
    Attack { card: Card },
    /// The attacker to move adds nothing more.
    PassAttack,
    /// The defender beats the pile at `pile_index` with `card`.
    Defend { pile_index: usize, card: Card },
    /// The defender gives up and will pick up the table.
    Take,
    /// After a take, the attacker to move throws in a card, or `None` to stop.
    Throw { card: Option<Card> },
    /// The defender plays a card of the attack's rank and passes the attack on.
    Reflect { card: Card },
    /// The defender shows a trump of the attack's rank, keeps it, and passes the attack on.
    ReflectTrump { card: Card },
}

impl Action {
    /// The card the move names, if it names one.
    pub open spec fn card(self) -> Option<Card> {
        match self {
            Action::Attack { card } => Some(card),
            Action::Defend { card, .. } => Some(card),
            Action::Throw { card } => card,
            Action::Reflect { card } => Some(card),
            Action::ReflectTrump { card } => Some(card),
            _ => None,
        }
    }
}

} // verus!
