//! Rules engine and move search for Durak: cards, the game state machine,
//! legal-move enumeration and move application, the filling in of hidden
//! cards, and Monte Carlo tree search, with machine-checked contracts.

pub mod aggregate;
pub mod apply;
pub mod card;
pub mod deal;
pub mod determinize;
pub mod laws;
pub mod legal;
pub mod model;
pub mod player;
pub mod proofs;
pub mod random;
pub mod ranking;
pub mod rules;
pub mod search;
pub mod seqs;
pub mod state;
pub mod taking;
pub mod wording;

pub use aggregate::{absorb_results, solve, SolveAggregate};
pub use card::{full_deck, Card, Rank, Suit};
pub use determinize::{all_cards_deducible, deduce_cards};
pub use model::{Action, EngineError, GameConfig, Phase, Pile, PlayerType};
pub use player::PlayerId;
pub use random::shuffle;
pub use ranking::{normalize_action_key, rank_results, ActionKey, ActionKind, RolloutActionResult};
pub use search::{mcts_evaluate_actions, pick_random_action, simulate, MCTSEvalAll, NodeStats};
pub use state::GameState;
pub use wording::describe_action;
