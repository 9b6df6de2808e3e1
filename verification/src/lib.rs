//! Ranking of seven-card poker hands.
//!
//! A hand is seven distinct cards: two private and five shared. The library
//! decodes cards from their numbers, finds the strongest category that a hand
//! reaches together with the cards that realise it, and decides between two
//! ranked hands.

pub mod card;
pub mod compare;
pub mod counting;
pub mod deal;
pub mod evaluate;
pub mod hand;
pub mod laws;
pub mod layout;
pub mod level;
pub mod order;
pub mod ranking;
pub mod sorting;
pub mod text;

pub use card::{Card, HandError, Suit};
pub use compare::compare;
pub use deal::{deal, Outcome};
pub use evaluate::{evaluate, EvaluatedHand};
pub use hand::Hand;
pub use level::{HandLevel, Winner};
pub use text::cards_tostring;
