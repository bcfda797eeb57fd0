//! A poker hand evaluator and Monte Carlo equity engine over a compact
//! bit encoding of cards.
pub mod bits;
pub mod text;
pub mod card;
pub mod card_order;
pub mod score;
pub mod hand;
pub mod equity;
pub mod laws;
pub mod setup;
