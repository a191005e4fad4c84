//! Land-count recommendations for a deck of trading cards.
//!
//! A [`Deck`] is an ordered collection of [`Card`]s. From the mana symbols in
//! the costs of its spells the deck derives per-colour statistics, the least
//! number of lands of each colour that lets every single spell be paid, a
//! random draw, and a deck list in the text format of the digital client.

pub mod card;
pub mod cost;
pub mod dataset;
pub mod deck;
pub mod export;
pub mod lands;
pub mod sample;
pub mod stats;

pub use card::{Card, CardView, ManaColor};
pub use deck::Deck;
pub use lands::LandsNeeded;
