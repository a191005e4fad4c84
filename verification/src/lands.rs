//! How many basic lands of each kind a deck is to get.

use vstd::prelude::*;
use crate::card::{CardView, ManaColor};

verus! {

/// A number of lands of each of the five basic kinds.
#[derive(Debug, Clone, Copy, PartialEq, Eq, PartialOrd, Structural)]
pub struct LandsNeeded {
    /// Black.
    pub swamp: usize,
    /// White.
    pub plain: usize,
    /// Green.
    pub forest: usize,
    /// Red.
    pub mountain: usize,
    /// Blue.
    pub island: usize,
}

/// `n` copies of one card.
pub open spec fn copies(card: CardView, n: nat) -> Seq<CardView> {
    Seq::new(n, |i: int| card)
}

impl LandsNeeded {
    /// The number of lands of one colour; 0 for colourless, which has no land.
    pub open spec fn of(&self, color: ManaColor) -> nat {
        match color {
            ManaColor::Black => self.swamp as nat,
            ManaColor::White => self.plain as nat,
            ManaColor::Green => self.forest as nat,
            ManaColor::Red => self.mountain as nat,
            ManaColor::Blue => self.island as nat,
            ManaColor::Colorless => 0,
        }
    }

    /// The lands as cards: the swamps, then the plains, the forests, the
    /// mountains and the islands.
    pub open spec fn cards(&self) -> Seq<CardView> {
        copies(CardView::Land(ManaColor::Black), self.swamp as nat) + copies(
            CardView::Land(ManaColor::White),
            self.plain as nat,
        ) + copies(CardView::Land(ManaColor::Green), self.forest as nat) + copies(
            CardView::Land(ManaColor::Red),
            self.mountain as nat,
        ) + copies(CardView::Land(ManaColor::Blue), self.island as nat)
    }
}

} // verus!
