//! Mana colours and cards: the value types the deck is made of.

use vstd::prelude::*;
use vstd::string::StringExecFns;

verus! {

/// A colour of mana, or the generic colourless kind.
#[derive(Clone, Copy, Debug, PartialEq, Eq, Hash, Structural)]
pub enum ManaColor {
    White,
    Blue,
    Black,
    Red,
    Green,
    Colorless,
}

/// A card: a basic land of one colour, or a spell.
#[derive(Debug, PartialEq, Eq, Hash)]
pub enum Card {
    /// A basic land that produces mana of the given colour.
    Land(ManaColor),
    /// A spell.
    Card {
        /// The name of the card.
        name: String,
        /// One entry for each mana symbol of the cost.
        mana_cost: Vec<ManaColor>,
        /// The rules text of the card.
        text: String,
    },
}

/// What a card is, as a mathematical value.
pub enum CardView {
    Land(ManaColor),
    Spell { name: Seq<char>, mana_cost: Seq<ManaColor>, text: Seq<char> },
}

impl View for Card {
    type V = CardView;

    open spec fn view(&self) -> CardView {
        match *self {
            Card::Land(color) => CardView::Land(color),
            Card::Card { name, mana_cost, text } => CardView::Spell {
                name: name@,
                mana_cost: mana_cost@,
                text: text@,
            },
        }
    }
}

/// What each of a sequence of cards is.
pub open spec fn views(cards: Seq<Card>) -> Seq<CardView> {
    Seq::new(cards.len(), |i: int| cards[i]@)
}

/// A land has one of the five colours: there is no colourless basic land.
pub open spec fn valid_card(card: CardView) -> bool {
    card != CardView::Land(ManaColor::Colorless)
}

/// The name of the basic land of a colour; empty for colourless, which has none.
pub open spec fn land_name(color: ManaColor) -> Seq<char> {
    match color {
        ManaColor::White => "Plains"@,
        ManaColor::Blue => "Island"@,
        ManaColor::Black => "Swamp"@,
        ManaColor::Red => "Mountain"@,
        ManaColor::Green => "Forest"@,
        ManaColor::Colorless => Seq::empty(),
    }
}

/// The name under which a card is listed.
pub open spec fn display_name(card: CardView) -> Seq<char> {
    match card {
        CardView::Land(color) => land_name(color),
        CardView::Spell { name, .. } => name,
    }
}

/// The symbols of a card's cost: those of the spell, none for a land.
pub open spec fn symbols_of(card: CardView) -> Seq<ManaColor> {
    match card {
        CardView::Land(_) => Seq::empty(),
        CardView::Spell { mana_cost, .. } => mana_cost,
    }
}

/// How often `color` occurs among the symbols of one cost.
pub open spec fn count_color(cost: Seq<ManaColor>, color: ManaColor) -> nat
    decreases cost.len(),
{
    if cost.len() == 0 {
        0
    } else {
        count_color(cost.drop_last(), color) + if cost.last() == color {
            1nat
        } else {
            0nat
        }
    }
}

/// A colour occurs in a cost at most as often as the cost has symbols, and
/// at least once exactly if the cost contains it.
pub proof fn lemma_count_color(cost: Seq<ManaColor>, color: ManaColor)
    ensures
        count_color(cost, color) <= cost.len(),
        count_color(cost, color) > 0 <==> cost.contains(color),
    decreases cost.len(),
{
    if cost.len() > 0 {
        let rest = cost.drop_last();
        lemma_count_color(rest, color);
        if cost.last() == color {
            assert(cost[cost.len() - 1] == color);
        } else if rest.contains(color) {
            let i = choose|i: int| 0 <= i < rest.len() && rest[i] == color;
            assert(cost[i] == color);
        } else if cost.contains(color) {
            let i = choose|i: int| 0 <= i < cost.len() && cost[i] == color;
            assert(rest[i] == color);
        }
    }
}

/// Whether two costs hold the same symbols in the same order.
fn same_cost(a: &Vec<ManaColor>, b: &Vec<ManaColor>) -> (same: bool)
    ensures
        same == (a@ == b@),
{
    if a.len() != b.len() {
        return false;
    }
    let mut i: usize = 0;
    while i < a.len()
        invariant
            i <= a.len(),
            a.len() == b.len(),
            forall|j: int| 0 <= j < i ==> a@[j] == b@[j],
        decreases a.len() - i,
    {
        if a[i] != b[i] {
            return false;
        }
        i += 1;
    }
    assert(a@ =~= b@);
    true
}

/// A copy of a cost.
fn copy_cost(cost: &Vec<ManaColor>) -> (out: Vec<ManaColor>)
    ensures
        out@ == cost@,
{
    let mut out: Vec<ManaColor> = Vec::new();
    let mut i: usize = 0;
    while i < cost.len()
        invariant
            i <= cost.len(),
            out@ == cost@.take(i as int),
        decreases cost.len() - i,
    {
        out.push(cost[i]);
        assert(cost@.take(i + 1) =~= cost@.take(i as int).push(cost@[i as int]));
        i += 1;
    }
    assert(cost@.take(cost.len() as int) =~= cost@);
    out
}

impl Card {
    /// Whether the card can exist: every card but a colourless land.
    pub open spec fn wf(&self) -> bool {
        valid_card(self@)
    }

    /// Whether the card is a land.
    pub fn is_land(&self) -> (land: bool)
        ensures
            land == (self@ is Land),
    {
        match self {
            Card::Land(_) => true,
            Card::Card { .. } => false,
        }
    }

    /// The number of symbols in the card's cost; a land has none.
    pub fn symbol_count(&self) -> (n: usize)
        ensures
            n == symbols_of(self@).len(),
    {
        match self {
            Card::Land(_) => 0,
            Card::Card { mana_cost, .. } => mana_cost.len(),
        }
    }

    /// The number of symbols of `color` in the card's cost.
    pub fn color_count(&self, color: ManaColor) -> (n: usize)
        ensures
            n == count_color(symbols_of(self@), color),
    {
        match self {
            Card::Land(_) => 0,
            Card::Card { mana_cost, .. } => {
                let mut n: usize = 0;
                let mut i: usize = 0;
                while i < mana_cost.len()
                    invariant
                        i <= mana_cost.len(),
                        n <= i,
                        n == count_color(mana_cost@.take(i as int), color),
                    decreases mana_cost.len() - i,
                {
                    assert(mana_cost@.take(i + 1).drop_last() =~= mana_cost@.take(i as int));
                    if mana_cost[i] == color {
                        n += 1;
                    }
                    i += 1;
                }
                assert(mana_cost@.take(mana_cost.len() as int) =~= mana_cost@);
                n
            },
        }
    }

    /// The name under which the card is listed: a spell's own name, a land's
    /// basic land name.
    pub fn to_string(&self) -> (shown: String)
        requires
            self.wf(),
        ensures
            shown@ == display_name(self@),
    {
        match self {
            Card::Card { name, .. } => name.clone(),
            Card::Land(color) => match color {
                ManaColor::White => String::from_str("Plains"),
                ManaColor::Blue => String::from_str("Island"),
                ManaColor::Black => String::from_str("Swamp"),
                ManaColor::Red => String::from_str("Mountain"),
                ManaColor::Green => String::from_str("Forest"),
                ManaColor::Colorless => vstd::pervasive::unreached(),
            },
        }
    }

    /// Structural equality: the same land, or spells with the same name, cost
    /// and text.
    pub fn same(&self, other: &Card) -> (same: bool)
        ensures
            same == (self@ == other@),
    {
        match self {
            Card::Land(color) => match other {
                Card::Land(other_color) => *color == *other_color,
                Card::Card { .. } => false,
            },
            Card::Card { name, mana_cost, text } => match other {
                Card::Land(_) => false,
                Card::Card { name: other_name, mana_cost: other_cost, text: other_text } => {
                    *name == *other_name && same_cost(mana_cost, other_cost) && *text
                        == *other_text
                },
            },
        }
    }
}

impl Clone for Card {
    fn clone(&self) -> (copy: Card)
        ensures
            copy@ == self@,
    {
        match self {
            Card::Land(color) => Card::Land(*color),
            Card::Card { name, mana_cost, text } => Card::Card {
                name: name.clone(),
                mana_cost: copy_cost(mana_cost),
                text: text.clone(),
            },
        }
    }
}

} // verus!
