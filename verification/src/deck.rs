//! The deck: an ordered collection of cards, and what can be asked of it.

use vstd::prelude::*;
use vstd::string::StringExecFns;
use crate::card::{symbols_of, valid_card, views, Card, CardView, ManaColor};
use crate::export::{decimal_string, export_lines, export_text};
use crate::lands::{copies, LandsNeeded};
use crate::sample::{choose_positions, is_selection, lemma_selection_of_all, selected};
use crate::stats;

verus! {

/// Whether no card of the sequence is a colourless land.
pub open spec fn all_valid(cards: Seq<CardView>) -> bool {
    forall|i: int| 0 <= i < cards.len() ==> valid_card(#[trigger] cards[i])
}

/// The cards of a list of counted cards.
pub open spec fn kinds(counts: Seq<(Card, usize)>) -> Seq<CardView> {
    Seq::new(counts.len(), |j: int| counts[j].0@)
}

/// Where `card` stands in a list of counted cards, if it does.
fn find_kind(counts: &Vec<(Card, usize)>, card: &Card) -> (found: Option<usize>)
    ensures
        match found {
            Some(j) => j < counts@.len() && kinds(counts@)[j as int] == card@,
            None => !kinds(counts@).contains(card@),
        },
{
    let mut j: usize = 0;
    while j < counts.len()
        invariant
            j <= counts.len(),
            forall|k: int| 0 <= k < j ==> kinds(counts@)[k] != card@,
        decreases counts.len() - j,
    {
        if counts[j].0.same(card) {
            return Some(j);
        }
        j += 1;
    }
    None
}

/// A deck of cards, in the order in which they were added.
pub struct Deck {
    cards: Vec<Card>,
}

impl View for Deck {
    type V = Seq<CardView>;

    closed spec fn view(&self) -> Seq<CardView> {
        views(self.cards@)
    }
}

impl Deck {
    /// A deck holds no colourless land.
    pub open spec fn wf(&self) -> bool {
        all_valid(self@)
    }

    /// An empty deck.
    pub fn new() -> (deck: Deck)
        ensures
            deck@ == Seq::<CardView>::empty(),
            deck.wf(),
    {
        let deck = Deck { cards: Vec::new() };
        assert(deck@ =~= Seq::<CardView>::empty());
        deck
    }

    /// The number of cards in the deck: its spells and its lands.
    pub fn len(&self) -> (n: usize)
        ensures
            n == self@.len(),
            n == stats::spell_count(self@) + stats::land_count(self@),
    {
        proof {
            stats::lemma_spells_and_lands(self@);
        }
        self.cards.len()
    }

    /// Adds a card at the end of the deck.
    pub fn add(&mut self, card: Card)
        requires
            old(self).wf(),
            card.wf(),
        ensures
            final(self)@ == old(self)@.push(card@),
            final(self).wf(),
    {
        self.cards.push(card);
        assert(self@ =~= old(self)@.push(card@));
    }

    /// Adds `n` copies of a card at the end of the deck.
    pub fn add_cards(&mut self, n: usize, card: Card)
        requires
            old(self).wf(),
            card.wf(),
        ensures
            final(self)@ == old(self)@ + copies(card@, n as nat),
            final(self).wf(),
    {
        let mut i: usize = 0;
        assert(self@ =~= old(self)@ + copies(card@, 0));
        while i < n
            invariant
                i <= n,
                card.wf(),
                self.wf(),
                self@ == old(self)@ + copies(card@, i as nat),
            decreases n - i,
        {
            self.add(card.clone());
            assert(self@ =~= old(self)@ + copies(card@, (i + 1) as nat));
            i += 1;
        }
    }

    /// Adds the lands that `land_counts` asks for: the swamps, then the
    /// plains, the forests, the mountains and the islands.
    pub fn add_lands(&mut self, land_counts: LandsNeeded)
        requires
            old(self).wf(),
        ensures
            final(self)@ == old(self)@ + land_counts.cards(),
            final(self).wf(),
    {
        self.add_cards(land_counts.swamp, Card::Land(ManaColor::Black));
        self.add_cards(land_counts.plain, Card::Land(ManaColor::White));
        self.add_cards(land_counts.forest, Card::Land(ManaColor::Green));
        self.add_cards(land_counts.mountain, Card::Land(ManaColor::Red));
        self.add_cards(land_counts.island, Card::Land(ManaColor::Blue));
        assert(self@ =~= old(self)@ + land_counts.cards());
    }

    /// The number of spells in the deck.
    pub fn card_count(&self) -> (n: usize)
        ensures
            n == stats::spell_count(self@),
    {
        let mut n: usize = 0;
        let mut i: usize = 0;
        while i < self.cards.len()
            invariant
                i <= self.cards.len(),
                n <= i,
                n == stats::spell_count(self@.take(i as int)),
            decreases self.cards.len() - i,
        {
            assert(self@.take(i + 1).drop_last() =~= self@.take(i as int));
            if !self.cards[i].is_land() {
                n += 1;
            }
            i += 1;
        }
        assert(self@.take(self.cards.len() as int) =~= self@);
        n
    }

    /// The number of lands in the deck.
    pub fn land_count(&self) -> (n: usize)
        ensures
            n == stats::land_count(self@),
    {
        let mut n: usize = 0;
        let mut i: usize = 0;
        while i < self.cards.len()
            invariant
                i <= self.cards.len(),
                n <= i,
                n == stats::land_count(self@.take(i as int)),
            decreases self.cards.len() - i,
        {
            assert(self@.take(i + 1).drop_last() =~= self@.take(i as int));
            if self.cards[i].is_land() {
                n += 1;
            }
            i += 1;
        }
        assert(self@.take(self.cards.len() as int) =~= self@);
        n
    }

    /// The number of mana symbols in the costs of all spells of the deck,
    /// whatever their colour; `None` where that number does not fit.
    pub fn mana_symbol_count(&self) -> (total: Option<usize>)
        ensures
            total == if stats::symbol_count(self@) <= usize::MAX {
                Some(stats::symbol_count(self@) as usize)
            } else {
                None
            },
    {
        let mut n: usize = 0;
        let mut i: usize = 0;
        while i < self.cards.len()
            invariant
                i <= self.cards.len(),
                n == stats::symbol_count(self@.take(i as int)),
            decreases self.cards.len() - i,
        {
            assert(self@.take(i + 1).drop_last() =~= self@.take(i as int));
            match n.checked_add(self.cards[i].symbol_count()) {
                Some(sum) => {
                    n = sum;
                },
                None => {
                    proof {
                        stats::lemma_symbol_count_prefix(self@, i + 1);
                    }
                    return None;
                },
            }
            i += 1;
        }
        assert(self@.take(self.cards.len() as int) =~= self@);
        Some(n)
    }

    /// The number of symbols of `color` in the costs of all spells of the deck.
    pub fn mana_count(&self, color: ManaColor) -> (n: usize)
        requires
            stats::mana_count(self@, color) <= usize::MAX,
        ensures
            n == stats::mana_count(self@, color),
    {
        let mut n: usize = 0;
        let mut i: usize = 0;
        while i < self.cards.len()
            invariant
                i <= self.cards.len(),
                stats::mana_count(self@, color) <= usize::MAX,
                n == stats::mana_count(self@.take(i as int), color),
            decreases self.cards.len() - i,
        {
            assert(self@.take(i + 1).drop_last() =~= self@.take(i as int));
            proof {
                stats::lemma_mana_count_prefix(self@, color, i + 1);
            }
            n += self.cards[i].color_count(color);
            i += 1;
        }
        assert(self@.take(self.cards.len() as int) =~= self@);
        n
    }

    /// The number of spells whose cost holds at least one symbol of `color`.
    pub fn mana_needed(&self, color: ManaColor) -> (n: usize)
        ensures
            n == stats::mana_needed(self@, color),
    {
        let mut n: usize = 0;
        let mut i: usize = 0;
        while i < self.cards.len()
            invariant
                i <= self.cards.len(),
                n <= i,
                n == stats::mana_needed(self@.take(i as int), color),
            decreases self.cards.len() - i,
        {
            assert(self@.take(i + 1).drop_last() =~= self@.take(i as int));
            proof {
                crate::card::lemma_count_color(symbols_of(self@[i as int]), color);
            }
            if self.cards[i].color_count(color) > 0 {
                n += 1;
            }
            i += 1;
        }
        assert(self@.take(self.cards.len() as int) =~= self@);
        n
    }

    /// The most symbols of `color` that the cost of any one spell of the deck
    /// holds; 0 for a deck without spells.
    pub fn most_mana_needed(&self, color: ManaColor) -> (most: usize)
        ensures
            most == stats::most_mana_needed(self@, color),
    {
        let mut most: usize = 0;
        let mut i: usize = 0;
        while i < self.cards.len()
            invariant
                i <= self.cards.len(),
                most == stats::most_mana_needed(self@.take(i as int), color),
            decreases self.cards.len() - i,
        {
            assert(self@.take(i + 1).drop_last() =~= self@.take(i as int));
            let here = self.cards[i].color_count(color);
            if here > most {
                most = here;
            }
            i += 1;
        }
        assert(self@.take(self.cards.len() as int) =~= self@);
        most
    }

    /// The different cards of the deck, each with the number of times it
    /// occurs, in the order in which they first occur.
    pub fn card_counts(&self) -> (counts: Vec<(Card, usize)>)
        ensures
            kinds(counts@) == stats::distinct(self@),
            forall|j: int|
                0 <= j < counts@.len() ==> (#[trigger] counts@[j]).1 == stats::occurrences(
                    self@,
                    counts@[j].0@,
                ),
    {
        let mut counts: Vec<(Card, usize)> = Vec::new();
        let mut i: usize = 0;
        assert(kinds(counts@) =~= stats::distinct(self@.take(0)));
        while i < self.cards.len()
            invariant
                i <= self.cards.len(),
                kinds(counts@) == stats::distinct(self@.take(i as int)),
                forall|j: int|
                    0 <= j < counts@.len() ==> (#[trigger] counts@[j]).1 == stats::occurrences(
                        self@.take(i as int),
                        counts@[j].0@,
                    ),
            decreases self.cards.len() - i,
        {
            let card = &self.cards[i];
            let ghost seen = self@.take(i as int);
            let ghost next = self@.take(i + 1);
            let ghost before = counts@;
            proof {
                assert(next.drop_last() =~= seen);
                assert(next =~= seen.push(card@));
                stats::lemma_distinct(seen);
                stats::lemma_occurrences_bounded(seen, card@);
                assert forall|j: int| 0 <= j < before.len() implies stats::occurrences(
                    next,
                    (#[trigger] before[j]).0@,
                ) == before[j].1 + if kinds(before)[j] == card@ {
                    1nat
                } else {
                    0nat
                } by {
                    stats::lemma_occurrences_push(seen, card@, before[j].0@);
                }
            }
            match find_kind(&counts, card) {
                Some(j) => {
                    let n: usize = counts[j].1;
                    assert(kinds(before)[j as int] == card@);
                    assert(stats::distinct(seen).contains(card@));
                    counts.set(j, (card.clone(), n + 1));
                    assert(kinds(counts@) =~= kinds(before));
                    assert forall|k: int| 0 <= k < counts@.len() implies (#[trigger] counts@[k]).1
                        == stats::occurrences(next, counts@[k].0@) by {
                        if k != j {
                            assert(counts@[k] == before[k]);
                            assert(kinds(before)[k] != kinds(before)[j as int]);
                        }
                    }
                },
                None => {
                    assert(!seen.contains(card@));
                    counts.push((card.clone(), 1));
                    assert(kinds(counts@) =~= kinds(before).push(card@));
                    assert forall|k: int| 0 <= k < counts@.len() implies (#[trigger] counts@[k]).1
                        == stats::occurrences(next, counts@[k].0@) by {
                        if k < before.len() {
                            assert(counts@[k] == before[k]);
                            assert(kinds(before)[k] == before[k].0@);
                            assert(kinds(before).contains(kinds(before)[k]));
                        } else {
                            stats::lemma_occurrences_push(seen, card@, card@);
                        }
                    }
                },
            }
            i += 1;
        }
        assert(self@.take(self.cards.len() as int) =~= self@);
        counts
    }

    /// The deck list in the text format of the digital client: the heading
    /// `Deck`, then a line for each different card with its number, in the
    /// order in which the cards first occur.
    pub fn as_mtga(&self) -> (text: String)
        requires
            self.wf(),
        ensures
            text@ == export_text(self@),
    {
        let counts = self.card_counts();
        let mut text = String::from_str("Deck\n");
        let mut j: usize = 0;
        proof {
            stats::lemma_distinct(self@);
            assert(kinds(counts@).take(0) =~= Seq::<CardView>::empty());
            assert(text@ =~= "Deck\n"@ + export_lines(self@, kinds(counts@).take(0)));
        }
        while j < counts.len()
            invariant
                j <= counts.len(),
                self.wf(),
                kinds(counts@) == stats::distinct(self@),
                forall|card: CardView| #[trigger]
                    stats::distinct(self@).contains(card) <==> self@.contains(card),
                forall|k: int|
                    0 <= k < counts@.len() ==> (#[trigger] counts@[k]).1 == stats::occurrences(
                        self@,
                        counts@[k].0@,
                    ),
                text@ == "Deck\n"@ + export_lines(self@, kinds(counts@).take(j as int)),
            decreases counts.len() - j,
        {
            let ghost listed = kinds(counts@).take(j as int);
            let ghost lines = export_lines(self@, listed);
            let ghost card = counts@[j as int].0@;
            proof {
                assert(kinds(counts@)[j as int] == card);
                assert(stats::distinct(self@).contains(card));
                assert(self@.contains(card));
                assert(kinds(counts@).take(j + 1).drop_last() =~= listed);
                assert(kinds(counts@).take(j + 1).last() == card);
            }
            let number = decimal_string(counts[j].1);
            let shown = counts[j].0.to_string();
            text.append(number.as_str());
            text.append(" ");
            text.append(shown.as_str());
            text.append(" () 0\n");
            assert(text@ =~= "Deck\n"@ + export_lines(self@, kinds(counts@).take(j + 1)));
            j += 1;
        }
        assert(kinds(counts@).take(counts.len() as int) =~= kinds(counts@));
        text
    }

    /// The cards that stand at the given places of the deck, one for each
    /// place and in the order of the places.
    pub fn pick(&self, positions: &Vec<usize>) -> (hand: Vec<Card>)
        requires
            forall|i: int| 0 <= i < positions@.len() ==> positions@[i] < self@.len(),
        ensures
            hand@.len() == positions@.len(),
            views(hand@) == selected(self@, positions@),
    {
        let mut hand: Vec<Card> = Vec::new();
        let mut i: usize = 0;
        while i < positions.len()
            invariant
                i <= positions.len(),
                forall|j: int| 0 <= j < positions@.len() ==> positions@[j] < self@.len(),
                hand@.len() == i,
                forall|j: int| 0 <= j < i ==> hand@[j]@ == self@[positions@[j] as int],
            decreases positions.len() - i,
        {
            hand.push(self.cards[positions[i]].clone());
            i += 1;
        }
        assert(views(hand@) =~= selected(self@, positions@));
        hand
    }

    /// Draws `x` cards at random, lands included and none of them twice; the
    /// whole deck where it has no more than `x` cards.
    pub fn draw(&self, x: usize) -> (hand: Vec<Card>)
        ensures
            hand@.len() == if x <= self@.len() {
                x as nat
            } else {
                self@.len()
            },
            is_selection(self@, views(hand@)),
            x >= self@.len() ==> views(hand@).to_multiset() == self@.to_multiset(),
    {
        let amount: usize = if x < self.cards.len() {
            x
        } else {
            self.cards.len()
        };
        let positions = choose_positions(&self.cards, amount);
        let hand = self.pick(&positions);
        proof {
            lemma_selection_of_all(self@, positions@);
        }
        hand
    }

    /// The lands to add to the deck, given for each colour the number that
    /// its share of the lands comes to: of each colour at least as many as
    /// the most demanding single spell asks for, so that every spell of the
    /// deck can be paid.
    pub fn lands_needed(&self, shares: LandsNeeded) -> (needed: LandsNeeded)
        ensures
            needed.swamp == at_least(shares.swamp, stats::most_mana_needed(self@, ManaColor::Black)),
            needed.plain == at_least(shares.plain, stats::most_mana_needed(self@, ManaColor::White)),
            needed.forest == at_least(
                shares.forest,
                stats::most_mana_needed(self@, ManaColor::Green),
            ),
            needed.mountain == at_least(
                shares.mountain,
                stats::most_mana_needed(self@, ManaColor::Red),
            ),
            needed.island == at_least(shares.island, stats::most_mana_needed(self@, ManaColor::Blue)),
            forall|color: ManaColor|
                color != ManaColor::Colorless ==> #[trigger] needed.of(color)
                    >= stats::most_mana_needed(self@, color) && needed.of(color) >= shares.of(
                    color,
                ),
    {
        LandsNeeded {
            swamp: larger(shares.swamp, self.most_mana_needed(ManaColor::Black)),
            plain: larger(shares.plain, self.most_mana_needed(ManaColor::White)),
            forest: larger(shares.forest, self.most_mana_needed(ManaColor::Green)),
            mountain: larger(shares.mountain, self.most_mana_needed(ManaColor::Red)),
            island: larger(shares.island, self.most_mana_needed(ManaColor::Blue)),
        }
    }
}

/// The larger of a share and a floor.
pub open spec fn at_least(share: usize, floor: nat) -> nat {
    if share >= floor {
        share as nat
    } else {
        floor
    }
}

/// The larger of two numbers.
fn larger(a: usize, b: usize) -> (m: usize)
    ensures
        m == at_least(a, b as nat),
{
    if a >= b {
        a
    } else {
        b
    }
}

} // verus!
