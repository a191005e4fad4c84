//! What a sequence of cards amounts to: how many spells and lands it holds
//! and what the costs of its spells ask for, colour by colour.

use vstd::prelude::*;
use crate::card::{count_color, lemma_count_color, symbols_of, CardView, ManaColor};
use crate::lands::copies;

verus! {

/// The number of spells among `cards`.
pub open spec fn spell_count(cards: Seq<CardView>) -> nat
    decreases cards.len(),
{
    if cards.len() == 0 {
        0
    } else {
        spell_count(cards.drop_last()) + if cards.last() is Spell {
            1nat
        } else {
            0nat
        }
    }
}

/// The number of lands among `cards`.
pub open spec fn land_count(cards: Seq<CardView>) -> nat
    decreases cards.len(),
{
    if cards.len() == 0 {
        0
    } else {
        land_count(cards.drop_last()) + if cards.last() is Land {
            1nat
        } else {
            0nat
        }
    }
}

/// The number of mana symbols, of whatever colour, in the costs of `cards`.
pub open spec fn symbol_count(cards: Seq<CardView>) -> nat
    decreases cards.len(),
{
    if cards.len() == 0 {
        0
    } else {
        symbol_count(cards.drop_last()) + symbols_of(cards.last()).len()
    }
}

/// The number of symbols of `color` in the costs of `cards`.
pub open spec fn mana_count(cards: Seq<CardView>, color: ManaColor) -> nat
    decreases cards.len(),
{
    if cards.len() == 0 {
        0
    } else {
        mana_count(cards.drop_last(), color) + count_color(symbols_of(cards.last()), color)
    }
}

/// The number of cards whose cost holds at least one symbol of `color`.
pub open spec fn mana_needed(cards: Seq<CardView>, color: ManaColor) -> nat
    decreases cards.len(),
{
    if cards.len() == 0 {
        0
    } else {
        mana_needed(cards.drop_last(), color) + if symbols_of(cards.last()).contains(color) {
            1nat
        } else {
            0nat
        }
    }
}

/// The most symbols of `color` that the cost of any one card holds; 0 where
/// there is no card.
pub open spec fn most_mana_needed(cards: Seq<CardView>, color: ManaColor) -> nat
    decreases cards.len(),
{
    if cards.len() == 0 {
        0
    } else {
        let before = most_mana_needed(cards.drop_last(), color);
        let here = count_color(symbols_of(cards.last()), color);
        if here > before {
            here
        } else {
            before
        }
    }
}

/// How often `card` occurs among `cards`.
pub open spec fn occurrences(cards: Seq<CardView>, card: CardView) -> nat {
    cards.to_multiset().count(card)
}

/// The different cards among `cards`, each once, in the order in which they
/// first occur.
pub open spec fn distinct(cards: Seq<CardView>) -> Seq<CardView>
    decreases cards.len(),
{
    if cards.len() == 0 {
        Seq::empty()
    } else if cards.drop_last().contains(cards.last()) {
        distinct(cards.drop_last())
    } else {
        distinct(cards.drop_last()).push(cards.last())
    }
}

/// One more card is one more occurrence of that card, and of no other.
pub proof fn lemma_occurrences_push(cards: Seq<CardView>, added: CardView, card: CardView)
    ensures
        occurrences(cards.push(added), card) == occurrences(cards, card) + if added == card {
            1nat
        } else {
            0nat
        },
{
    broadcast use vstd::seq_lib::group_to_multiset_ensures;

}

/// A card occurs at most as often as there are cards, and at least once
/// exactly if it is among them.
pub proof fn lemma_occurrences_bounded(cards: Seq<CardView>, card: CardView)
    ensures
        occurrences(cards, card) <= cards.len(),
        occurrences(cards, card) > 0 <==> cards.contains(card),
    decreases cards.len(),
{
    broadcast use vstd::seq_lib::group_to_multiset_ensures;

    if cards.len() > 0 {
        lemma_occurrences_bounded(cards.drop_last(), card);
        lemma_occurrences_push(cards.drop_last(), cards.last(), card);
        assert(cards.drop_last().push(cards.last()) =~= cards);
    }
}

/// The different cards of a sequence are the cards of that sequence, and
/// none of them comes twice.
pub proof fn lemma_distinct(cards: Seq<CardView>)
    ensures
        distinct(cards).no_duplicates(),
        forall|card: CardView| #[trigger] distinct(cards).contains(card) <==> cards.contains(card),
    decreases cards.len(),
{
    if cards.len() > 0 {
        let rest = cards.drop_last();
        let last = cards.last();
        lemma_distinct(rest);
        assert forall|card: CardView| #[trigger]
            distinct(cards).contains(card) <==> cards.contains(card) by {
            if distinct(cards).contains(card) {
                let i = choose|i: int| 0 <= i < distinct(cards).len() && distinct(cards)[i] == card;
                if i < distinct(rest).len() {
                    assert(distinct(rest)[i] == card);
                    assert(distinct(rest).contains(card));
                    let k = choose|k: int| 0 <= k < rest.len() && rest[k] == card;
                    assert(cards[k] == card);
                } else {
                    assert(cards[cards.len() - 1] == card);
                }
            }
            if cards.contains(card) {
                let k = choose|k: int| 0 <= k < cards.len() && cards[k] == card;
                if k < rest.len() {
                    assert(rest[k] == card);
                }
                if rest.contains(card) {
                    assert(distinct(rest).contains(card));
                    let i = choose|i: int|
                        0 <= i < distinct(rest).len() && distinct(rest)[i] == card;
                    assert(distinct(cards)[i] == card);
                } else {
                    assert(distinct(cards)[distinct(cards).len() - 1] == card);
                }
            }
        }
        if !rest.contains(last) {
            assert(!distinct(rest).contains(last));
        }
    }
}

/// Copies of one card are one kind of card, counted as often as there are
/// copies.
pub proof fn lemma_copies_counted(card: CardView, n: nat)
    requires
        n > 0,
    ensures
        distinct(copies(card, n)) == seq![card],
        occurrences(copies(card, n), card) == n,
    decreases n,
{
    broadcast use vstd::seq_lib::group_to_multiset_ensures;

    let all = copies(card, n);
    let rest = copies(card, (n - 1) as nat);
    assert(all.drop_last() =~= rest);
    assert(all =~= rest.push(card));
    lemma_occurrences_push(rest, card, card);
    if n == 1 {
        assert(rest =~= Seq::<CardView>::empty());
        assert(distinct(rest) =~= Seq::<CardView>::empty());
        assert(distinct(all) =~= seq![card]);
        assert(occurrences(rest, card) == 0);
    } else {
        lemma_copies_counted(card, (n - 1) as nat);
        assert(rest[0] == card);
    }
}

/// Every card is a spell or a land, and none is both: the spells and the
/// lands of a sequence of cards together are all its cards.
pub proof fn lemma_spells_and_lands(cards: Seq<CardView>)
    ensures
        spell_count(cards) + land_count(cards) == cards.len(),
    decreases cards.len(),
{
    if cards.len() > 0 {
        lemma_spells_and_lands(cards.drop_last());
    }
}

/// The symbols of the six kinds together are all the symbols.
pub proof fn lemma_colors_make_up_cost(cost: Seq<ManaColor>)
    ensures
        count_color(cost, ManaColor::White) + count_color(cost, ManaColor::Blue) + count_color(
            cost,
            ManaColor::Black,
        ) + count_color(cost, ManaColor::Red) + count_color(cost, ManaColor::Green) + count_color(
            cost,
            ManaColor::Colorless,
        ) == cost.len(),
    decreases cost.len(),
{
    if cost.len() > 0 {
        lemma_colors_make_up_cost(cost.drop_last());
    }
}

/// The symbol counts of the six kinds add up to the count of all symbols.
pub proof fn lemma_colors_make_up_symbols(cards: Seq<CardView>)
    ensures
        mana_count(cards, ManaColor::White) + mana_count(cards, ManaColor::Blue) + mana_count(
            cards,
            ManaColor::Black,
        ) + mana_count(cards, ManaColor::Red) + mana_count(cards, ManaColor::Green) + mana_count(
            cards,
            ManaColor::Colorless,
        ) == symbol_count(cards),
    decreases cards.len(),
{
    if cards.len() > 0 {
        lemma_colors_make_up_symbols(cards.drop_last());
        lemma_colors_make_up_cost(symbols_of(cards.last()));
    }
}

/// No colour has more symbols than there are symbols in all, and no more
/// cards need a colour than there are spells.
pub proof fn lemma_counts_bounded(cards: Seq<CardView>, color: ManaColor)
    ensures
        mana_count(cards, color) <= symbol_count(cards),
        mana_needed(cards, color) <= spell_count(cards),
        mana_needed(cards, color) <= mana_count(cards, color),
        most_mana_needed(cards, color) <= mana_count(cards, color),
    decreases cards.len(),
{
    if cards.len() > 0 {
        lemma_counts_bounded(cards.drop_last(), color);
        lemma_count_color(symbols_of(cards.last()), color);
    }
}

/// The symbols of the first `k` cards are among the symbols of all.
pub proof fn lemma_symbol_count_prefix(cards: Seq<CardView>, k: int)
    requires
        0 <= k <= cards.len(),
    ensures
        symbol_count(cards.take(k)) <= symbol_count(cards),
    decreases cards.len(),
{
    if k == cards.len() {
        assert(cards.take(k) =~= cards);
    } else {
        lemma_symbol_count_prefix(cards.drop_last(), k);
        assert(cards.drop_last().take(k) =~= cards.take(k));
    }
}

/// The symbols of a colour in the first `k` cards are among those in all.
pub proof fn lemma_mana_count_prefix(cards: Seq<CardView>, color: ManaColor, k: int)
    requires
        0 <= k <= cards.len(),
    ensures
        mana_count(cards.take(k), color) <= mana_count(cards, color),
    decreases cards.len(),
{
    if k == cards.len() {
        assert(cards.take(k) =~= cards);
    } else {
        lemma_mana_count_prefix(cards.drop_last(), color, k);
        assert(cards.drop_last().take(k) =~= cards.take(k));
    }
}

/// What `most_mana_needed` is: an upper bound of what each card asks of the
/// colour, and one that some card reaches unless it is 0.
pub proof fn lemma_most_mana_needed(cards: Seq<CardView>, color: ManaColor)
    ensures
        forall|i: int|
            0 <= i < cards.len() ==> count_color(symbols_of(#[trigger] cards[i]), color)
                <= most_mana_needed(cards, color),
        most_mana_needed(cards, color) > 0 ==> exists|i: int|
            0 <= i < cards.len() && count_color(symbols_of(#[trigger] cards[i]), color)
                == most_mana_needed(cards, color),
    decreases cards.len(),
{
    if cards.len() > 0 {
        let rest = cards.drop_last();
        lemma_most_mana_needed(rest, color);
        let most = most_mana_needed(cards, color);
        assert forall|i: int| 0 <= i < cards.len() implies count_color(
            symbols_of(#[trigger] cards[i]),
            color,
        ) <= most by {
            if i < rest.len() {
                assert(cards[i] == rest[i]);
            }
        }
        if most > 0 {
            if count_color(symbols_of(cards.last()), color) == most {
                assert(cards[cards.len() - 1] == cards.last());
            } else {
                let i = choose|i: int|
                    0 <= i < rest.len() && count_color(symbols_of(#[trigger] rest[i]), color)
                        == most_mana_needed(rest, color);
                assert(cards[i] == rest[i]);
            }
        }
    }
}

} // verus!
