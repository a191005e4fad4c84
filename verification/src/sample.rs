//! Drawing cards at random, without putting any back.

use vstd::prelude::*;
use rand::seq::IteratorRandom;
use crate::card::{Card, CardView};

verus! {

/// Whether `positions` are places among `n` items, no place named twice.
pub open spec fn distinct_positions(positions: Seq<usize>, n: nat) -> bool {
    &&& forall|i: int| 0 <= i < positions.len() ==> #[trigger] positions[i] < n
    &&& forall|i: int, j: int|
        0 <= i < j < positions.len() ==> #[trigger] positions[i] != #[trigger] positions[j]
}

/// The cards that stand at `positions`, in the order of the positions.
pub open spec fn selected(cards: Seq<CardView>, positions: Seq<usize>) -> Seq<CardView> {
    Seq::new(positions.len(), |i: int| cards[positions[i] as int])
}

/// Whether `hand` can be drawn from `cards`: each card of the hand is a card
/// of its own of `cards`.
pub open spec fn is_selection(cards: Seq<CardView>, hand: Seq<CardView>) -> bool {
    exists|positions: Seq<usize>|
        distinct_positions(positions, cards.len()) && hand == #[trigger] selected(cards, positions)
}

/// No more cards can be drawn than there are, and drawing as many as there
/// are gives every card, each as often as it is there.
pub proof fn lemma_selection_of_all(cards: Seq<CardView>, positions: Seq<usize>)
    requires
        distinct_positions(positions, cards.len()),
    ensures
        positions.len() <= cards.len(),
        positions.len() == cards.len() ==> selected(cards, positions).to_multiset()
            == cards.to_multiset(),
    decreases cards.len(),
{
    broadcast use vstd::seq_lib::group_to_multiset_ensures;

    let hand = selected(cards, positions);
    if cards.len() == 0 {
        if positions.len() > 0 {
            assert(positions[0] < 0);
        }
        assert(hand =~= cards);
    } else {
        let last = cards.len() - 1;
        let rest = cards.drop_last();
        if exists|p: int| 0 <= p < positions.len() && positions[p] == last {
            let p = choose|p: int| 0 <= p < positions.len() && positions[p] == last;
            let others = positions.remove(p);
            assert(distinct_positions(others, rest.len())) by {
                assert forall|i: int| 0 <= i < others.len() implies #[trigger] others[i]
                    < rest.len() by {
                    if i < p {
                        assert(others[i] == positions[i]);
                    } else {
                        assert(others[i] == positions[i + 1]);
                    }
                }
                assert forall|i: int, j: int| 0 <= i < j < others.len() implies #[trigger] others[i]
                    != #[trigger] others[j] by {
                    let a = if i < p { i } else { i + 1 };
                    let b = if j < p { j } else { j + 1 };
                    assert(others[i] == positions[a]);
                    assert(others[j] == positions[b]);
                }
            }
            lemma_selection_of_all(rest, others);
            if positions.len() == cards.len() {
                assert(hand.remove(p) =~= selected(rest, others));
                assert(hand[p] == cards.last());
                assert(cards =~= rest.push(cards.last()));
                assert(hand.to_multiset().remove(cards.last()) == rest.to_multiset());
                assert(hand.to_multiset().count(cards.last()) > 0) by {
                    assert(hand.contains(hand[p]));
                }
                assert(hand.to_multiset() =~= rest.to_multiset().insert(cards.last()));
            }
        } else {
            assert(distinct_positions(positions, rest.len()));
            lemma_selection_of_all(rest, positions);
        }
    }
}

/// Picks `amount` of the places of `cards` at random.
///
/// Calls `rand::seq::IteratorRandom::choose_multiple` on the places
/// `0..cards.len()`, with the generator of `rand::thread_rng`. Of what comes
/// back the contract claims what holds of every outcome: as long as `amount`
/// is no more than the number of places, there are `amount` places, each is a
/// place of `cards`, and none comes twice. As the buffer it fills is no
/// larger than `cards`, its allocation is within the limits of a vector.
#[verifier::external_body]
pub(crate) fn choose_positions(cards: &Vec<Card>, amount: usize) -> (positions: Vec<usize>)
    requires
        amount <= cards.len(),
    ensures
        positions@.len() == amount,
        distinct_positions(positions@, cards@.len()),
{
    (0..cards.len()).choose_multiple(&mut rand::thread_rng(), amount)
}

} // verus!
