//! The deck list as text, in the format that the digital client imports.
//!
//! The text is the line `Deck` followed by one line for each different card
//! of the deck: its number in decimal, its name, and the fixed ending
//! ` () 0`.

use vstd::prelude::*;
use vstd::string::StringExecFns;
use crate::card::{display_name, CardView};
use crate::cost::{digit_value, digits_value};
use crate::stats::{distinct, occurrences};

verus! {

/// The character for a decimal digit.
pub open spec fn digit_char(d: nat) -> char {
    if d == 0 {
        '0'
    } else if d == 1 {
        '1'
    } else if d == 2 {
        '2'
    } else if d == 3 {
        '3'
    } else if d == 4 {
        '4'
    } else if d == 5 {
        '5'
    } else if d == 6 {
        '6'
    } else if d == 7 {
        '7'
    } else if d == 8 {
        '8'
    } else {
        '9'
    }
}

/// A number written in decimal, without leading zeros.
pub open spec fn decimal(n: nat) -> Seq<char>
    decreases n,
{
    if n < 10 {
        seq![digit_char(n)]
    } else {
        decimal(n / 10).push(digit_char(n % 10))
    }
}

/// The line that lists `count` copies of a card.
pub open spec fn export_line(card: CardView, count: nat) -> Seq<char> {
    decimal(count) + " "@ + display_name(card) + " () 0\n"@
}

/// The lines for `kinds`, each with the number of times it occurs among
/// `cards`.
pub open spec fn export_lines(cards: Seq<CardView>, kinds: Seq<CardView>) -> Seq<char>
    decreases kinds.len(),
{
    if kinds.len() == 0 {
        Seq::empty()
    } else {
        export_lines(cards, kinds.drop_last()) + export_line(
            kinds.last(),
            occurrences(cards, kinds.last()),
        )
    }
}

/// The deck list of `cards`: the heading, then the different cards in the
/// order in which they first occur.
pub open spec fn export_text(cards: Seq<CardView>) -> Seq<char> {
    "Deck\n"@ + export_lines(cards, distinct(cards))
}

/// What is written in decimal reads back as the same number.
pub proof fn lemma_decimal_reads_back(n: nat)
    ensures
        decimal(n).len() > 0,
        crate::cost::all_digits(decimal(n)),
        digits_value(decimal(n)) == n,
    decreases n,
{
    if n < 10 {
        assert(decimal(n).drop_last() =~= Seq::<char>::empty());
        assert(digits_value(decimal(n).drop_last()) == 0);
        assert(digit_value(digit_char(n)) == n);
    } else {
        lemma_decimal_reads_back(n / 10);
        assert(decimal(n).drop_last() =~= decimal(n / 10));
        assert(digit_value(digit_char(n % 10)) == n % 10);
    }
}

/// The text of one decimal digit.
fn digit_str(d: usize) -> (s: &'static str)
    requires
        d < 10,
    ensures
        s@ == seq![digit_char(d as nat)],
{
    proof {
        reveal_strlit("0");
        reveal_strlit("1");
        reveal_strlit("2");
        reveal_strlit("3");
        reveal_strlit("4");
        reveal_strlit("5");
        reveal_strlit("6");
        reveal_strlit("7");
        reveal_strlit("8");
        reveal_strlit("9");
    }
    let s = if d == 0 {
        "0"
    } else if d == 1 {
        "1"
    } else if d == 2 {
        "2"
    } else if d == 3 {
        "3"
    } else if d == 4 {
        "4"
    } else if d == 5 {
        "5"
    } else if d == 6 {
        "6"
    } else if d == 7 {
        "7"
    } else if d == 8 {
        "8"
    } else {
        "9"
    };
    assert(s@ =~= seq![digit_char(d as nat)]);
    s
}

/// A number as decimal text.
pub fn decimal_string(n: usize) -> (text: String)
    ensures
        text@ == decimal(n as nat),
    decreases n,
{
    if n < 10 {
        String::from_str(digit_str(n))
    } else {
        let mut text = decimal_string(n / 10);
        text.append(digit_str(n % 10));
        assert(text@ =~= decimal(n as nat));
        text
    }
}

} // verus!
