//! The brace-delimited notation of a mana cost, such as `{2}{B}{B}`.
//!
//! The text is read from left to right. An opening brace starts a token
//! afresh, a closing brace ends the token read so far, and any other
//! character is added to the token. A token that is one of the letters
//! `W`, `U`, `B`, `R`, `G` is one symbol of that colour; a token that is a
//! decimal number up to 255 is that many colourless symbols; every other
//! token is dropped.

use vstd::prelude::*;
use crate::card::ManaColor;

verus! {

/// The token that is being read at the end of `text`: the characters since
/// the last opening brace, closing braces left out.
pub open spec fn pending_token(text: Seq<char>) -> Seq<char>
    decreases text.len(),
{
    if text.len() == 0 {
        Seq::empty()
    } else if text.last() == '{' {
        Seq::empty()
    } else if text.last() == '}' {
        pending_token(text.drop_last())
    } else {
        pending_token(text.drop_last()).push(text.last())
    }
}

/// The value of a decimal digit.
pub open spec fn digit_value(c: char) -> nat {
    (c as nat - '0' as nat) as nat
}

/// Whether every character is one of `0` to `9`.
pub open spec fn all_digits(digits: Seq<char>) -> bool {
    forall|i: int| 0 <= i < digits.len() ==> '0' <= #[trigger] digits[i] <= '9'
}

/// The number that a run of decimal digits denotes.
pub open spec fn digits_value(digits: Seq<char>) -> nat
    decreases digits.len(),
{
    if digits.len() == 0 {
        0
    } else {
        digits_value(digits.drop_last()) * 10 + digit_value(digits.last())
    }
}

/// A token without the plus sign that may lead a number.
pub open spec fn unsigned_part(token: Seq<char>) -> Seq<char> {
    if token.len() > 0 && token[0] == '+' {
        token.subrange(1, token.len() as int)
    } else {
        token
    }
}

/// The generic amount that a token denotes: an optional plus sign and at
/// least one decimal digit, with a value of at most 255.
pub open spec fn generic_amount(token: Seq<char>) -> Option<nat> {
    let digits = unsigned_part(token);
    if digits.len() > 0 && all_digits(digits) && digits_value(digits) <= 255 {
        Some(digits_value(digits))
    } else {
        None
    }
}

/// The colour that a one-letter token names.
pub open spec fn color_letter(c: char) -> Option<ManaColor> {
    if c == 'W' {
        Some(ManaColor::White)
    } else if c == 'U' {
        Some(ManaColor::Blue)
    } else if c == 'B' {
        Some(ManaColor::Black)
    } else if c == 'R' {
        Some(ManaColor::Red)
    } else if c == 'G' {
        Some(ManaColor::Green)
    } else {
        None
    }
}

/// The symbols that one token stands for.
pub open spec fn token_symbols(token: Seq<char>) -> Seq<ManaColor> {
    if token.len() == 1 && color_letter(token[0]) is Some {
        seq![color_letter(token[0])->0]
    } else {
        match generic_amount(token) {
            Some(amount) => Seq::new(amount, |i: int| ManaColor::Colorless),
            None => Seq::empty(),
        }
    }
}

/// The symbols of a cost written as `text`, in the order of its tokens.
pub open spec fn cost_of(text: Seq<char>) -> Seq<ManaColor>
    decreases text.len(),
{
    if text.len() == 0 {
        Seq::empty()
    } else if text.last() == '}' {
        cost_of(text.drop_last()) + token_symbols(pending_token(text.drop_last()))
    } else {
        cost_of(text.drop_last())
    }
}

/// Whether a token holds no brace.
pub open spec fn brace_free(token: Seq<char>) -> bool {
    forall|i: int| 0 <= i < token.len() ==> #[trigger] token[i] != '{' && token[i] != '}'
}

/// After an opening brace, characters other than braces are the token being
/// read, and add no symbol as long as the token is not closed.
proof fn lemma_open_token(text: Seq<char>, token: Seq<char>)
    requires
        brace_free(token),
    ensures
        pending_token(text.push('{') + token) == token,
        cost_of(text.push('{') + token) == cost_of(text),
    decreases token.len(),
{
    let read = text.push('{') + token;
    if token.len() == 0 {
        assert(read =~= text.push('{'));
        assert(read.drop_last() =~= text);
        assert(pending_token(read) =~= token);
    } else {
        lemma_open_token(text, token.drop_last());
        assert(read.drop_last() =~= text.push('{') + token.drop_last());
        assert(read.last() == token[token.len() - 1]);
        assert(token.drop_last().push(token.last()) =~= token);
    }
}

/// A token in braces adds its symbols to the cost, whatever was written
/// before it.
pub proof fn lemma_braced_token(text: Seq<char>, token: Seq<char>)
    requires
        brace_free(token),
    ensures
        cost_of(text.push('{') + token.push('}')) == cost_of(text) + token_symbols(token),
{
    let read = text.push('{') + token.push('}');
    lemma_open_token(text, token);
    assert(read.drop_last() =~= text.push('{') + token);
    assert(read.last() == '}');
}

/// The digits read so far are worth no more than all the digits.
proof fn lemma_digits_value_grows(digits: Seq<char>, k: int)
    requires
        0 <= k <= digits.len(),
    ensures
        digits_value(digits.take(k)) <= digits_value(digits),
    decreases digits.len(),
{
    if k == digits.len() {
        assert(digits.take(k) =~= digits);
    } else {
        lemma_digits_value_grows(digits.drop_last(), k);
        assert(digits.drop_last().take(k) =~= digits.take(k));
    }
}

/// The colour named by a one-letter token, if it names one.
fn letter_color(c: char) -> (color: Option<ManaColor>)
    ensures
        color == color_letter(c),
{
    if c == 'W' {
        Some(ManaColor::White)
    } else if c == 'U' {
        Some(ManaColor::Blue)
    } else if c == 'B' {
        Some(ManaColor::Black)
    } else if c == 'R' {
        Some(ManaColor::Red)
    } else if c == 'G' {
        Some(ManaColor::Green)
    } else {
        None
    }
}

/// The value of a decimal digit.
fn digit_of(c: char) -> (d: u8)
    requires
        '0' <= c <= '9',
    ensures
        d as nat == digit_value(c),
        d <= 9,
{
    (c as u32 - '0' as u32) as u8
}

/// Reads a token as a generic amount.
fn read_amount(token: &Vec<char>) -> (amount: Option<u8>)
    ensures
        amount is Some <==> generic_amount(token@) is Some,
        amount is Some ==> amount->0 as nat == generic_amount(token@)->0,
{
    let start: usize = if token.len() > 0 && token[0] == '+' { 1 } else { 0 };
    let ghost digits = unsigned_part(token@);
    assert(digits =~= token@.subrange(start as int, token@.len() as int));
    if start == token.len() {
        return None;
    }
    let mut value: u8 = 0;
    let mut i: usize = start;
    while i < token.len()
        invariant
            start <= i <= token.len(),
            digits == unsigned_part(token@),
            digits == token@.subrange(start as int, token@.len() as int),
            all_digits(digits.take(i - start)),
            value as nat == digits_value(digits.take(i - start)),
        decreases token.len() - i,
    {
        let c = token[i];
        let ghost read = digits.take(i - start);
        let ghost next = digits.take(i + 1 - start);
        assert(next.drop_last() =~= read);
        assert(next.last() == c);
        if c < '0' || c > '9' {
            assert(!all_digits(digits)) by {
                assert(digits[i - start] == c);
            }
            return None;
        }
        let d: u8 = digit_of(c);
        if value > 25 || (value == 25 && d > 5) {
            proof {
                assert(digits_value(next) == value * 10 + d);
                lemma_digits_value_grows(digits, i + 1 - start);
            }
            return None;
        }
        value = value * 10 + d;
        assert(all_digits(next)) by {
            assert forall|j: int| 0 <= j < next.len() implies '0' <= #[trigger] next[j] <= '9' by {
                if j < read.len() {
                    assert(next[j] == read[j]);
                }
            }
        }
        i += 1;
    }
    assert(digits.take(i - start) =~= digits);
    Some(value)
}

/// Adds the symbols of one token to a cost.
fn push_token_symbols(cost: &mut Vec<ManaColor>, token: &Vec<char>)
    ensures
        final(cost)@ == old(cost)@ + token_symbols(token@),
{
    if token.len() == 1 {
        if let Some(color) = letter_color(token[0]) {
            cost.push(color);
            assert(final(cost)@ =~= old(cost)@ + token_symbols(token@));
            return;
        }
    }
    match read_amount(token) {
        Some(amount) => {
            let ghost symbols = token_symbols(token@);
            let mut k: u8 = 0;
            while k < amount
                invariant
                    k <= amount,
                    symbols.len() == amount,
                    forall|j: int| 0 <= j < symbols.len() ==> symbols[j] == ManaColor::Colorless,
                    cost@ == old(cost)@ + symbols.take(k as int),
                decreases amount - k,
            {
                cost.push(ManaColor::Colorless);
                assert(symbols.take(k + 1) =~= symbols.take(k as int).push(ManaColor::Colorless));
                assert(cost@ =~= old(cost)@ + symbols.take(k + 1));
                k += 1;
            }
            assert(symbols.take(amount as int) =~= symbols);
        },
        None => {
            assert(final(cost)@ =~= old(cost)@ + token_symbols(token@));
        },
    }
}

/// Reads a mana cost in brace notation.
///
/// Nothing is rejected: what is not a colour letter or a number up to 255
/// inside braces adds no symbol.
pub fn parse_mana_cost(text: &str) -> (cost: Vec<ManaColor>)
    ensures
        cost@ == cost_of(text@),
{
    let mut cost: Vec<ManaColor> = Vec::new();
    let mut token: Vec<char> = Vec::new();
    let len: usize = text.unicode_len();
    let mut i: usize = 0;
    while i < len
        invariant
            i <= len,
            len == text@.len(),
            token@ == pending_token(text@.take(i as int)),
            cost@ == cost_of(text@.take(i as int)),
        decreases len - i,
    {
        let c = text.get_char(i);
        assert(text@.take(i + 1).drop_last() =~= text@.take(i as int));
        assert(text@.take(i + 1).last() == c);
        if c == '{' {
            token.clear();
        } else if c == '}' {
            push_token_symbols(&mut cost, &token);
        } else {
            token.push(c);
        }
        i += 1;
    }
    assert(text@.take(len as int) =~= text@);
    cost
}

} // verus!
