//! Cards as short text: the rank in decimal, then the suit's letter.

use crate::card::{Card, Suit};
use vstd::prelude::*;
use vstd::string::StringExecFns;

verus! {

/// The character of a decimal digit.
pub open spec fn digit_char(d: int) -> char {
    if d == 0 {
        '0'
    } else if d == 1 {
        '1'
    } else if d == 2 {
        '2'
    } else if d == 3 {
        '3'
    } else if d == 4 {
        '4'
    } else if d == 5 {
        '5'
    } else if d == 6 {
        '6'
    } else if d == 7 {
        '7'
    } else if d == 8 {
        '8'
    } else {
        '9'
    }
}

/// A number in decimal, without leading zeros.
pub open spec fn decimal(n: nat) -> Seq<char>
    decreases n,
{
    if n < 10 {
        seq![digit_char(n as int)]
    } else {
        decimal(n / 10).push(digit_char((n % 10) as int))
    }
}

/// The letter of a suit.
pub open spec fn suit_letter(suit: Suit) -> char {
    match suit {
        Suit::Clubs => 'C',
        Suit::Diamonds => 'D',
        Suit::Hearts => 'H',
        Suit::Spades => 'S',
    }
}

/// The text of a card: `10S` for the ten of spades, `1H` for the ace of
/// hearts.
pub open spec fn card_text(card: Card) -> Seq<char> {
    decimal(card.value as nat).push(suit_letter(card.suit))
}

fn digit_text(d: u32) -> (s: &'static str)
    requires
        d < 10,
    ensures
        s@ == seq![digit_char(d as int)],
{
    proof {
        reveal_strlit("0");
        reveal_strlit("1");
        reveal_strlit("2");
        reveal_strlit("3");
        reveal_strlit("4");
        reveal_strlit("5");
        reveal_strlit("6");
        reveal_strlit("7");
        reveal_strlit("8");
        reveal_strlit("9");
    }
    let s = if d == 0 {
        "0"
    } else if d == 1 {
        "1"
    } else if d == 2 {
        "2"
    } else if d == 3 {
        "3"
    } else if d == 4 {
        "4"
    } else if d == 5 {
        "5"
    } else if d == 6 {
        "6"
    } else if d == 7 {
        "7"
    } else if d == 8 {
        "8"
    } else {
        "9"
    };
    assert(s@ =~= seq![digit_char(d as int)]);
    s
}

fn suit_text(suit: Suit) -> (s: &'static str)
    ensures
        s@ == seq![suit_letter(suit)],
{
    proof {
        reveal_strlit("C");
        reveal_strlit("D");
        reveal_strlit("H");
        reveal_strlit("S");
    }
    let s = match suit {
        Suit::Clubs => "C",
        Suit::Diamonds => "D",
        Suit::Hearts => "H",
        Suit::Spades => "S",
    };
    assert(s@ =~= seq![suit_letter(suit)]);
    s
}

/// Writes a number in decimal.
pub fn decimal_string(n: u32) -> (s: String)
    ensures
        s@ == decimal(n as nat),
    decreases n,
{
    if n < 10 {
        String::from_str(digit_text(n))
    } else {
        let mut s = decimal_string(n / 10);
        s.append(digit_text(n % 10));
        assert(s@ =~= decimal(n as nat));
        s
    }
}

impl Card {
    /// The card as text: its rank in decimal, then the letter of its suit.
    pub fn convert_string(&self) -> (output: String)
        ensures
            output@ == card_text(*self),
    {
        let mut output = decimal_string(self.value);
        output.append(suit_text(self.suit));
        assert(output@ =~= card_text(*self));
        output
    }
}

/// The texts of the cards, in their order.
pub fn cards_tostring(vec: Vec<Card>) -> (output: Vec<String>)
    ensures
        output@.len() == vec@.len(),
        forall|i: int| 0 <= i < vec@.len() ==> (#[trigger] output@[i])@ == card_text(vec@[i]),
{
    let mut output: Vec<String> = Vec::new();
    let mut i: usize = 0;
    while i < vec.len()
        invariant
            i <= vec@.len(),
            output@.len() == i,
            forall|j: int| 0 <= j < i ==> (#[trigger] output@[j])@ == card_text(vec@[j]),
        decreases vec@.len() - i,
    {
        output.push(vec[i].convert_string());
        i = i + 1;
    }
    output
}

} // verus!
