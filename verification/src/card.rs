//! Playing cards: a rank (2 through 14, where 14 is the ace) and a suit.

use vstd::prelude::*;
use vstd::string::StringExecFns;

verus! {

/// A playing card. `value` is the rank, 2 through 14 (14 is the ace);
/// `figure` is the suit, 0 through 3.
#[derive(Debug, Clone, Copy, PartialEq, Eq, Structural)]
pub struct CardC {
    pub value: u8,
    pub figure: u8,
}

impl CardC {
    /// A card is valid when its rank and suit lie in the playing range.
    pub open spec fn valid(self) -> bool {
        2 <= self.value <= 14 && self.figure <= 3
    }

    /// The integer form of a card: fifteen times the suit, plus the rank.
    pub open spec fn spec_to_int(self) -> u8 {
        (self.figure * 15 + self.value) as u8
    }

    pub fn new(v: u8, f: u8) -> (c: CardC)
        ensures
            c.value == v,
            c.figure == f,
    {
        CardC { value: v, figure: f }
    }

    pub fn clone_card(&self) -> (c: CardC)
        ensures
            c == *self,
    {
        CardC::new(self.value, self.figure)
    }

    /// Encode the card as a single integer, `figure * 15 + value`.
    pub fn card_to_int(&self) -> (n: u8)
        requires
            self.valid(),
        ensures
            n == self.spec_to_int(),
            n <= 59,
    {
        self.figure * 15 + self.value
    }

    /// Render the card for display: its rank, then its suit.
    pub fn card_to_string(&self) -> (r: String)
        requires
            self.valid(),
        ensures
            r@ == card_chars(*self),
    {
        let v: &str = if self.value == 11 {
            "J"
        } else if self.value == 12 {
            "Q"
        } else if self.value == 13 {
            "K"
        } else if self.value == 14 {
            "A"
        } else if self.value == 2 {
            "2"
        } else if self.value == 3 {
            "3"
        } else if self.value == 4 {
            "4"
        } else if self.value == 5 {
            "5"
        } else if self.value == 6 {
            "6"
        } else if self.value == 7 {
            "7"
        } else if self.value == 8 {
            "8"
        } else if self.value == 9 {
            "9"
        } else {
            "10"
        };
        let mut s = String::from_str(v);
        let suit: &str = if self.figure == 0 {
            "-\u{2665}"
        } else if self.figure == 1 {
            "-\u{2660}"
        } else if self.figure == 2 {
            "-\u{2663}"
        } else {
            "-\u{2666}"
        };
        s.append(suit);
        s
    }

    /// Decode a card from its integer form: the rank is the remainder and
    /// the suit the quotient of division by fifteen.
    pub fn card_from_int(n: u8) -> (c: CardC)
        requires
            n <= 59,
        ensures
            c.value == n % 15,
            c.figure == n / 15,
    {
        CardC { value: n % 15, figure: n / 15 }
    }
}

/// The display characters of a rank: the rank digits, or a court-card
/// letter.
pub open spec fn rank_chars(v: u8) -> Seq<char> {
    if v == 11 {
        "J"@
    } else if v == 12 {
        "Q"@
    } else if v == 13 {
        "K"@
    } else if v == 14 {
        "A"@
    } else if v == 2 {
        "2"@
    } else if v == 3 {
        "3"@
    } else if v == 4 {
        "4"@
    } else if v == 5 {
        "5"@
    } else if v == 6 {
        "6"@
    } else if v == 7 {
        "7"@
    } else if v == 8 {
        "8"@
    } else if v == 9 {
        "9"@
    } else if v == 10 {
        "10"@
    } else {
        ""@
    }
}

/// The display characters of a suit.
pub open spec fn suit_chars(f: u8) -> Seq<char> {
    if f == 0 {
        "-\u{2665}"@
    } else if f == 1 {
        "-\u{2660}"@
    } else if f == 2 {
        "-\u{2663}"@
    } else if f == 3 {
        "-\u{2666}"@
    } else {
        "was over"@
    }
}

/// The display characters of a card: its rank, then its suit.
pub open spec fn card_chars(c: CardC) -> Seq<char> {
    rank_chars(c.value) + suit_chars(c.figure)
}

/// Encoding a card to its integer form and decoding back yields the
/// original rank and suit.
pub proof fn lemma_card_int_round_trip(c: CardC)
    requires
        c.valid(),
    ensures
        c.spec_to_int() % 15 == c.value,
        c.spec_to_int() / 15 == c.figure,
{
}

} // verus!
