//! Playing cards: a rank from 2 to 14 (ace high) in one of four suits.

use vstd::prelude::*;
use vstd::string::*;

verus! {

/// The four suits, in the order in which a fresh deck lists them.
#[derive(Clone, Copy, Debug, PartialEq, Eq, Hash, Structural)]
pub enum Suit {
    Clubs,
    Hearts,
    Diamonds,
    Spades,
}

/// A card is its rank and suit and nothing else: two cards are equal exactly
/// when both agree.
#[derive(Clone, Copy, Debug, PartialEq, Eq, Hash, Structural)]
pub struct Card {
    pub rank: u8,
    pub suit: Suit,
}

impl Suit {
    /// Position of the suit in a fresh deck.
    pub open spec fn index(self) -> int {
        match self {
            Suit::Clubs => 0,
            Suit::Hearts => 1,
            Suit::Diamonds => 2,
            Suit::Spades => 3,
        }
    }

    /// The suit at position `i` of a fresh deck; inverse of [`Suit::index`].
    pub open spec fn at(i: int) -> Suit {
        if i == 0 {
            Suit::Clubs
        } else if i == 1 {
            Suit::Hearts
        } else if i == 2 {
            Suit::Diamonds
        } else {
            Suit::Spades
        }
    }
}

/// The rank that a token's first character denotes.
pub open spec fn rank_of_char(c: char) -> Option<u8> {
    if c == '2' {
        Some(2u8)
    } else if c == '3' {
        Some(3u8)
    } else if c == '4' {
        Some(4u8)
    } else if c == '5' {
        Some(5u8)
    } else if c == '6' {
        Some(6u8)
    } else if c == '7' {
        Some(7u8)
    } else if c == '8' {
        Some(8u8)
    } else if c == '9' {
        Some(9u8)
    } else if c == 'T' {
        Some(10u8)
    } else if c == 'J' {
        Some(11u8)
    } else if c == 'Q' {
        Some(12u8)
    } else if c == 'K' {
        Some(13u8)
    } else if c == 'A' {
        Some(14u8)
    } else {
        None
    }
}

/// The suit that a token's second character denotes.
pub open spec fn suit_of_char(c: char) -> Option<Suit> {
    if c == 'c' {
        Some(Suit::Clubs)
    } else if c == 'h' {
        Some(Suit::Hearts)
    } else if c == 'd' {
        Some(Suit::Diamonds)
    } else if c == 's' {
        Some(Suit::Spades)
    } else {
        None
    }
}

/// The card that a token denotes: its first character gives the rank, its
/// second the suit, and whatever follows is ignored.
pub open spec fn parse_card(s: Seq<char>) -> Option<Card> {
    if s.len() >= 2 {
        match (rank_of_char(s[0]), suit_of_char(s[1])) {
            (Some(rank), Some(suit)) => Some(Card { rank, suit }),
            _ => None,
        }
    } else {
        None
    }
}

/// The one-character name of a rank.
pub open spec fn rank_text(rank: u8) -> Seq<char> {
    if rank == 2 {
        "2"@
    } else if rank == 3 {
        "3"@
    } else if rank == 4 {
        "4"@
    } else if rank == 5 {
        "5"@
    } else if rank == 6 {
        "6"@
    } else if rank == 7 {
        "7"@
    } else if rank == 8 {
        "8"@
    } else if rank == 9 {
        "9"@
    } else if rank == 10 {
        "T"@
    } else if rank == 11 {
        "J"@
    } else if rank == 12 {
        "Q"@
    } else if rank == 13 {
        "K"@
    } else {
        "A"@
    }
}

/// The long name of a suit.
pub open spec fn suit_name(suit: Suit) -> Seq<char> {
    match suit {
        Suit::Clubs => "clubs"@,
        Suit::Hearts => "hearts"@,
        Suit::Diamonds => "diamonds"@,
        Suit::Spades => "spades"@,
    }
}

/// The one-character name of a suit.
pub open spec fn suit_text(suit: Suit) -> Seq<char> {
    match suit {
        Suit::Clubs => "c"@,
        Suit::Hearts => "h"@,
        Suit::Diamonds => "d"@,
        Suit::Spades => "s"@,
    }
}

/// The fresh deck: suit by suit, and within a suit from 2 up to the ace.
pub open spec fn full_deck() -> Seq<Card> {
    Seq::new(52, |i: int| Card { rank: (2 + i % 13) as u8, suit: Suit::at(i / 13) })
}

fn parse_rank(c: char) -> (rank: Option<u8>)
    ensures
        rank == rank_of_char(c),
{
    if c == '2' {
        Some(2)
    } else if c == '3' {
        Some(3)
    } else if c == '4' {
        Some(4)
    } else if c == '5' {
        Some(5)
    } else if c == '6' {
        Some(6)
    } else if c == '7' {
        Some(7)
    } else if c == '8' {
        Some(8)
    } else if c == '9' {
        Some(9)
    } else if c == 'T' {
        Some(10)
    } else if c == 'J' {
        Some(11)
    } else if c == 'Q' {
        Some(12)
    } else if c == 'K' {
        Some(13)
    } else if c == 'A' {
        Some(14)
    } else {
        None
    }
}

fn parse_suit(c: char) -> (suit: Option<Suit>)
    ensures
        suit == suit_of_char(c),
{
    if c == 'c' {
        Some(Suit::Clubs)
    } else if c == 'h' {
        Some(Suit::Hearts)
    } else if c == 'd' {
        Some(Suit::Diamonds)
    } else if c == 's' {
        Some(Suit::Spades)
    } else {
        None
    }
}

impl Card {
    /// A card of the 52-card universe.
    pub open spec fn wf(&self) -> bool {
        2 <= self.rank <= 14
    }

    /// Where the card stands in the fresh deck.
    pub open spec fn deck_index(&self) -> int {
        self.suit.index() * 13 + self.rank - 2
    }

    /// Reads a token such as `"Qs"` or `"Th"`; `None` where the first character
    /// names no rank, the second no suit, or one of them is missing.
    pub fn parse(s: &str) -> (card: Option<Card>)
        ensures
            card == parse_card(s@),
    {
        if s.unicode_len() < 2 {
            return None;
        }
        match (parse_rank(s.get_char(0)), parse_suit(s.get_char(1))) {
            (Some(rank), Some(suit)) => Some(Card { rank, suit }),
            _ => None,
        }
    }

    /// Reads a token that is known to denote a card.
    pub fn from_str(s: &str) -> (card: Card)
        requires
            parse_card(s@) is Some,
        ensures
            Some(card) == parse_card(s@),
            card.wf(),
    {
        let rank = parse_rank(s.get_char(0));
        let suit = parse_suit(s.get_char(1));
        Card { rank: rank.unwrap(), suit: suit.unwrap() }
    }

    /// `"2"` to `"9"`, then `"T"`, `"J"`, `"Q"`, `"K"`, `"A"`.
    pub fn rank_as_string(&self) -> (s: String)
        requires
            self.wf(),
        ensures
            s@ == rank_text(self.rank),
    {
        let text: &str = if self.rank == 2 {
            "2"
        } else if self.rank == 3 {
            "3"
        } else if self.rank == 4 {
            "4"
        } else if self.rank == 5 {
            "5"
        } else if self.rank == 6 {
            "6"
        } else if self.rank == 7 {
            "7"
        } else if self.rank == 8 {
            "8"
        } else if self.rank == 9 {
            "9"
        } else if self.rank == 10 {
            "T"
        } else if self.rank == 11 {
            "J"
        } else if self.rank == 12 {
            "Q"
        } else if self.rank == 13 {
            "K"
        } else {
            "A"
        };
        String::from_str(text)
    }

    /// The suit spelled out.
    pub fn suit_as_string(&self) -> (s: &str)
        ensures
            s@ == suit_name(self.suit),
    {
        match self.suit {
            Suit::Clubs => "clubs",
            Suit::Hearts => "hearts",
            Suit::Diamonds => "diamonds",
            Suit::Spades => "spades",
        }
    }

    /// The suit as the single letter that tokens use.
    pub fn suit_as_char(&self) -> (s: &str)
        ensures
            s@ == suit_text(self.suit),
    {
        match self.suit {
            Suit::Clubs => "c",
            Suit::Hearts => "h",
            Suit::Diamonds => "d",
            Suit::Spades => "s",
        }
    }

    /// The token of the card: rank letter, then suit letter.
    pub fn to_string(&self) -> (s: String)
        requires
            self.wf(),
        ensures
            s@ == rank_text(self.rank) + suit_text(self.suit),
    {
        self.rank_as_string().concat(self.suit_as_char())
    }

    /// All 52 cards, each once.
    pub fn create_deck() -> (deck: Vec<Card>)
        ensures
            deck@ == full_deck(),
    {
        let suits = [Suit::Clubs, Suit::Hearts, Suit::Diamonds, Suit::Spades];
        let mut deck: Vec<Card> = Vec::new();
        let mut s: usize = 0;
        while s < 4
            invariant
                s <= 4,
                suits[0] == Suit::Clubs,
                suits[1] == Suit::Hearts,
                suits[2] == Suit::Diamonds,
                suits[3] == Suit::Spades,
                deck@ == full_deck().take(13 * s),
            decreases 4 - s,
        {
            let mut rank: u8 = 2;
            while rank < 15
                invariant
                    s < 4,
                    2 <= rank <= 15,
                    suits[s as int] == Suit::at(s as int),
                    deck@ == full_deck().take(13 * s + (rank - 2)),
                decreases 15 - rank,
            {
                deck.push(Card { rank, suit: suits[s] });
                assert(full_deck().take(13 * s + (rank - 2)).push(
                    full_deck()[13 * s + (rank - 2)],
                ) == full_deck().take(13 * s + (rank - 2) + 1));
                rank = rank + 1;
            }
            s = s + 1;
        }
        assert(full_deck().take(52) == full_deck());
        deck
    }
}

/// No card occurs twice in the fresh deck.
pub proof fn lemma_full_deck_distinct()
    ensures
        full_deck().no_duplicates(),
{
}

/// The fresh deck holds exactly the cards of rank 2 to 14, each where
/// [`Card::deck_index`] says.
pub proof fn lemma_full_deck_complete(card: Card)
    ensures
        full_deck().contains(card) <==> card.wf(),
        card.wf() ==> 0 <= card.deck_index() < 52 && full_deck()[card.deck_index()] == card,
{
    if card.wf() {
        let i = card.deck_index();
        assert(full_deck()[i] == card);
    }
}

} // verus!
