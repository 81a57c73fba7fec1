//! The textual save format: a card is three characters
//! (suit glyph, rank glyph, orientation arrow), a run is five
//! (suit, high rank, separator, low rank, orientation). Rank glyphs are
//! `A`, `2` to `9`, `X` for ten, `J`, `Q`, `K`. The format round-trips
//! exactly: decoding an encoded value gives the value back.

use vstd::prelude::*;

use crate::cards::{Card, CardRange, Suit};

verus! {

pub open spec fn suit_char_spec(s: Suit) -> char {
    match s {
        Suit::Clubs => '♣',
        Suit::Hearts => '♥',
        Suit::Diamonds => '♦',
        Suit::Spades => '♠',
    }
}

pub open spec fn orient_char_spec(up: bool) -> char {
    if up {
        '↑'
    } else {
        '↓'
    }
}

pub open spec fn rank_char_spec(rank: u8) -> char {
    if rank == 0 {
        'A'
    } else if rank == 1 {
        '2'
    } else if rank == 2 {
        '3'
    } else if rank == 3 {
        '4'
    } else if rank == 4 {
        '5'
    } else if rank == 5 {
        '6'
    } else if rank == 6 {
        '7'
    } else if rank == 7 {
        '8'
    } else if rank == 8 {
        '9'
    } else if rank == 9 {
        'X'
    } else if rank == 10 {
        'J'
    } else if rank == 11 {
        'Q'
    } else {
        'K'
    }
}

pub open spec fn rank_from_char_spec(c: char) -> Option<u8> {
    if c == 'A' {
        Some(0u8)
    } else if '2' <= c && c <= '9' {
        Some(((c as u32) - 0x31) as u8)
    } else if c == 'X' {
        Some(9u8)
    } else if c == 'J' {
        Some(10u8)
    } else if c == 'Q' {
        Some(11u8)
    } else if c == 'K' {
        Some(12u8)
    } else {
        None
    }
}

/// The three characters encoding one card.
pub open spec fn card_text_spec(c: Card) -> Seq<char> {
    seq![suit_char_spec(c.suit), rank_char_spec(c.rank), orient_char_spec(c.is_facing_up)]
}

/// The five characters encoding one run; the middle character is a
/// separator the decoder ignores.
pub open spec fn range_text_spec(r: CardRange) -> Seq<char> {
    seq![
        suit_char_spec(r.suit),
        rank_char_spec(r.high),
        '-',
        rank_char_spec(r.low),
        orient_char_spec(r.is_facing_up),
    ]
}

pub open spec fn decode_card_spec(t: Seq<char>) -> Option<Card> {
    if t.len() != 3 {
        None
    } else {
        match (Suit::from_char_spec(t[0]), rank_from_char_spec(t[1])) {
            (Some(suit), Some(rank)) => {
                if t[2] == '↑' {
                    Some(Card { suit, rank, is_facing_up: true })
                } else if t[2] == '↓' {
                    Some(Card { suit, rank, is_facing_up: false })
                } else {
                    None
                }
            },
            _ => None,
        }
    }
}

pub open spec fn decode_range_spec(t: Seq<char>) -> Option<CardRange> {
    if t.len() != 5 {
        None
    } else {
        match (Suit::from_char_spec(t[0]), rank_from_char_spec(t[1]), rank_from_char_spec(t[3])) {
            (Some(suit), Some(high), Some(low)) => {
                if t[4] == '↑' {
                    Some(CardRange { suit, high, low, is_facing_up: true })
                } else if t[4] == '↓' {
                    Some(CardRange { suit, high, low, is_facing_up: false })
                } else {
                    None
                }
            },
            _ => None,
        }
    }
}

impl Suit {
    /// The glyph of the suit in the save format.
    pub fn to_char(&self) -> (c: char)
        ensures
            c == suit_char_spec(*self),
    {
        match self {
            Suit::Clubs => '♣',
            Suit::Hearts => '♥',
            Suit::Diamonds => '♦',
            Suit::Spades => '♠',
        }
    }

    fn to_str(&self) -> (r: &'static str)
        ensures
            r@ == seq![suit_char_spec(*self)],
    {
        proof {
            reveal_strlit("♣");
            reveal_strlit("♥");
            reveal_strlit("♦");
            reveal_strlit("♠");
        }
        let r = match self {
            Suit::Clubs => "♣",
            Suit::Hearts => "♥",
            Suit::Diamonds => "♦",
            Suit::Spades => "♠",
        };
        proof {
            assert(r@ =~= seq![suit_char_spec(*self)]);
        }
        r
    }
}

fn orient_str(up: bool) -> (r: &'static str)
    ensures
        r@ == seq![orient_char_spec(up)],
{
    proof {
        reveal_strlit("↑");
        reveal_strlit("↓");
    }
    let r = if up {
        "↑"
    } else {
        "↓"
    };
    proof {
        assert(r@ =~= seq![orient_char_spec(up)]);
    }
    r
}

fn rank_str(rank: u8) -> (r: &'static str)
    requires
        rank < 13,
    ensures
        r@ == seq![rank_char_spec(rank)],
{
    proof {
        reveal_strlit("A");
        reveal_strlit("2");
        reveal_strlit("3");
        reveal_strlit("4");
        reveal_strlit("5");
        reveal_strlit("6");
        reveal_strlit("7");
        reveal_strlit("8");
        reveal_strlit("9");
        reveal_strlit("X");
        reveal_strlit("J");
        reveal_strlit("Q");
        reveal_strlit("K");
    }
    let r = match rank {
        0 => "A",
        1 => "2",
        2 => "3",
        3 => "4",
        4 => "5",
        5 => "6",
        6 => "7",
        7 => "8",
        8 => "9",
        9 => "X",
        10 => "J",
        11 => "Q",
        _ => "K",
    };
    proof {
        assert(r@ =~= seq![rank_char_spec(rank)]);
    }
    r
}

impl Card {
    /// The rank glyph of this card.
    pub fn get_rank_char(&self) -> (c: char)
        requires
            self.rank < 13,
        ensures
            c == rank_char_spec(self.rank),
    {
        Card::rank_to_char(self.rank)
    }

    /// The glyph of a rank: `A`, `2` to `9`, `X` for ten, `J`, `Q`, `K`.
    pub fn rank_to_char(rank: u8) -> (c: char)
        requires
            rank < 13,
        ensures
            c == rank_char_spec(rank),
    {
        match rank {
            0 => 'A',
            1 => '2',
            2 => '3',
            3 => '4',
            4 => '5',
            5 => '6',
            6 => '7',
            7 => '8',
            8 => '9',
            9 => 'X',
            10 => 'J',
            11 => 'Q',
            _ => 'K',
        }
    }

    /// The rank a glyph denotes, if any.
    pub fn get_rank_from_char(c: char) -> (r: Option<u8>)
        ensures
            r == rank_from_char_spec(c),
    {
        if c == 'A' {
            Some(0)
        } else if '2' <= c && c <= '9' {
            Some(((c as u32) - 0x31) as u8)
        } else if c == 'X' {
            Some(9)
        } else if c == 'J' {
            Some(10)
        } else if c == 'Q' {
            Some(11)
        } else if c == 'K' {
            Some(12)
        } else {
            None
        }
    }

    /// The three-character text of this card in the save format.
    pub fn encode(&self) -> (r: String)
        requires
            self.rank < 13,
        ensures
            r@ == card_text_spec(*self),
    {
        let s = String::from_str(self.suit.to_str());
        let s = s.concat(rank_str(self.rank));
        let s = s.concat(orient_str(self.is_facing_up));
        proof {
            assert(s@ =~= card_text_spec(*self));
        }
        s
    }

    /// Decode the three-character text of a card.
    pub fn decode(s: &str) -> (r: Option<Card>)
        ensures
            r == decode_card_spec(s@),
    {
        if s.unicode_len() != 3 {
            return None;
        }
        let sc = s.get_char(0);
        let rc = s.get_char(1);
        let oc = s.get_char(2);
        let suit = match Suit::from_char(sc) {
            Some(v) => v,
            None => {
                return None;
            },
        };
        let rank = match Card::get_rank_from_char(rc) {
            Some(v) => v,
            None => {
                return None;
            },
        };
        if oc == '↑' {
            Some(Card { suit, rank, is_facing_up: true })
        } else if oc == '↓' {
            Some(Card { suit, rank, is_facing_up: false })
        } else {
            None
        }
    }
}

impl CardRange {
    /// The five-character text of this run in the save format.
    pub fn encode(&self) -> (r: String)
        requires
            self.wf(),
        ensures
            r@ == range_text_spec(*self),
    {
        proof {
            reveal_strlit("-");
        }
        let s = String::from_str(self.suit.to_str());
        let s = s.concat(rank_str(self.high));
        let s = s.concat("-");
        let s = s.concat(rank_str(self.low));
        let s = s.concat(orient_str(self.is_facing_up));
        proof {
            assert(s@ =~= range_text_spec(*self));
        }
        s
    }

    /// Decode the five-character text of a run; the separator character is
    /// not inspected.
    pub fn decode(s: &str) -> (r: Option<CardRange>)
        ensures
            r == decode_range_spec(s@),
    {
        if s.unicode_len() != 5 {
            return None;
        }
        let sc = s.get_char(0);
        let hc = s.get_char(1);
        let lc = s.get_char(3);
        let oc = s.get_char(4);
        let suit = match Suit::from_char(sc) {
            Some(v) => v,
            None => {
                return None;
            },
        };
        let high = match Card::get_rank_from_char(hc) {
            Some(v) => v,
            None => {
                return None;
            },
        };
        let low = match Card::get_rank_from_char(lc) {
            Some(v) => v,
            None => {
                return None;
            },
        };
        if oc == '↑' {
            Some(CardRange { suit, high, low, is_facing_up: true })
        } else if oc == '↓' {
            Some(CardRange { suit, high, low, is_facing_up: false })
        } else {
            None
        }
    }
}

/// A rank glyph decodes back to its rank.
pub proof fn lemma_rank_char_round_trip(rank: u8)
    requires
        rank < 13,
    ensures
        rank_from_char_spec(rank_char_spec(rank)) == Some(rank),
{
}

/// The save format round-trips every well-formed card exactly.
pub proof fn lemma_card_text_round_trip(c: Card)
    requires
        c.rank < 13,
    ensures
        decode_card_spec(card_text_spec(c)) == Some(c),
{
    lemma_rank_char_round_trip(c.rank);
}

/// The save format round-trips every well-formed run exactly.
pub proof fn lemma_range_text_round_trip(r: CardRange)
    requires
        r.high < 13,
        r.low < 13,
    ensures
        decode_range_spec(range_text_spec(r)) == Some(r),
{
    lemma_rank_char_round_trip(r.high);
    lemma_rank_char_round_trip(r.low);
}

} // verus!
