use spider_engine::cards::{Card, CardRange, Suit};

const SUITS: [Suit; 4] = [Suit::Clubs, Suit::Hearts, Suit::Diamonds, Suit::Spades];

#[test]
fn card_text_round_trips_every_card() {
    for suit in SUITS {
        for rank in 0..13u8 {
            for up in [false, true] {
                let c = Card { suit, rank, is_facing_up: up };
                let text = c.encode();
                assert_eq!(text.chars().count(), 3);
                assert_eq!(Card::decode(&text), Some(c));
            }
        }
    }
}

#[test]
fn card_text_exact_examples() {
    let c = Card { suit: Suit::Clubs, rank: 9, is_facing_up: true };
    assert_eq!(c.encode(), "♣X↑");
    let c = Card { suit: Suit::Hearts, rank: 0, is_facing_up: false };
    assert_eq!(c.encode(), "♥A↓");
    let c = Card { suit: Suit::Spades, rank: 12, is_facing_up: true };
    assert_eq!(c.encode(), "♠K↑");
    let c = Card { suit: Suit::Diamonds, rank: 1, is_facing_up: false };
    assert_eq!(c.encode(), "♦2↓");
}

#[test]
fn card_decode_rejects_bad_text() {
    assert_eq!(Card::decode(""), None);
    assert_eq!(Card::decode("♣X"), None);
    assert_eq!(Card::decode("♣X↑↑"), None);
    assert_eq!(Card::decode("ZX↑"), None);
    assert_eq!(Card::decode("♣Z↑"), None);
    assert_eq!(Card::decode("♣X?"), None);
}

#[test]
fn range_text_round_trips() {
    for suit in SUITS {
        for high in 0..13u8 {
            for low in 0..=high {
                for up in [false, true] {
                    let r = CardRange { suit, high, low, is_facing_up: up };
                    let text = r.encode();
                    assert_eq!(text.chars().count(), 5);
                    assert_eq!(CardRange::decode(&text), Some(r));
                }
            }
        }
    }
}

#[test]
fn range_text_exact_example() {
    let r = CardRange { suit: Suit::Hearts, high: 5, low: 1, is_facing_up: true };
    assert_eq!(r.encode(), "♥6-2↑");
}

#[test]
fn range_decode_ignores_separator() {
    let r = CardRange::decode("♥6x2↑").unwrap();
    assert_eq!((r.high, r.low), (5, 1));
}

#[test]
fn range_decode_rejects_bad_text() {
    assert_eq!(CardRange::decode("♥6-2"), None);
    assert_eq!(CardRange::decode("Z6-2↑"), None);
    assert_eq!(CardRange::decode("♥!-2↑"), None);
    assert_eq!(CardRange::decode("♥6-!↑"), None);
    assert_eq!(CardRange::decode("♥6-2x"), None);
}

#[test]
fn rank_glyphs() {
    assert_eq!(Card::rank_to_char(0), 'A');
    assert_eq!(Card::rank_to_char(1), '2');
    assert_eq!(Card::rank_to_char(8), '9');
    assert_eq!(Card::rank_to_char(9), 'X');
    assert_eq!(Card::rank_to_char(10), 'J');
    assert_eq!(Card::rank_to_char(11), 'Q');
    assert_eq!(Card::rank_to_char(12), 'K');
    for rank in 0..13u8 {
        assert_eq!(Card::get_rank_from_char(Card::rank_to_char(rank)), Some(rank));
    }
    assert_eq!(Card::get_rank_from_char('1'), None);
    assert_eq!(Card::get_rank_from_char('0'), None);
    assert_eq!(Card::get_rank_from_char('k'), None);
}

#[test]
fn suit_glyphs() {
    for suit in SUITS {
        assert_eq!(Suit::from_char(suit.to_char()), Some(suit));
    }
    assert_eq!(Suit::from_char('x'), None);
    let c = Card { suit: Suit::Clubs, rank: 9, is_facing_up: true };
    assert_eq!(c.get_rank_char(), 'X');
}
