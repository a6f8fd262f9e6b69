//! The Skat deck and the basic facts about single cards, games and bids.
//!
//! A card is a number below 32. Its suit is `card / 8` (0 clubs, 1 spades,
//! 2 hearts, 3 diamonds) and its face is `card % 8` (0 ace, 1 ten, 2 king,
//! 3 queen, 4 jack, 5 nine, 6 eight, 7 seven). A game is one of the letters
//! `g` (Grand), `b` (Sächsische Spitze), `n` (Null), `c`, `s`, `h`, `d`
//! (a suit game with clubs, spades, hearts or diamonds as trumps).
use vstd::prelude::*;

verus! {

/// Every element of the sequence is a card of the deck.
pub open spec fn all_cards(s: Seq<u8>) -> bool {
    forall|i: int| 0 <= i < s.len() ==> #[trigger] s[i] < 32
}

/// The card is one of the four jacks.
pub open spec fn is_jack(c: u8) -> bool {
    c == 4 || c == 12 || c == 20 || c == 28
}

/// The letter names one of the seven games.
pub open spec fn is_game(g: char) -> bool {
    g == 'g' || g == 'b' || g == 'n' || g == 'c' || g == 's' || g == 'h' || g == 'd'
}

/// Points that a card counts in the tricks: ace 11, ten 10, king 4,
/// queen 3, jack 2, the others nothing (and nothing for a number that is
/// not a card).
pub open spec fn card_points(c: u8) -> u8 {
    if c >= 32 {
        0
    } else if c % 8 == 0 {
        11
    } else if c % 8 == 1 {
        10
    } else if c % 8 == 2 {
        4
    } else if c % 8 == 3 {
        3
    } else if c % 8 == 4 {
        2
    } else {
        0
    }
}

/// Sum of the points of the cards of a sequence.
pub open spec fn points_of(s: Seq<u8>) -> int
    decreases s.len(),
{
    if s.len() == 0 {
        0
    } else {
        points_of(s.drop_last()) + card_points(s.last())
    }
}

/// The 32 cards of the deck in the order of their numbers.
pub open spec fn deck() -> Seq<u8> {
    Seq::new(32, |i: int| i as u8)
}

/// Null bids: Null 23, Null Hand 35, Null Ouvert 46, Null Ouvert Hand 59.
pub open spec fn is_null_value(b: u8) -> bool {
    b == 23 || b == 35 || b == 46 || b == 59
}

/// A bid that can be said: a Null value, a multiple of a suit game's base
/// value (9, 10, 11, 12) up to 156, or a multiple of the Grand base value 24
/// up to 168. Zero (pass) is a multiple of every base value.
pub open spec fn valid_bid(b: u8) -> bool {
    b <= 168 && (b % 24 == 0 || (b <= 156 && (is_null_value(b) || b % 12 == 0 || b % 11 == 0
        || b % 10 == 0 || b % 9 == 0)))
}

/// Whether `bid` can be said in the bidding.
pub fn is_valid_bid(bid: u8) -> (valid: bool)
    ensures
        valid == valid_bid(bid),
{
    let nulls: [u8; 4] = [23, 35, 46, 59];
    let mut valid = false;
    let mut i: usize = 0;
    while i < 4
        invariant
            0 <= i <= 4,
            nulls@ == seq![23u8, 35u8, 46u8, 59u8],
            valid == (exists|k: int| 0 <= k < i && nulls@[k] == bid),
        decreases 4 - i,
    {
        if nulls[i] == bid {
            valid = true;
        }
        i = i + 1;
    }
    assert(valid == is_null_value(bid)) by {
        if is_null_value(bid) {
            if bid == 23 {
                assert(nulls@[0] == bid);
            } else if bid == 35 {
                assert(nulls@[1] == bid);
            } else if bid == 46 {
                assert(nulls@[2] == bid);
            } else {
                assert(nulls@[3] == bid);
            }
        }
    }
    // suit games
    if bid % 12 == 0 {
        valid = true;
    }
    if bid % 11 == 0 {
        valid = true;
    }
    if bid % 10 == 0 {
        valid = true;
    }
    if bid % 9 == 0 {
        valid = true;
    }
    // 13 * 12 = 4 jacks, 6 trumps, game, Schneider, Schwarz
    if bid > 156 {
        valid = false;
    }
    // Grand
    if bid % 24 == 0 {
        valid = true;
    }
    // 7 * 24 = 4 jacks, game, Schneider, Schwarz
    if bid > 168 {
        valid = false;
    }
    valid
}

/// Whether `card` occurs in `cards`.
pub fn is_in(card: u8, cards: &Vec<u8>) -> (found: bool)
    ensures
        found == cards@.contains(card),
{
    let mut n: usize = 0;
    while n < cards.len()
        invariant
            0 <= n <= cards.len(),
            forall|k: int| 0 <= k < n ==> cards@[k] != card,
        decreases cards.len() - n,
    {
        if card == cards[n] {
            return true;
        }
        n = n + 1;
    }
    false
}

/// The 32 cards of the deck count 120 points together.
pub proof fn lemma_deck_points()
    ensures
        points_of(deck()) == 120,
{
    lemma_points_prefix(32);
    assert(deck().take(32) =~= deck());
}

/// Points of the first `k` cards of the deck: each suit counts 30.
spec fn points_prefix(k: int) -> int
    decreases k,
{
    if k <= 0 {
        0
    } else {
        points_prefix(k - 1) + card_points((k - 1) as u8)
    }
}

proof fn lemma_points_prefix(k: int)
    requires
        0 <= k <= 32,
    ensures
        points_of(deck().take(k)) == points_prefix(k),
        points_prefix(32) == 120,
    decreases k,
{
    reveal_with_fuel(points_prefix, 33);
    if k > 0 {
        lemma_points_prefix(k - 1);
        assert(deck().take(k).drop_last() =~= deck().take(k - 1));
    }
}

} // verus!
