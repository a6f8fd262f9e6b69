//! Players, their hands and tricks, the Skat, and the record of played cards.
use vstd::prelude::*;
use crate::arrange::{
    arrange, arrange_cards, count_in, count_of, lemma_arrange_follows_order, lemma_arrange_idempotent,
    lemma_arrange_permutes, lemma_no_duplicates_count,
};
use crate::cards::{all_cards, card_points, is_game, is_jack, points_of};
use crate::orders::{
    caps_tens, game_layout, game_layout_vec, hand_order, hand_suits_of, lemma_orders_are_card_orders,
    longest_first, longest_first_of,
};
use crate::rules::{is_valid_card, may_play};

verus! {

broadcast use vstd::seq_lib::group_seq_properties;

/// A player during the play: the cards in hand, the cards of the tricks
/// taken, and the points counted so far.
pub struct Player {
    pub id: u8,
    pub cards: Vec<u8>,
    pub tricks: Vec<u8>,
    pub counter: u8,
}

/// Collects the cards of a player before the play starts.
pub struct PlayerBuilder {
    pub id: u8,
    pub cards: Vec<u8>,
    pub counter: u8,
}

/// The two cards put aside at the deal.
pub struct Skat {
    pub first: u8,
    pub second: u8,
}

/// Collects the two cards of the Skat.
pub struct SkatBuilder {
    pub first: u8,
    pub second: u8,
}

/// For each of the 32 cards: the card and whether it was played already.
pub struct Record {
    pub cards: Vec<u8>,
    pub played: Vec<bool>,
}

/// Collects the cards of a record.
pub struct RecordBuilder {
    pub cards: Vec<u8>,
    pub played: Vec<bool>,
}

/// Number of cards among `s` that belong to suit `suit` and are no jack.
pub open spec fn suit_count(s: Seq<u8>, suit: u8) -> nat
    decreases s.len(),
{
    if s.len() == 0 {
        0
    } else {
        suit_count(s.drop_last(), suit) + if s.last() / 8 == suit && !is_jack(s.last()) {
            1nat
        } else {
            0nat
        }
    }
}

/// The suit (without jacks) of which `s` holds the most cards; of several
/// such suits the first in the sequence clubs, spades, hearts, diamonds.
pub open spec fn longest_suit(s: Seq<u8>) -> u8 {
    let c0 = suit_count(s, 0);
    let c1 = suit_count(s, 1);
    let c2 = suit_count(s, 2);
    let c3 = suit_count(s, 3);
    if c3 > c0 && c3 > c1 && c3 > c2 {
        3
    } else if c2 > c0 && c2 > c1 {
        2
    } else if c1 > c0 {
        1
    } else {
        0
    }
}

/// The plain sort of a hand of ten cards: jacks from clubs down, then the
/// longest suit, then the other suits in the sequence clubs, spades,
/// hearts, diamonds; within a suit ace, ten, king, queen, nine, eight, seven.
pub open spec fn plain_sorted(hand: Seq<u8>) -> Seq<u8> {
    arrange(game_layout('g', longest_first(longest_suit(hand))), hand, false)
}

/// Matadors counted down from the highest trump, given how often each of
/// the four top trumps is held (highest first): "with" as many as are held
/// in an unbroken row from the top, "without" as many as are missing above
/// the highest one held, four without when none is held.
pub open spec fn jack_strait(n1: nat, n2: nat, n3: nat, n4: nat) -> u8 {
    if n1 > 0 {
        if n2 == 0 {
            1
        } else if n3 == 0 {
            2
        } else if n3 >= 2 || n4 == 0 {
            3
        } else {
            4
        }
    } else if n2 > 0 {
        1
    } else if n3 > 0 {
        2
    } else if n4 > 0 {
        3
    } else {
        4
    }
}

/// The matador rule for a player who holds each of the four top trumps at
/// most once: "with 1" to "with 4" when he holds the highest trump and as
/// many as follow it unbroken, "without 1" to "without 4" when he lacks the
/// highest trump and as many as follow it before the first one he holds.
pub open spec fn matadors_rule(h1: bool, h2: bool, h3: bool, h4: bool) -> u8 {
    if h1 {
        if !h2 {
            1
        } else if !h3 {
            2
        } else if !h4 {
            3
        } else {
            4
        }
    } else if h2 {
        1
    } else if h3 {
        2
    } else if h4 {
        3
    } else {
        4
    }
}

/// When no top trump is held twice, the count of matadors follows the
/// matador rule, and it always lies between 1 and 4.
pub proof fn lemma_matadors_rule(n1: nat, n2: nat, n3: nat, n4: nat)
    ensures
        1 <= jack_strait(n1, n2, n3, n4) <= 4,
        (n1 <= 1 && n2 <= 1 && n3 <= 1 && n4 <= 1) ==> jack_strait(n1, n2, n3, n4) == matadors_rule(
            n1 == 1,
            n2 == 1,
            n3 == 1,
            n4 == 1,
        ),
{
}

/// The first ten cards of a hand together with the two cards of the Skat.
pub open spec fn hand_and_skat(cards: Seq<u8>, skat: Skat) -> Seq<u8> {
    cards.take(10).push(skat.first).push(skat.second)
}

/// The cards sorted by number, smallest first.
pub open spec fn by_number(cards: Seq<u8>) -> Seq<u8> {
    cards.sort_by(|x: u8, y: u8| x <= y)
}

proof fn lemma_by_number_len(cards: Seq<u8>)
    ensures
        by_number(cards).len() == cards.len(),
        by_number(cards).to_multiset() == cards.to_multiset(),
{
    let leq = |x: u8, y: u8| x <= y;
    assert(vstd::relations::total_ordering(leq));
    cards.lemma_sort_by_ensures(leq);
    cards.to_multiset_ensures();
    by_number(cards).to_multiset_ensures();
}

/// A sequence sorted by number that holds the same cards as `cards` is
/// `by_number(cards)`.
proof fn lemma_by_number(cards: Seq<u8>, sorted: Seq<u8>)
    requires
        sorted.to_multiset() == cards.to_multiset(),
        forall|i: int, j: int| 0 <= i < j < sorted.len() ==> sorted[i] <= sorted[j],
    ensures
        sorted == by_number(cards),
{
    let leq = |x: u8, y: u8| x <= y;
    assert(vstd::relations::total_ordering(leq));
    cards.lemma_sort_by_ensures(leq);
    assert(vstd::relations::sorted_by(sorted, leq));
    vstd::seq_lib::lemma_sorted_unique(sorted, by_number(cards), leq);
}

impl Player {
    /// Points that `card` counts.
    pub fn value_of(card: u8) -> (value: u8)
        ensures
            value == card_points(card),
    {
        match card {
            // Ace
            0 | 8 | 16 | 24 => 11u8,
            // Ten
            1 | 9 | 17 | 25 => 10u8,
            // King
            2 | 10 | 18 | 26 => 4u8,
            // Queen
            3 | 11 | 19 | 27 => 3u8,
            // Jack
            4 | 12 | 20 | 28 => 2u8,
            // others (7, 8, 9)
            _ => 0u8,
        }
    }

    /// Takes the trick `played_cards` (its first three cards) and counts its points.
    pub fn add_trick(&mut self, played_cards: &Vec<u8>)
        requires
            played_cards.len() >= 3,
            old(self).counter + card_points(played_cards@[0]) + card_points(played_cards@[1])
                + card_points(played_cards@[2]) <= 255,
        ensures
            final(self).tricks@ == old(self).tricks@ + played_cards@.take(3),
            final(self).counter == old(self).counter + card_points(played_cards@[0]) + card_points(
                played_cards@[1],
            ) + card_points(played_cards@[2]),
            final(self).id == old(self).id,
            final(self).cards == old(self).cards,
    {
        self.tricks.push(played_cards[0]);
        self.tricks.push(played_cards[1]);
        self.tricks.push(played_cards[2]);
        self.counter = self.counter + Player::value_of(played_cards[0]);
        self.counter = self.counter + Player::value_of(played_cards[1]);
        self.counter = self.counter + Player::value_of(played_cards[2]);
        assert(self.tricks@ =~= old(self).tricks@ + played_cards@.take(3));
    }

    /// The points counted so far.
    pub fn count_cards(&self) -> (count: u8)
        ensures
            count == self.counter,
    {
        self.counter
    }

    /// Plays the card at position `input` of the hand onto `played_cards`,
    /// if that is allowed; a player other than the leader (`player != 0`)
    /// has to follow the first card of the trick. Returns whether the card
    /// was played; when not, nothing changes.
    pub fn play_card(&mut self, played_cards: &mut Vec<u8>, player: u8, game: char, input: u8) -> (done: bool)
        requires
            player != 0 ==> old(played_cards).len() >= 1 && old(played_cards)@[0] < 32,
            player != 0 ==> is_game(game),
            player != 0 ==> all_cards(old(self).cards@),
        ensures
            done == (input <= 9 && (input as int) < old(self).cards.len() && (player != 0 ==> may_play(
                old(self).cards@[input as int],
                old(played_cards)@[0],
                game,
                old(self).cards@,
            ))),
            done ==> final(self).cards@ == old(self).cards@.remove(input as int),
            done ==> final(played_cards)@ == old(played_cards)@.push(old(self).cards@[input as int]),
            !done ==> final(self).cards == old(self).cards,
            !done ==> *final(played_cards) == *old(played_cards),
            final(self).id == old(self).id,
            final(self).tricks == old(self).tricks,
            final(self).counter == old(self).counter,
    {
        if input > 9 {
            return false;
        }
        if input as usize >= self.cards.len() {
            return false;
        }
        let card: u8 = self.cards[input as usize];
        if player != 0 {
            let first_card = played_cards[0];
            if !is_valid_card(card, first_card, game, &self.cards) {
                return false;
            }
        }
        let removed = self.cards.remove(input as usize);
        played_cards.push(removed);
        true
    }

    /// Points of the cards in hand.
    pub fn hand_points(&self) -> (points: u8)
        requires
            points_of(self.cards@) <= 255,
        ensures
            points == points_of(self.cards@),
    {
        let mut counter: u8 = 0;
        let mut index: usize = 0;
        while index < self.cards.len()
            invariant
                0 <= index <= self.cards.len(),
                points_of(self.cards@) <= 255,
                counter == points_of(self.cards@.take(index as int)),
            decreases self.cards.len() - index,
        {
            assert(self.cards@.take(index + 1).drop_last() =~= self.cards@.take(index as int));
            proof {
                lemma_points_prefix_bound(self.cards@, index as int + 1);
            }
            counter = counter + Player::value_of(self.cards[index]);
            index = index + 1;
        }
        assert(self.cards@.take(self.cards.len() as int) =~= self.cards@);
        counter
    }

    /// Sorts the first ten cards of the hand: jacks, the longest suit, then
    /// the other suits (see `plain_sorted`); further cards are dropped.
    pub fn sort_cards(&mut self)
        requires
            old(self).cards.len() >= 10,
            all_cards(old(self).cards@.take(10)),
        ensures
            final(self).cards@ == plain_sorted(old(self).cards@.take(10)),
            final(self).id == old(self).id,
            final(self).tricks == old(self).tricks,
            final(self).counter == old(self).counter,
    {
        let ghost hand = self.cards@.take(10);
        let mut clubs: u8 = 0;
        let mut spades: u8 = 0;
        let mut hearts: u8 = 0;
        let mut diamonds: u8 = 0;
        let mut n: usize = 0;
        while n < 10
            invariant
                0 <= n <= 10 <= self.cards.len(),
                hand == self.cards@.take(10),
                clubs == suit_count(self.cards@.take(n as int), 0),
                spades == suit_count(self.cards@.take(n as int), 1),
                hearts == suit_count(self.cards@.take(n as int), 2),
                diamonds == suit_count(self.cards@.take(n as int), 3),
                clubs + spades + hearts + diamonds <= n,
            decreases 10 - n,
        {
            assert(self.cards@.take(n + 1).drop_last() =~= self.cards@.take(n as int));
            let c = self.cards[n];
            if !(c == 4 || c == 12 || c == 20 || c == 28) {
                if c / 8 == 0 {
                    clubs = clubs + 1;
                } else if c / 8 == 1 {
                    spades = spades + 1;
                } else if c / 8 == 2 {
                    hearts = hearts + 1;
                } else if c / 8 == 3 {
                    diamonds = diamonds + 1;
                }
            }
            n = n + 1;
        }
        let h: u8 = if diamonds > clubs && diamonds > spades && diamonds > hearts {
            3
        } else if hearts > clubs && hearts > spades {
            2
        } else if spades > clubs {
            1
        } else {
            0
        };
        let t = longest_first_of(h);
        let order = game_layout_vec('g', t);
        let sorted = arrange_cards(&order, &self.cards, 10, false);
        self.cards = sorted;
    }

    /// Sorts the hand for game `game`: in the order of `hand_order(game)`,
    /// a ten listed only once in Null and Sächsische Spitze.
    pub fn sort_cards_for(&mut self, game: char)
        requires
            all_cards(old(self).cards@),
            is_game(game),
        ensures
            final(self).cards@ == arrange(hand_order(game), old(self).cards@, caps_tens(game)),
            final(self).id == old(self).id,
            final(self).tricks == old(self).tricks,
            final(self).counter == old(self).counter,
    {
        let t = hand_suits_of(game);
        let order = game_layout_vec(game, t);
        let n = self.cards.len();
        let sorted = arrange_cards(&order, &self.cards, n, game == 'b' || game == 'n');
        assert(self.cards@.take(n as int) =~= self.cards@);
        self.cards = sorted;
    }
}

/// Sorting a hand twice for the same game gives what sorting it once gives.
pub proof fn lemma_sort_for_twice(cards: Seq<u8>, g: char)
    requires
        all_cards(cards),
    ensures
        arrange(hand_order(g), arrange(hand_order(g), cards, caps_tens(g)), caps_tens(g)) == arrange(
            hand_order(g),
            cards,
            caps_tens(g),
        ),
{
    lemma_orders_are_card_orders(g, 0, 0);
    lemma_arrange_idempotent(hand_order(g), cards, caps_tens(g));
}

/// Sorting a hand for a game keeps exactly its cards, as long as no ten
/// occurs twice in it (in Null a repeated ten is kept only once).
pub proof fn lemma_sort_for_keeps_cards(cards: Seq<u8>, g: char)
    requires
        all_cards(cards),
        forall|c: u8| c % 8 == 1 ==> #[trigger] count_of(cards, c) <= 1,
    ensures
        arrange(hand_order(g), cards, caps_tens(g)).to_multiset() == cards.to_multiset(),
{
    lemma_orders_are_card_orders(g, 0, 0);
    lemma_arrange_permutes(hand_order(g), cards, caps_tens(g));
}

/// In a hand of distinct cards no ten occurs twice.
pub proof fn lemma_distinct_tens(cards: Seq<u8>)
    requires
        cards.no_duplicates(),
    ensures
        forall|c: u8| c % 8 == 1 ==> #[trigger] count_of(cards, c) <= 1,
{
    assert forall|c: u8| c % 8 == 1 implies #[trigger] count_of(cards, c) <= 1 by {
        lemma_no_duplicates_count(cards, c);
    }
}

/// A hand sorted for a game lists its cards in the order of the game.
pub proof fn lemma_sort_for_follows_order(cards: Seq<u8>, g: char, i: int, j: int)
    requires
        0 <= i < j < arrange(hand_order(g), cards, caps_tens(g)).len(),
    ensures
        exists|a: int, b: int|
            0 <= a <= b < hand_order(g).len() && hand_order(g)[a] == arrange(
                hand_order(g),
                cards,
                caps_tens(g),
            )[i] && hand_order(g)[b] == arrange(hand_order(g), cards, caps_tens(g))[j],
{
    lemma_arrange_follows_order(hand_order(g), cards, caps_tens(g), i, j);
}

/// The plain sort of a hand keeps exactly its cards.
pub proof fn lemma_plain_sort_keeps_cards(hand: Seq<u8>)
    requires
        all_cards(hand),
    ensures
        plain_sorted(hand).to_multiset() == hand.to_multiset(),
{
    let h = longest_suit(hand);
    assert(h < 4);
    lemma_orders_are_card_orders('g', 0, h);
    lemma_arrange_permutes(game_layout('g', longest_first(h)), hand, false);
}

proof fn lemma_points_prefix_bound(s: Seq<u8>, k: int)
    requires
        0 <= k <= s.len(),
    ensures
        points_of(s.take(k)) <= points_of(s),
    decreases s.len() - k,
{
    if k < s.len() {
        lemma_points_prefix_bound(s, k + 1);
        assert(s.take(k + 1).drop_last() =~= s.take(k));
    } else {
        assert(s.take(k) =~= s);
    }
}

/// A copy of the vector.
pub fn copy_cards(v: &Vec<u8>) -> (c: Vec<u8>)
    ensures
        c@ == v@,
{
    let mut c: Vec<u8> = Vec::new();
    let mut i: usize = 0;
    while i < v.len()
        invariant
            0 <= i <= v.len(),
            c@ == v@.take(i as int),
        decreases v.len() - i,
    {
        c.push(v[i]);
        i = i + 1;
        assert(c@ =~= v@.take(i as int));
    }
    assert(v@.take(v.len() as int) =~= v@);
    c
}

impl PlayerBuilder {
    /// A builder with no cards, no points, and the placeholder id 3.
    pub fn new() -> (b: PlayerBuilder)
        ensures
            b.id == 3,
            b.cards@ == Seq::<u8>::empty(),
            b.counter == 0,
    {
        PlayerBuilder { cards: Vec::new(), id: 3u8, counter: 0u8 }
    }

    /// Adds a card to the hand.
    pub fn add(&mut self, new_card: u8) -> (r: &mut PlayerBuilder)
        ensures
            r.cards@ == old(self).cards@.push(new_card),
            r.id == old(self).id,
            r.counter == old(self).counter,
            *final(self) == *final(r),
    {
        self.cards.push(new_card);
        self
    }

    /// The declarer plays from the hand: the Skat is not taken, but its
    /// points count for him.
    pub fn do_not_take(&mut self, skat: &Skat)
        requires
            old(self).counter + card_points(skat.first) + card_points(skat.second) <= 255,
        ensures
            final(self).counter == old(self).counter + card_points(skat.first) + card_points(skat.second),
            final(self).cards == old(self).cards,
            final(self).id == old(self).id,
    {
        self.counter = self.counter + Player::value_of(skat.first);
        self.counter = self.counter + Player::value_of(skat.second);
    }

    /// Sorts the hand by card number, before cards are put away.
    pub fn sort_by_number(&mut self)
        ensures
            final(self).cards@ == by_number(old(self).cards@),
            final(self).cards@.to_multiset() == old(self).cards@.to_multiset(),
            forall|i: int, j: int|
                0 <= i < j < final(self).cards@.len() ==> final(self).cards@[i] <= final(self).cards@[j],
            final(self).id == old(self).id,
            final(self).counter == old(self).counter,
    {
        let sorted = crate::numbers::sort_bytes(&self.cards);
        proof {
            lemma_by_number(self.cards@, sorted@);
        }
        self.cards = sorted;
    }

    /// Puts away one card after the hand is sorted by card number: a choice
    /// of at most `highest` names the card at that position of the sorted
    /// hand, which leaves the hand and counts for the declarer. Returns
    /// whether the choice was taken; the hand is sorted either way.
    fn drop_sorted(&mut self, input: u8, highest: u8) -> (done: bool)
        requires
            input <= highest ==> (input as int) < old(self).cards.len(),
            input <= highest ==> old(self).counter + card_points(by_number(old(self).cards@)[input as int])
                <= 255,
        ensures
            done == (input <= highest),
            done ==> final(self).cards@ == by_number(old(self).cards@).remove(input as int),
            done ==> final(self).counter == old(self).counter + card_points(
                by_number(old(self).cards@)[input as int],
            ),
            !done ==> final(self).cards@ == by_number(old(self).cards@) && final(self).counter
                == old(self).counter,
            final(self).id == old(self).id,
    {
        self.sort_by_number();
        if input <= highest {
            proof {
                lemma_by_number_len(old(self).cards@);
            }
            let card = self.cards.remove(input as usize);
            self.counter = self.counter + Player::value_of(card);
            true
        } else {
            false
        }
    }

    /// Puts away the first card chosen after taking the Skat: the hand is
    /// sorted by card number, and a choice of 0 to 11 names the card at that
    /// position of the sorted hand, which leaves the hand and counts for the
    /// declarer. Returns whether the choice was taken.
    pub fn drop1(&mut self, input: u8) -> (done: bool)
        requires
            input <= 11 ==> (input as int) < old(self).cards.len(),
            input <= 11 ==> old(self).counter + card_points(by_number(old(self).cards@)[input as int]) <= 255,
        ensures
            done == (input <= 11),
            done ==> final(self).cards@ == by_number(old(self).cards@).remove(input as int),
            done ==> final(self).counter == old(self).counter + card_points(
                by_number(old(self).cards@)[input as int],
            ),
            !done ==> final(self).cards@ == by_number(old(self).cards@) && final(self).counter
                == old(self).counter,
            final(self).id == old(self).id,
    {
        self.drop_sorted(input, 11)
    }

    /// Puts away the second card: as `drop1`, with a choice of 0 to 10.
    pub fn drop2(&mut self, input: u8) -> (done: bool)
        requires
            input <= 10 ==> (input as int) < old(self).cards.len(),
            input <= 10 ==> old(self).counter + card_points(by_number(old(self).cards@)[input as int]) <= 255,
        ensures
            done == (input <= 10),
            done ==> final(self).cards@ == by_number(old(self).cards@).remove(input as int),
            done ==> final(self).counter == old(self).counter + card_points(
                by_number(old(self).cards@)[input as int],
            ),
            !done ==> final(self).cards@ == by_number(old(self).cards@) && final(self).counter
                == old(self).counter,
            final(self).id == old(self).id,
    {
        self.drop_sorted(input, 10)
    }

    /// Sets the id of the player.
    pub fn id(&mut self, new_id: u8) -> (r: &mut PlayerBuilder)
        ensures
            r.id == new_id,
            r.cards == old(self).cards,
            r.counter == old(self).counter,
            *final(self) == *final(r),
    {
        self.id = new_id;
        self
    }

    /// Matadors of the first ten cards together with the Skat: for the
    /// trump order clubs, spades, hearts, diamonds jack, and for Sächsische
    /// Spitze, where the order is diamonds, hearts, spades, clubs jack.
    pub fn matadors_jack_strait(&self, skat: &Skat) -> (m: (u8, u8))
        requires
            self.cards.len() >= 10,
        ensures
            m.0 == jack_strait(
                count_of(hand_and_skat(self.cards@, *skat), 4),
                count_of(hand_and_skat(self.cards@, *skat), 12),
                count_of(hand_and_skat(self.cards@, *skat), 20),
                count_of(hand_and_skat(self.cards@, *skat), 28),
            ),
            m.1 == jack_strait(
                count_of(hand_and_skat(self.cards@, *skat), 28),
                count_of(hand_and_skat(self.cards@, *skat), 20),
                count_of(hand_and_skat(self.cards@, *skat), 12),
                count_of(hand_and_skat(self.cards@, *skat), 4),
            ),
    {
        let ghost all = hand_and_skat(self.cards@, *skat);
        let c4 = jacks_held(&self.cards, skat, 4);
        let c12 = jacks_held(&self.cards, skat, 12);
        let c20 = jacks_held(&self.cards, skat, 20);
        let c28 = jacks_held(&self.cards, skat, 28);
        (strait(c4, c12, c20, c28), strait(c28, c20, c12, c4))
    }

    /// Takes the two cards of the Skat into the hand.
    pub fn take(&mut self, skat: &Skat) -> (r: &mut PlayerBuilder)
        ensures
            r.cards@ == old(self).cards@.push(skat.first).push(skat.second),
            r.id == old(self).id,
            r.counter == old(self).counter,
            *final(self) == *final(r),
    {
        self.cards.push(skat.first);
        self.cards.push(skat.second);
        self
    }

    /// The player with the collected cards, no tricks yet, and the points
    /// counted so far.
    pub fn finalize(&self) -> (p: Player)
        ensures
            p.id == self.id,
            p.cards@ == self.cards@,
            p.tricks@ == Seq::<u8>::empty(),
            p.counter == self.counter,
    {
        Player { id: self.id, cards: copy_cards(&self.cards), tricks: Vec::new(), counter: self.counter }
    }
}

/// How often `jack` occurs among the first ten cards and the Skat.
fn jacks_held(cards: &Vec<u8>, skat: &Skat, jack: u8) -> (n: usize)
    requires
        cards.len() >= 10,
    ensures
        n == count_of(hand_and_skat(cards@, *skat), jack),
        n <= 12,
{
    let mut n = count_in(cards, 10, jack);
    let ghost ten = cards@.take(10);
    proof {
        crate::arrange::lemma_count_bounded(ten, jack);
        assert(ten.push(skat.first).drop_last() =~= ten);
        assert(ten.push(skat.first).push(skat.second).drop_last() =~= ten.push(skat.first));
        assert(count_of(ten.push(skat.first), jack) == count_of(ten, jack) + if skat.first == jack {
            1nat
        } else {
            0nat
        });
        assert(count_of(ten.push(skat.first).push(skat.second), jack) == count_of(
            ten.push(skat.first),
            jack,
        ) + if skat.second == jack {
            1nat
        } else {
            0nat
        });
    }
    if skat.first == jack {
        n = n + 1;
    }
    if skat.second == jack {
        n = n + 1;
    }
    n
}

/// `jack_strait` on counts of jacks.
fn strait(n1: usize, n2: usize, n3: usize, n4: usize) -> (m: u8)
    ensures
        m == jack_strait(n1 as nat, n2 as nat, n3 as nat, n4 as nat),
{
    if n1 > 0 {
        if n2 == 0 {
            1
        } else if n3 == 0 {
            2
        } else if n3 >= 2 || n4 == 0 {
            3
        } else {
            4
        }
    } else if n2 > 0 {
        1
    } else if n3 > 0 {
        2
    } else if n4 > 0 {
        3
    } else {
        4
    }
}

impl SkatBuilder {
    /// A Skat builder holding the cards 0 and 0.
    pub fn new() -> (b: SkatBuilder)
        ensures
            b.first == 0,
            b.second == 0,
    {
        SkatBuilder { first: 0u8, second: 0u8 }
    }

    /// Sets the two cards.
    pub fn add(&mut self, f: u8, s: u8) -> (r: &mut SkatBuilder)
        ensures
            r.first == f,
            r.second == s,
            *final(self) == *final(r),
    {
        self.first = f;
        self.second = s;
        self
    }

    /// The Skat with the two cards.
    pub fn finalize(&self) -> (skat: Skat)
        ensures
            skat.first == self.first,
            skat.second == self.second,
    {
        Skat { first: self.first, second: self.second }
    }
}

impl Record {
    /// Marks the card at `index` as played. Returns `false`, changing
    /// nothing, when it was played already.
    pub fn is_valid(&mut self, index: u8) -> (fresh: bool)
        requires
            (index as int) < old(self).played.len(),
        ensures
            fresh == !old(self).played@[index as int],
            final(self).played@ == old(self).played@.update(index as int, true),
            final(self).cards == old(self).cards,
    {
        if !self.played[index as usize] {
            self.played.set(index as usize, true);
            true
        } else {
            assert(old(self).played@.update(index as int, true) =~= old(self).played@);
            false
        }
    }
}

impl RecordBuilder {
    /// An empty record.
    pub fn new() -> (b: RecordBuilder)
        ensures
            b.cards@ == Seq::<u8>::empty(),
            b.played@ == Seq::<bool>::empty(),
    {
        RecordBuilder { cards: Vec::new(), played: Vec::new() }
    }

    /// Adds a card that was not played yet.
    pub fn add(&mut self, new_card: u8) -> (r: &mut RecordBuilder)
        ensures
            r.cards@ == old(self).cards@.push(new_card),
            r.played@ == old(self).played@.push(false),
            *final(self) == *final(r),
    {
        self.cards.push(new_card);
        self.played.push(false);
        self
    }

    /// The record of the collected cards.
    pub fn finalize(&self) -> (r: Record)
        ensures
            r.cards@ == self.cards@,
            r.played@ == self.played@,
    {
        let mut played: Vec<bool> = Vec::new();
        let mut i: usize = 0;
        while i < self.played.len()
            invariant
                0 <= i <= self.played.len(),
                played@ == self.played@.take(i as int),
            decreases self.played.len() - i,
        {
            played.push(self.played[i]);
            i = i + 1;
            assert(played@ =~= self.played@.take(i as int));
        }
        assert(self.played@.take(self.played.len() as int) =~= self.played@);
        Record { cards: copy_cards(&self.cards), played }
    }
}

} // verus!
