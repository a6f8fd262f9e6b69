//! The rules of play: which card may follow, which card wins a trick.
use vstd::prelude::*;
use crate::arrange::{
    arrange, arrange_cards, lemma_arrange_counts, lemma_arrange_elements, lemma_arrange_follows_order,
    lemma_count_nonempty, lemma_count_occurs, lemma_count_positive, times,
};
use crate::cards::{all_cards, is_game, is_jack};
use crate::players::{longest_suit, plain_sorted, suit_count};
use crate::orders::{
    caps_tens, game_layout, game_layout_vec, grand_faces, hand_order, hand_suits, jacks_down_from_clubs,
    jacks_up_from_diamonds, layout, lemma_game_faces, lemma_layout_at, lemma_orders_are_card_orders,
    lemma_run_card, longest_first, null_faces, spitze_faces, suit_run, trick_order, trick_suits,
    trick_suits_of,
    SuitSequence,
};

verus! {

broadcast use vstd::seq_lib::group_seq_properties;

/// The group a card belongs to when it has to follow: the trumps (group 4),
/// or its suit (0 to 3). In Grand and Sächsische Spitze the trumps are the
/// jacks, in a suit game the jacks and the trump suit, in Null there are none.
pub open spec fn follow_group(g: char, c: u8) -> u8 {
    if g == 'n' {
        c / 8
    } else if is_jack(c) {
        4
    } else if (g == 'c' && c / 8 == 0) || (g == 's' && c / 8 == 1) || (g == 'h' && c / 8 == 2) || (
    g == 'd' && c / 8 == 3) {
        4
    } else {
        c / 8
    }
}

/// A player holding `hand` may play `card` on a trick led by `first`: when
/// the hand holds a card of the led group, `card` must be one of them; when
/// it holds none, any card may be played.
pub open spec fn may_play(card: u8, first: u8, g: char, hand: Seq<u8>) -> bool {
    (forall|i: int| 0 <= i < hand.len() ==> #[trigger] follow_group(g, hand[i]) != follow_group(g, first))
        || (hand.contains(card) && follow_group(g, card) == follow_group(g, first))
}

/// The group of card `c` in game `g` (see `follow_group`).
fn group_of(g: char, c: u8) -> (r: u8)
    ensures
        r == follow_group(g, c),
{
    if g == 'n' {
        c / 8
    } else if c == 4 || c == 12 || c == 20 || c == 28 {
        4
    } else if (g == 'c' && c / 8 == 0) || (g == 's' && c / 8 == 1) || (g == 'h' && c / 8 == 2) || (
    g == 'd' && c / 8 == 3) {
        4
    } else {
        c / 8
    }
}

/// Whether a player holding `cards` may play `card` on a trick that was
/// led with `first_card`, in game `game`.
pub fn is_valid_card(card: u8, first_card: u8, game: char, cards: &Vec<u8>) -> (valid: bool)
    requires
        first_card < 32,
        is_game(game),
        all_cards(cards@),
    ensures
        valid == may_play(card, first_card, game, cards@),
{
    let led = group_of(game, first_card);
    let mut holds_led = false;
    let mut holds_card = false;
    let mut n: usize = 0;
    while n < cards.len()
        invariant
            0 <= n <= cards.len(),
            led == follow_group(game, first_card),
            holds_led == (exists|i: int| 0 <= i < n && #[trigger] follow_group(game, cards@[i]) == led),
            holds_card == (exists|i: int| 0 <= i < n && cards@[i] == card),
        decreases cards.len() - n,
    {
        if group_of(game, cards[n]) == led {
            holds_led = true;
        }
        if cards[n] == card {
            holds_card = true;
        }
        n = n + 1;
    }
    let card_led = group_of(game, card) == led;
    proof {
        if holds_card {
            let i = choose|i: int| 0 <= i < cards.len() && cards@[i] == card;
            assert(cards@.contains(card));
        }
        if cards@.contains(card) {
            let i = choose|i: int| 0 <= i < cards.len() && cards@[i] == card;
            assert(holds_card);
        }
    }
    !holds_led || (holds_card && card_led)
}

/// The three cards of a trick (its first three elements), listed from the
/// one that takes the trick down to the lowest.
pub fn sort_trick_for(cards: &Vec<u8>, game: char) -> (sorted: Vec<u8>)
    requires
        cards.len() >= 3,
        cards@[0] < 32,
        cards@[1] < 32,
        cards@[2] < 32,
        is_game(game),
    ensures
        sorted@ == arrange(trick_order(game, cards@[0]), cards@.take(3), caps_tens(game)),
{
    let lead = cards[0] / 8;
    let t = trick_suits_of(game, lead);
    let order = game_layout_vec(game, t);
    arrange_cards(&order, cards, 3, game == 'b' || game == 'n')
}

/// Which of the three players of a trick takes it: the one who played the
/// first card of the ranked trick (0 the leader, 1 the second, 2 the third).
pub open spec fn trick_winner(played: Seq<u8>, g: char) -> u8 {
    let top = arrange(trick_order(g, played[0]), played.take(3), caps_tens(g))[0];
    if top == played[0] {
        0
    } else if top == played[1] {
        1
    } else if top == played[2] {
        2
    } else {
        0
    }
}

/// Which of the three players takes the trick `played_cards` (counted from
/// the leader).
pub fn who_wins_trick(played_cards: &Vec<u8>, game: char) -> (winner: u8)
    requires
        played_cards.len() >= 3,
        played_cards@[0] < 32,
        played_cards@[1] < 32,
        played_cards@[2] < 32,
        is_game(game),
    ensures
        winner == trick_winner(played_cards@, game),
        winner < 3,
{
    let sorted = sort_trick_for(played_cards, game);
    proof {
        let s = played_cards@.take(3);
        lemma_orders_are_card_orders(game, played_cards@[0], 0);
        lemma_arrange_counts(trick_order(game, played_cards@[0]), s, caps_tens(game), s[0]);
        lemma_count_positive(s, 0);
        assert(times(s, s[0], caps_tens(game)) >= 1);
        lemma_count_nonempty(sorted@, s[0]);
    }
    if sorted[0] == played_cards[0] {
        return 0;
    }
    if sorted[0] == played_cards[1] {
        return 1;
    }
    if sorted[0] == played_cards[2] {
        return 2;
    }
    0
}

/// The player who takes a trick played the card that ranks first among
/// the three in the order of the trick: for each card of the trick, the
/// winning card stands no later in that order.
pub proof fn lemma_trick_winner_ranks_first(played: Seq<u8>, g: char)
    requires
        played.len() >= 3,
        played[0] < 32,
        played[1] < 32,
        played[2] < 32,
        is_game(g),
    ensures
        trick_winner(played, g) < 3,
        forall|k: int|
            0 <= k < 3 ==> exists|a: int, b: int|
                0 <= a <= b < trick_order(g, played[0]).len() && trick_order(g, played[0])[a]
                    == played[trick_winner(played, g) as int] && trick_order(g, played[0])[b]
                    == #[trigger] played[k],
{
    let order = trick_order(g, played[0]);
    let cap = caps_tens(g);
    let s = played.take(3);
    let out = arrange(order, s, cap);
    lemma_orders_are_card_orders(g, played[0], 0);
    // every card of the trick is listed
    assert forall|k: int| 0 <= k < 3 implies exists|j: int| 0 <= j < out.len() && out[j] == #[trigger] s[k] by {
        lemma_count_positive(s, k);
        lemma_arrange_counts(order, s, cap, s[k]);
        lemma_count_occurs(out, s[k]);
    }
    let j0 = choose|j: int| 0 <= j < out.len() && out[j] == s[0];
    let top = out[0];
    // the first listed card is a card of the trick
    lemma_count_positive(out, 0);
    lemma_arrange_counts(order, s, cap, top);
    lemma_arrange_elements(order, s, cap, 0);
    lemma_count_occurs(s, top);
    let w = trick_winner(played, g);
    assert(played[w as int] == top);
    assert forall|k: int| 0 <= k < 3 implies exists|a: int, b: int|
        0 <= a <= b < order.len() && order[a] == played[w as int] && order[b] == #[trigger] played[k] by {
        let j = choose|j: int| 0 <= j < out.len() && out[j] == s[k];
        if j == 0 {
            let a = choose|a: int| 0 <= a < order.len() && order[a] == top;
            assert(order[a] == played[k]);
        } else {
            lemma_arrange_follows_order(order, s, cap, 0, j);
        }
    }
}

/// A player who holds at least one card always has a card he may play.
pub proof fn lemma_some_card_may_be_played(first: u8, g: char, hand: Seq<u8>)
    requires
        hand.len() > 0,
    ensures
        exists|i: int| 0 <= i < hand.len() && #[trigger] may_play(hand[i], first, g, hand),
{
    if forall|i: int| 0 <= i < hand.len() ==> #[trigger] follow_group(g, hand[i]) != follow_group(g, first) {
        assert(may_play(hand[0], first, g, hand));
    } else {
        let i = choose|i: int| 0 <= i < hand.len() && #[trigger] follow_group(g, hand[i]) == follow_group(g, first);
        assert(hand.contains(hand[i]));
        assert(may_play(hand[i], first, g, hand));
    }
}

/// How a card ranks in a trick led by `lead`, by its group alone: a trump
/// (0) above a card of the led group (1) above any other card (2).
pub open spec fn trick_rank(g: char, lead: u8, c: u8) -> int {
    if follow_group(g, c) == 4 {
        0
    } else if follow_group(g, c) == follow_group(g, lead) {
        1
    } else {
        2
    }
}

/// Which part of a layout with `j` jacks and runs of `f` cards position
/// `i` falls in: -1 for the jacks, 0 to 3 for the runs of the suits.
spec fn part_of_layout(i: int, j: int, f: int) -> int {
    if i < j {
        -1
    } else if i < j + f {
        0
    } else if i < j + 2 * f {
        1
    } else if i < j + 3 * f {
        2
    } else {
        3
    }
}

/// The suit listed in part `k` of a layout with the suit sequence `t`.
spec fn suit_of_part(t: SuitSequence, k: int) -> u8 {
    if k == 0 {
        t.0
    } else if k == 1 {
        t.1
    } else if k == 2 {
        t.2
    } else {
        t.3
    }
}

/// Outside Null a card that is no jack is in the group of its suit's ace;
/// in Null every card is.
proof fn lemma_group_by_suit(g: char, c: u8)
    requires
        c < 32,
        g == 'n' || !is_jack(c),
    ensures
        follow_group(g, c) == follow_group(g, (c / 8 * 8) as u8),
{
}

/// The card at position `i` of the order of game `g` with the suit
/// sequence `t`: a jack (outside Null) in the first part, otherwise a card
/// whose group is that of the ace of the part's suit.
proof fn lemma_order_card(g: char, t: SuitSequence, i: int)
    requires
        is_game(g),
        t.0 < 4 && t.1 < 4 && t.2 < 4 && t.3 < 4,
        0 <= i < game_layout(g, t).len(),
    ensures
        ({
            let c = game_layout(g, t)[i];
            let j = if g == 'n' { 0int } else { 4int };
            let f = if g == 'n' { 8int } else { 7int };
            let k = part_of_layout(i, j, f);
            &&& game_layout(g, t).len() == 32
            &&& c < 32
            &&& k == -1 ==> g != 'n' && is_jack(c)
            &&& k != -1 ==> c / 8 == suit_of_part(t, k) && (g == 'n' || !is_jack(c))
        }),
{
    let (jacks, faces) = if g == 'n' {
        (Seq::<u8>::empty(), null_faces())
    } else if g == 'b' {
        (jacks_up_from_diamonds(), spitze_faces())
    } else {
        (jacks_down_from_clubs(), grand_faces())
    };
    assert(game_layout(g, t) == layout(jacks, faces, t));
    lemma_game_faces(g);
    lemma_layout_at(jacks, faces, t, i);
    let j = jacks.len() as int;
    let f = faces.len() as int;
    let l = game_layout(g, t);
    if i < j {
        if g == 'b' {
            assert(jacks[i] == 28 || jacks[i] == 20 || jacks[i] == 12 || jacks[i] == 4);
        } else {
            assert(jacks[i] == 4 || jacks[i] == 12 || jacks[i] == 20 || jacks[i] == 28);
        }
    } else {
        let k = part_of_layout(i, j, f);
        let s = suit_of_part(t, k);
        let at = i - j - k * f;
        assert(0 <= at < f);
        assert(l[i] == suit_run(s, faces)[at]);
        assert(faces[at] < 8);
        lemma_run_card(s, faces, at);
    }
}

/// The order of a trick lists the trumps first, then the cards of the led
/// group, then the others: a card that stands earlier in the order never
/// has a worse group (see `trick_rank`).
pub proof fn lemma_trick_order_groups(g: char, lead: u8, a: int, b: int)
    requires
        is_game(g),
        lead < 32,
        0 <= a <= b < trick_order(g, lead).len(),
    ensures
        trick_rank(g, lead, trick_order(g, lead)[a]) <= trick_rank(g, lead, trick_order(g, lead)[b]),
{
    let t = trick_suits(g, lead / 8);
    assert(trick_order(g, lead) == game_layout(g, t));
    lemma_order_card(g, t, a);
    lemma_order_card(g, t, b);
    let j = if g == 'n' { 0int } else { 4int };
    let f = if g == 'n' { 8int } else { 7int };
    let ka = part_of_layout(a, j, f);
    let kb = part_of_layout(b, j, f);
    let ca = trick_order(g, lead)[a];
    let cb = trick_order(g, lead)[b];
    let r0 = trick_rank(g, lead, (t.0 * 8) as u8);
    let r1 = trick_rank(g, lead, (t.1 * 8) as u8);
    let r2 = trick_rank(g, lead, (t.2 * 8) as u8);
    let r3 = trick_rank(g, lead, (t.3 * 8) as u8);
    // the suits of a trick come in the sequence trumps, led group, others
    assert(r0 <= r1 && r1 <= r2 && r2 <= r3);
    if ka != -1 {
        lemma_group_by_suit(g, ca);
    }
    if kb != -1 {
        lemma_group_by_suit(g, cb);
    }
}

/// A trick with a trump in it is taken with a trump; a trick without one
/// is taken with a card of the led group: in Grand, Sächsische Spitze and
/// the suit games a card of the led suit beats a card of another suit that
/// is not trump, and in Null the led suit takes the trick.
pub proof fn lemma_trumps_then_led_suit_take_tricks(played: Seq<u8>, g: char)
    requires
        played.len() >= 3,
        played[0] < 32,
        played[1] < 32,
        played[2] < 32,
        is_game(g),
    ensures
        (exists|k: int| 0 <= k < 3 && #[trigger] follow_group(g, played[k]) == 4) ==> follow_group(
            g,
            played[trick_winner(played, g) as int],
        ) == 4,
        (forall|k: int| 0 <= k < 3 ==> #[trigger] follow_group(g, played[k]) != 4) ==> follow_group(
            g,
            played[trick_winner(played, g) as int],
        ) == follow_group(g, played[0]),
{
    lemma_trick_winner_ranks_first(played, g);
    let w = trick_winner(played, g) as int;
    let order = trick_order(g, played[0]);
    assert forall|k: int| 0 <= k < 3 implies trick_rank(g, played[0], played[w]) <= trick_rank(
        g,
        played[0],
        #[trigger] played[k],
    ) by {
        let (a, b) = choose|a: int, b: int|
            0 <= a <= b < order.len() && order[a] == played[w] && order[b] == played[k];
        lemma_trick_order_groups(g, played[0], a, b);
    }
    assert(trick_rank(g, played[0], played[w]) <= trick_rank(g, played[0], played[0]));
}

/// How a card ranks when a hand is sorted for a game other than Null: the
/// jacks (0) before the other trumps (1) before the cards of the other
/// suits (2).
pub open spec fn hand_rank(g: char, c: u8) -> int {
    if is_jack(c) {
        0
    } else if follow_group(g, c) == 4 {
        1
    } else {
        2
    }
}

/// The order in which a hand is sorted for a game other than Null lists
/// the jacks first, then the trump suit, then the other suits.
pub proof fn lemma_hand_order_groups(g: char, a: int, b: int)
    requires
        is_game(g),
        g != 'n',
        0 <= a <= b < hand_order(g).len(),
    ensures
        hand_rank(g, hand_order(g)[a]) <= hand_rank(g, hand_order(g)[b]),
{
    let t = hand_suits(g);
    assert(hand_order(g) == game_layout(g, t));
    lemma_order_card(g, t, a);
    lemma_order_card(g, t, b);
    let ca = hand_order(g)[a];
    let cb = hand_order(g)[b];
    let r0 = hand_rank(g, (t.0 * 8) as u8);
    let r1 = hand_rank(g, (t.1 * 8) as u8);
    let r2 = hand_rank(g, (t.2 * 8) as u8);
    let r3 = hand_rank(g, (t.3 * 8) as u8);
    // the trump suit, if any, comes first among the suits
    assert(1 <= r0 && r0 <= r1 && r1 <= r2 && r2 <= r3);
    if part_of_layout(a, 4, 7) != -1 {
        lemma_group_by_suit(g, ca);
    }
    if part_of_layout(b, 4, 7) != -1 {
        lemma_group_by_suit(g, cb);
    }
}

/// A hand sorted for a game other than Null (see `Player::sort_cards_for`)
/// lists its jacks first, then its other trumps, then its other cards: of
/// two cards of the sorted hand, the earlier never ranks lower (see
/// `hand_rank`).
pub proof fn lemma_sorted_hand_trumps_first(cards: Seq<u8>, g: char, i: int, j: int)
    requires
        is_game(g),
        g != 'n',
        0 <= i < j < arrange(hand_order(g), cards, caps_tens(g)).len(),
    ensures
        hand_rank(g, arrange(hand_order(g), cards, caps_tens(g))[i]) <= hand_rank(
            g,
            arrange(hand_order(g), cards, caps_tens(g))[j],
        ),
{
    lemma_arrange_follows_order(hand_order(g), cards, caps_tens(g), i, j);
    let sorted = arrange(hand_order(g), cards, caps_tens(g));
    let (a, b) = choose|a: int, b: int|
        0 <= a <= b < hand_order(g).len() && hand_order(g)[a] == sorted[i] && hand_order(g)[b] == sorted[j];
    lemma_hand_order_groups(g, a, b);
}

/// How strong a face is within its suit: in Grand and the suit games ace,
/// ten, king, queen, nine, eight, seven; in Null ace, king, queen, jack,
/// ten, nine, eight, seven; in Sächsische Spitze seven, eight, nine, ten,
/// queen, king, ace. The face is the card's number modulo 8 (ace 0, ten 1,
/// king 2, queen 3, jack 4, nine 5, eight 6, seven 7).
pub open spec fn face_power(g: char, f: u8) -> int {
    if g == 'n' {
        if f == 0 { 7 } else if f == 2 { 6 } else if f == 3 { 5 } else if f == 4 { 4 } else if f == 1 { 3 } else if f == 5 { 2 } else if f == 6 { 1 } else { 0 }
    } else if g == 'b' {
        if f == 7 { 6 } else if f == 6 { 5 } else if f == 5 { 4 } else if f == 1 { 3 } else if f == 3 { 2 } else if f == 2 { 1 } else { 0 }
    } else {
        if f == 0 { 6 } else if f == 1 { 5 } else if f == 2 { 4 } else if f == 3 { 3 } else if f == 5 { 2 } else if f == 6 { 1 } else { 0 }
    }
}

/// How strong a card is within its group: outside Null the jacks are
/// above every other card, from the club jack down to the diamond jack (in
/// Sächsische Spitze from the diamond jack down to the club jack); the
/// other cards by their faces (see `face_power`).
pub open spec fn card_power(g: char, c: u8) -> int {
    if g != 'n' && is_jack(c) {
        if g == 'b' {
            if c == 28 { 13 } else if c == 20 { 12 } else if c == 12 { 11 } else { 10 }
        } else {
            if c == 4 { 13 } else if c == 12 { 12 } else if c == 20 { 11 } else { 10 }
        }
    } else {
        face_power(g, c % 8)
    }
}

/// In the order of a game the jacks come from the strongest down, and
/// within each suit the faces come from the strongest down.
proof fn lemma_order_power(g: char, t: SuitSequence, i: int)
    requires
        is_game(g),
        t.0 < 4 && t.1 < 4 && t.2 < 4 && t.3 < 4,
        0 <= i < 32,
    ensures
        ({
            let j = if g == 'n' { 0int } else { 4int };
            let f = if g == 'n' { 8int } else { 7int };
            let k = part_of_layout(i, j, f);
            card_power(g, game_layout(g, t)[i]) == if k == -1 {
                13 - i
            } else {
                f - 1 - (i - j - k * f)
            }
        }),
{
    let (jacks, faces) = if g == 'n' {
        (Seq::<u8>::empty(), null_faces())
    } else if g == 'b' {
        (jacks_up_from_diamonds(), spitze_faces())
    } else {
        (jacks_down_from_clubs(), grand_faces())
    };
    assert(game_layout(g, t) == layout(jacks, faces, t));
    lemma_game_faces(g);
    lemma_layout_at(jacks, faces, t, i);
    lemma_order_card(g, t, i);
    let j = jacks.len() as int;
    let f = faces.len() as int;
    let l = game_layout(g, t);
    if i >= j {
        let k = part_of_layout(i, j, f);
        let s = suit_of_part(t, k);
        let at = i - j - k * f;
        assert(l[i] == suit_run(s, faces)[at]);
        lemma_run_card(s, faces, at);
        assert(l[i] % 8 == faces[at]);
        if g == 'n' {
            assert(faces =~= seq![0u8, 2u8, 3u8, 4u8, 1u8, 5u8, 6u8, 7u8]);
        } else if g == 'b' {
            assert(faces =~= seq![7u8, 6u8, 5u8, 1u8, 3u8, 2u8, 0u8]);
        } else {
            assert(faces =~= seq![0u8, 1u8, 2u8, 3u8, 5u8, 6u8, 7u8]);
        }
    } else {
        if g == 'b' {
            assert(jacks =~= seq![28u8, 20u8, 12u8, 4u8]);
        } else {
            assert(jacks =~= seq![4u8, 12u8, 20u8, 28u8]);
        }
    }
}

/// In the order of a trick, of two cards of the same group the earlier one
/// is the stronger (see `card_power`).
proof fn lemma_trick_order_power(g: char, lead: u8, a: int, b: int)
    requires
        is_game(g),
        lead < 32,
        0 <= a <= b < trick_order(g, lead).len(),
        follow_group(g, trick_order(g, lead)[a]) == follow_group(g, trick_order(g, lead)[b]),
    ensures
        card_power(g, trick_order(g, lead)[a]) >= card_power(g, trick_order(g, lead)[b]),
{
    let t = trick_suits(g, lead / 8);
    assert(trick_order(g, lead) == game_layout(g, t));
    lemma_order_card(g, t, a);
    lemma_order_card(g, t, b);
    lemma_order_power(g, t, a);
    lemma_order_power(g, t, b);
    let ca = trick_order(g, lead)[a];
    let cb = trick_order(g, lead)[b];
    let j = if g == 'n' { 0int } else { 4int };
    let f = if g == 'n' { 8int } else { 7int };
    let ka = part_of_layout(a, j, f);
    let kb = part_of_layout(b, j, f);
    if ka != -1 {
        lemma_group_by_suit(g, ca);
    }
    if kb != -1 {
        lemma_group_by_suit(g, cb);
    }
    // two parts of different suits are never of one group, but for the
    // jacks and the trump suit
    assert(ka == kb || ka == -1);
}

/// The card that takes a trick is the strongest of its group among the
/// cards of the trick (see `card_power`): e.g. in Grand and the suit games
/// an ace beats a ten of its suit, a ten a king, the club jack every other
/// jack; in Null a king beats a ten; in Sächsische Spitze a seven beats an
/// ace of its suit and the diamond jack the club jack.
pub proof fn lemma_strongest_of_group_takes_trick(played: Seq<u8>, g: char, k: int)
    requires
        played.len() >= 3,
        played[0] < 32,
        played[1] < 32,
        played[2] < 32,
        is_game(g),
        0 <= k < 3,
        follow_group(g, played[k]) == follow_group(g, played[trick_winner(played, g) as int]),
    ensures
        card_power(g, played[trick_winner(played, g) as int]) >= card_power(g, played[k]),
{
    lemma_trick_winner_ranks_first(played, g);
    let w = trick_winner(played, g) as int;
    let order = trick_order(g, played[0]);
    assert(exists|a: int, b: int|
        0 <= a <= b < order.len() && order[a] == played[w] && order[b] == played[k]);
    let (a, b) = choose|a: int, b: int|
        0 <= a <= b < order.len() && order[a] == played[w] && order[b] == played[k];
    lemma_trick_order_power(g, played[0], a, b);
}

/// In a hand sorted for a game, of two cards of the same suit that are no
/// jacks (any two cards of a suit in Null), the earlier one is the
/// stronger; outside Null the jacks come from the strongest down.
pub proof fn lemma_sorted_hand_strongest_first(cards: Seq<u8>, g: char, i: int, j: int)
    requires
        is_game(g),
        0 <= i < j < arrange(hand_order(g), cards, caps_tens(g)).len(),
        ({
            let s = arrange(hand_order(g), cards, caps_tens(g));
            (s[i] / 8 == s[j] / 8 && (g == 'n' || (!is_jack(s[i]) && !is_jack(s[j])))) || (g != 'n'
                && is_jack(s[i]) && is_jack(s[j]))
        }),
    ensures
        card_power(g, arrange(hand_order(g), cards, caps_tens(g))[i]) >= card_power(
            g,
            arrange(hand_order(g), cards, caps_tens(g))[j],
        ),
{
    lemma_arrange_follows_order(hand_order(g), cards, caps_tens(g), i, j);
    let sorted = arrange(hand_order(g), cards, caps_tens(g));
    let (a, b) = choose|a: int, b: int|
        0 <= a <= b < hand_order(g).len() && hand_order(g)[a] == sorted[i] && hand_order(g)[b] == sorted[j];
    let t = hand_suits(g);
    assert(hand_order(g) == game_layout(g, t));
    lemma_order_card(g, t, a);
    lemma_order_card(g, t, b);
    lemma_order_power(g, t, a);
    lemma_order_power(g, t, b);
}

/// Where the suit `s` (clubs 0, spades 1, hearts 2, diamonds 3; clubs and
/// spades are black, hearts and diamonds red) stands when a hand is sorted
/// for game `g`: in Grand in that sequence; in Null and Sächsische Spitze
/// alternating in colour from clubs (clubs, hearts, spades, diamonds); in a
/// suit game the trump suit first, then alternating in colour, the two
/// suits of the other colour in their own sequence.
pub open spec fn suit_place(g: char, s: u8) -> int {
    if g == 'g' {
        s as int
    } else if g == 'n' || g == 'b' {
        (s % 2) * 2 + s / 2
    } else {
        let trump: u8 = if g == 'c' { 0 } else if g == 's' { 1 } else if g == 'h' { 2 } else { 3 };
        if s == trump {
            0
        } else if s / 2 != trump / 2 {
            if s % 2 == 0 { 1 } else { 3 }
        } else {
            2
        }
    }
}

/// In a hand sorted for a game, of two cards of different suits that are
/// no jacks (any two cards in Null), the one whose suit stands earlier (see
/// `suit_place`) comes first.
pub proof fn lemma_sorted_hand_suits(cards: Seq<u8>, g: char, i: int, j: int)
    requires
        is_game(g),
        0 <= i < j < arrange(hand_order(g), cards, caps_tens(g)).len(),
        ({
            let s = arrange(hand_order(g), cards, caps_tens(g));
            s[i] / 8 != s[j] / 8 && (g == 'n' || (!is_jack(s[i]) && !is_jack(s[j])))
        }),
    ensures
        suit_place(g, arrange(hand_order(g), cards, caps_tens(g))[i] / 8) < suit_place(
            g,
            arrange(hand_order(g), cards, caps_tens(g))[j] / 8,
        ),
{
    lemma_arrange_follows_order(hand_order(g), cards, caps_tens(g), i, j);
    let sorted = arrange(hand_order(g), cards, caps_tens(g));
    let (a, b) = choose|a: int, b: int|
        0 <= a <= b < hand_order(g).len() && hand_order(g)[a] == sorted[i] && hand_order(g)[b] == sorted[j];
    let t = hand_suits(g);
    assert(hand_order(g) == game_layout(g, t));
    lemma_order_card(g, t, a);
    lemma_order_card(g, t, b);
    assert(suit_place(g, t.0) < suit_place(g, t.1) && suit_place(g, t.1) < suit_place(g, t.2) && suit_place(
        g,
        t.2,
    ) < suit_place(g, t.3));
}

/// The longest suit of a hand holds at least as many cards (jacks not
/// counted) as any other suit, and more than every suit before it in the
/// sequence clubs, spades, hearts, diamonds.
pub proof fn lemma_longest_suit(hand: Seq<u8>)
    ensures
        longest_suit(hand) < 4,
        forall|x: u8| x < 4 ==> #[trigger] suit_count(hand, x) <= suit_count(hand, longest_suit(hand)),
        forall|x: u8| x < longest_suit(hand) ==> #[trigger] suit_count(hand, x) < suit_count(
            hand,
            longest_suit(hand),
        ),
{
}

/// The plain sort of a hand lists the jacks first, from the club jack
/// down; then the cards of the longest suit; then the other suits in the
/// sequence clubs, spades, hearts, diamonds; within a suit from the ace
/// down (ace, ten, king, queen, nine, eight, seven).
pub proof fn lemma_plain_sort_order(hand: Seq<u8>, i: int, j: int)
    requires
        0 <= i < j < plain_sorted(hand).len(),
    ensures
        ({
            let s = plain_sorted(hand);
            let h = longest_suit(hand);
            let place = |c: u8| if is_jack(c) { -1int } else if c / 8 == h { 0int } else { c / 8 + 1 };
            &&& place(s[i]) <= place(s[j])
            &&& place(s[i]) == place(s[j]) ==> card_power('g', s[i]) >= card_power('g', s[j])
        }),
{
    let h = longest_suit(hand);
    let order = game_layout('g', longest_first(h));
    lemma_arrange_follows_order(order, hand, false, i, j);
    let sorted = plain_sorted(hand);
    let (a, b) = choose|a: int, b: int|
        0 <= a <= b < order.len() && order[a] == sorted[i] && order[b] == sorted[j];
    let t = longest_first(h);
    lemma_order_card('g', t, a);
    lemma_order_card('g', t, b);
    lemma_order_power('g', t, a);
    lemma_order_power('g', t, b);
}

} // verus!
