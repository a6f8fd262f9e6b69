//! The orders in which a game ranks the 32 cards.
//!
//! An order starts with the jacks (except in Null), followed by the four
//! suits in some sequence; within a suit the faces come in the order of the
//! game: ace, ten, king, queen, nine, eight, seven in Grand and the suit
//! games, ace, king, queen, jack, ten, nine, eight, seven in Null, and in
//! Sächsische Spitze seven, eight, nine, ten, queen, king, ace, with the
//! jacks from diamonds down to clubs.
use vstd::prelude::*;
use crate::arrange::{count_of, is_card_order, lemma_count_concat};
use crate::cards::is_jack;

verus! {

broadcast use vstd::seq_lib::group_seq_properties;

/// Four suit numbers, in the sequence in which the suits are listed.
pub type SuitSequence = (u8, u8, u8, u8);

/// Faces of a suit in Grand and the suit games (without the jack).
pub open spec fn grand_faces() -> Seq<u8> {
    seq![0u8, 1u8, 2u8, 3u8, 5u8, 6u8, 7u8]
}

/// Faces of a suit in Null: ace, king, queen, jack, ten, nine, eight, seven.
pub open spec fn null_faces() -> Seq<u8> {
    seq![0u8, 2u8, 3u8, 4u8, 1u8, 5u8, 6u8, 7u8]
}

/// Faces of a suit in Sächsische Spitze (without the jack): seven up to ace.
pub open spec fn spitze_faces() -> Seq<u8> {
    seq![7u8, 6u8, 5u8, 1u8, 3u8, 2u8, 0u8]
}

/// Jacks from clubs down to diamonds.
pub open spec fn jacks_down_from_clubs() -> Seq<u8> {
    seq![4u8, 12u8, 20u8, 28u8]
}

/// Jacks from diamonds up to clubs.
pub open spec fn jacks_up_from_diamonds() -> Seq<u8> {
    seq![28u8, 20u8, 12u8, 4u8]
}

/// The cards of suit `suit` with the given faces, in that order.
pub open spec fn suit_run(suit: u8, faces: Seq<u8>) -> Seq<u8> {
    Seq::new(faces.len(), |i: int| (suit * 8 + faces[i]) as u8)
}

/// The jacks, then the four suits in the sequence `t`, each with `faces`.
pub open spec fn layout(jacks: Seq<u8>, faces: Seq<u8>, t: SuitSequence) -> Seq<u8> {
    jacks + suit_run(t.0, faces) + suit_run(t.1, faces) + suit_run(t.2, faces) + suit_run(t.3, faces)
}

/// The order of game `g` when its suits are listed in the sequence `t`.
pub open spec fn game_layout(g: char, t: SuitSequence) -> Seq<u8> {
    if g == 'n' {
        layout(Seq::empty(), null_faces(), t)
    } else if g == 'b' {
        layout(jacks_up_from_diamonds(), spitze_faces(), t)
    } else {
        layout(jacks_down_from_clubs(), grand_faces(), t)
    }
}

/// In Null and Sächsische Spitze a ten is listed once however often it is held.
pub open spec fn caps_tens(g: char) -> bool {
    g == 'b' || g == 'n'
}

/// The suits in the sequence in which a hand is sorted for game `g`: trumps
/// first, then alternating colours.
pub open spec fn hand_suits(g: char) -> SuitSequence {
    if g == 'c' {
        (0, 2, 1, 3)
    } else if g == 's' {
        (1, 2, 0, 3)
    } else if g == 'h' {
        (2, 0, 3, 1)
    } else if g == 'd' {
        (3, 0, 2, 1)
    } else if g == 'g' {
        (0, 1, 2, 3)
    } else {
        (0, 2, 1, 3)
    }
}

/// The order in which a hand is sorted for game `g`.
pub open spec fn hand_order(g: char) -> Seq<u8> {
    game_layout(g, hand_suits(g))
}

/// The suits in the sequence in which the cards of a trick are ranked, when
/// the trick was led with a card of suit `lead`: trumps, the led suit, then
/// the others.
pub open spec fn trick_suits(g: char, lead: u8) -> SuitSequence {
    if g == 'g' {
        if lead == 0 { (0, 1, 2, 3) } else if lead == 1 { (1, 0, 2, 3) } else if lead == 2 { (2, 0, 1, 3) } else { (3, 0, 1, 2) }
    } else if g == 'b' {
        if lead == 0 { (0, 2, 1, 3) } else if lead == 1 { (1, 0, 2, 3) } else if lead == 2 { (2, 0, 1, 3) } else { (3, 0, 2, 1) }
    } else if g == 'n' {
        if lead == 0 { (0, 2, 1, 3) } else if lead == 1 { (1, 3, 0, 2) } else if lead == 2 { (2, 1, 0, 3) } else { (3, 0, 2, 1) }
    } else if g == 'c' {
        if lead == 0 { (0, 1, 2, 3) } else if lead == 1 { (0, 1, 2, 3) } else if lead == 2 { (0, 2, 1, 3) } else { (0, 3, 1, 2) }
    } else if g == 's' {
        if lead == 0 { (1, 0, 2, 3) } else if lead == 1 { (1, 0, 2, 3) } else if lead == 2 { (1, 2, 0, 3) } else { (1, 3, 0, 2) }
    } else if g == 'h' {
        if lead == 0 { (2, 0, 1, 3) } else if lead == 1 { (2, 1, 0, 3) } else if lead == 2 { (2, 1, 0, 3) } else { (2, 3, 0, 1) }
    } else {
        if lead == 0 { (3, 0, 1, 2) } else if lead == 1 { (3, 1, 0, 2) } else if lead == 2 { (3, 2, 0, 1) } else { (3, 0, 1, 2) }
    }
}

/// The order in which the cards of a trick led by `lead_card` are ranked;
/// the first card of a trick in this order wins it.
pub open spec fn trick_order(g: char, lead_card: u8) -> Seq<u8> {
    game_layout(g, trick_suits(g, lead_card / 8))
}

/// The four suits in the sequence used by a plain sort whose longest suit
/// is `h`: `h` first, the others in their natural sequence.
pub open spec fn longest_first(h: u8) -> SuitSequence {
    if h == 0 { (0, 1, 2, 3) } else if h == 1 { (1, 0, 2, 3) } else if h == 2 { (2, 0, 1, 3) } else { (3, 0, 1, 2) }
}

/// The sequence lists the four suits, each once.
pub open spec fn is_suit_sequence(t: SuitSequence) -> bool {
    t.0 < 4 && t.1 < 4 && t.2 < 4 && t.3 < 4 && t.0 != t.1 && t.0 != t.2 && t.0 != t.3 && t.1
        != t.2 && t.1 != t.3 && t.2 != t.3
}

proof fn lemma_count_run(suit: u8, faces: Seq<u8>, c: u8)
    requires
        suit < 4,
        forall|i: int| 0 <= i < faces.len() ==> #[trigger] faces[i] < 8,
    ensures
        count_of(suit_run(suit, faces), c) == if c / 8 == suit { count_of(faces, c % 8) } else { 0 },
    decreases faces.len(),
{
    if faces.len() > 0 {
        let rest = faces.drop_last();
        lemma_count_run(suit, rest, c);
        assert(suit_run(suit, faces).drop_last() =~= suit_run(suit, rest));
        let x = suit_run(suit, faces).last();
        assert(x == suit * 8 + faces.last());
        assert((x == c) == (c / 8 == suit && c % 8 == faces.last()));
    }
}

proof fn lemma_face_counts(c: u8)
    ensures
        count_of(grand_faces(), c % 8) == if c % 8 == 4 { 0nat } else { 1nat },
        count_of(spitze_faces(), c % 8) == if c % 8 == 4 { 0nat } else { 1nat },
        count_of(null_faces(), c % 8) == 1,
        count_of(jacks_down_from_clubs(), c) == if is_jack(c) { 1nat } else { 0nat },
        count_of(jacks_up_from_diamonds(), c) == if is_jack(c) { 1nat } else { 0nat },
        count_of(Seq::<u8>::empty(), c) == 0,
{
    reveal_with_fuel(count_of, 9);
    assert(grand_faces().drop_last() =~= seq![0u8, 1u8, 2u8, 3u8, 5u8, 6u8]);
    assert(seq![0u8, 1u8, 2u8, 3u8, 5u8, 6u8].drop_last() =~= seq![0u8, 1u8, 2u8, 3u8, 5u8]);
    assert(seq![0u8, 1u8, 2u8, 3u8, 5u8].drop_last() =~= seq![0u8, 1u8, 2u8, 3u8]);
    assert(seq![0u8, 1u8, 2u8, 3u8].drop_last() =~= seq![0u8, 1u8, 2u8]);
    assert(seq![0u8, 1u8, 2u8].drop_last() =~= seq![0u8, 1u8]);
    assert(seq![0u8, 1u8].drop_last() =~= seq![0u8]);
    assert(seq![0u8].drop_last() =~= Seq::<u8>::empty());
    assert(spitze_faces().drop_last() =~= seq![7u8, 6u8, 5u8, 1u8, 3u8, 2u8]);
    assert(seq![7u8, 6u8, 5u8, 1u8, 3u8, 2u8].drop_last() =~= seq![7u8, 6u8, 5u8, 1u8, 3u8]);
    assert(seq![7u8, 6u8, 5u8, 1u8, 3u8].drop_last() =~= seq![7u8, 6u8, 5u8, 1u8]);
    assert(seq![7u8, 6u8, 5u8, 1u8].drop_last() =~= seq![7u8, 6u8, 5u8]);
    assert(seq![7u8, 6u8, 5u8].drop_last() =~= seq![7u8, 6u8]);
    assert(seq![7u8, 6u8].drop_last() =~= seq![7u8]);
    assert(seq![7u8].drop_last() =~= Seq::<u8>::empty());
    assert(null_faces().drop_last() =~= seq![0u8, 2u8, 3u8, 4u8, 1u8, 5u8, 6u8]);
    assert(seq![0u8, 2u8, 3u8, 4u8, 1u8, 5u8, 6u8].drop_last() =~= seq![0u8, 2u8, 3u8, 4u8, 1u8, 5u8]);
    assert(seq![0u8, 2u8, 3u8, 4u8, 1u8, 5u8].drop_last() =~= seq![0u8, 2u8, 3u8, 4u8, 1u8]);
    assert(seq![0u8, 2u8, 3u8, 4u8, 1u8].drop_last() =~= seq![0u8, 2u8, 3u8, 4u8]);
    assert(seq![0u8, 2u8, 3u8, 4u8].drop_last() =~= seq![0u8, 2u8, 3u8]);
    assert(seq![0u8, 2u8, 3u8].drop_last() =~= seq![0u8, 2u8]);
    assert(seq![0u8, 2u8].drop_last() =~= seq![0u8]);
    assert(jacks_down_from_clubs().drop_last() =~= seq![4u8, 12u8, 20u8]);
    assert(seq![4u8, 12u8, 20u8].drop_last() =~= seq![4u8, 12u8]);
    assert(seq![4u8, 12u8].drop_last() =~= seq![4u8]);
    assert(seq![4u8].drop_last() =~= Seq::<u8>::empty());
    assert(jacks_up_from_diamonds().drop_last() =~= seq![28u8, 20u8, 12u8]);
    assert(seq![28u8, 20u8, 12u8].drop_last() =~= seq![28u8, 20u8]);
    assert(seq![28u8, 20u8].drop_last() =~= seq![28u8]);
    assert(seq![28u8].drop_last() =~= Seq::<u8>::empty());
}

/// The order of a game, with the suits in any sequence, lists every card
/// of the deck exactly once.
pub proof fn lemma_game_layout_is_card_order(g: char, t: SuitSequence)
    requires
        is_suit_sequence(t),
    ensures
        is_card_order(game_layout(g, t)),
{
    let (jacks, faces) = if g == 'n' {
        (Seq::<u8>::empty(), null_faces())
    } else if g == 'b' {
        (jacks_up_from_diamonds(), spitze_faces())
    } else {
        (jacks_down_from_clubs(), grand_faces())
    };
    assert(game_layout(g, t) == layout(jacks, faces, t));
    assert forall|c: u8| #[trigger] count_of(game_layout(g, t), c) == if c < 32 { 1nat } else { 0nat } by {
        assert forall|i: int| 0 <= i < faces.len() implies #[trigger] faces[i] < 8 by {
            reveal_with_fuel(count_of, 1);
        }
        let r0 = suit_run(t.0, faces);
        let r1 = suit_run(t.1, faces);
        let r2 = suit_run(t.2, faces);
        let r3 = suit_run(t.3, faces);
        lemma_count_concat(jacks, r0, c);
        lemma_count_concat(jacks + r0, r1, c);
        lemma_count_concat(jacks + r0 + r1, r2, c);
        lemma_count_concat(jacks + r0 + r1 + r2, r3, c);
        lemma_count_run(t.0, faces, c);
        lemma_count_run(t.1, faces, c);
        lemma_count_run(t.2, faces, c);
        lemma_count_run(t.3, faces, c);
        lemma_face_counts(c);
        assert(is_jack(c) == (c < 32 && c % 8 == 4));
    }
}

pub proof fn lemma_orders_are_card_orders(g: char, lead: u8, h: u8)
    ensures
        is_card_order(hand_order(g)),
        is_card_order(trick_order(g, lead)),
        h < 4 ==> is_card_order(game_layout('g', longest_first(h))),
{
    lemma_game_layout_is_card_order(g, hand_suits(g));
    lemma_game_layout_is_card_order(g, trick_suits(g, lead / 8));
    if h < 4 {
        lemma_game_layout_is_card_order('g', longest_first(h));
    }
}

/// The faces of a game, listed in its order: each below 8, and none a jack
/// except in Null.
pub proof fn lemma_game_faces(g: char)
    ensures
        ({
            let faces = if g == 'n' {
                null_faces()
            } else if g == 'b' {
                spitze_faces()
            } else {
                grand_faces()
            };
            forall|i: int| 0 <= i < faces.len() ==> #[trigger] faces[i] < 8 && (g != 'n' ==> faces[i] != 4)
        }),
{
    let faces = if g == 'n' {
        null_faces()
    } else if g == 'b' {
        spitze_faces()
    } else {
        grand_faces()
    };
    assert forall|i: int| 0 <= i < faces.len() implies #[trigger] faces[i] < 8 && (g != 'n' ==> faces[i] != 4) by {
        if g == 'n' {
            assert(faces =~= seq![0u8, 2u8, 3u8, 4u8, 1u8, 5u8, 6u8, 7u8]);
        } else if g == 'b' {
            assert(faces =~= seq![7u8, 6u8, 5u8, 1u8, 3u8, 2u8, 0u8]);
        } else {
            assert(faces =~= seq![0u8, 1u8, 2u8, 3u8, 5u8, 6u8, 7u8]);
        }
    }
}

/// A card of a suit run is of that suit, with the face listed there.
pub proof fn lemma_run_card(suit: u8, faces: Seq<u8>, i: int)
    requires
        suit < 4,
        0 <= i < faces.len(),
        faces[i] < 8,
    ensures
        suit_run(suit, faces)[i] / 8 == suit,
        suit_run(suit, faces)[i] % 8 == faces[i],
        suit_run(suit, faces)[i] < 32,
{
}

/// Where each position of a layout stands: among the jacks, or in the run
/// of the `k`-th suit of the sequence, with the face at the same place of
/// the run.
pub proof fn lemma_layout_at(jacks: Seq<u8>, faces: Seq<u8>, t: SuitSequence, i: int)
    requires
        0 <= i < layout(jacks, faces, t).len(),
    ensures
        ({
            let l = layout(jacks, faces, t);
            let j = jacks.len() as int;
            let f = faces.len() as int;
            &&& l.len() == j + 4 * f
            &&& i < j ==> l[i] == jacks[i]
            &&& j <= i < j + f ==> l[i] == suit_run(t.0, faces)[i - j]
            &&& j + f <= i < j + 2 * f ==> l[i] == suit_run(t.1, faces)[i - j - f]
            &&& j + 2 * f <= i < j + 3 * f ==> l[i] == suit_run(t.2, faces)[i - j - 2 * f]
            &&& j + 3 * f <= i ==> l[i] == suit_run(t.3, faces)[i - j - 3 * f]
        }),
{
    let r0 = suit_run(t.0, faces);
    let r1 = suit_run(t.1, faces);
    let r2 = suit_run(t.2, faces);
    let r3 = suit_run(t.3, faces);
    let a = jacks + r0;
    let b = a + r1;
    let c = b + r2;
    let l = c + r3;
    assert(layout(jacks, faces, t) == l);
}

/// Appends the cards of suit `suit` with the faces `faces` to `v`.
fn push_run(v: &mut Vec<u8>, suit: u8, faces: &[u8; 8], n: usize)
    requires
        suit < 4,
        n <= 8,
        forall|i: int| 0 <= i < n ==> #[trigger] faces@[i] < 8,
    ensures
        final(v)@ == old(v)@ + suit_run(suit, faces@.take(n as int)),
{
    let ghost start = v@;
    let mut i: usize = 0;
    while i < n
        invariant
            0 <= i <= n <= 8,
            suit < 4,
            forall|k: int| 0 <= k < n ==> #[trigger] faces@[k] < 8,
            v@ == start + suit_run(suit, faces@.take(i as int)),
        decreases n - i,
    {
        v.push(suit * 8 + faces[i]);
        i = i + 1;
        assert(v@ =~= start + suit_run(suit, faces@.take(i as int)));
    }
}

/// The order of game `g` with the suits in the sequence `t`, as a vector.
pub fn game_layout_vec(g: char, t: SuitSequence) -> (v: Vec<u8>)
    requires
        is_suit_sequence(t),
    ensures
        v@ == game_layout(g, t),
{
    let mut v: Vec<u8> = Vec::new();
    let faces: [u8; 8];
    let n: usize;
    if g == 'n' {
        faces = [0, 2, 3, 4, 1, 5, 6, 7];
        n = 8;
        assert(faces@.take(8) =~= null_faces());
    } else if g == 'b' {
        v.push(28);
        v.push(20);
        v.push(12);
        v.push(4);
        faces = [7, 6, 5, 1, 3, 2, 0, 0];
        n = 7;
        assert(faces@.take(7) =~= spitze_faces());
    } else {
        v.push(4);
        v.push(12);
        v.push(20);
        v.push(28);
        faces = [0, 1, 2, 3, 5, 6, 7, 0];
        n = 7;
        assert(faces@.take(7) =~= grand_faces());
    }
    let ghost jacks = v@;
    push_run(&mut v, t.0, &faces, n);
    push_run(&mut v, t.1, &faces, n);
    push_run(&mut v, t.2, &faces, n);
    push_run(&mut v, t.3, &faces, n);
    proof {
        if g == 'n' {
            assert(jacks =~= Seq::<u8>::empty());
        } else if g == 'b' {
            assert(jacks =~= jacks_up_from_diamonds());
        } else {
            assert(jacks =~= jacks_down_from_clubs());
        }
    }
    v
}

/// The suit sequence for sorting a hand for game `g`.
pub fn hand_suits_of(g: char) -> (t: SuitSequence)
    ensures
        t == hand_suits(g),
        is_suit_sequence(t),
{
    if g == 'c' {
        (0, 2, 1, 3)
    } else if g == 's' {
        (1, 2, 0, 3)
    } else if g == 'h' {
        (2, 0, 3, 1)
    } else if g == 'd' {
        (3, 0, 2, 1)
    } else if g == 'g' {
        (0, 1, 2, 3)
    } else {
        (0, 2, 1, 3)
    }
}

/// The suit sequence for ranking a trick in game `g` led by suit `lead`.
pub fn trick_suits_of(g: char, lead: u8) -> (t: SuitSequence)
    ensures
        t == trick_suits(g, lead),
        is_suit_sequence(t),
{
    if g == 'g' {
        if lead == 0 { (0, 1, 2, 3) } else if lead == 1 { (1, 0, 2, 3) } else if lead == 2 { (2, 0, 1, 3) } else { (3, 0, 1, 2) }
    } else if g == 'b' {
        if lead == 0 { (0, 2, 1, 3) } else if lead == 1 { (1, 0, 2, 3) } else if lead == 2 { (2, 0, 1, 3) } else { (3, 0, 2, 1) }
    } else if g == 'n' {
        if lead == 0 { (0, 2, 1, 3) } else if lead == 1 { (1, 3, 0, 2) } else if lead == 2 { (2, 1, 0, 3) } else { (3, 0, 2, 1) }
    } else if g == 'c' {
        if lead == 0 { (0, 1, 2, 3) } else if lead == 1 { (0, 1, 2, 3) } else if lead == 2 { (0, 2, 1, 3) } else { (0, 3, 1, 2) }
    } else if g == 's' {
        if lead == 0 { (1, 0, 2, 3) } else if lead == 1 { (1, 0, 2, 3) } else if lead == 2 { (1, 2, 0, 3) } else { (1, 3, 0, 2) }
    } else if g == 'h' {
        if lead == 0 { (2, 0, 1, 3) } else if lead == 1 { (2, 1, 0, 3) } else if lead == 2 { (2, 1, 0, 3) } else { (2, 3, 0, 1) }
    } else {
        if lead == 0 { (3, 0, 1, 2) } else if lead == 1 { (3, 1, 0, 2) } else if lead == 2 { (3, 2, 0, 1) } else { (3, 0, 1, 2) }
    }
}

/// The suit sequence of a plain sort whose longest suit is `h`.
pub fn longest_first_of(h: u8) -> (t: SuitSequence)
    requires
        h < 4,
    ensures
        t == longest_first(h),
        is_suit_sequence(t),
{
    if h == 0 { (0, 1, 2, 3) } else if h == 1 { (1, 0, 2, 3) } else if h == 2 { (2, 0, 1, 3) } else { (3, 0, 1, 2) }
}

} // verus!
