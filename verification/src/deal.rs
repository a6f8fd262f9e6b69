//! Shuffling and dealing the 32 cards.
use vstd::prelude::*;
use rand::Rng;
use crate::cards::{all_cards, deck};
use crate::players::{
    lemma_plain_sort_keeps_cards, plain_sorted, Player, PlayerBuilder, Skat, SkatBuilder,
};

verus! {

broadcast use vstd::seq_lib::group_seq_properties;

/// A number from 0 up to (not including) `bound`, drawn by `rand`'s
/// thread-local generator with `Rng::gen_range(0, bound)`. What number
/// comes is left open; that it is below `bound` is what `gen_range` states.
#[verifier::external_body]
fn random_below(bound: u8) -> (r: u8)
    requires
        0 < bound,
    ensures
        r < bound,
{
    rand::thread_rng().gen_range(0, bound)
}

/// The player who deals first, drawn at random among the three players.
pub fn random_dealer() -> (id: u8)
    ensures
        id < 3,
{
    random_below(3)
}

/// The cards drawn from `pile`, each pick naming a position in what is
/// left of it.
pub open spec fn draw(pile: Seq<u8>, picks: Seq<u8>) -> Seq<u8>
    decreases picks.len(),
{
    if picks.len() == 0 || pile.len() == 0 {
        Seq::empty()
    } else {
        seq![pile[picks[0] as int]] + draw(pile.remove(picks[0] as int), picks.drop_first())
    }
}

/// Every pick names a position in what is left of a pile of `n` cards.
pub open spec fn valid_picks(picks: Seq<u8>, n: int) -> bool {
    picks.len() == n && forall|k: int| 0 <= k < n ==> #[trigger] picks[k] < n - k
}

proof fn lemma_draw_permutes(pile: Seq<u8>, picks: Seq<u8>)
    requires
        valid_picks(picks, pile.len() as int),
    ensures
        draw(pile, picks).to_multiset() == pile.to_multiset(),
        draw(pile, picks).len() == pile.len(),
    decreases picks.len(),
{
    if picks.len() > 0 {
        let i = picks[0] as int;
        let rest = picks.drop_first();
        assert forall|k: int| 0 <= k < rest.len() implies #[trigger] rest[k] < rest.len() - k by {
            assert(rest[k] == picks[k + 1]);
        }
        lemma_draw_permutes(pile.remove(i), rest);
        vstd::seq_lib::lemma_multiset_commutative(seq![pile[i]], draw(pile.remove(i), rest));
        pile.to_multiset_ensures();
        seq![pile[i]].to_multiset_ensures();
        Seq::<u8>::empty().to_multiset_ensures();
        assert(seq![pile[i]] =~= Seq::<u8>::empty().push(pile[i]));
        assert(Seq::<u8>::empty().to_multiset() =~= vstd::multiset::Multiset::empty());
        assert(pile.to_multiset() =~= pile.remove(i).to_multiset().insert(pile[i]));
        assert(draw(pile, picks).to_multiset() =~= pile.to_multiset());
    } else {
        assert(pile.len() == 0);
        assert(pile =~= Seq::<u8>::empty());
    }
}

/// The deck in the order given by the picks: the first pick names one of
/// the 32 cards, the next one of the 31 left, and so on.
pub fn shuffle_with(picks: &Vec<u8>) -> (shuffled: Vec<u8>)
    requires
        valid_picks(picks@, 32),
    ensures
        shuffled@ == draw(deck(), picks@),
        shuffled@.to_multiset() == deck().to_multiset(),
        shuffled@.len() == 32,
{
    let mut cards: Vec<u8> = Vec::new();
    let mut c: u8 = 0;
    while c < 32
        invariant
            0 <= c <= 32,
            cards@ == deck().take(c as int),
        decreases 32 - c,
    {
        cards.push(c);
        c = c + 1;
        assert(cards@ =~= deck().take(c as int));
    }
    assert(cards@ =~= deck());
    let mut shuffled: Vec<u8> = Vec::new();
    let mut n: usize = 0;
    while n < 32
        invariant
            0 <= n <= 32,
            valid_picks(picks@, 32),
            cards.len() == 32 - n,
            shuffled@ + draw(cards@, picks@.subrange(n as int, 32)) == draw(deck(), picks@),
        decreases 32 - n,
    {
        let pile_index = picks[n];
        let ghost rest = picks@.subrange(n as int, 32);
        assert(rest[0] == pile_index);
        assert(rest.drop_first() =~= picks@.subrange(n + 1, 32));
        let card = cards.remove(pile_index as usize);
        shuffled.push(card);
        n = n + 1;
        assert(shuffled@ + draw(cards@, picks@.subrange(n as int, 32)) =~= draw(deck(), picks@));
    }
    assert(cards@ =~= Seq::<u8>::empty());
    assert(shuffled@ =~= draw(deck(), picks@));
    proof {
        lemma_draw_permutes(deck(), picks@);
    }
    shuffled
}

/// A player with the given id and the plainly sorted cards `hand`.
fn player_with(id: u8, shuffled: &Vec<u8>, from: usize) -> (p: Player)
    requires
        from + 10 <= shuffled.len(),
        all_cards(shuffled@),
    ensures
        p.id == id,
        p.cards@ == plain_sorted(shuffled@.subrange(from as int, from + 10)),
        p.tricks@ == Seq::<u8>::empty(),
        p.counter == 0,
{
    let mut builder = PlayerBuilder::new();
    builder.id(id);
    let mut k: usize = from;
    while k < from + 10
        invariant
            from <= k <= from + 10 <= shuffled.len(),
            builder.id == id,
            builder.counter == 0,
            builder.cards@ == shuffled@.subrange(from as int, k as int),
        decreases from + 10 - k,
    {
        builder.add(shuffled[k]);
        k = k + 1;
        assert(builder.cards@ =~= shuffled@.subrange(from as int, k as int));
    }
    let mut player = builder.finalize();
    assert(player.cards@.take(10) =~= player.cards@);
    player.sort_cards();
    player
}

/// The deal from an arranged deck: the dealer gets the first ten cards,
/// the player on his left the next ten, the one on his right the ten after
/// those, each hand sorted plainly; the last two cards form the Skat.
pub fn deal_from(dealer_id: u8, shuffled: &Vec<u8>) -> (dealt: (Player, Player, Player, Skat))
    requires
        shuffled.len() == 32,
        all_cards(shuffled@),
        dealer_id <= 253,
    ensures
        dealt.0.id == dealer_id,
        dealt.1.id == (dealer_id + 1) % 3,
        dealt.2.id == (dealer_id + 2) % 3,
        dealt.0.cards@ == plain_sorted(shuffled@.subrange(0, 10)),
        dealt.1.cards@ == plain_sorted(shuffled@.subrange(10, 20)),
        dealt.2.cards@ == plain_sorted(shuffled@.subrange(20, 30)),
        dealt.3.first == shuffled@[30],
        dealt.3.second == shuffled@[31],
        dealt.0.tricks@.len() == 0 && dealt.1.tricks@.len() == 0 && dealt.2.tricks@.len() == 0,
        dealt.0.counter == 0 && dealt.1.counter == 0 && dealt.2.counter == 0,
{
    let dealer = player_with(dealer_id, shuffled, 0);
    let left = player_with((dealer_id + 1) % 3, shuffled, 10);
    let right = player_with((dealer_id + 2) % 3, shuffled, 20);
    let mut skat_builder = SkatBuilder::new();
    skat_builder.add(shuffled[30], shuffled[31]);
    let skat = skat_builder.finalize();
    (dealer, left, right, skat)
}

/// All cards that were dealt: the three hands and the Skat.
pub open spec fn dealt_cards(dealt: (Player, Player, Player, Skat)) -> Seq<u8> {
    dealt.0.cards@ + dealt.1.cards@ + dealt.2.cards@ + seq![dealt.3.first, dealt.3.second]
}

/// Shuffles the deck at random and deals it (see `deal_from`). Whatever
/// the draw, each of the 32 cards is dealt exactly once.
pub fn deal(dealer_id: u8) -> (dealt: (Player, Player, Player, Skat))
    requires
        dealer_id <= 253,
    ensures
        dealt.0.id == dealer_id,
        dealt.1.id == (dealer_id + 1) % 3,
        dealt.2.id == (dealer_id + 2) % 3,
        dealt.0.cards@.len() == 10 && dealt.1.cards@.len() == 10 && dealt.2.cards@.len() == 10,
        dealt_cards(dealt).to_multiset() == deck().to_multiset(),
        exists|s: Seq<u8>|
            s.to_multiset() == deck().to_multiset() && s.len() == 32 && dealt.0.cards@ == plain_sorted(
                s.subrange(0, 10),
            ) && dealt.1.cards@ == plain_sorted(s.subrange(10, 20)) && dealt.2.cards@ == plain_sorted(
                s.subrange(20, 30),
            ) && dealt.3.first == s[30] && dealt.3.second == s[31],
        dealt.0.tricks@.len() == 0 && dealt.1.tricks@.len() == 0 && dealt.2.tricks@.len() == 0,
        dealt.0.counter == 0 && dealt.1.counter == 0 && dealt.2.counter == 0,
{
    let mut picks: Vec<u8> = Vec::new();
    let upper: u8 = 32;
    let mut n: u8 = 0;
    while n < 32
        invariant
            0 <= n <= 32,
            upper == 32,
            picks.len() == n,
            forall|k: int| 0 <= k < n ==> #[trigger] picks@[k] < 32 - k,
        decreases 32 - n,
    {
        // randomly select a card of the remaining pile
        let pile_index: u8 = random_below(upper - n);
        picks.push(pile_index);
        n = n + 1;
    }
    let shuffled = shuffle_with(&picks);
    proof {
        assert forall|i: int| 0 <= i < 32 implies #[trigger] shuffled@[i] < 32 by {
            assert(shuffled@.to_multiset().count(shuffled@[i]) > 0);
            assert(deck().to_multiset().count(shuffled@[i]) > 0);
            assert(deck().contains(shuffled@[i]));
        }
    }
    let dealt = deal_from(dealer_id, &shuffled);
    proof {
        let s = shuffled@;
        let h0 = s.subrange(0, 10);
        let h1 = s.subrange(10, 20);
        let h2 = s.subrange(20, 30);
        let sk = seq![s[30], s[31]];
        lemma_plain_sort_keeps_cards(h0);
        lemma_plain_sort_keeps_cards(h1);
        lemma_plain_sort_keeps_cards(h2);
        assert(s =~= h0 + h1 + h2 + sk);
        lemma_sum_of_parts(h0, h1, h2, sk, dealt.0.cards@, dealt.1.cards@, dealt.2.cards@);
        assert(dealt_cards(dealt) == dealt.0.cards@ + dealt.1.cards@ + dealt.2.cards@ + sk);
        assert(plain_sorted(h0).len() == 10) by {
            plain_sorted(h0).to_multiset_ensures();
            h0.to_multiset_ensures();
        }
        assert(plain_sorted(h1).len() == 10) by {
            plain_sorted(h1).to_multiset_ensures();
            h1.to_multiset_ensures();
        }
        assert(plain_sorted(h2).len() == 10) by {
            plain_sorted(h2).to_multiset_ensures();
            h2.to_multiset_ensures();
        }
    }
    dealt
}

proof fn lemma_sum_of_parts(
    a: Seq<u8>,
    b: Seq<u8>,
    c: Seq<u8>,
    d: Seq<u8>,
    a2: Seq<u8>,
    b2: Seq<u8>,
    c2: Seq<u8>,
)
    requires
        a2.to_multiset() == a.to_multiset(),
        b2.to_multiset() == b.to_multiset(),
        c2.to_multiset() == c.to_multiset(),
    ensures
        (a2 + b2 + c2 + d).to_multiset() == (a + b + c + d).to_multiset(),
{
    vstd::seq_lib::lemma_multiset_commutative(a, b);
    vstd::seq_lib::lemma_multiset_commutative(a + b, c);
    vstd::seq_lib::lemma_multiset_commutative(a + b + c, d);
    vstd::seq_lib::lemma_multiset_commutative(a2, b2);
    vstd::seq_lib::lemma_multiset_commutative(a2 + b2, c2);
    vstd::seq_lib::lemma_multiset_commutative(a2 + b2 + c2, d);
}

} // verus!
