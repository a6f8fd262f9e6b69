//! The course of a round: who takes a trick, when the play ends early, and
//! what the players count at the end.
use vstd::prelude::*;
use crate::cards::{card_points, is_game};
use crate::arrange::count_of;
use crate::players::{hand_and_skat, jack_strait, Player, PlayerBuilder, Skat};
use crate::rules::{trick_winner, who_wins_trick};

verus! {

/// The id of the player who takes the trick `played` led by `leader_id`.
pub open spec fn taker_of(leader_id: u8, played: Seq<u8>, g: char) -> int {
    (leader_id + trick_winner(played, g)) % 3
}

/// The id of the player who takes the trick `played_cards`, led by the
/// player `leader_id`: the players follow one another in the order of
/// their ids, modulo three.
pub fn trick_taker(leader_id: u8, played_cards: &Vec<u8>, game: char) -> (id: u8)
    requires
        leader_id < 3,
        played_cards.len() >= 3,
        played_cards@[0] < 32,
        played_cards@[1] < 32,
        played_cards@[2] < 32,
        is_game(game),
    ensures
        id == taker_of(leader_id, played_cards@, game),
        id < 3,
{
    (leader_id + who_wins_trick(played_cards, game)) % 3
}

/// Where the declarer stands after answering whether he looks at the Skat:
/// the hand being built, the matadors for the usual trump order and for
/// Sächsische Spitze, and whether the game is played by hand.
pub struct SkatChoice {
    pub builder: PlayerBuilder,
    pub matadors: (u8, u8),
    pub hand: bool,
}

/// The first step of announcing a game. The hand being built has the
/// declarer's id and his first ten cards, and the matadors are those of
/// these cards together with the Skat. On the answer 1 the declarer takes
/// the Skat into his hand (two cards are dropped afterwards); on any other
/// answer the Skat stays aside, its points count for him, and he plays by
/// hand.
pub fn choose_skat(player: &Player, skat: &Skat, input: u8) -> (c: SkatChoice)
    requires
        player.cards.len() >= 10,
    ensures
        c.builder.id == player.id,
        c.matadors.0 == jack_strait(
            count_of(hand_and_skat(player.cards@, *skat), 4),
            count_of(hand_and_skat(player.cards@, *skat), 12),
            count_of(hand_and_skat(player.cards@, *skat), 20),
            count_of(hand_and_skat(player.cards@, *skat), 28),
        ),
        c.matadors.1 == jack_strait(
            count_of(hand_and_skat(player.cards@, *skat), 28),
            count_of(hand_and_skat(player.cards@, *skat), 20),
            count_of(hand_and_skat(player.cards@, *skat), 12),
            count_of(hand_and_skat(player.cards@, *skat), 4),
        ),
        input == 1 ==> c.builder.cards@ == hand_and_skat(player.cards@, *skat) && c.builder.counter == 0
            && !c.hand,
        input != 1 ==> c.builder.cards@ == player.cards@.take(10) && c.builder.counter == card_points(skat.first)
            + card_points(skat.second) && c.hand,
{
    let mut builder = PlayerBuilder::new();
    builder.id(player.id);
    let mut index: usize = 0;
    while index < 10
        invariant
            index <= 10,
            player.cards.len() >= 10,
            builder.id == player.id,
            builder.counter == 0,
            builder.cards@ == player.cards@.take(index as int),
        decreases 10 - index,
    {
        builder.add(player.cards[index]);
        index = index + 1;
        assert(builder.cards@ =~= player.cards@.take(index as int));
    }
    assert(hand_and_skat(builder.cards@, *skat) =~= hand_and_skat(player.cards@, *skat));
    let matadors = builder.matadors_jack_strait(skat);
    if input == 1 {
        builder.take(skat);
        SkatChoice { builder, matadors, hand: false }
    } else {
        builder.do_not_take(skat);
        SkatChoice { builder, matadors, hand: true }
    }
}

/// The player after `id` in turn: the next dealer, the next to play a card
/// in a trick, and the one who opens the bidding after the dealer.
pub fn next_player(id: u8) -> (next: u8)
    requires
        id < 3,
    ensures
        next == (id + 1) % 3,
        next < 3,
{
    (id + 1) % 3
}

/// The player who takes a trick is the one who played the winning card:
/// the leader plays first, the player after him second, the one after that
/// third.
pub proof fn lemma_taker_played_winning_card(leader_id: u8, played: Seq<u8>, g: char)
    requires
        leader_id < 3,
        played.len() >= 3,
        played[0] < 32,
        played[1] < 32,
        played[2] < 32,
        is_game(g),
    ensures
        trick_winner(played, g) == 0 ==> taker_of(leader_id, played, g) == leader_id,
        trick_winner(played, g) == 1 ==> taker_of(leader_id, played, g) == (leader_id + 1) % 3,
        trick_winner(played, g) == 2 ==> taker_of(leader_id, played, g) == ((leader_id + 1) % 3 + 1) % 3,
        trick_winner(played, g) < 3,
{
    crate::rules::lemma_trick_winner_ranks_first(played, g);
}

/// After each of the three players has played a card, the turn is back
/// with the one who led the trick.
pub proof fn lemma_three_turns_return(id: u8)
    requires
        id < 3,
    ensures
        (((id + 1) % 3 + 1) % 3 + 1) % 3 == id,
{
}

/// Whether the play ends with this trick before all ten are played: in
/// Null, as soon as the declarer takes a trick.
pub fn play_ends(game: char, winner_id: u8, declarer_id: u8) -> (ends: bool)
    ensures
        ends == (game == 'n' && winner_id == declarer_id),
{
    game == 'n' && winner_id == declarer_id
}

/// What the players count at the end of the play: the declarer's points,
/// how many cards his tricks hold, and the points of the two others
/// together; all zero when no player has the declarer's id.
pub open spec fn tally_of(declarer_id: u8, dealer: Player, responder: Player, bidder: Player) -> (u8, usize, int) {
    if dealer.id == declarer_id {
        (dealer.counter, dealer.tricks.len(), responder.counter + bidder.counter)
    } else if responder.id == declarer_id {
        (responder.counter, responder.tricks.len(), dealer.counter + bidder.counter)
    } else if bidder.id == declarer_id {
        (bidder.counter, bidder.tricks.len(), responder.counter + dealer.counter)
    } else {
        (0, 0, 0)
    }
}

/// Counts the play (see `tally_of`). The two others' points together must
/// fit in a byte.
pub fn tally(declarer_id: u8, dealer: &Player, responder: &Player, bidder: &Player) -> (t: (u8, usize, u8))
    requires
        tally_of(declarer_id, *dealer, *responder, *bidder).2 <= 255,
    ensures
        t.0 == tally_of(declarer_id, *dealer, *responder, *bidder).0,
        t.1 == tally_of(declarer_id, *dealer, *responder, *bidder).1,
        t.2 == tally_of(declarer_id, *dealer, *responder, *bidder).2,
{
    if dealer.id == declarer_id {
        (dealer.count_cards(), dealer.tricks.len(), responder.count_cards() + bidder.count_cards())
    } else if responder.id == declarer_id {
        (responder.count_cards(), responder.tricks.len(), dealer.count_cards() + bidder.count_cards())
    } else if bidder.id == declarer_id {
        (bidder.count_cards(), bidder.tricks.len(), responder.count_cards() + dealer.count_cards())
    } else {
        (0, 0, 0)
    }
}

} // verus!
