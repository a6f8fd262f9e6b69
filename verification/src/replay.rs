//! Replaying a recorded game line by line: the announced game, the Skat and
//! the played cards are read back, and the hands of the three players and
//! the tricks they played are put together again.
//!
//! A record holds one entry per line: a game letter (`g`, `b`, `n`, `c`,
//! `s`, `h`, `d`), `sf` when the Skat comes first, `sl` when it comes last,
//! or the number of a card. The first card of each trick is played by the
//! player who took the previous trick, the others follow in turn.
use vstd::prelude::*;
use crate::arrange::{arrange, count_of, lemma_count_concat};
use crate::cards::{all_cards, is_game};
use crate::display::{cards_text, numbers_text};
use crate::orders::{caps_tens, hand_order};
use crate::players::{PlayerBuilder, Record, RecordBuilder};
use crate::rules::{trick_winner, who_wins_trick};
use crate::text::{byte_number, game_letter, game_named, is_two_letters, parse_u8, trimmed};

verus! {

broadcast use vstd::seq_lib::group_seq_properties;

/// Where a replay stands: the announced game, the player who led the
/// current trick and the one whose card comes next, the Skat, the cards of
/// the trick so far, how many cards were taken in, and what the next card
/// is expected to be.
#[derive(Clone, Copy)]
pub struct ReplayState {
    pub game: char,
    pub leader: u8,
    pub turn: u8,
    pub skat_first: u8,
    pub skat_second: u8,
    pub first: u8,
    pub second: u8,
    pub counter: u8,
    pub got_skat: bool,
    pub expect_first_skat: bool,
    pub expect_second_skat: bool,
    pub expect_first: bool,
    pub expect_second: bool,
    pub expect_third: bool,
}

/// Where a card that was read goes.
pub enum Placement {
    /// Into the Skat.
    Skat,
    /// Into the hand of `player`, who played it.
    Hand { player: u8 },
    /// Into the hand of `player`, who played it as the last card of the
    /// trick `(leader, first card, second card, third card)`.
    Trick { player: u8, trick: (u8, u8, u8, u8) },
    /// Nowhere: no card was expected.
    Nowhere,
}

/// What a line of the record was read as.
#[derive(PartialEq, Eq, Structural)]
pub enum ReplayNote {
    /// A game was announced.
    Announced(char),
    /// The Skat comes first.
    SkatFirst,
    /// The Skat comes last.
    SkatLast,
    /// A card was taken in.
    Card,
    /// The card was read before; the line is passed over.
    AlreadyPlayed,
    /// A card came when none was expected.
    Unexpected,
}

/// A line that cannot be replayed.
#[derive(PartialEq, Eq, Structural)]
pub enum ReplayError {
    /// The line is neither a game letter, `sf`, `sl`, nor a number below 256.
    NotANumber,
    /// The number is not one of the 32 cards.
    NoSuchCard(u8),
    /// A trick was completed before one of the seven games was announced.
    UnknownGame(char),
}

/// The state in which a replay starts: no game announced (`x`), player 0
/// leading, and nothing expected.
pub open spec fn initial_state() -> ReplayState {
    ReplayState {
        game: 'x',
        leader: 0,
        turn: 0,
        skat_first: 0,
        skat_second: 0,
        first: 0,
        second: 0,
        counter: 0,
        got_skat: false,
        expect_first_skat: false,
        expect_second_skat: false,
        expect_first: false,
        expect_second: false,
        expect_third: false,
    }
}

/// What taking in a fresh card does to the state, and where the card goes.
/// The Skat is expected first; the 31st card also starts the Skat when the
/// first card of a trick is expected; a trick is led by `leader` and taken
/// by the player who played its winning card, who then leads.
pub open spec fn after_card(s: ReplayState, card: u8) -> (ReplayState, Placement) {
    let counter = (s.counter + 1) as u8;
    if s.expect_first_skat {
        (
            ReplayState {
                skat_first: card,
                counter,
                expect_first_skat: false,
                expect_second_skat: true,
                ..s
            },
            Placement::Skat,
        )
    } else if s.expect_second_skat {
        (
            ReplayState {
                skat_second: card,
                got_skat: true,
                counter,
                expect_second_skat: false,
                expect_first: true,
                ..s
            },
            Placement::Skat,
        )
    } else if s.counter == 30 && s.expect_first {
        (
            ReplayState {
                skat_first: card,
                counter,
                expect_first_skat: false,
                expect_second_skat: true,
                ..s
            },
            Placement::Skat,
        )
    } else if s.expect_first {
        (
            ReplayState {
                first: card,
                counter,
                turn: ((s.turn + 1) % 3) as u8,
                expect_first: false,
                expect_second: true,
                expect_third: false,
                ..s
            },
            Placement::Hand { player: s.turn },
        )
    } else if s.expect_second {
        (
            ReplayState {
                second: card,
                counter,
                turn: ((s.turn + 1) % 3) as u8,
                expect_first: false,
                expect_second: false,
                expect_third: true,
                ..s
            },
            Placement::Hand { player: s.turn },
        )
    } else if s.expect_third {
        let winner = ((s.leader + trick_winner(seq![s.first, s.second, card], s.game)) % 3) as u8;
        (
            ReplayState {
                counter,
                leader: winner,
                turn: winner,
                expect_first: true,
                expect_second: false,
                expect_third: false,
                ..s
            },
            Placement::Trick { player: s.turn, trick: (s.leader, s.first, s.second, card) },
        )
    } else {
        (s, Placement::Nowhere)
    }
}

/// The player whose hand receives the card, or 3 for none.
pub open spec fn receiver(p: Placement) -> int {
    match p {
        Placement::Hand { player } => player as int,
        Placement::Trick { player, .. } => player as int,
        _ => 3,
    }
}

/// Number of cards marked as played.
pub open spec fn played_count(p: Seq<bool>) -> nat
    decreases p.len(),
{
    if p.len() == 0 {
        0
    } else {
        played_count(p.drop_last()) + if p.last() {
            1nat
        } else {
            0nat
        }
    }
}

proof fn lemma_played_count_bound(p: Seq<bool>)
    ensures
        played_count(p) <= p.len(),
    decreases p.len(),
{
    if p.len() > 0 {
        lemma_played_count_bound(p.drop_last());
    }
}

proof fn lemma_played_count_none(n: nat)
    ensures
        played_count(Seq::new(n, |i: int| false)) == 0,
    decreases n,
{
    if n > 0 {
        lemma_played_count_none((n - 1) as nat);
        assert(Seq::new(n, |i: int| false).drop_last() =~= Seq::new((n - 1) as nat, |i: int| false));
    }
}

proof fn lemma_played_count_mark(p: Seq<bool>, i: int)
    requires
        0 <= i < p.len(),
        !p[i],
    ensures
        played_count(p.update(i, true)) == played_count(p) + 1,
    decreases p.len(),
{
    if i == p.len() - 1 {
        assert(p.update(i, true).drop_last() =~= p.drop_last());
    } else {
        lemma_played_count_mark(p.drop_last(), i);
        assert(p.update(i, true).drop_last() =~= p.drop_last().update(i, true));
    }
}

/// No card went into the hands twice (into one hand or into two), and
/// every card in a hand is marked as played.
pub open spec fn cards_once(played: Seq<bool>, a: Seq<u8>, b: Seq<u8>, c: Seq<u8>) -> bool {
    forall|x: u8|
        #![trigger count_of(a + b + c, x)]
        count_of(a + b + c, x) <= 1 && (count_of(a + b + c, x) > 0 ==> (x as int) < played.len() && played[x
            as int])
}

/// Nothing is in the hands at first.
proof fn lemma_cards_once_empty(played: Seq<bool>)
    ensures
        cards_once(played, Seq::<u8>::empty(), Seq::<u8>::empty(), Seq::<u8>::empty()),
{
    let e = Seq::<u8>::empty();
    assert(e + e + e =~= e);
}

/// Giving a card that was not played yet to one of the players (or to none)
/// and marking it as played keeps every card in the hands at most once.
proof fn lemma_cards_once_kept(played: Seq<bool>, a: Seq<u8>, b: Seq<u8>, c: Seq<u8>, who: int, card: u8)
    requires
        cards_once(played, a, b, c),
        (card as int) < played.len(),
        !played[card as int],
    ensures
        cards_once(
            played.update(card as int, true),
            hand_after(a, 0, who, card),
            hand_after(b, 1, who, card),
            hand_after(c, 2, who, card),
        ),
{
    let a2 = hand_after(a, 0, who, card);
    let b2 = hand_after(b, 1, who, card);
    let c2 = hand_after(c, 2, who, card);
    let p2 = played.update(card as int, true);
    assert forall|x: u8|
        #![trigger count_of(a2 + b2 + c2, x)]
        count_of(a2 + b2 + c2, x) <= 1 && (count_of(a2 + b2 + c2, x) > 0 ==> (x as int) < p2.len() && p2[x
            as int]) by {
        lemma_count_concat(a2 + b2, c2, x);
        lemma_count_concat(a2, b2, x);
        lemma_count_concat(a + b, c, x);
        lemma_count_concat(a, b, x);
        if who == 0 {
            assert(a2.drop_last() =~= a);
        }
        if who == 1 {
            assert(b2.drop_last() =~= b);
        }
        if who == 2 {
            assert(c2.drop_last() =~= c);
        }
        let old_count = count_of(a + b + c, x);
        let old_card = count_of(a + b + c, card);
        assert(old_card == 0);
        assert(count_of(a2 + b2 + c2, x) == old_count + if x == card && 0 <= who < 3 { 1nat } else { 0nat });
    }
}

/// A replay in progress: the state, which cards were read, the cards each
/// of the players 0, 1 and 2 played, and the tricks as `(leader, first
/// card, second card, third card)`.
pub struct Replay {
    pub state: ReplayState,
    pub record: Record,
    pub player_a: PlayerBuilder,
    pub player_b: PlayerBuilder,
    pub player_c: PlayerBuilder,
    pub tricks: Vec<(u8, u8, u8, u8)>,
}

/// The hand after a card went to `receiver`: the hand of player `who`
/// grows by the card when `who` is the receiver.
pub open spec fn hand_after(hand: Seq<u8>, who: int, receiver: int, card: u8) -> Seq<u8> {
    if who == receiver {
        hand.push(card)
    } else {
        hand
    }
}

/// The tricks after a card was placed: a completed trick is added.
pub open spec fn tricks_after(tricks: Seq<(u8, u8, u8, u8)>, p: Placement) -> Seq<(u8, u8, u8, u8)> {
    match p {
        Placement::Trick { trick, .. } => tricks.push(trick),
        _ => tricks,
    }
}

/// The cards of the player are as before.
pub open spec fn same_player(a: PlayerBuilder, b: PlayerBuilder) -> bool {
    a.id == b.id && a.cards@ == b.cards@ && a.counter == b.counter
}

/// Everything but the state is as before.
pub open spec fn same_but_state(a: Replay, b: Replay) -> bool {
    &&& a.record.cards@ == b.record.cards@
    &&& a.record.played@ == b.record.played@
    &&& same_player(a.player_a, b.player_a)
    &&& same_player(a.player_b, b.player_b)
    &&& same_player(a.player_c, b.player_c)
    &&& a.tricks@ == b.tricks@
}

/// Nothing changed.
pub open spec fn unchanged(a: Replay, b: Replay) -> bool {
    a.state == b.state && same_but_state(a, b)
}

/// `after` is `before` once the fresh card `card` was taken in.
pub open spec fn card_taken(before: Replay, after: Replay, card: u8) -> bool {
    let (s, p) = after_card(before.state, card);
    &&& after.state == s
    &&& after.record.played@ == before.record.played@.update(card as int, true)
    &&& after.record.cards@ == before.record.cards@
    &&& after.player_a.cards@ == hand_after(before.player_a.cards@, 0, receiver(p), card)
    &&& after.player_b.cards@ == hand_after(before.player_b.cards@, 1, receiver(p), card)
    &&& after.player_c.cards@ == hand_after(before.player_c.cards@, 2, receiver(p), card)
    &&& after.player_a.id == 0 && after.player_b.id == 1 && after.player_c.id == 2
    &&& after.tricks@ == tricks_after(before.tricks@, p)
}

/// The number that a line holds when it is no game letter, `sf` or `sl`.
pub open spec fn line_card(line: Seq<char>) -> Option<u8> {
    byte_number(trimmed(line))
}

/// How the hand of a player is written out for game `g`: the card numbers
/// in the order of the hand for the game, each followed by a space, and a
/// line break.
pub open spec fn hand_line(hand: Seq<u8>, g: char) -> Seq<char> {
    numbers_text(arrange(hand_order(g), hand, caps_tens(g))) + "\n"@
}

/// The game letter followed by a line break, for one of the seven games.
fn game_line(g: char) -> (line: Option<&'static str>)
    ensures
        line is None <==> !is_game(g),
        line is Some ==> line->0@ == seq![g, '\n'],
{
    proof {
        reveal_strlit("g\n");
        reveal_strlit("b\n");
        reveal_strlit("n\n");
        reveal_strlit("c\n");
        reveal_strlit("s\n");
        reveal_strlit("h\n");
        reveal_strlit("d\n");
    }
    let line = match g {
        'g' => "g\n",
        'b' => "b\n",
        'n' => "n\n",
        'c' => "c\n",
        's' => "s\n",
        'h' => "h\n",
        'd' => "d\n",
        _ => {
            return None;
        },
    };
    assert(line@ =~= seq![g, '\n']);
    Some(line)
}

impl Replay {
    /// The replay is consistent: 32 cards in the record, the players 0, 1
    /// and 2 holding cards only, the leader and the next player among them,
    /// and no more cards taken in than marked as played.
    pub open spec fn well_formed(&self) -> bool {
        &&& self.record.played.len() == 32
        &&& self.state.leader < 3
        &&& self.state.turn < 3
        &&& self.state.first < 32
        &&& self.state.second < 32
        &&& self.state.counter <= played_count(self.record.played@)
        &&& self.player_a.id == 0
        &&& self.player_b.id == 1
        &&& self.player_c.id == 2
        &&& all_cards(self.player_a.cards@)
        &&& all_cards(self.player_b.cards@)
        &&& all_cards(self.player_c.cards@)
    }

    /// No card went into the hands twice, and each card in a hand was read.
    pub open spec fn cards_once(&self) -> bool {
        cards_once(self.record.played@, self.player_a.cards@, self.player_b.cards@, self.player_c.cards@)
    }

    /// A replay of an empty record: all 32 cards unplayed, no cards in the
    /// hands, no tricks.
    pub fn new() -> (r: Replay)
        ensures
            r.well_formed(),
            r.state == initial_state(),
            r.record.played@ == Seq::new(32, |i: int| false),
            r.record.cards@ == Seq::new(32, |i: int| i as u8),
            r.player_a.cards@ == Seq::<u8>::empty(),
            r.player_b.cards@ == Seq::<u8>::empty(),
            r.player_c.cards@ == Seq::<u8>::empty(),
            r.tricks@ == Seq::<(u8, u8, u8, u8)>::empty(),
            r.cards_once(),
    {
        proof {
            lemma_cards_once_empty(Seq::new(32, |i: int| false));
        }
        let mut record_builder = RecordBuilder::new();
        let mut n: u8 = 0;
        while n < 32
            invariant
                n <= 32,
                record_builder.played@ == Seq::new(n as nat, |i: int| false),
                record_builder.cards@ == Seq::new(n as nat, |i: int| i as u8),
            decreases 32 - n,
        {
            record_builder.add(n);
            n = n + 1;
            assert(record_builder.played@ =~= Seq::new(n as nat, |i: int| false));
            assert(record_builder.cards@ =~= Seq::new(n as nat, |i: int| i as u8));
        }
        let record = record_builder.finalize();
        proof {
            lemma_played_count_none(32);
        }
        let mut player_a = PlayerBuilder::new();
        player_a.id(0);
        let mut player_b = PlayerBuilder::new();
        player_b.id(1);
        let mut player_c = PlayerBuilder::new();
        player_c.id(2);
        let state = ReplayState {
            game: 'x',
            leader: 0,
            turn: 0,
            skat_first: 0,
            skat_second: 0,
            first: 0,
            second: 0,
            counter: 0,
            got_skat: false,
            expect_first_skat: false,
            expect_second_skat: false,
            expect_first: false,
            expect_second: false,
            expect_third: false,
        };
        Replay { state, record, player_a, player_b, player_c, tricks: Vec::new() }
    }

    fn give(&mut self, player: u8, card: u8)
        requires
            player < 3,
            card < 32,
            old(self).well_formed(),
        ensures
            final(self).state == old(self).state,
            final(self).record == old(self).record,
            final(self).tricks == old(self).tricks,
            final(self).player_a.cards@ == hand_after(old(self).player_a.cards@, 0, player as int, card),
            final(self).player_b.cards@ == hand_after(old(self).player_b.cards@, 1, player as int, card),
            final(self).player_c.cards@ == hand_after(old(self).player_c.cards@, 2, player as int, card),
            final(self).well_formed(),
    {
        if player == 0 {
            self.player_a.add(card);
        } else if player == 1 {
            self.player_b.add(card);
        } else {
            self.player_c.add(card);
        }
    }

    /// Reads one line of the record.
    ///
    /// A game letter announces that game; `sf` and `sl` say that the Skat
    /// comes first or last; any other line must hold the number of a card
    /// (white space around it is ignored). A card read before is passed
    /// over; a fresh one is taken in as `after_card` says.
    pub fn step(&mut self, line: &str) -> (r: Result<ReplayNote, ReplayError>)
        requires
            old(self).well_formed(),
        ensures
            game_named(line@) is Some ==> {
                &&& r == Ok::<ReplayNote, ReplayError>(ReplayNote::Announced(game_named(line@)->0))
                &&& final(self).state == (ReplayState { game: game_named(line@)->0, ..old(self).state })
                &&& same_but_state(*final(self), *old(self))
            },
            game_named(line@) is None && line@ == seq!['s', 'f'] ==> {
                &&& r == Ok::<ReplayNote, ReplayError>(ReplayNote::SkatFirst)
                &&& final(self).state == (ReplayState { expect_first_skat: true, ..old(self).state })
                &&& same_but_state(*final(self), *old(self))
            },
            game_named(line@) is None && line@ == seq!['s', 'l'] ==> {
                &&& r == Ok::<ReplayNote, ReplayError>(ReplayNote::SkatLast)
                &&& final(self).state == (ReplayState { expect_first: true, ..old(self).state })
                &&& same_but_state(*final(self), *old(self))
            },
            game_named(line@) is None && line@ != seq!['s', 'f'] && line@ != seq!['s', 'l'] ==> {
                match line_card(line@) {
                    None => r == Err::<ReplayNote, ReplayError>(ReplayError::NotANumber) && unchanged(
                        *final(self),
                        *old(self),
                    ),
                    Some(card) => if card >= 32 {
                        r == Err::<ReplayNote, ReplayError>(ReplayError::NoSuchCard(card)) && unchanged(
                            *final(self),
                            *old(self),
                        )
                    } else if old(self).record.played@[card as int] {
                        r == Ok::<ReplayNote, ReplayError>(ReplayNote::AlreadyPlayed) && unchanged(
                            *final(self),
                            *old(self),
                        )
                    } else if after_card(old(self).state, card).1 is Trick && !is_game(old(self).state.game) {
                        r == Err::<ReplayNote, ReplayError>(ReplayError::UnknownGame(old(self).state.game))
                    } else {
                        &&& r == Ok::<ReplayNote, ReplayError>(
                            if after_card(old(self).state, card).1 is Nowhere {
                                ReplayNote::Unexpected
                            } else {
                                ReplayNote::Card
                            },
                        )
                        &&& card_taken(*old(self), *final(self), card)
                    },
                }
            },
            final(self).well_formed(),
            old(self).cards_once() ==> final(self).cards_once(),
    {
        match game_letter(line) {
            Some(g) => {
                self.state.game = g;
                return Ok(ReplayNote::Announced(g));
            },
            None => {},
        }
        if is_two_letters(line, 's', 'f') {
            self.state.expect_first_skat = true;
            return Ok(ReplayNote::SkatFirst);
        }
        if is_two_letters(line, 's', 'l') {
            self.state.expect_first = true;
            return Ok(ReplayNote::SkatLast);
        }
        let card = match parse_u8(line) {
            Some(c) => c,
            None => {
                return Err(ReplayError::NotANumber);
            },
        };
        if card >= 32 {
            return Err(ReplayError::NoSuchCard(card));
        }
        proof {
            if !self.record.played@[card as int] {
                lemma_played_count_mark(self.record.played@, card as int);
            }
        }
        if !self.record.is_valid(card) {
            assert(self.record.played@ =~= old(self).record.played@);
            return Ok(ReplayNote::AlreadyPlayed);
        }
        proof {
            if old(self).cards_once() {
                let (a, b, c) = (self.player_a.cards@, self.player_b.cards@, self.player_c.cards@);
                lemma_cards_once_kept(old(self).record.played@, a, b, c, 3, card);
                lemma_cards_once_kept(
                    old(self).record.played@,
                    a,
                    b,
                    c,
                    receiver(after_card(self.state, card).1),
                    card,
                );
            }
        }
        self.take_card(card)
    }

    /// The Skat, once both of its cards were read.
    pub fn skat(&self) -> (skat: Option<(u8, u8)>)
        ensures
            skat == if self.state.got_skat {
                Some((self.state.skat_first, self.state.skat_second))
            } else {
                None
            },
    {
        if self.state.got_skat {
            Some((self.state.skat_first, self.state.skat_second))
        } else {
            None
        }
    }

    /// The cards of a player as they are written out: sorted for game `g`,
    /// as `Player::sort_cards_for` sorts them.
    fn hand_text(builder: &PlayerBuilder, g: char) -> (text: String)
        requires
            all_cards(builder.cards@),
            is_game(g),
        ensures
            text@ == hand_line(builder.cards@, g),
    {
        let mut player = builder.finalize();
        player.sort_cards_for(g);
        cards_text(&player.cards)
    }

    /// The distribution of the cards as the replay put it together: the
    /// game letter on a line of its own, then the cards of the players 0,
    /// 1 and 2, each sorted for the game; `None` when no game was
    /// announced.
    pub fn distribution(&self) -> (text: Option<String>)
        requires
            self.well_formed(),
        ensures
            text is None <==> !is_game(self.state.game),
            text is Some ==> text->0@ == seq![self.state.game, '\n'] + hand_line(self.player_a.cards@, self.state.game)
                + hand_line(self.player_b.cards@, self.state.game) + hand_line(
                self.player_c.cards@,
                self.state.game,
            ),
    {
        let g = self.state.game;
        let head = match game_line(g) {
            Some(h) => h,
            None => {
                return None;
            },
        };
        let mut text = String::from_str(head);
        let a = Replay::hand_text(&self.player_a, g);
        text.append(a.as_str());
        let b = Replay::hand_text(&self.player_b, g);
        text.append(b.as_str());
        let c = Replay::hand_text(&self.player_c, g);
        text.append(c.as_str());
        assert(text@ =~= seq![g, '\n'] + hand_line(self.player_a.cards@, g) + hand_line(self.player_b.cards@, g)
            + hand_line(self.player_c.cards@, g));
        Some(text)
    }

    /// Takes in a card that was not read before.
    fn take_card(&mut self, card: u8) -> (r: Result<ReplayNote, ReplayError>)
        requires
            card < 32,
            old(self).well_formed(),
            old(self).state.counter < played_count(old(self).record.played@),
        ensures
            ({
                let (s, p) = after_card(old(self).state, card);
                if p is Trick && !is_game(old(self).state.game) {
                    &&& r == Err::<ReplayNote, ReplayError>(ReplayError::UnknownGame(old(self).state.game))
                    &&& final(self).well_formed()
                    &&& final(self).record == old(self).record
                    &&& final(self).player_a.cards@ == old(self).player_a.cards@
                    &&& final(self).player_b.cards@ == old(self).player_b.cards@
                    &&& final(self).player_c.cards@ == old(self).player_c.cards@
                } else {
                    &&& r == Ok::<ReplayNote, ReplayError>(
                        if p is Nowhere {
                            ReplayNote::Unexpected
                        } else {
                            ReplayNote::Card
                        },
                    )
                    &&& final(self).state == s
                    &&& final(self).record == old(self).record
                    &&& final(self).player_a.cards@ == hand_after(old(self).player_a.cards@, 0, receiver(p), card)
                    &&& final(self).player_b.cards@ == hand_after(old(self).player_b.cards@, 1, receiver(p), card)
                    &&& final(self).player_c.cards@ == hand_after(old(self).player_c.cards@, 2, receiver(p), card)
                    &&& final(self).tricks@ == tricks_after(old(self).tricks@, p)
                    &&& final(self).well_formed()
                }
            }),
    {
        proof {
            lemma_played_count_bound(self.record.played@);
        }
        let s = self.state;
        let counter = s.counter + 1;
        if s.expect_first_skat {
            self.state = ReplayState {
                skat_first: card,
                counter,
                expect_first_skat: false,
                expect_second_skat: true,
                ..s
            };
            Ok(ReplayNote::Card)
        } else if s.expect_second_skat {
            self.state = ReplayState {
                skat_second: card,
                got_skat: true,
                counter,
                expect_second_skat: false,
                expect_first: true,
                ..s
            };
            Ok(ReplayNote::Card)
        } else if s.counter == 30 && s.expect_first {
            self.state = ReplayState {
                skat_first: card,
                counter,
                expect_first_skat: false,
                expect_second_skat: true,
                ..s
            };
            Ok(ReplayNote::Card)
        } else if s.expect_first {
            self.give(s.turn, card);
            self.state = ReplayState {
                first: card,
                counter,
                turn: (s.turn + 1) % 3,
                expect_first: false,
                expect_second: true,
                expect_third: false,
                ..s
            };
            Ok(ReplayNote::Card)
        } else if s.expect_second {
            self.give(s.turn, card);
            self.state = ReplayState {
                second: card,
                counter,
                turn: (s.turn + 1) % 3,
                expect_first: false,
                expect_second: false,
                expect_third: true,
                ..s
            };
            Ok(ReplayNote::Card)
        } else if s.expect_third {
            let g = s.game;
            if !(g == 'g' || g == 'b' || g == 'n' || g == 'c' || g == 's' || g == 'h' || g == 'd') {
                return Err(ReplayError::UnknownGame(g));
            }
            self.give(s.turn, card);
            self.tricks.push((s.leader, s.first, s.second, card));
            let played = vec![s.first, s.second, card];
            assert(played@ =~= seq![s.first, s.second, card]);
            let taker = who_wins_trick(&played, g);
            let winner = (s.leader + taker) % 3;
            self.state = ReplayState {
                counter,
                leader: winner,
                turn: winner,
                expect_first: true,
                expect_second: false,
                expect_third: false,
                ..s
            };
            Ok(ReplayNote::Card)
        } else {
            Ok(ReplayNote::Unexpected)
        }
    }
}

/// A game recorded card by card while it is played at a table: which
/// cards were played, the trick being played, the cards each of the
/// players 0, 1 and 2 played, and the tricks completed.
pub struct Recording {
    pub record: Record,
    pub game: char,
    pub leader: u8,
    pub turn: u8,
    pub trick: Vec<u8>,
    pub player_a: PlayerBuilder,
    pub player_b: PlayerBuilder,
    pub player_c: PlayerBuilder,
    pub tricks: Vec<(u8, u8, u8, u8)>,
}

/// What became of a card offered to a recording.
#[derive(PartialEq, Eq, Structural)]
pub enum Offer {
    /// The number 32: the recording of the tricks stops.
    Abort,
    /// The card was played.
    Taken,
    /// The card was played before; it is refused.
    Refused,
    /// The number is neither a card nor 32.
    NoSuchCard,
}

impl Recording {
    /// The recording is consistent: a game is set, 32 cards in the record,
    /// fewer than three cards in the trick, cards only in the trick and in
    /// the hands of the players 0, 1 and 2, and the leader and the next
    /// player among them.
    pub open spec fn well_formed(&self) -> bool {
        &&& is_game(self.game)
        &&& self.record.played.len() == 32
        &&& self.leader < 3
        &&& self.turn < 3
        &&& self.trick.len() < 3
        &&& all_cards(self.trick@)
        &&& self.player_a.id == 0
        &&& self.player_b.id == 1
        &&& self.player_c.id == 2
        &&& all_cards(self.player_a.cards@)
        &&& all_cards(self.player_b.cards@)
        &&& all_cards(self.player_c.cards@)
    }

    /// No card went into the hands twice, and each card in a hand was played.
    pub open spec fn cards_once(&self) -> bool {
        cards_once(self.record.played@, self.player_a.cards@, self.player_b.cards@, self.player_c.cards@)
    }

    /// A recording of game `game` with no card played: player 0 leads.
    pub fn new(game: char) -> (r: Recording)
        requires
            is_game(game),
        ensures
            r.well_formed(),
            r.game == game,
            r.leader == 0,
            r.turn == 0,
            r.record.played@ == Seq::new(32, |i: int| false),
            r.record.cards@ == Seq::new(32, |i: int| i as u8),
            r.trick@ == Seq::<u8>::empty(),
            r.player_a.cards@ == Seq::<u8>::empty(),
            r.player_b.cards@ == Seq::<u8>::empty(),
            r.player_c.cards@ == Seq::<u8>::empty(),
            r.tricks@ == Seq::<(u8, u8, u8, u8)>::empty(),
            r.cards_once(),
    {
        let replay = Replay::new();
        Recording {
            record: replay.record,
            game,
            leader: 0,
            turn: 0,
            trick: Vec::new(),
            player_a: replay.player_a,
            player_b: replay.player_b,
            player_c: replay.player_c,
            tricks: Vec::new(),
        }
    }

    /// Marks a card of the Skat as played: `Some(true)` when it was not
    /// played before, `Some(false)` when it was, `None` when `card` is no
    /// card.
    pub fn put_skat(&mut self, card: u8) -> (r: Option<bool>)
        requires
            old(self).well_formed(),
        ensures
            final(self).well_formed(),
            card >= 32 ==> r is None && final(self).record.played@ == old(self).record.played@,
            card < 32 ==> r == Some(!old(self).record.played@[card as int]) && final(self).record.played@
                == old(self).record.played@.update(card as int, true),
            final(self).trick@ == old(self).trick@,
            final(self).leader == old(self).leader,
            final(self).turn == old(self).turn,
            final(self).player_a.cards@ == old(self).player_a.cards@,
            final(self).player_b.cards@ == old(self).player_b.cards@,
            final(self).player_c.cards@ == old(self).player_c.cards@,
            final(self).tricks@ == old(self).tricks@,
            old(self).cards_once() ==> final(self).cards_once(),
    {
        if card >= 32 {
            return None;
        }
        proof {
            if old(self).cards_once() && !self.record.played@[card as int] {
                lemma_cards_once_kept(
                    self.record.played@,
                    self.player_a.cards@,
                    self.player_b.cards@,
                    self.player_c.cards@,
                    3,
                    card,
                );
            }
        }
        let fresh = self.record.is_valid(card);
        if !fresh {
            assert(self.record.played@ =~= old(self).record.played@);
        }
        Some(fresh)
    }

    fn give(&mut self, player: u8, card: u8)
        requires
            player < 3,
            card < 32,
            old(self).well_formed(),
        ensures
            final(self).record == old(self).record,
            final(self).game == old(self).game,
            final(self).leader == old(self).leader,
            final(self).turn == old(self).turn,
            final(self).trick == old(self).trick,
            final(self).tricks == old(self).tricks,
            final(self).player_a.cards@ == hand_after(old(self).player_a.cards@, 0, player as int, card),
            final(self).player_b.cards@ == hand_after(old(self).player_b.cards@, 1, player as int, card),
            final(self).player_c.cards@ == hand_after(old(self).player_c.cards@, 2, player as int, card),
            final(self).well_formed(),
    {
        if player == 0 {
            self.player_a.add(card);
        } else if player == 1 {
            self.player_b.add(card);
        } else {
            self.player_c.add(card);
        }
    }

    /// A card played by the player whose turn it is. The number 32 stops
    /// the recording; a card played before is refused. A fresh card goes
    /// into the player's hand and the trick; the third card completes the
    /// trick, which is taken by the player who played its winning card,
    /// who leads the next one.
    pub fn play(&mut self, card: u8) -> (r: Offer)
        requires
            old(self).well_formed(),
        ensures
            final(self).well_formed(),
            final(self).game == old(self).game,
            card == 32 ==> r == Offer::Abort,
            card > 32 ==> r == Offer::NoSuchCard,
            card >= 32 ==> {
                &&& final(self).record.played@ == old(self).record.played@
                &&& final(self).trick@ == old(self).trick@
                &&& final(self).leader == old(self).leader
                &&& final(self).turn == old(self).turn
                &&& final(self).player_a.cards@ == old(self).player_a.cards@
                &&& final(self).player_b.cards@ == old(self).player_b.cards@
                &&& final(self).player_c.cards@ == old(self).player_c.cards@
                &&& final(self).tricks@ == old(self).tricks@
            },
            card < 32 && old(self).record.played@[card as int] ==> {
                &&& r == Offer::Refused
                &&& final(self).record.played@ == old(self).record.played@
                &&& final(self).trick@ == old(self).trick@
                &&& final(self).leader == old(self).leader
                &&& final(self).turn == old(self).turn
                &&& final(self).player_a.cards@ == old(self).player_a.cards@
                &&& final(self).player_b.cards@ == old(self).player_b.cards@
                &&& final(self).player_c.cards@ == old(self).player_c.cards@
                &&& final(self).tricks@ == old(self).tricks@
            },
            card < 32 && !old(self).record.played@[card as int] ==> {
                &&& r == Offer::Taken
                &&& final(self).record.played@ == old(self).record.played@.update(card as int, true)
                &&& final(self).player_a.cards@ == hand_after(old(self).player_a.cards@, 0, old(self).turn as int, card)
                &&& final(self).player_b.cards@ == hand_after(old(self).player_b.cards@, 1, old(self).turn as int, card)
                &&& final(self).player_c.cards@ == hand_after(old(self).player_c.cards@, 2, old(self).turn as int, card)
                &&& if old(self).trick.len() == 2 {
                    let t = old(self).trick@;
                    let winner = ((old(self).leader + trick_winner(seq![t[0], t[1], card], old(self).game)) % 3) as u8;
                    &&& final(self).trick@ == Seq::<u8>::empty()
                    &&& final(self).tricks@ == old(self).tricks@.push((old(self).leader, t[0], t[1], card))
                    &&& final(self).leader == winner
                    &&& final(self).turn == winner
                } else {
                    &&& final(self).trick@ == old(self).trick@.push(card)
                    &&& final(self).tricks@ == old(self).tricks@
                    &&& final(self).leader == old(self).leader
                    &&& final(self).turn == (old(self).turn + 1) % 3
                }
            },
            old(self).cards_once() ==> final(self).cards_once(),
    {
        if card == 32 {
            return Offer::Abort;
        }
        if card > 32 {
            return Offer::NoSuchCard;
        }
        proof {
            if old(self).cards_once() && !self.record.played@[card as int] {
                lemma_cards_once_kept(
                    self.record.played@,
                    self.player_a.cards@,
                    self.player_b.cards@,
                    self.player_c.cards@,
                    self.turn as int,
                    card,
                );
            }
        }
        if !self.record.is_valid(card) {
            assert(self.record.played@ =~= old(self).record.played@);
            return Offer::Refused;
        }
        let turn = self.turn;
        self.give(turn, card);
        if self.trick.len() == 2 {
            let first = self.trick[0];
            let second = self.trick[1];
            let played = vec![first, second, card];
            assert(played@ =~= seq![first, second, card]);
            let taker = who_wins_trick(&played, self.game);
            let winner = (self.leader + taker) % 3;
            self.tricks.push((self.leader, first, second, card));
            self.trick = Vec::new();
            self.leader = winner;
            self.turn = winner;
        } else {
            self.trick.push(card);
            self.turn = (turn + 1) % 3;
        }
        Offer::Taken
    }
}

} // verus!
