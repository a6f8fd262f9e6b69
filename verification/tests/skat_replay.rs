use skat_blend::replay::{Offer, Recording, Replay, ReplayError, ReplayNote};
use skat_blend::text::{
    announce_reply, game_letter, game_typed, is_two_letters, offered_game, parse_u8, AnnounceReply,
};

#[test]
fn numbers_are_read_as_u8_from_str_reads_them() {
    assert_eq!(parse_u8("17\n"), Some(17));
    assert_eq!(parse_u8(" 255 "), Some(255));
    assert_eq!(parse_u8("\t42\r\n"), Some(42));
    assert_eq!(parse_u8("+5"), Some(5));
    assert_eq!(parse_u8("007"), Some(7));
    assert_eq!(parse_u8("0"), Some(0));
    assert_eq!(parse_u8("256"), None);
    assert_eq!(parse_u8("1000"), None);
    assert_eq!(parse_u8("-1"), None);
    assert_eq!(parse_u8("+"), None);
    assert_eq!(parse_u8(""), None);
    assert_eq!(parse_u8("   \n"), None);
    assert_eq!(parse_u8("1 2"), None);
    assert_eq!(parse_u8("g\n"), None);
}

#[test]
fn parse_u8_agrees_with_std() {
    for line in ["0", "9", "10", "99", "100", "199", "200", "249", "250", "255", "256", "300", "999", " 3 ", "+12", "x1", "1x", "\u{3000}12\u{a0}", "\u{85}7\u{2028}", "\u{200b}5", "\u{1680}\u{2009}99\u{202f}"] {
        assert_eq!(parse_u8(line), line.trim().parse::<u8>().ok(), "line {:?}", line);
    }
}

#[test]
fn words_of_a_record() {
    assert_eq!(game_letter("g"), Some('g'));
    assert_eq!(game_letter("d"), Some('d'));
    assert_eq!(game_letter("x"), None);
    assert_eq!(game_letter("gg"), None);
    assert_eq!(game_letter(""), None);
    assert!(is_two_letters("sf", 's', 'f'));
    assert!(!is_two_letters("sf ", 's', 'f'));
    assert!(!is_two_letters("sl", 's', 'f'));
}

#[test]
fn games_typed_on_a_line() {
    assert_eq!(game_typed("h\n"), Some('h'));
    assert_eq!(game_typed("b\n"), Some('b'));
    assert_eq!(game_typed("h"), None);
    assert_eq!(game_typed("h\r\n"), None);
    assert_eq!(game_typed("q\n"), None);
}

#[test]
fn answers_when_a_game_is_announced() {
    assert!(announce_reply('c', "\n") == AnnounceReply::Game('c'));
    assert!(announce_reply('c', "y\n") == AnnounceReply::Game('c'));
    assert!(announce_reply('x', "y\n") == AnnounceReply::Game('d'));
    assert!(announce_reply('c', "n\n") == AnnounceReply::Game('n'));
    assert!(announce_reply('c', "o\n") == AnnounceReply::Ouvert);
    assert!(announce_reply('c', "maybe\n") == AnnounceReply::Again);
    assert!(announce_reply('c', "y") == AnnounceReply::Again);
    assert!(announce_reply('c', "") == AnnounceReply::Again);
    assert_eq!(offered_game('x'), 'd');
    assert_eq!(offered_game('s'), 's');
}

fn replay_lines(lines: &[&str]) -> (Replay, Vec<Result<ReplayNote, ReplayError>>) {
    let mut replay = Replay::new();
    let mut notes = Vec::new();
    for line in lines {
        notes.push(replay.step(line));
    }
    (replay, notes)
}

#[test]
fn a_record_is_replayed() {
    let (replay, notes) = replay_lines(&[
        "g", "sf", "30", "31", "0", "1", "2", "8", "9", "4", "16", " 17 ", "17", "x", "40", "18",
    ]);
    assert!(notes[0] == Ok(ReplayNote::Announced('g')));
    assert!(notes[1] == Ok(ReplayNote::SkatFirst));
    assert!(notes[2] == Ok(ReplayNote::Card));
    assert!(notes[11] == Ok(ReplayNote::Card));
    assert!(notes[12] == Ok(ReplayNote::AlreadyPlayed));
    assert!(notes[13] == Err(ReplayError::NotANumber));
    assert!(notes[14] == Err(ReplayError::NoSuchCard(40)));
    assert!(notes[15] == Ok(ReplayNote::Card));
    assert_eq!(replay.tricks, vec![(0, 0, 1, 2), (0, 8, 9, 4), (2, 16, 17, 18)]);
    assert_eq!(replay.state.leader, 2);
    assert_eq!(replay.skat(), Some((30, 31)));
    assert_eq!(replay.player_a.cards, vec![0, 8, 17]);
    assert_eq!(replay.player_b.cards, vec![1, 9, 18]);
    assert_eq!(replay.player_c.cards, vec![2, 4, 16]);
    assert_eq!(replay.distribution(), Some("g\n0 8 17 \n1 9 18 \n4 2 16 \n".to_string()));
}

#[test]
fn the_skat_comes_last_after_thirty_cards() {
    let mut lines: Vec<String> = vec!["n".to_string(), "sl".to_string()];
    for c in 0..32 {
        lines.push(c.to_string());
    }
    let refs: Vec<&str> = lines.iter().map(|l| l.as_str()).collect();
    let (replay, notes) = replay_lines(&refs);
    assert!(notes[1] == Ok(ReplayNote::SkatLast));
    assert!(notes.iter().skip(2).all(|n| *n == Ok(ReplayNote::Card)));
    assert_eq!(replay.skat(), Some((30, 31)));
    assert_eq!(replay.tricks.len(), 10);
    assert_eq!(replay.state.counter, 32);
    let mut hands: Vec<u8> = Vec::new();
    hands.extend(replay.player_a.cards.iter());
    hands.extend(replay.player_b.cards.iter());
    hands.extend(replay.player_c.cards.iter());
    hands.sort();
    assert_eq!(hands, (0u8..30).collect::<Vec<u8>>());
}

#[test]
fn a_card_that_nobody_expects_is_only_marked() {
    let (replay, notes) = replay_lines(&["c", "5"]);
    assert!(notes[1] == Ok(ReplayNote::Unexpected));
    assert!(replay.record.played[5]);
    assert!(replay.tricks.is_empty());
    assert_eq!(replay.skat(), None);
}

#[test]
fn a_trick_without_a_game_cannot_be_taken() {
    let (replay, notes) = replay_lines(&["sl", "0", "1", "2"]);
    assert!(notes[3] == Err(ReplayError::UnknownGame('x')));
    assert_eq!(replay.distribution(), None);
}

#[test]
fn recording_a_game_at_the_table() {
    let mut recording = Recording::new('g');
    assert_eq!(recording.put_skat(30), Some(true));
    assert_eq!(recording.put_skat(30), Some(false));
    assert_eq!(recording.put_skat(32), None);
    assert!(recording.play(0) == Offer::Taken);
    assert!(recording.play(0) == Offer::Refused);
    assert!(recording.play(1) == Offer::Taken);
    assert!(recording.play(4) == Offer::Taken);
    assert_eq!(recording.tricks, vec![(0, 0, 1, 4)]);
    assert_eq!(recording.leader, 2);
    assert_eq!(recording.turn, 2);
    assert!(recording.trick.is_empty());
    assert!(recording.play(8) == Offer::Taken);
    assert_eq!(recording.player_c.cards, vec![4, 8]);
    assert_eq!(recording.turn, 0);
    assert!(recording.play(32) == Offer::Abort);
    assert!(recording.play(33) == Offer::NoSuchCard);
    assert_eq!(recording.trick, vec![8]);
}
