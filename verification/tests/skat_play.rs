use skat_blend::round::{choose_skat, next_player, play_ends, tally, trick_taker};
use skat_blend::display::{card_label, cards_text, push_decimal, record_layout_of};
use skat_blend::players::{Player, PlayerBuilder, SkatBuilder};
use skat_blend::rules::{is_valid_card, sort_trick_for, who_wins_trick};
use skat_blend::scoring::{
    announcement, declarer_game_value, declarer_won, game_value_in_range, matadors_for, score_change,
};

fn player_with(cards: &[u8]) -> Player {
    let mut builder = PlayerBuilder::new();
    builder.id(0);
    for c in cards {
        builder.add(*c);
    }
    builder.finalize()
}

#[test]
fn grand_puts_jacks_first_then_the_suits() {
    let mut player = player_with(&[0, 4, 8, 12, 16, 20, 24, 28, 1, 9]);
    player.sort_cards_for('g');
    assert_eq!(player.cards, vec![4, 12, 20, 28, 0, 1, 8, 9, 16, 24]);
}

#[test]
fn a_suit_game_puts_its_trumps_after_the_jacks() {
    let mut player = player_with(&[0, 4, 8, 16, 24, 5, 9, 17, 25, 12]);
    player.sort_cards_for('c');
    assert_eq!(player.cards, vec![4, 12, 0, 5, 16, 17, 8, 9, 24, 25]);
}

#[test]
fn null_sorts_tens_below_the_jack_and_alternates_colours() {
    let mut player = player_with(&[1, 0, 7, 9, 16, 17, 2, 24, 4, 10]);
    player.sort_cards_for('n');
    assert_eq!(player.cards, vec![0, 2, 4, 1, 7, 16, 17, 10, 9, 24]);
}

#[test]
fn sorting_twice_changes_nothing() {
    for g in ['g', 'b', 'n', 'c', 's', 'h', 'd'] {
        let mut player = player_with(&[31, 4, 8, 12, 16, 20, 1, 28, 3, 9]);
        player.sort_cards_for(g);
        let once = player.cards.clone();
        player.sort_cards_for(g);
        assert_eq!(player.cards, once, "game {}", g);
        let mut sorted = once.clone();
        sorted.sort();
        assert_eq!(sorted, vec![1, 3, 4, 8, 9, 12, 16, 20, 28, 31]);
    }
}

#[test]
fn the_plain_sort_puts_the_longest_suit_first() {
    let mut player = player_with(&[10, 11, 13, 14, 15, 16, 17, 18, 19, 12]);
    player.sort_cards();
    assert_eq!(player.cards, vec![12, 10, 11, 13, 14, 15, 16, 17, 18, 19]);
}

#[test]
fn a_jack_takes_the_trick_in_grand() {
    let trick = vec![0u8, 1, 4];
    assert_eq!(sort_trick_for(&trick, 'g'), vec![4, 0, 1]);
    assert_eq!(who_wins_trick(&trick, 'g'), 2);
}

#[test]
fn the_led_suit_takes_the_trick_in_grand() {
    let trick = vec![8u8, 0, 9];
    assert_eq!(who_wins_trick(&trick, 'g'), 0);
}

#[test]
fn a_trump_takes_the_trick_in_a_suit_game() {
    let trick = vec![16u8, 7, 17];
    assert_eq!(who_wins_trick(&trick, 'c'), 1);
    assert_eq!(who_wins_trick(&trick, 'h'), 0);
}

#[test]
fn the_king_beats_the_ten_in_null() {
    let trick = vec![1u8, 2, 3];
    assert_eq!(who_wins_trick(&trick, 'n'), 1);
    let trick = vec![8u8, 0, 9];
    assert_eq!(who_wins_trick(&trick, 'n'), 0);
}

#[test]
fn the_diamonds_jack_is_highest_in_saechsische_spitze() {
    let trick = vec![4u8, 28, 0];
    assert_eq!(who_wins_trick(&trick, 'b'), 1);
}

#[test]
fn a_player_has_to_follow_suit() {
    let hand = vec![7u8, 16, 4];
    assert!(is_valid_card(7, 0, 'g', &hand));
    assert!(!is_valid_card(16, 0, 'g', &hand));
    assert!(!is_valid_card(4, 0, 'g', &hand));
    let hand = vec![16u8, 24];
    assert!(is_valid_card(16, 0, 'g', &hand));
    assert!(is_valid_card(24, 0, 'g', &hand));
}

#[test]
fn jacks_have_to_be_followed_by_trumps() {
    let hand = vec![12u8, 0];
    assert!(is_valid_card(12, 4, 'g', &hand));
    assert!(!is_valid_card(0, 4, 'g', &hand));
    // in a clubs game the clubs are trumps as well
    assert!(is_valid_card(0, 4, 'c', &vec![0u8, 16]));
    assert!(!is_valid_card(16, 4, 'c', &vec![0u8, 16]));
}

#[test]
fn playing_cards_onto_a_trick() {
    let mut leader = player_with(&[0, 16, 7]);
    let mut played: Vec<u8> = Vec::new();
    assert!(leader.play_card(&mut played, 0, 'g', 1));
    assert_eq!(played, vec![16]);
    assert_eq!(leader.cards, vec![0, 7]);
    let mut second = player_with(&[17, 1]);
    assert!(!second.play_card(&mut played, 1, 'g', 1));
    assert_eq!(played, vec![16]);
    assert_eq!(second.cards, vec![17, 1]);
    assert!(!second.play_card(&mut played, 1, 'g', 10));
    assert!(!second.play_card(&mut played, 1, 'g', 5));
    assert!(second.play_card(&mut played, 1, 'g', 0));
    assert_eq!(played, vec![16, 17]);
}

#[test]
fn a_taken_trick_counts_its_points() {
    let mut player = player_with(&[]);
    player.add_trick(&vec![0, 1, 2]);
    assert_eq!(player.tricks, vec![0, 1, 2]);
    assert_eq!(player.count_cards(), 25);
    player.add_trick(&vec![7, 15, 23]);
    assert_eq!(player.count_cards(), 25);
}

#[test]
fn hand_points_add_up() {
    let player = player_with(&[0, 1, 2, 3, 4, 5]);
    assert_eq!(player.hand_points(), 30);
}

#[test]
fn matadors_with_and_without() {
    let builder = {
        let mut b = PlayerBuilder::new();
        for c in [4u8, 12, 0, 1, 2, 3, 5, 6, 7, 8] {
            b.add(c);
        }
        b
    };
    let skat = SkatBuilder::new().add(20, 30).finalize();
    assert_eq!(builder.matadors_jack_strait(&skat), (3, 1));
    let skat = SkatBuilder::new().add(31, 30).finalize();
    assert_eq!(builder.matadors_jack_strait(&skat), (2, 2));
    let builder = {
        let mut b = PlayerBuilder::new();
        for c in [0u8, 1, 2, 3, 5, 6, 7, 8, 9, 10] {
            b.add(c);
        }
        b
    };
    assert_eq!(builder.matadors_jack_strait(&skat), (4, 4));
}

#[test]
fn game_values() {
    assert_eq!(declarer_game_value(1, false, false, 61, 12, 'g'), 48);
    assert_eq!(declarer_game_value(2, true, false, 95, 21, 'c'), 60);
    assert_eq!(declarer_game_value(1, true, true, 120, 30, 'h'), 60);
    assert_eq!(declarer_game_value(3, false, false, 70, 15, 'd'), 36);
    assert_eq!(declarer_game_value(1, false, false, 61, 12, 'b'), 40);
    assert_eq!(declarer_game_value(0, false, false, 0, 0, 'n'), 23);
    assert_eq!(declarer_game_value(0, true, false, 0, 0, 'n'), 35);
    assert_eq!(declarer_game_value(0, false, true, 0, 0, 'n'), 46);
    assert_eq!(declarer_game_value(0, true, true, 0, 0, 'n'), 59);
}

#[test]
fn who_wins_the_play() {
    assert!(declarer_won('n', 0, 120, 0));
    assert!(!declarer_won('n', 10, 110, 3));
    assert!(declarer_won('c', 61, 59, 9));
    assert!(!declarer_won('c', 60, 60, 9));
}

#[test]
fn score_changes() {
    assert_eq!(score_change('g', 70, 50, 12, 48, 36), 48);
    assert_eq!(score_change('g', 70, 50, 12, 48, 60), -96);
    assert_eq!(score_change('c', 60, 60, 12, 24, 18), -48);
    assert_eq!(score_change('n', 0, 120, 0, 23, 23), 23);
    assert_eq!(score_change('n', 10, 110, 3, 59, 23), -118);
}

#[test]
fn announcements() {
    let (name, hand, ouvert) = announcement('n', true, true);
    assert_eq!((name.as_str(), hand.as_str(), ouvert.as_str()), ("Null", " Ouvert Hand ", ""));
    let (name, hand, ouvert) = announcement('n', false, true);
    assert_eq!((name.as_str(), hand.as_str(), ouvert.as_str()), ("Null", " ", "Ouvert "));
    let (name, hand, ouvert) = announcement('g', true, true);
    assert_eq!((name.as_str(), hand.as_str(), ouvert.as_str()), ("Grand", " Hand ", "Ouvert "));
    let (name, hand, ouvert) = announcement('b', false, true);
    assert_eq!((name.as_str(), hand.as_str(), ouvert.as_str()), ("Sächsische Spitze", " ", ""));
    let (name, hand, ouvert) = announcement('d', true, false);
    assert_eq!((name.as_str(), hand.as_str(), ouvert.as_str()), ("Diamonds", " Hand ", ""));
}

#[test]
fn matadors_of_the_announced_game() {
    assert_eq!(matadors_for('b', (2, 3)), 3);
    assert_eq!(matadors_for('g', (2, 3)), 2);
}

#[test]
fn cards_are_shown_bold_in_their_colour() {
    assert_eq!(card_label(0, true), "\u{1b}[1;30m A♣\u{1b}[0m");
    assert_eq!(card_label(9, true), "\u{1b}[1;32m10♠\u{1b}[0m");
    assert_eq!(card_label(18, true), "\u{1b}[1;31m K♥\u{1b}[0m");
    assert_eq!(card_label(28, true), "\u{1b}[1;33m J♦\u{1b}[0m");
    assert_eq!(card_label(17, false), "\u{1b}[1;37m10♥\u{1b}[0m");
}

#[test]
fn card_numbers_as_text() {
    assert_eq!(cards_text(&vec![4, 12, 31, 0]), "4 12 31 0 \n");
    assert_eq!(cards_text(&Vec::new()), "\n");
    let mut text = String::from("x");
    push_decimal(&mut text, 255);
    push_decimal(&mut text, 7);
    push_decimal(&mut text, 40);
    assert_eq!(text, "x255740");
}

#[test]
fn the_record_shows_suits_in_a_fixed_order() {
    let plain = record_layout_of('g');
    assert_eq!(plain.len(), 32);
    assert_eq!(&plain[0..8], &[4, 0, 1, 2, 3, 5, 6, 7]);
    assert_eq!(&plain[24..32], &[28, 24, 25, 26, 27, 29, 30, 31]);
    let null = record_layout_of('n');
    assert_eq!(&null[8..16], &[8, 10, 11, 12, 9, 13, 14, 15]);
}

#[test]
fn a_player_always_has_a_card_to_play() {
    let hands: [&[u8]; 4] = [&[7, 16, 4], &[16, 24], &[12], &[31, 30, 29]];
    for hand in hands {
        let cards = hand.to_vec();
        for first in [0u8, 4, 9, 17, 28] {
            for game in ['g', 'b', 'n', 'c', 's', 'h', 'd'] {
                assert!(
                    cards.iter().any(|c| is_valid_card(*c, first, game, &cards)),
                    "hand {:?}, first card {}, game {}",
                    cards,
                    first,
                    game
                );
            }
        }
    }
}

#[test]
fn the_course_of_a_round() {
    assert_eq!(trick_taker(1, &vec![0, 1, 4], 'g'), 0);
    assert_eq!(trick_taker(2, &vec![8, 0, 9], 'g'), 2);
    assert!(play_ends('n', 1, 1));
    assert!(!play_ends('n', 0, 1));
    assert!(!play_ends('g', 1, 1));
    let mut dealer = player_with(&[]);
    dealer.id = 0;
    dealer.add_trick(&vec![0, 1, 2]);
    let mut responder = player_with(&[]);
    responder.id = 1;
    responder.add_trick(&vec![8, 9, 10]);
    responder.add_trick(&vec![7, 15, 23]);
    let mut bidder = player_with(&[]);
    bidder.id = 2;
    bidder.add_trick(&vec![16, 5, 6]);
    assert_eq!(tally(1, &dealer, &responder, &bidder), (25, 6, 36));
    assert_eq!(tally(0, &dealer, &responder, &bidder), (25, 3, 36));
    assert_eq!(tally(7, &dealer, &responder, &bidder), (0, 0, 0));
}

#[test]
fn looking_at_the_skat_or_playing_by_hand() {
    let cards = [4u8, 12, 0, 1, 2, 3, 5, 6, 7, 8];
    let player = player_with(&cards);
    let skat = SkatBuilder::new().add(20, 9).finalize();
    let taken = choose_skat(&player, &skat, 1);
    assert_eq!(taken.builder.id, 0);
    assert_eq!(taken.builder.cards, vec![4u8, 12, 0, 1, 2, 3, 5, 6, 7, 8, 20, 9]);
    assert_eq!(taken.builder.counter, 0);
    assert!(!taken.hand);
    assert_eq!(taken.matadors, (3, 1));
    let by_hand = choose_skat(&player, &skat, 0);
    assert_eq!(by_hand.builder.cards, cards.to_vec());
    assert_eq!(by_hand.builder.counter, 2 + 10);
    assert!(by_hand.hand);
    assert_eq!(by_hand.matadors, (3, 1));
}

#[test]
fn game_values_that_fit_in_a_byte() {
    assert!(game_value_in_range(3, false, false, 0, 0, 'g'));
    assert!(!game_value_in_range(9, true, true, 120, 30, 'g'));
    assert!(game_value_in_range(9, true, true, 120, 30, 'd'));
    assert!(!game_value_in_range(30, false, false, 0, 0, 'd'));
    assert!(game_value_in_range(255, true, true, 120, 30, 'n'));
}

#[test]
fn turns_go_round_the_table() {
    assert_eq!(next_player(0), 1);
    assert_eq!(next_player(1), 2);
    assert_eq!(next_player(2), 0);
    assert_eq!(next_player(next_player(next_player(1))), 1);
}
