use skat_blend::bidding::bid;
use skat_blend::cards::{is_in, is_valid_bid};
use skat_blend::deal::{deal, deal_from, shuffle_with};
use skat_blend::players::{Player, PlayerBuilder, RecordBuilder, SkatBuilder};

#[test]
fn bids_of_suit_games_null_and_grand_are_valid() {
    for b in [0u8, 9, 10, 11, 12, 18, 20, 22, 23, 24, 27, 30, 33, 35, 36, 40, 44, 45, 46, 48, 50, 55, 59, 60, 156, 168] {
        assert!(is_valid_bid(b), "{} should be a valid bid", b);
    }
}

#[test]
fn bids_that_no_game_reaches_are_invalid() {
    for b in [1u8, 8, 19, 21, 25, 26, 28, 29, 31, 32, 157, 165, 169, 192, 240, 255] {
        assert!(!is_valid_bid(b), "{} should not be a valid bid", b);
    }
}

#[test]
fn is_in_finds_a_card_of_the_hand() {
    let cards = vec![3u8, 17, 28];
    assert!(is_in(17, &cards));
    assert!(is_in(28, &cards));
    assert!(!is_in(4, &cards));
    assert!(!is_in(0, &Vec::new()));
}

#[test]
fn card_values_are_the_skat_points() {
    assert_eq!(Player::value_of(0), 11);
    assert_eq!(Player::value_of(1), 10);
    assert_eq!(Player::value_of(2), 4);
    assert_eq!(Player::value_of(3), 3);
    assert_eq!(Player::value_of(4), 2);
    assert_eq!(Player::value_of(5), 0);
    assert_eq!(Player::value_of(6), 0);
    assert_eq!(Player::value_of(7), 0);
    assert_eq!(Player::value_of(24), 11);
    assert_eq!(Player::value_of(31), 0);
}

#[test]
fn the_deck_counts_one_hundred_and_twenty_points() {
    let total: u32 = (0u8..32).map(|c| Player::value_of(c) as u32).sum();
    assert_eq!(total, 120);
}

#[test]
fn all_pass_means_nobody_plays() {
    assert_eq!(bid(0, 1, 2, 0, 'd', 0, 'd', 0, 'd'), (0, 0, 'd'));
}

#[test]
fn bidder_alone_wins_with_eighteen() {
    assert_eq!(bid(0, 1, 2, 18, 'g', 0, 'd', 0, 'c'), (2, 18, 'g'));
}

#[test]
fn dealer_alone_wins_with_eighteen() {
    assert_eq!(bid(0, 1, 2, 0, 'd', 0, 'h', 20, 's'), (0, 18, 's'));
}

#[test]
fn bidder_holds_the_responders_bid() {
    assert_eq!(bid(0, 1, 2, 20, 'c', 18, 'h', 0, 'd'), (2, 18, 'c'));
}

#[test]
fn dealer_outbids_the_responder() {
    assert_eq!(bid(0, 1, 2, 18, 'c', 20, 'h', 22, 'n'), (0, 20, 'n'));
}

#[test]
fn dealer_must_say_more_than_the_bidder() {
    assert_eq!(bid(1, 2, 0, 30, 'c', 0, 'h', 33, 'g'), (1, 33, 'g'));
}

#[test]
fn shuffle_without_moving_gives_the_deck() {
    let picks = vec![0u8; 32];
    let shuffled = shuffle_with(&picks);
    assert_eq!(shuffled, (0u8..32).collect::<Vec<u8>>());
}

#[test]
fn shuffle_takes_cards_from_what_is_left() {
    let mut picks: Vec<u8> = (0..32).map(|k| 31 - k).collect();
    picks[0] = 5;
    picks[1] = 30;
    let shuffled = shuffle_with(&picks);
    assert_eq!(shuffled[0], 5);
    assert_eq!(shuffled[1], 31);
    assert_eq!(shuffled[2], 30);
    let mut sorted = shuffled.clone();
    sorted.sort();
    assert_eq!(sorted, (0u8..32).collect::<Vec<u8>>());
}

#[test]
fn deal_from_an_ordered_deck() {
    let shuffled: Vec<u8> = (0..32).collect();
    let (dealer, left, right, skat) = deal_from(1, &shuffled);
    assert_eq!(dealer.id, 1);
    assert_eq!(left.id, 2);
    assert_eq!(right.id, 0);
    assert_eq!(dealer.cards, vec![4, 0, 1, 2, 3, 5, 6, 7, 8, 9]);
    assert_eq!(left.cards, vec![12, 10, 11, 13, 14, 15, 16, 17, 18, 19]);
    assert_eq!(right.cards, vec![20, 28, 24, 25, 26, 27, 29, 21, 22, 23]);
    assert_eq!((skat.first, skat.second), (30, 31));
}

#[test]
fn a_random_deal_deals_each_card_once() {
    for dealer_id in 0..3u8 {
        let (dealer, left, right, skat) = deal(dealer_id);
        assert_eq!(dealer.id, dealer_id);
        assert_eq!(left.id, (dealer_id + 1) % 3);
        assert_eq!(right.id, (dealer_id + 2) % 3);
        let mut all: Vec<u8> = Vec::new();
        all.extend(dealer.cards.iter());
        all.extend(left.cards.iter());
        all.extend(right.cards.iter());
        all.push(skat.first);
        all.push(skat.second);
        all.sort();
        assert_eq!(all, (0u8..32).collect::<Vec<u8>>());
    }
}

#[test]
fn builders_collect_cards() {
    let mut builder = PlayerBuilder::new();
    builder.id(2).add(7).add(3);
    let player = builder.finalize();
    assert_eq!(player.id, 2);
    assert_eq!(player.cards, vec![7, 3]);
    assert!(player.tricks.is_empty());
    assert_eq!(player.counter, 0);
    let mut skat_builder = SkatBuilder::new();
    skat_builder.add(9, 17);
    let skat = skat_builder.finalize();
    assert_eq!((skat.first, skat.second), (9, 17));
}

#[test]
fn a_record_marks_each_card_once() {
    let mut builder = RecordBuilder::new();
    for c in 0..32u8 {
        builder.add(c);
    }
    let mut record = builder.finalize();
    assert!(record.is_valid(5));
    assert!(!record.is_valid(5));
    assert!(record.is_valid(31));
    assert_eq!(record.played.iter().filter(|p| **p).count(), 2);
}

#[test]
fn taking_the_skat_and_dropping_two_cards() {
    let mut builder = PlayerBuilder::new();
    builder.id(0);
    for c in 0..10u8 {
        builder.add(c);
    }
    let skat = SkatBuilder::new().add(30, 31).finalize();
    builder.take(&skat);
    assert_eq!(builder.cards.len(), 12);
    assert!(builder.drop1(11));
    assert!(builder.drop2(10));
    assert_eq!(builder.cards.len(), 10);
    assert_eq!(builder.counter, 0);
    assert_eq!(builder.cards, (0u8..10).collect::<Vec<u8>>());
}

#[test]
fn dropping_counts_the_points_of_the_dropped_card() {
    let mut builder = PlayerBuilder::new();
    for c in [0u8, 1, 2, 3, 4, 5, 6, 7, 8, 9, 16, 17] {
        builder.add(c);
    }
    assert!(builder.drop1(10));
    assert!(builder.drop2(10));
    assert_eq!(builder.counter, 21);
    assert_eq!(builder.cards, (0u8..10).collect::<Vec<u8>>());
}

#[test]
fn not_taking_the_skat_counts_its_points() {
    let mut builder = PlayerBuilder::new();
    let skat = SkatBuilder::new().add(0, 9).finalize();
    builder.do_not_take(&skat);
    assert_eq!(builder.counter, 21);
    assert!(builder.cards.is_empty());
}

#[test]
fn a_dropped_card_is_chosen_in_the_sorted_hand() {
    let mut builder = PlayerBuilder::new();
    for c in [9u8, 2, 30, 1] {
        builder.add(c);
    }
    assert!(builder.drop1(0));
    assert_eq!(builder.cards, vec![2u8, 9, 30]);
    assert_eq!(builder.counter, 10);
    assert!(!builder.drop2(11));
    assert_eq!(builder.cards, vec![2u8, 9, 30]);
    let mut builder = PlayerBuilder::new();
    for c in [5u8, 3] {
        builder.add(c);
    }
    assert!(!builder.drop1(12));
    assert_eq!(builder.cards, vec![3u8, 5]);
    assert!(builder.drop2(0));
    assert_eq!(builder.cards, vec![5u8]);
}
