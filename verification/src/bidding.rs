//! Who wins the bidding, with which value, for which game.
//!
//! The bidder (right of the dealer) bids against the responder (left of the
//! dealer), then the dealer against the one who held out. A bid of 0 passes.
use vstd::prelude::*;
use crate::cards::{is_valid_bid, valid_bid};

verus! {

/// The smallest valid bid above `b` (for `b` below 168).
pub open spec fn next_valid_above(b: u8) -> u8
    decreases 168 - b,
{
    if b >= 168 {
        b
    } else if valid_bid((b + 1) as u8) {
        (b + 1) as u8
    } else {
        next_valid_above((b + 1) as u8)
    }
}

/// The larger of two bids.
pub open spec fn max_bid(a: u8, b: u8) -> u8 {
    if a > b { a } else { b }
}

/// The result of the bidding: the id of the winner, the value reached and
/// the game the winner had sorted for; `(dealer_id, 0, 'd')` when all pass.
pub open spec fn bidding(
    dealer_id: u8,
    responder_id: u8,
    bidder_id: u8,
    bidder_bid: u8,
    bidder_game: char,
    responder_bid: u8,
    responder_game: char,
    dealer_bid: u8,
    dealer_game: char,
) -> (u8, u8, char) {
    if bidder_bid <= responder_bid && bidder_bid == 0 && responder_bid == 0 {
        if dealer_bid == 0 {
            (dealer_id, 0, 'd')
        } else {
            (dealer_id, 18, dealer_game)
        }
    } else {
        // the bidder holds against a passing or lower responder, otherwise the responder holds
        let (winner, lowest) = if bidder_bid > responder_bid {
            (bidder_id, max_bid(18, responder_bid))
        } else {
            (responder_id, if bidder_bid == 0 { 18u8 } else { bidder_bid })
        };
        if winner == responder_id {
            if dealer_bid > responder_bid {
                (dealer_id, max_bid(lowest, responder_bid), dealer_game)
            } else {
                (responder_id, max_bid(lowest, dealer_bid), responder_game)
            }
        } else if dealer_bid > bidder_bid {
            let reached: u8 = if responder_bid == 0 { 18 } else { responder_bid };
            (dealer_id, if bidder_bid > reached { next_valid_above(bidder_bid) } else { reached }, dealer_game)
        } else {
            (bidder_id, max_bid(lowest, dealer_bid), bidder_game)
        }
    }
}

proof fn lemma_next_valid_above(b: u8, d: u8)
    requires
        b < d,
        valid_bid(d),
    ensures
        b < next_valid_above(b) <= d,
        valid_bid(next_valid_above(b)),
        forall|v: u8| b < v < next_valid_above(b) ==> !valid_bid(v),
    decreases d - b,
{
    if !valid_bid((b + 1) as u8) {
        assert(b + 1 < d);
        lemma_next_valid_above((b + 1) as u8, d);
    }
}

/// Decides the bidding from the three bids and the games the players had
/// sorted for (see `bidding`).
pub fn bid(
    dealer_id: u8,
    responder_id: u8,
    bidder_id: u8,
    bidder_bid: u8,
    bidder_game: char,
    responder_bid: u8,
    responder_game: char,
    dealer_bid: u8,
    dealer_game: char,
) -> (result: (u8, u8, char))
    requires
        valid_bid(bidder_bid),
        valid_bid(responder_bid),
        valid_bid(dealer_bid),
    ensures
        result == bidding(
            dealer_id,
            responder_id,
            bidder_id,
            bidder_bid,
            bidder_game,
            responder_bid,
            responder_game,
            dealer_bid,
            dealer_game,
        ),
{
    let mut winner: u8;
    let mut lowest: u8;
    if bidder_bid > responder_bid {
        // bidder wins (so far)
        lowest = 18u8;
        if responder_bid > lowest {
            lowest = responder_bid;
        }
        winner = bidder_id;
    } else {
        // special case: both bids are 0 (pass)
        if bidder_bid == 0u8 && responder_bid == 0u8 {
            if dealer_bid == 0u8 {
                // nobody wants to play
                return (dealer_id, 0u8, 'd');
            } else {
                // dealer wants to play and all others passed
                return (dealer_id, 18u8, dealer_game);
            }
        } else {
            lowest = bidder_bid;
            if bidder_bid == 0u8 {
                lowest = 18u8;
            }
            winner = responder_id;
        }
    }
    // now the dealer gets his chance
    if winner == responder_id {
        if dealer_bid > responder_bid {
            if responder_bid > lowest {
                lowest = responder_bid;
            }
            (dealer_id, lowest, dealer_game)
        } else {
            if dealer_bid > lowest {
                lowest = dealer_bid;
            }
            (responder_id, lowest, responder_game)
        }
    } else {
        if dealer_bid > bidder_bid {
            lowest = responder_bid;
            if responder_bid == 0u8 {
                lowest = 18u8;
            }
            if bidder_bid > lowest {
                // the dealer has to say more than the bidder
                lowest = bidder_bid;
                proof {
                    lemma_next_valid_above(bidder_bid, dealer_bid);
                }
                loop
                    invariant_except_break
                        bidder_bid <= lowest < next_valid_above(bidder_bid) <= dealer_bid,
                        next_valid_above(lowest) == next_valid_above(bidder_bid),
                        valid_bid(next_valid_above(bidder_bid)),
                    ensures
                        lowest == next_valid_above(bidder_bid),
                    decreases dealer_bid - lowest,
                {
                    let ghost before = lowest;
                    lowest = lowest + 1;
                    if is_valid_bid(lowest) {
                        break;
                    }
                    proof {
                        assert(next_valid_above(before) == next_valid_above(lowest));
                        assert(lowest != next_valid_above(bidder_bid));
                    }
                }
            }
            (dealer_id, lowest, dealer_game)
        } else {
            if dealer_bid > lowest {
                lowest = dealer_bid;
            }
            (bidder_id, lowest, bidder_game)
        }
    }
}

/// With three players of different ids, whose bids are each a pass or at
/// least 18: when all pass, the dealer is named with value 0; otherwise the
/// winner made a highest bid, plays the game he had sorted for, and the
/// value reached is a bid that can be said, between 18 and the winner's own
/// bid. Of equal bids the one who is bid to holds: the responder against the
/// bidder, and the one of these two who holds against the dealer. The value
/// reached is at least every bid of the others; when the bidder or the
/// responder wins it is the highest of 18 and the others' bids, and when the
/// dealer outbids a bidder who had gone above 18 and above the responder,
/// it is the next bid that can be said above the bidder's.
pub proof fn lemma_bidding_outcome(
    dealer_id: u8,
    responder_id: u8,
    bidder_id: u8,
    bidder_bid: u8,
    bidder_game: char,
    responder_bid: u8,
    responder_game: char,
    dealer_bid: u8,
    dealer_game: char,
)
    requires
        dealer_id != responder_id && dealer_id != bidder_id && responder_id != bidder_id,
        valid_bid(bidder_bid) && valid_bid(responder_bid) && valid_bid(dealer_bid),
        bidder_bid == 0 || bidder_bid >= 18,
        responder_bid == 0 || responder_bid >= 18,
        dealer_bid == 0 || dealer_bid >= 18,
    ensures
        ({
            let r = bidding(
                dealer_id,
                responder_id,
                bidder_id,
                bidder_bid,
                bidder_game,
                responder_bid,
                responder_game,
                dealer_bid,
                dealer_game,
            );
            let winner_bid = if r.0 == dealer_id {
                dealer_bid
            } else if r.0 == responder_id {
                responder_bid
            } else {
                bidder_bid
            };
            &&& (r.0 == dealer_id || r.0 == responder_id || r.0 == bidder_id)
            &&& valid_bid(r.1)
            &&& (bidder_bid == 0 && responder_bid == 0 && dealer_bid == 0) ==> r == (dealer_id, 0u8, 'd')
            &&& !(bidder_bid == 0 && responder_bid == 0 && dealer_bid == 0) ==> {
                &&& winner_bid >= bidder_bid && winner_bid >= responder_bid && winner_bid >= dealer_bid
                &&& 18 <= r.1 <= winner_bid
                &&& r.0 == dealer_id ==> r.2 == dealer_game
                &&& r.0 == responder_id ==> r.2 == responder_game
                &&& r.0 == bidder_id ==> r.2 == bidder_game
            }
            &&& !(bidder_bid == 0 && responder_bid == 0 && dealer_bid == 0) ==> {
                &&& r.0 != dealer_id ==> r.1 >= dealer_bid
                &&& r.0 != responder_id ==> r.1 >= responder_bid
                &&& r.0 != bidder_id ==> r.1 >= bidder_bid
                &&& r.0 == bidder_id ==> r.1 == max_bid(max_bid(18, responder_bid), dealer_bid)
                &&& r.0 == responder_id ==> r.1 == max_bid(max_bid(18, bidder_bid), dealer_bid)
                &&& (r.0 == dealer_id && bidder_bid > responder_bid && bidder_bid > 18) ==> (r.1 > bidder_bid
                    && forall|v: u8| bidder_bid < v < r.1 ==> !valid_bid(v))
            }
            &&& dealer_bid > bidder_bid && dealer_bid > responder_bid ==> r.0 == dealer_id
            &&& responder_bid > 0 && responder_bid >= bidder_bid && responder_bid >= dealer_bid ==> r.0
                == responder_id
            &&& bidder_bid > responder_bid && bidder_bid >= dealer_bid ==> r.0 == bidder_id
        }),
{
    if dealer_bid > bidder_bid && bidder_bid > responder_bid {
        let reached: u8 = if responder_bid == 0 { 18 } else { responder_bid };
        if bidder_bid > reached {
            lemma_next_valid_above(bidder_bid, dealer_bid);
        }
    }
}

} // verus!
