//! Card rules and bookkeeping for the Skat card game, readers for the
//! block layout of Blender `.blend` files, and a few numeric helpers.
//!
//! - Skat: `cards` (cards, games, bids), `orders` and `arrange` (how cards
//!   are sorted), `rules` (which card may be played, who takes a trick),
//!   `players` (hands, the Skat, the record of played cards), `deal`,
//!   `bidding`, `round`, `scoring`, `display` (cards as shown on a terminal), `text`
//!   (answers typed by the players) and `replay` (replaying and recording
//!   games card by card).
//! - Blender files: `blend` (header and the structs of cameras, objects,
//!   materials and meshes), `sdna` (the listing of blocks with the
//!   structure description) and `platform` (pointer size and byte order).
//! - Numbers: `numbers` (sorting bytes) and `sums` (sums of many values,
//!   worked out by several tasks).

use vstd::prelude::*;

pub mod arrange;
pub mod blend;
pub mod bidding;
pub mod cards;
pub mod deal;
pub mod display;
pub mod numbers;
pub mod orders;
pub mod platform;
pub mod players;
pub mod replay;
pub mod round;
pub mod rules;
pub mod scoring;
pub mod sdna;
pub mod sums;
pub mod text;

verus! {

} // verus!
