//! Hands of a tile game: whether a hand is complete, how it splits into blocks, how far
//! it is from completion and what it waits for, and what a complete hand is worth.
//!
//! A hand is a count for each of the 34 kinds of tile. `hand` and `melds` say what it
//! means that tiles can be used up by triplets and runs; `shapes` says what a complete
//! hand is, and `agari` decides it and lists the decompositions that `blocks` describes.
//! `search` describes the distance to completion, which `shanten` computes. `yaku` and
//! `riichi` rate a complete hand.
//!
//! What holds of these beyond the contracts of the functions is proved in `sound` and
//! `signature` (every decomposition uses the tiles of the hand, and no two of them hold the
//! same blocks), in `agree` (a hand is complete exactly if its distance is -1), in
//! `least` (the distance is never below the least over all ways of taking blocks) and in
//! `search` (the waits of a hand are the kinds that bring it closer).

pub mod agari;
pub mod agree;
pub mod blocks;
pub mod constants;
pub mod hand;
pub mod interfaces;
pub mod least;
pub mod melds;
pub mod pulls;
pub mod reach;
pub mod riichi;
pub mod search;
pub mod shanten;
pub mod shapes;
pub mod signature;
pub mod sound;
pub mod yaku;

pub use crate::agari::find_all_agari_patterns;
pub use crate::constants::{Tiles, Yaku};
pub use crate::interfaces::{HairiResult, RiichiHand, RiichiOptions, RiichiResult};
pub use crate::riichi::calc_riichi;
pub use crate::shanten::{calc_shanten, hairi};
