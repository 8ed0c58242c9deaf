//! Game rules of a merge-puzzle tea-house game: the 7×9 board, the item
//! database and its merge rules, the economy (stamina, coins, experience),
//! the order panel, the periodic generator logic and the CSV configuration
//! loaders.
use vstd::prelude::*;

pub mod text;
pub mod items;
pub mod board;
pub mod economy;
pub mod random;
pub mod orders;
pub mod game;
pub mod config;
pub mod audio;


verus! {

} // verus!
