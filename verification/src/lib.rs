//! A verified Minesweeper engine: grid construction, mine placement with a
//! guaranteed-safe opening area, adjacency numbers, flood-fill reveal, and
//! win/loss detection. Input parsing for the surrounding command-line game is
//! verified too; the actual reading and printing live outside this crate.

use vstd::prelude::*;

pub mod board;
pub mod cells;
pub mod counting;
pub mod input;
pub mod random;

verus! {

} // verus!
