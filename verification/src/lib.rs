//! A guard patrols a rectangular floor plan, walking straight ahead and turning
//! right whenever an obstacle is in the way. This crate answers two questions
//! about such a patrol, and proves the answers against a mathematical model of
//! the walk:
//!
//! * how many distinct cells the guard ever stands on ([`part1`]), and
//! * at how many free cells one additional obstacle would trap the guard in an
//!   endless circuit ([`part2`]).
//!
//! A floor plan is a text of equally long rows, each ended by a line feed
//! (the last one may go without): `#` is an obstacle, the first `^` is where
//! the guard starts, heading north, and every other byte is a free cell. The
//! text is addressed as one flat grid, row by row, the line feeds included,
//! so that a position is a single index.
//!
//! [`parse`] tells whether a text is a floor plan and measures it. [`part1`]
//! and [`part2`] take floor plans only; what they return is stated over
//! [`walk::visited_cells`] and [`walk::escapes`], the model in [`walk`]. The
//! general statements about the two counts are proved in [`laws`].
pub mod bitset;
pub mod direction;
pub mod grid;
pub mod laws;
pub mod margin;
pub mod patrol;
pub mod walk;

pub use bitset::mark_visited;
pub use direction::Dir;
pub use grid::{parse, GridError, Layout};
pub use patrol::{causes_loop, part1, part2};
