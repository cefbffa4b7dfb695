//! Counting the ways to fill successive layers of a 3x3 board with cell sets
//! that cut off every short self-avoiding walk ("snake") from the cells chosen
//! one layer earlier.

pub mod geometry;
pub mod oracle;
pub mod branches;
pub mod counter;
pub mod invariance;

pub use geometry::{mirror_horizontal, mirror_vertical, rotate_right, variations};
pub use oracle::{could_block_all, possible_snakes, prepare_snakes, SEARCH_LENGTH};
pub use branches::{combine_positions, BranchIterator};
pub use counter::count_down_tree;
