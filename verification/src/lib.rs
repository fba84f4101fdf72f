//! Completion of partially filled Latin squares by a greedy randomized
//! adaptive search procedure, with every step stated and proved.

pub mod candidates;
pub mod clock;
pub mod construction;
pub mod grasp;
pub mod ground;
pub mod latin;
pub mod local_search;
pub mod persist;
pub mod random;
pub mod ratio;
pub mod render;
pub mod repair;
pub mod square;
