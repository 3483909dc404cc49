pub mod bytes;
pub mod menu;
pub mod naming;
pub mod pass;
pub mod renamer;
pub mod rng;
pub mod schedule;
pub mod timestamp;
pub mod tree;
