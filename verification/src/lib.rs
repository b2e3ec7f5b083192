//! Layout planning for rows of "wells" whose depths come from modular
//! exponentiation modulo a prime.
//!
//! The crate computes a depth profile for each parameter tuple, greedily
//! folds each well's height deficit behind a neighbouring well, scores the
//! resulting layouts over a parameter grid, and searches for combinations of
//! scored layouts whose widths sum into a target band.

pub mod ratio;
pub mod depths;
pub mod planner;
pub mod solution;
pub mod sweep;
pub mod combine;
