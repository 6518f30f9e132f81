//! Exhaustive solver for a rotational tile-clearing puzzle: a wheel of regions
//! whose tiles count down, grow while active, and die, together with the
//! search that clears the wheel for the best score and the encoder that turns
//! the chosen moves into physical gestures.
pub mod tile;
pub mod game;
pub mod visited;
pub mod optimal;
pub mod search;
pub mod encode;
