//! A fire animation on a grid of heat values: heat rises from a source row,
//! cools on the way up and drifts sideways; a palette turns heat into colours.

pub mod grid;
pub mod palette;
pub mod random;
pub mod raster;
pub mod spread;
pub mod frame;
