//! Connected-component colouring of RGBA rasters.
//!
//! A raw RGBA buffer is reduced to a foreground/background mask, the
//! 4-connected foreground regions of the mask are labelled `1..=K`, and every
//! label is painted with a colour from a session-wide colour table that grows
//! on demand.

pub mod binarize;
pub mod color;
pub mod color_table;
pub mod components;
pub mod finder;
pub mod labelling;
pub mod random;
pub mod raster;

pub use color::Rgba;
pub use color_table::ColorTable;
pub use finder::{BiscuitFinder, FinderError};
pub use random::{RandomSource, Sampler};
pub use raster::Raster;
