//! Glitch-slice rendering on RGBA images.
//!
//! An image is cut into vertical strips, every strip into cells at random rows,
//! and every cell is repainted with a black frame around a noisy gradient that
//! starts from the cell's mean colour.
//!
//! Channels are fixed-point numbers: [`color::ONE`] stands for full intensity.
//! All arithmetic is exact integer arithmetic, so every result is determined by
//! the image, the configuration and the numbers drawn from the random source.

pub mod color;
pub mod config;
pub mod error;
pub mod geometry;
pub mod image;
pub mod partition;
pub mod pipeline;
pub mod random;
pub mod render;
pub mod stats;

pub use crate::color::Color;
pub use crate::config::Config;
pub use crate::error::Error;
pub use crate::geometry::Rectangle;
pub use crate::image::{ColorType, DecodedImage, Image};
pub use crate::partition::Partition;
pub use crate::pipeline::run;
pub use crate::random::RandomSource;
pub use crate::render::render_cell;
pub use crate::stats::get_mean_color_rect;
