//! Heatmaps and quantile summaries of a recurrent network's memory state.
//!
//! A state is a flat grid of single-precision cells. This library carries each
//! cell as its IEEE 754 bit pattern (`u32`): it lays the cells out per layer
//! and head, orders them by the IEEE total order, picks the order statistics
//! that calibrate a head's colours, and turns per-cell tones into an upscaled
//! raster, encoded as PNG and then as base64 text.
//!
//! It never does arithmetic on a cell's numeric value. The two steps that
//! do, the mean of two picked cells and the grading of a cell against its
//! head's bins, are functions that the caller hands to
//! [`visual::StateVisual::new`]; the contracts say to what they are applied
//! and where their results go.
pub mod encode;
pub mod error;
pub mod geometry;
pub mod layout;
pub mod order;
pub mod quantile;
pub mod render;
pub mod shading;
pub mod visual;
