//! An image-to-stroke-paths compiler: turns a grayscale intensity grid into a
//! binary foreground mask, rescales the mask into a target region, and traces
//! the foreground pixels into an ordered list of drawable polylines.

pub mod choices;
pub mod drawing;
pub mod fixlog;
pub mod geometry;
pub mod grid;
pub mod histogram;
pub mod index;
pub mod laws;
pub mod scale;
pub mod sorting;
pub mod threshold;
pub mod trace;
pub mod windows;
