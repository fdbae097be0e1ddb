//! Verified core of a Linux screen-capture tool: monitor geometry, pixel
//! conversion, capture post-processing, frame bookkeeping for screen-cast
//! streams, global-shortcut parsing and overlay window bookkeeping.

pub mod capture;
pub mod codec;
pub mod error;
pub mod frames;
pub mod geometry;
pub mod history;
pub mod overlay;
pub mod pins;
pub mod pixels;
pub mod shortcut;
