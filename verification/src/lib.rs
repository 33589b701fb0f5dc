//! Core of a small-display driver: a deterministic pseudo-random generator,
//! a fixed-capacity image/framebuffer model, a windowed command/data display
//! transport layer, and a library of frame-by-frame transition effects.
//!
//! The display is reached through the [`lcd::Transport`] capability, which a
//! host program implements over its real command/data bus; [`sim::SimDisplay`]
//! is a verified in-memory implementation whose framebuffer provably tracks
//! the interpretation of every byte sent, so the effects' final-frame
//! contracts are stated against a faithful device model.

pub mod rng;
pub mod wave;
pub mod image;
pub mod device;
pub mod lcd;
pub mod effects;
pub mod sim;
