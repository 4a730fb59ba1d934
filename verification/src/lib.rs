//! A velocity-proportional MIDI note multiplexer.
//!
//! The [`midiplex::Midiplexer`] distributes each sounding note across a pool
//! of downstream output endpoints, reallocating endpoints among notes in
//! proportion to each note's velocity while keeping every endpoint's
//! on/off stream consistent.

pub mod allocation;
pub mod driver;
pub mod laws;
pub mod midiplex;
pub mod outputs;
pub mod types;

pub use types::Output;
