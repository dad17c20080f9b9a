//! Block-based audio delay effects on a shared circular sample buffer.
//!
//! The crate is generic in the sample type. Every effect keeps its delay
//! lines and cursors here, where their behaviour is proved; the arithmetic on
//! samples is handed in by the caller as a function value.

pub mod comb_filter;
pub mod frames;
pub mod ring_buffer;
pub mod ring_model;
pub mod vibrato;
