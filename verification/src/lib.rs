//! A modular, block-synchronous audio synthesis host.
//!
//! The host owns a dataflow graph of DSP modules with typed ports, wires the
//! ports together while maintaining a bidirectional subscriber index, and
//! evaluates the graph once per sample block in dependency order.  Signal
//! samples are fixed-point values scaled by [`constants::SIGNAL_UNIT`].

pub mod constants;
pub mod host;
pub mod midi;
pub mod modules;
pub mod output;
pub mod ports;
pub mod sample;
