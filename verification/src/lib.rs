//! A verified implementation of the TETRA full-rate speech codec
//! (EN 300 395-2, clause 4): fixed-point operators, signal processing,
//! encoder and decoder, and the transport frame.

pub mod fixed;
pub mod layout;
pub mod decoder;
pub mod encoder;
pub mod frame;
pub mod tables;
pub mod accumulate;
pub mod dsp;
pub mod voicegate;
pub mod announcement_control;
pub mod announcement_config;
pub mod reference;
pub mod acelp_search;
pub mod analysis;
