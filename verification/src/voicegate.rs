//! The local announcement voice gate: voice activity detection and TCH/S
//! block pairing over a live audio stream, the radio call state machine
//! that feeds the downlink, and the stream worker's decisions.
//!
//! Everything here is a decision over plain values: the caller measures
//! audio levels and time and performs the resulting actions.

pub mod pipeline;
pub mod entity;
pub mod worker;
