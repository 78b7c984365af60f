//! Core of a duplex serial-link probe: an offset-tracking framing codec,
//! a stream verifier with a resynchronization search, payload generation
//! and transformation, and throughput arithmetic.

pub mod framer;
pub mod payload;
pub mod throughput;
pub mod checker;
