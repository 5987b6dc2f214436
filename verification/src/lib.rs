//! Decoder for scrambled seven-segment displays.
//!
//! Each puzzle gives the ten digits of a display whose seven wires were
//! permuted, followed by a reading to decode. The library recovers which
//! wire drives which segment by elimination and decodes the reading.

pub mod alphabet;
pub mod error;
pub mod segment;
pub mod digit;
pub mod charseq;
pub mod model;
pub mod codeword;
pub mod sevensegdecoder;
pub mod outside;
pub mod patterns;
pub mod wiring;
pub mod expansion;
pub mod table;
pub mod search;
pub mod puzzle;
pub mod laws;
pub mod genuine;
