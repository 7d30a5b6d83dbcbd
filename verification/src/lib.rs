//! Stereo placement of sound sources around one listener.
//!
//! Positions are integer triples in thousandths of a world unit, and every
//! pan and volume is an integer between zero and [`spatial::UNIT`], so that
//! each result is exact and can be reasoned about.

pub mod channel;
pub mod root;
pub mod spatial;
pub mod vector;
