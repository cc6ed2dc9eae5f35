//! A lossless image codec: a flat buffer of 8-bit channels is turned into a
//! stream of tagged instructions and back.
//!
//! - `pixel`: pixels, their packed form and their cache slot.
//! - `bytes`: big-endian words.
//! - `operation`: the instructions, their bytes, and what each does to a pixel.
//! - `codec`: the encoder and the decoder, each equal to a spec state machine.
//! - `laws`: header rejection, the cache, the delta bounds, alpha changes.
//! - `round_trip`: decoding what was encoded gives the buffer back; the
//!   expanded instruction stream, and the cache law over it.

pub mod bytes;
pub mod codec;
pub mod laws;
pub mod operation;
pub mod pixel;
pub mod round_trip;
