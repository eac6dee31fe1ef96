//! Conversion between an elapsed-time value (whole seconds plus a sub-second
//! nanosecond remainder) and its ISO 8601 duration text, e.g. `P1DT12H30M45.5S`.
//!
//! The encoder decomposes a duration into day/hour/minute/second units and
//! prints them; the decoder parses the text into a component record, rejects
//! calendar units (years and months, which have no fixed length), and
//! reassembles a duration, carrying fractional unit values into nanoseconds.
//! All intermediate values are fixed-point integers at nanosecond resolution.

pub mod arith;
pub mod codec;
pub mod duration;
pub mod record;
pub mod text;
