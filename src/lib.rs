//! Conversion of time-aligned TextGrid annotations from one phone scheme to
//! another: the TextGrid model and its text codec, the substitution scheme,
//! and the resegmentation of the phone tier.
pub mod textgrid;
pub mod scheme;
pub mod engine;
pub mod codec;
pub mod round_trip;
