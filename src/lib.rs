//! Three-dimensional sound rendered for two speakers.
//!
//! Mono sources are placed at directions around the listener, encoded into a
//! first-order B-format field (one omnidirectional and three directional
//! channels), summed by the mixer, and decoded by the renderer into a stereo
//! frame.
//!
//! All arithmetic is exact fixed-point integer arithmetic: mono samples are
//! `i16`, direction components are `i16` in units of `1 / UNIT`, B-format
//! channels are `i64` in units of one sample step over `UNIT`, and stereo
//! frames are `i64` in units of one sample step over `UNIT * UNIT`.
pub mod bformat;
pub mod mixer;
pub mod renderer;
