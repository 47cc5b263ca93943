//! Incremental compilation of Beamer presentations: the source is split into
//! a preamble and independent frames, each frame is compiled on its own
//! against a precompiled preamble, and the results are cached by content.

pub mod beamer;
pub mod bytes;
pub mod fingerprint;
pub mod frames;
pub mod latexcompile;
pub mod parsing;
pub mod pipeline;
pub mod syntax;
