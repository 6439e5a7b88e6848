//! A small threaded-code interpreter for an eight-instruction tape language.
//!
//! Source text is translated into a flat array of instruction cells, each an
//! operation or the resolved jump target of the branch before it; the engine
//! then dispatches cell by cell over a byte-wide tape.
pub mod program;
pub mod translate;
pub mod engine;
pub mod laws;
