//! A small compiler and execution engine for a byte-cell language.
//!
//! Source text is translated into a validated instruction sequence,
//! optionally shortened by a peephole optimizer, and executed against a
//! fixed 30,000-cell memory buffer with byte streams for input and output.

pub mod bfir;
pub mod bfvm;
pub mod equiv;
pub mod errors;
