//! A verified codec for the Compact Font Format (CFF) table of OpenType fonts.
//!
//! The crate parses the binary CFF table into a structured in-memory
//! representation, lets callers modify the structured Top DICT data, and
//! serializes everything back into the INDEX-based binary layout that the
//! OpenType specification requires.

pub mod cff;
pub mod dict;
pub mod error;
pub mod index;
pub mod offsets;
pub mod strings;
