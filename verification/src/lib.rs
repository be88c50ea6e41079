//! Text-transformation core for file-editing and output-shaping tools.
//!
//! Two engines carry the interesting logic: a replacement engine
//! ([`edit`]) that applies a single unambiguous text edit with an exact
//! match and a normalized fallback, and a truncation engine
//! ([`truncate`]) that bounds text by line and byte budgets from either
//! end.  Around them stand small helpers for glob matching, pattern
//! matching, path display, and ANSI stripping.
//!
//! All engines are pure functions over owned text; reading and writing
//! files is the caller's business.

pub mod ansi;
pub mod diff;
pub mod edit;
pub mod glob;
pub mod grep;
pub mod paths;
pub mod render;
pub mod text;
pub mod truncate;
