//! Parser, validator, canonical printer and matcher for shell-style glob patterns.
pub mod model;
pub mod semantics;
pub mod text;
pub mod matcher;
pub mod grammar;
pub mod parser;
pub mod canonical;
pub mod render;
pub mod laws;
pub mod wellformed;
pub mod meaning;
pub mod readback;
pub mod parsed;
pub mod language;

pub use model::{ClassItem, CharClass, Segment, Glob, ParseError, GlobSeg};
pub use parser::parse;
pub use render::pretty_print;
