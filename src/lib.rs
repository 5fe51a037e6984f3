//! Compiles a context-free grammar into a flat, index-based fragment arena and
//! derives random byte strings from it with an explicit work stack.
use vstd::prelude::*;

pub mod model;
pub mod grammar;
pub mod json;
pub mod laws;
