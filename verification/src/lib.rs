//! An interpreter for a small LISP dialect with an optional low-parenthesis
//! sugar syntax: reader, managed heap with a copying collector, evaluator and
//! standard library.

pub mod reader;
pub mod reader_model;
pub mod text;
pub mod chars;
pub mod globals;
pub mod memory;
pub mod util;
pub mod show;
pub mod eval;
pub mod scratch;
