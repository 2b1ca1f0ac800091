//! A small Lisp interpreter: a reader, a printer, lexical environments and a
//! tail-call-optimizing evaluator, each verified against a mathematical model.
pub mod builtins;
pub mod env;
pub mod interp;
pub mod laws;
pub mod printer;
pub mod reader;
pub mod roundtrip;
pub mod types;

pub use types::MalType;
