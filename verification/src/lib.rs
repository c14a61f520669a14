//! A small stack-based, concatenative language runtime: a reader that
//! turns token text into instructions, an execution engine with runtime
//! type-directed overload resolution, user-definable composite words and
//! tuple types, conditional block literals, and an append-only definition
//! log that rebuilds a session's environment on restart.
//!
//! Every part of the engine is specified against an operational semantics
//! (`sem`) over mathematical views of the runtime state.  The bodies of
//! the float primitives are the one piece treated as outside work: they
//! go through the `FloatHost` trait, and of their answers nothing is
//! assumed.
use vstd::prelude::*;

pub mod default_env;
pub mod errors;
pub mod interpreter;
pub mod laws;
pub mod numtext;
pub mod parser;
pub mod sem;
pub mod serialize;
pub mod symbol;
pub mod value;
