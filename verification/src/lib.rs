//! A best-first program synthesizer for the classic six-instruction tape
//! language: partial programs grow hole by hole inside the interpreter, and
//! a priority-driven search reports every program whose first outputs are
//! the target bytes.

pub mod ast;
pub mod engine;
pub mod frontier;
pub mod instr;
pub mod interp;
pub mod node;
pub mod runner;
pub mod tape;
pub mod textio;
