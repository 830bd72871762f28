//! A compiler core for a small low-level intermediate representation of
//! functional programs over uniformly shaped terms.
//!
//! - `rts`: the terms that programs compute with and the runtime primitives
//!   on them.
//! - `lir`: the intermediate representation, its well-formedness, and its
//!   compiler (`lir::compile`), with what holds of every compilation
//!   (`lir::laws`, `lir::shape`).
//! - `prog`: programs in table form, with static names, and their compiler.
//! - `mir`: the terms and patterns that pattern compilation starts from.
//! - `target`: target modules, which the compilers produce.
//! - `unit`: the compilation unit, which the compilers build modules with.
//! - `verify`: the verification that a module has to pass.
//! - `machine`: the machine that modules run on, and why valid modules do
//!   not go wrong on it (`machine::sound`).
//! - `report`: what to tell about a text that a parser rejected.

pub mod lir;
pub mod machine;
pub mod mir;
pub mod prog;
pub mod report;
pub mod rts;
pub mod target;
pub mod unit;
pub mod verify;
