//! The mid-level representation that pattern compilation starts from:
//! functions given by cases, each a row of patterns with the term it stands
//! for.

use std::collections::HashMap;
use vstd::prelude::*;

verus! {

/// A program: the cases of each function, by the function's name.
pub type Program = HashMap<String, Switch>;

/// The cases of one function, tried from the first on.
pub type Switch = Vec<Case>;

/// One case: the patterns that the arguments must match, and the result.
#[derive(Debug, PartialEq, Eq)]
pub struct Case(pub Vec<Pat>, pub Term);

/// A pattern.
#[derive(Debug, PartialEq, Eq)]
pub enum Pat {
    /// Matches anything and names it.
    Var(String),
    /// Matches an application of this constructor whose arguments match.
    Ctor(String, Vec<Pat>),
}

/// A term.
#[derive(Debug, PartialEq, Eq)]
pub enum Term {
    /// A variable bound by a pattern.
    Var(String),
    /// A constructor applied to terms.
    Ctor(String, Vec<Term>),
    /// A function applied to terms.
    App(String, Vec<Term>),
}

} // verus!
