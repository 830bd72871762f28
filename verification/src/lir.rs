//! The low-level intermediate representation: programs of constructor
//! constants and functions, whose bodies are blocks of operations on local
//! terms, and the rules that make a program well-formed.

pub mod compile;
pub mod laws;
pub mod shape;

use crate::target::{lemma_position, position};
use vstd::prelude::*;

verus! {

/// The name of a global or of a local.
pub type Name = String;

/// A constructor tag.
pub type Symbol = u32;

/// The number of arguments that a function or a constructor takes.
pub type Arity = u16;

/// The position of an argument in an argument block.
pub type Index = u64;

/// A sequence of operations.
pub type Block = Vec<Op>;

/// A global of a program.
#[derive(Debug, PartialEq, Eq)]
pub enum Global {
    /// A constructor constant: a tag that nothing evaluates.
    Const { arity: Arity, symbol: Symbol },
    /// A function.
    Fun { arity: Arity, block: Block },
}

/// One operation of a block.
#[derive(Debug, PartialEq, Eq)]
pub enum Op {
    /// Copy the constant term of `global` into a new local named after it.
    LoadGlobal { global: Name },
    /// Load argument `index` of `var` into a new local `name`.
    LoadArg { name: Name, var: Name, index: Index },
    /// Build a saturated application in `var` and call it `name` too.
    NewApp { name: Name, var: Name, args: Vec<Name> },
    /// Turn `var` into a partial application and call it `name` too.
    NewPartial { name: Name, var: Name, args: Vec<Name> },
    /// Give the partial application `var` more arguments and call it `name`
    /// too.
    ApplyPartial { name: Name, var: Name, args: Vec<Name> },
    /// Copy `var`, with all it holds, into a new local `name`.
    Copy { name: Name, var: Name },
    /// Call the evaluator of `var` on `var`.
    Eval { var: Name },
    /// Release the argument block of `var`.
    FreeArgs { var: Name },
    /// Release `var` with all it holds.
    FreeTerm { var: Name },
    /// Return the constructor tag of `var` from the entry point.
    ReturnSymbol { var: Name },
    /// Write `var` through the incoming pointer and return.
    Return { var: Name },
    /// Continue with the case whose constant has the tag of `var`.
    Switch { var: Name, cases: Vec<Case> },
    /// Trap: a case that was not handled.
    Todo,
}

/// One arm of a switch: the constant it is for and what to do then.
#[derive(Debug, PartialEq, Eq)]
pub struct Case {
    pub global: Name,
    pub block: Block,
}

/// A program: globals by name. A name has the global of its first entry.
#[derive(Debug, PartialEq, Eq)]
pub struct Program {
    pub entries: Vec<(Name, Global)>,
}

/// The name of the entry point.
pub open spec fn main_name() -> Seq<char> {
    "main"@
}

/// The name that a function's body knows its incoming pointer by.
pub open spec fn self_name() -> Seq<char> {
    "self"@
}

/// Whether `name` is the name of the entry point.
pub fn is_main(name: &String) -> (b: bool)
    ensures
        b == (name@ == main_name()),
{
    let main = "main".to_owned();
    *name == main
}

impl Program {
    /// The names of the entries, in order.
    pub open spec fn names(&self) -> Seq<Seq<char>> {
        Seq::new(self.entries@.len(), |i: int| self.entries@[i].0@)
    }

    /// The global called `name`.
    pub open spec fn find(&self, name: Seq<char>) -> Option<Global> {
        let at = position(self.names(), name, 0);
        if at < self.entries@.len() {
            Some(self.entries@[at].1)
        } else {
            None
        }
    }

    /// No name has two entries.
    pub open spec fn distinct(&self) -> bool {
        forall|i: int, j: int|
            0 <= i < j < self.entries@.len() ==> self.entries@[i].0@ != self.entries@[j].0@
    }

    /// How many of the first `n` entries have a constant term in the
    /// module: all but the entry point.
    pub open spec fn terms_before(&self, n: int) -> nat
        decreases n,
    {
        if n <= 0 {
            0
        } else if self.entries@[n - 1].0@ == main_name() {
            self.terms_before(n - 1)
        } else {
            self.terms_before(n - 1) + 1
        }
    }

    /// The number of the constant term of the global called `name` among
    /// the constant terms of the module, if there is such a term.
    pub open spec fn term_index(&self, name: Seq<char>) -> Option<nat> {
        let at = position(self.names(), name, 0);
        if at < self.entries@.len() && name != main_name() {
            Some(self.terms_before(at))
        } else {
            None
        }
    }

    /// The tag of the constructor constant called `name`, if there is one.
    pub open spec fn const_symbol(&self, name: Seq<char>) -> Option<Symbol> {
        match self.find(name) {
            Some(Global::Const { symbol, .. }) => Some(symbol),
            _ => None,
        }
    }

    /// A program without globals.
    pub fn new() -> (program: Program)
        ensures
            program.entries@.len() == 0,
            program.distinct(),
    {
        Program { entries: Vec::new() }
    }

    /// The number of entries.
    pub fn len(&self) -> (n: usize)
        ensures
            n == self.entries@.len(),
    {
        self.entries.len()
    }

    /// Where the first entry called `name` is.
    pub fn index_of(&self, name: &String) -> (found: Option<usize>)
        ensures
            found == (if position(self.names(), name@, 0) < self.entries@.len() {
                Some(position(self.names(), name@, 0) as usize)
            } else {
                None
            }),
            found matches Some(i) ==> i < self.entries@.len() && i == position(
                self.names(),
                name@,
                0,
            ),
    {
        proof {
            lemma_position(self.names(), name@, 0);
        }
        let mut i: usize = 0;
        while i < self.entries.len()
            invariant
                i <= self.entries@.len(),
                position(self.names(), name@, 0) == position(self.names(), name@, i as int),
            decreases self.entries@.len() - i,
        {
            if self.entries[i].0 == *name {
                return Some(i);
            }
            i += 1;
        }
        None
    }

    /// The global called `name`.
    pub fn get(&self, name: &String) -> (found: Option<&Global>)
        ensures
            match found {
                Some(global) => self.find(name@) == Some(*global),
                None => self.find(name@).is_none(),
            },
    {
        match self.index_of(name) {
            Some(i) => Some(&self.entries[i].1),
            None => None,
        }
    }

    /// Gives `name` the global `global`: in the entry that `name` has, or in
    /// a new last entry.
    pub fn insert(&mut self, name: Name, global: Global)
        ensures
            final(self).entries@ == (if position(old(self).names(), name@, 0) < old(self).entries@.len() {
                old(self).entries@.update(position(old(self).names(), name@, 0), (name, global))
            } else {
                old(self).entries@.push((name, global))
            }),
            final(self).find(name@) == Some(global),
            forall|other: Seq<char>| other != name@ ==> final(self).find(other) == old(self).find(other),
            old(self).distinct() ==> final(self).distinct(),
    {
        let found = self.index_of(&name);
        let ghost before = old(self).names();
        proof {
            lemma_position(before, name@, 0);
        }
        match found {
            Some(i) => {
                self.entries[i] = (name, global);
                assert(self.names() =~= before);
                assert forall|other: Seq<char>| other != name@ implies #[trigger] self.find(other)
                    == old(self).find(other) by {
                    lemma_position(before, other, 0);
                }
                assert(old(self).distinct() ==> self.distinct()) by {
                    assert forall|a: int, b: int|
                        0 <= a < b < self.entries@.len() && old(self).distinct() implies self.entries@[a].0@
                        != self.entries@[b].0@ by {
                        assert(self.entries@[a].0@ == before[a]);
                        assert(self.entries@[b].0@ == before[b]);
                        assert(old(self).entries@[a].0@ == before[a]);
                        assert(old(self).entries@[b].0@ == before[b]);
                    }
                }
            },
            None => {
                self.entries.push((name, global));
                assert(self.names() =~= before.push(name@));
                assert forall|other: Seq<char>| true implies #[trigger] self.find(other) == (
                if other == name@ {
                    Some(global)
                } else {
                    old(self).find(other)
                }) by {
                    lemma_position_push(before, name@, other, 0);
                    lemma_position(before, other, 0);
                }
                assert(old(self).distinct() ==> self.distinct()) by {
                    assert forall|a: int, b: int|
                        0 <= a < b < self.entries@.len() && old(self).distinct() implies self.entries@[a].0@
                        != self.entries@[b].0@ by {
                        assert(self.entries@[a].0@ == before[a]);
                        if b < before.len() {
                            assert(self.entries@[b].0@ == before[b]);
                            assert(old(self).entries@[a].0@ == before[a]);
                            assert(old(self).entries@[b].0@ == before[b]);
                        }
                    }
                }
            },
        }
    }

    /// The number of the constant term of the global called `name` among
    /// the constant terms of the module, if there is such a term.
    pub fn get_term(&self, name: &String) -> (found: Option<usize>)
        ensures
            found == (match self.term_index(name@) {
                Some(n) => Some(n as usize),
                None => None,
            }),
            self.term_index(name@).is_some() ==> self.term_index(name@).unwrap() < self.entries@.len(),
    {
        if is_main(name) {
            return None;
        }
        let at = match self.index_of(name) {
            Some(at) => at,
            None => {
                return None;
            },
        };
        let mut n: usize = 0;
        let mut i: usize = 0;
        while i < at
            invariant
                i <= at,
                at < self.entries@.len(),
                n == self.terms_before(i as int),
                n <= i,
            decreases at - i,
        {
            if !is_main(&self.entries[i].0) {
                n += 1;
            }
            i += 1;
        }
        Some(n)
    }
}

/// Where `other` is first found after `name` was appended to `names`.
pub proof fn lemma_position_push(
    names: Seq<Seq<char>>,
    name: Seq<char>,
    other: Seq<char>,
    from: int,
)
    requires
        0 <= from <= names.len(),
    ensures
        position(names.push(name), other, from) == (if position(names, other, from) < names.len() {
            position(names, other, from)
        } else if other == name {
            names.len() as int
        } else {
            names.len() as int + 1
        }),
    decreases names.len() - from,
{
    lemma_position(names, other, from);
    if from < names.len() {
        if names[from] != other {
            lemma_position_push(names, name, other, from + 1);
        }
    } else {
        assert(position(names.push(name), other, from + 1) == names.len() + 1);
    }
}

/// The names that are visible after `op`, when `visible` were before it.
pub open spec fn after(op: Op, visible: Set<Seq<char>>) -> Set<Seq<char>> {
    match op {
        Op::LoadGlobal { global } => visible.insert(global@),
        Op::LoadArg { name, .. } => visible.insert(name@),
        Op::NewApp { name, .. } => visible.insert(name@),
        Op::NewPartial { name, .. } => visible.insert(name@),
        Op::ApplyPartial { name, .. } => visible.insert(name@),
        Op::Copy { name, .. } => visible.insert(name@),
        _ => visible,
    }
}

/// Every one of `names` is among `visible`.
pub open spec fn all_visible(names: Seq<String>, visible: Set<Seq<char>>) -> bool {
    forall|i: int| 0 <= i < names.len() ==> visible.contains(#[trigger] names[i]@)
}

/// `op` uses only locals among `visible`, loads only globals that have a
/// constant term, and switches only on constructor constants, with arms
/// that are well-formed in their turn.
pub open spec fn wf_op(op: Op, visible: Set<Seq<char>>, program: Program) -> bool
    decreases op, 0int,
{
    match op {
        Op::LoadGlobal { global } => program.find(global@).is_some() && global@ != main_name(),
        Op::LoadArg { var, .. } => visible.contains(var@),
        Op::NewApp { var, args, .. } => visible.contains(var@) && all_visible(args@, visible),
        Op::NewPartial { var, args, .. } => visible.contains(var@) && all_visible(args@, visible),
        Op::ApplyPartial { var, args, .. } => visible.contains(var@) && all_visible(
            args@,
            visible,
        ),
        Op::Copy { var, .. } => visible.contains(var@),
        Op::Eval { var } => visible.contains(var@),
        Op::FreeArgs { var } => visible.contains(var@),
        Op::FreeTerm { var } => visible.contains(var@),
        Op::ReturnSymbol { var } => visible.contains(var@),
        Op::Return { var } => visible.contains(var@),
        Op::Switch { var, cases } => {
            &&& visible.contains(var@)
            &&& forall|i: int|
                0 <= i < cases@.len() ==> {
                    &&& program.const_symbol((#[trigger] cases@[i]).global@).is_some()
                    &&& wf_block(cases@[i].block@, 0, visible, program)
                }
        },
        Op::Todo => true,
    }
}

/// The operations of `ops` from `from` on are well-formed, each with the
/// locals that `visible` and the operations before it make visible.
pub open spec fn wf_block(ops: Seq<Op>, from: int, visible: Set<Seq<char>>, program: Program) -> bool
    decreases ops, ops.len() - from,
{
    if from < 0 || from >= ops.len() {
        true
    } else {
        &&& wf_op(ops[from], visible, program)
        &&& wf_block(ops, from + 1, after(ops[from], visible), program)
    }
}

/// The locals that the body of the global called `name` starts with: none
/// in the entry point, the incoming pointer elsewhere.
pub open spec fn initial(name: Seq<char>) -> Set<Seq<char>> {
    if name == main_name() {
        Set::empty()
    } else {
        Set::empty().insert(self_name())
    }
}

impl Program {
    /// The program has an entry point, a function `main` of arity 0, and
    /// the body of each of its functions is well-formed.
    pub open spec fn well_formed(&self) -> bool {
        &&& self.find(main_name()) matches Some(Global::Fun { arity, .. }) && arity == 0
        &&& forall|i: int| 0 <= i < self.entries@.len() ==> self.wf_entry(i)
    }

    /// If entry `i` is a function, its body is well-formed.
    pub open spec fn wf_entry(&self, i: int) -> bool {
        match self.entries@[i].1 {
            Global::Fun { block, .. } => wf_block(block@, 0, initial(self.entries@[i].0@), *self),
            _ => true,
        }
    }
}

} // verus!
