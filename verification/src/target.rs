//! The target module: what the code generator produces. Constant global
//! terms, and functions made of basic blocks of instructions that work on
//! stack slots holding terms.

use crate::rts::Evaluator;
use vstd::prelude::*;

verus! {

/// Where an instruction finds a term.
#[derive(Clone, Copy, Debug, PartialEq, Eq, Structural)]
pub enum Operand {
    /// The term behind the pointer that the function was called with.
    Param,
    /// A stack slot of the function, by its number.
    Slot(usize),
}

/// The runtime primitive that an application calls.
#[derive(Clone, Copy, Debug, PartialEq, Eq, Structural)]
pub enum Prim {
    NewApp,
    NewPartial,
    ApplyPartial,
}

/// One instruction of a basic block.
#[derive(Clone, Copy, Debug, PartialEq, Eq, Structural)]
pub enum Inst {
    /// Load constant global `global` into the fresh slot `dst`.
    LoadGlobal { dst: usize, global: usize },
    /// Load slot `index` of the argument block of `src` into the fresh slot
    /// `dst`.
    LoadArg { dst: usize, src: Operand, index: u64 },
    /// Reserve a stack array of `len` terms for the next call.
    ArgsAlloca { len: usize },
    /// Load `src` and store it at position `at` of the stack array.
    ArgStore { at: usize, src: Operand },
    /// Call `prim` with the address of `term`, the stack array and `len`.
    Call { prim: Prim, term: Operand, len: usize },
    /// Call the runtime's copy from `src` into the fresh slot `dst`.
    Copy { dst: usize, src: Operand },
    /// Call the evaluator of `term` with the address of `term`.
    Eval { term: Operand },
    /// Call the runtime to release the argument block of `term`.
    FreeArgs { term: Operand },
    /// Call the runtime to release `term` and all it holds.
    FreeTerm { term: Operand },
    /// Store `src` through the incoming pointer and return.
    Return { src: Operand },
    /// Return the constructor tag of `src` as a 32-bit integer.
    ReturnSymbol { src: Operand },
    /// One entry of the case table of the switch that ends this block.
    Case { symbol: u32, target: usize },
    /// Branch on the constructor tag of `on`: to the target of the entry
    /// with that tag among the `cases` entries that precede, else to
    /// `default`.
    Switch { on: Operand, default: usize, cases: usize },
    /// Control never gets here.
    Unreachable,
    /// Call the runtime's unhandled-case trap.
    Todo,
}

/// Whether a symbol is visible outside the module.
#[derive(Clone, Copy, Debug, PartialEq, Eq, Structural)]
pub enum Linkage {
    Internal,
    External,
}

/// The type of a function.
#[derive(Clone, Copy, Debug, PartialEq, Eq, Structural)]
pub enum Signature {
    /// Takes a pointer to a term, returns nothing.
    Evaluator,
    /// Takes nothing, returns a 32-bit integer: the entry point.
    Main,
}

/// A function: its stack slots, each with the name of the local it was made
/// for, and its basic blocks. Block 0 is the entry.
#[derive(Debug, PartialEq, Eq)]
pub struct Function {
    pub name: String,
    pub linkage: Linkage,
    pub signature: Signature,
    pub slots: Vec<String>,
    pub blocks: Vec<Vec<Inst>>,
}

/// A constant global term. Its argument block is absent, and both its length
/// and its capacity are `arity`.
#[derive(Debug, PartialEq, Eq)]
pub struct GlobalTerm {
    pub name: String,
    pub fun: Evaluator,
    pub symbol: u32,
    pub arity: u16,
}

/// A target module.
#[derive(Debug, PartialEq, Eq)]
pub struct Module {
    pub globals: Vec<GlobalTerm>,
    pub functions: Vec<Function>,
}

/// The mathematical value of a constant global term.
pub ghost struct GlobalView {
    pub name: Seq<char>,
    pub fun: Evaluator,
    pub symbol: u32,
    pub arity: u16,
}

/// The mathematical value of a function.
pub ghost struct FunctionView {
    pub name: Seq<char>,
    pub linkage: Linkage,
    pub signature: Signature,
    pub slots: Seq<Seq<char>>,
    pub blocks: Seq<Seq<Inst>>,
}

/// The mathematical value of a module.
pub ghost struct ModuleView {
    pub globals: Seq<GlobalView>,
    pub functions: Seq<FunctionView>,
}

impl View for GlobalTerm {
    type V = GlobalView;

    open spec fn view(&self) -> GlobalView {
        GlobalView { name: self.name@, fun: self.fun, symbol: self.symbol, arity: self.arity }
    }
}

impl View for Function {
    type V = FunctionView;

    open spec fn view(&self) -> FunctionView {
        FunctionView {
            name: self.name@,
            linkage: self.linkage,
            signature: self.signature,
            slots: texts(self.slots@),
            blocks: code(self.blocks@),
        }
    }
}

impl View for Module {
    type V = ModuleView;

    open spec fn view(&self) -> ModuleView {
        ModuleView {
            globals: Seq::new(self.globals@.len(), |i: int| self.globals@[i]@),
            functions: Seq::new(self.functions@.len(), |i: int| self.functions@[i]@),
        }
    }
}

/// The instructions of each block.
pub open spec fn code(blocks: Seq<Vec<Inst>>) -> Seq<Seq<Inst>> {
    Seq::new(blocks.len(), |i: int| blocks[i]@)
}

/// The characters of each string.
pub open spec fn texts(strings: Seq<String>) -> Seq<Seq<char>> {
    Seq::new(strings.len(), |i: int| strings[i]@)
}

/// The first position at or after `from` where `names` holds `name`, or the
/// length of `names` if there is none.
pub open spec fn position(names: Seq<Seq<char>>, name: Seq<char>, from: int) -> int
    decreases names.len() - from,
{
    if from < 0 || from >= names.len() {
        names.len() as int
    } else if names[from] == name {
        from
    } else {
        position(names, name, from + 1)
    }
}

/// `position` finds `name` where it first occurs, and finds nothing before.
pub proof fn lemma_position(names: Seq<Seq<char>>, name: Seq<char>, from: int)
    requires
        0 <= from <= names.len(),
    ensures
        from <= position(names, name, from) <= names.len(),
        position(names, name, from) < names.len() ==> names[position(names, name, from)] == name,
        forall|i: int| from <= i < position(names, name, from) ==> names[i] != name,
    decreases names.len() - from,
{
    if from < names.len() && names[from] != name {
        lemma_position(names, name, from + 1);
    }
}

/// `position` finds `name` at `at` when `name` stands there and nowhere
/// before, from `from` on.
pub proof fn lemma_position_first(names: Seq<Seq<char>>, name: Seq<char>, from: int, at: int)
    requires
        0 <= from <= at < names.len(),
        names[at] == name,
        forall|k: int| from <= k < at ==> names[k] != name,
    ensures
        position(names, name, from) == at,
    decreases at - from,
{
    if from < at {
        lemma_position_first(names, name, from + 1, at);
    }
}

impl Module {
    /// The names of the constant global terms, in order.
    pub open spec fn global_names(&self) -> Seq<Seq<char>> {
        Seq::new(self.globals@.len(), |i: int| self.globals@[i].name@)
    }

    /// The names of the functions, in order.
    pub open spec fn function_names(&self) -> Seq<Seq<char>> {
        Seq::new(self.functions@.len(), |i: int| self.functions@[i].name@)
    }

    /// A module with nothing in it.
    pub fn new() -> (module: Module)
        ensures
            module@ == (ModuleView { globals: Seq::empty(), functions: Seq::empty() }),
    {
        let module = Module { globals: Vec::new(), functions: Vec::new() };
        assert(module@.globals =~= Seq::empty());
        assert(module@.functions =~= Seq::empty());
        module
    }

    /// Adds a constant global term.
    pub fn add_global(&mut self, fun: Evaluator, name: String, symbol: u32, arity: u16)
        ensures
            final(self)@ == (ModuleView {
                globals: old(self)@.globals.push(GlobalView { name: name@, fun, symbol, arity }),
                functions: old(self)@.functions,
            }),
    {
        self.globals.push(GlobalTerm { name, fun, symbol, arity });
        assert(self@.globals =~= old(self)@.globals.push(
            GlobalView { name: name@, fun, symbol, arity },
        ));
        assert(self@.functions =~= old(self)@.functions);
    }

    /// Adds a function without a body yet, and returns its index.
    pub fn add_function(&mut self, name: String, signature: Signature, linkage: Linkage) -> (index:
        usize)
        ensures
            index == old(self)@.functions.len(),
            final(self)@ == (ModuleView {
                globals: old(self)@.globals,
                functions: old(self)@.functions.push(
                    FunctionView {
                        name: name@,
                        linkage,
                        signature,
                        slots: Seq::empty(),
                        blocks: Seq::empty(),
                    },
                ),
            }),
    {
        let index = self.functions.len();
        self.functions.push(
            Function { name, linkage, signature, slots: Vec::new(), blocks: Vec::new() },
        );
        assert(self@.globals =~= old(self)@.globals);
        assert(self.functions@[index as int]@.slots =~= Seq::empty());
        assert(self.functions@[index as int]@.blocks =~= Seq::empty());
        assert(self@.functions =~= old(self)@.functions.push(
            FunctionView {
                name: name@,
                linkage,
                signature,
                slots: Seq::empty(),
                blocks: Seq::empty(),
            },
        ));
        index
    }

    /// The index of the first constant global term called `name`.
    pub fn get_global(&self, name: &String) -> (found: Option<usize>)
        ensures
            found == (if position(self.global_names(), name@, 0) < self.globals@.len() {
                Some(position(self.global_names(), name@, 0) as usize)
            } else {
                None
            }),
            found matches Some(i) ==> i < self.globals@.len() && i == position(
                self.global_names(),
                name@,
                0,
            ),
    {
        proof {
            lemma_position(self.global_names(), name@, 0);
        }
        let mut i: usize = 0;
        while i < self.globals.len()
            invariant
                i <= self.globals@.len(),
                position(self.global_names(), name@, 0) == position(
                    self.global_names(),
                    name@,
                    i as int,
                ),
            decreases self.globals@.len() - i,
        {
            if self.globals[i].name == *name {
                return Some(i);
            }
            i += 1;
        }
        None
    }

    /// The index of the first function called `name`.
    pub fn get_function(&self, name: &String) -> (found: Option<usize>)
        ensures
            found == (if position(self.function_names(), name@, 0) < self.functions@.len() {
                Some(position(self.function_names(), name@, 0) as usize)
            } else {
                None
            }),
            found matches Some(i) ==> i < self.functions@.len() && i == position(
                self.function_names(),
                name@,
                0,
            ),
    {
        proof {
            lemma_position(self.function_names(), name@, 0);
        }
        let mut i: usize = 0;
        while i < self.functions.len()
            invariant
                i <= self.functions@.len(),
                position(self.function_names(), name@, 0) == position(
                    self.function_names(),
                    name@,
                    i as int,
                ),
            decreases self.functions@.len() - i,
        {
            if self.functions[i].name == *name {
                return Some(i);
            }
            i += 1;
        }
        None
    }
}

} // verus!
