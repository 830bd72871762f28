//! The compilation unit: the module being built, the function under
//! construction, and the stack of scopes that maps local names to stack
//! slots.

use crate::rts::Evaluator;
use crate::target::{
    code, texts, FunctionView, GlobalView, Inst, Module, ModuleView, Operand, Prim,
};
use vstd::hash_map::StringHashMap;
use vstd::prelude::*;

verus! {

/// The IR handed to the code generator breaks a rule of well-formedness.
#[derive(Clone, Copy, Debug, PartialEq, Eq)]
pub struct Malformed;

/// The mathematical value of the function under construction.
pub ghost struct State {
    /// The instructions of each basic block made so far.
    pub blocks: Seq<Seq<Inst>>,
    /// The block that instructions are appended to.
    pub block: int,
    /// For each stack slot made so far, the local it was made for.
    pub slots: Seq<Seq<char>>,
    /// The scopes, outermost first.
    pub scopes: Seq<Map<Seq<char>, Operand>>,
}

/// The binding of `var` in the innermost scope that has one.
pub open spec fn lookup_in(scopes: Seq<Map<Seq<char>, Operand>>, var: Seq<char>) -> Option<
    Operand,
>
    decreases scopes.len(),
{
    if scopes.len() == 0 {
        None
    } else if scopes.last().contains_key(var) {
        Some(scopes.last()[var])
    } else {
        lookup_in(scopes.drop_last(), var)
    }
}

/// The instructions that fill the stack array of a call, one per argument.
pub open spec fn stores(args: Seq<Operand>) -> Seq<Inst> {
    Seq::new(args.len(), |i: int| Inst::ArgStore { at: i as usize, src: args[i] })
}

impl State {
    /// There is a block to append to and a scope to define in.
    pub open spec fn inv(self) -> bool {
        &&& 0 <= self.block < self.blocks.len()
        &&& self.scopes.len() > 0
    }

    /// The binding of `var` in the innermost scope that has one.
    pub open spec fn lookup(self, var: Seq<char>) -> Option<Operand> {
        lookup_in(self.scopes, var)
    }

    /// The names that a lookup finds.
    pub open spec fn visible(self) -> Set<Seq<char>> {
        Set::new(|var: Seq<char>| lookup_in(self.scopes, var).is_some())
    }

    /// The state with `insts` appended to the current block.
    pub open spec fn emit_all(self, insts: Seq<Inst>) -> State {
        State { blocks: self.blocks.update(self.block, self.blocks[self.block] + insts), ..self }
    }

    /// The state with `inst` appended to the current block.
    pub open spec fn emit(self, inst: Inst) -> State {
        self.emit_all(seq![inst])
    }

    /// The state with one more stack slot, made for the local `name`.
    pub open spec fn alloca(self, name: Seq<char>) -> State {
        State { slots: self.slots.push(name), ..self }
    }

    /// The state with `name` bound to `value` in the innermost scope.
    pub open spec fn define(self, name: Seq<char>, value: Operand) -> State {
        State {
            scopes: self.scopes.update(
                self.scopes.len() - 1,
                self.scopes.last().insert(name, value),
            ),
            ..self
        }
    }

    /// The state with a new, empty innermost scope.
    pub open spec fn add_scope(self) -> State {
        State { scopes: self.scopes.push(Map::empty()), ..self }
    }

    /// The state without its innermost scope.
    pub open spec fn leave_scope(self) -> State {
        State { scopes: self.scopes.drop_last(), ..self }
    }

    /// The state with the bindings of its innermost scope forgotten.
    pub open spec fn clear_scope(self) -> State {
        State { scopes: self.scopes.update(self.scopes.len() - 1, Map::empty()), ..self }
    }

    /// The state without any scope.
    pub open spec fn clear_locals(self) -> State {
        State { scopes: Seq::empty(), ..self }
    }

    /// The state with a new, empty last block.
    pub open spec fn add_block(self) -> State {
        State { blocks: self.blocks.push(Seq::empty()), ..self }
    }

    /// A function with one empty block, no slot and one empty scope.
    pub open spec fn start() -> State {
        State {
            blocks: seq![Seq::empty()],
            block: 0,
            slots: Seq::empty(),
            scopes: seq![Map::empty()],
        }
    }

    /// Constant global `global` loaded into a fresh slot bound to `name`.
    pub open spec fn load_global(self, name: Seq<char>, global: int) -> State {
        let dst = self.slots.len() as usize;
        self.alloca(name).emit(Inst::LoadGlobal { dst, global: global as usize }).define(
            name,
            Operand::Slot(dst),
        )
    }

    /// Argument `index` of `src` loaded into a fresh slot bound to `name`.
    pub open spec fn load_arg(self, name: Seq<char>, src: Operand, index: u64) -> State {
        let dst = self.slots.len() as usize;
        self.alloca(name).emit(Inst::LoadArg { dst, src, index }).define(name, Operand::Slot(dst))
    }

    /// A call of `prim` on `term` with `args` in a stack array; `name` bound
    /// to the place of `term`.
    pub open spec fn apply(self, name: Seq<char>, prim: Prim, term: Operand, args: Seq<
        Operand,
    >) -> State {
        let len = args.len() as usize;
        self.emit_all(
            seq![Inst::ArgsAlloca { len }] + stores(args) + seq![Inst::Call { prim, term, len }],
        ).define(name, term)
    }

    /// A copy of `src` made in a fresh slot bound to `name`.
    pub open spec fn copy(self, name: Seq<char>, src: Operand) -> State {
        let dst = self.slots.len() as usize;
        self.alloca(name).emit(Inst::Copy { dst, src }).define(name, Operand::Slot(dst))
    }

    /// A new arm of the switch that will end block `origin`: its table entry
    /// appended to `origin`, a fresh block to append to, the scope cleared.
    pub open spec fn begin_arm(self, origin: int, symbol: u32) -> State {
        let target = self.blocks.len() as usize;
        State {
            blocks: self.blocks.update(
                origin,
                self.blocks[origin].push(Inst::Case { symbol, target }),
            ).push(Seq::empty()),
            block: self.blocks.len() as int,
            slots: self.slots,
            scopes: self.scopes.update(self.scopes.len() - 1, Map::empty()),
        }
    }

    /// The end of a switch on `on` with `cases` arms: a default block that
    /// cannot be reached, the scope of the arms left, and the switch itself
    /// at the end of block `origin`.
    pub open spec fn end_switch(self, origin: int, on: Operand, cases: nat) -> State {
        let default = self.blocks.len() as usize;
        State {
            blocks: self.blocks.push(seq![Inst::Unreachable]),
            block: origin,
            slots: self.slots,
            scopes: self.scopes.drop_last(),
        }.emit(Inst::Switch { on, default, cases: cases as usize })
    }
}

/// The bindings of `names`, in order.
pub open spec fn operands(s: State, names: Seq<Seq<char>>) -> Seq<Operand> {
    Seq::new(names.len(), |i: int| s.lookup(names[i]).unwrap())
}

/// Every one of `names` has a binding.
pub open spec fn all_bound(s: State, names: Seq<Seq<char>>) -> bool {
    forall|i: int| 0 <= i < names.len() ==> (#[trigger] s.lookup(names[i])).is_some()
}

/// Appending in two steps is appending once.
pub proof fn lemma_emit_more(s: State, a: Seq<Inst>, b: Seq<Inst>)
    requires
        0 <= s.block < s.blocks.len(),
    ensures
        s.emit_all(a).emit_all(b) == s.emit_all(a + b),
{
    assert((s.blocks[s.block] + a) + b =~= s.blocks[s.block] + (a + b));
    assert(s.emit_all(a).emit_all(b).blocks =~= s.emit_all(a + b).blocks);
}

/// Defining a name makes it visible and hides nothing.
pub proof fn lemma_define_visible(s: State, name: Seq<char>, value: Operand)
    requires
        s.scopes.len() > 0,
    ensures
        s.define(name, value).visible() == s.visible().insert(name),
        s.define(name, value).lookup(name) == Some(value),
        forall|var: Seq<char>| var != name ==> s.define(name, value).lookup(var) == s.lookup(var),
{
    let t = s.define(name, value);
    assert(t.scopes.drop_last() =~= s.scopes.drop_last());
    assert forall|var: Seq<char>| var != name implies t.lookup(var) == s.lookup(var) by {
        assert(t.scopes.last().contains_key(var) == s.scopes.last().contains_key(var));
    }
    assert(t.visible() =~= s.visible().insert(name));
}

/// An empty innermost scope neither adds nor hides a name.
pub proof fn lemma_empty_scope(scopes: Seq<Map<Seq<char>, Operand>>, var: Seq<char>)
    ensures
        lookup_in(scopes.push(Map::empty()), var) == lookup_in(scopes, var),
{
    assert(scopes.push(Map::empty()).drop_last() =~= scopes);
}

/// Where a function body starts, no name has a binding.
pub proof fn lemma_start_empty()
    ensures
        State::start().visible() == Set::<Seq<char>>::empty(),
        State::start().inv(),
{
    assert(State::start().scopes =~= Seq::empty().push(Map::empty()));
    assert forall|var: Seq<char>| !(#[trigger] State::start().visible().contains(var)) by {
        lemma_empty_scope(Seq::empty(), var);
    }
    assert(State::start().visible() =~= Set::empty());
}

/// The compilation unit.
pub struct Unit {
    /// The module being built.
    pub module: Module,
    /// The stack slots of the function under construction.
    pub slots: Vec<String>,
    /// The basic blocks of the function under construction.
    pub blocks: Vec<Vec<Inst>>,
    /// The block that instructions are appended to.
    pub block: usize,
    /// The scopes, outermost first.
    pub locals: Vec<StringHashMap<Operand>>,
}

/// The bindings of each scope.
pub open spec fn scopes_of(locals: Seq<StringHashMap<Operand>>) -> Seq<Map<Seq<char>, Operand>> {
    Seq::new(locals.len(), |i: int| locals[i]@)
}

impl View for Unit {
    type V = State;

    open spec fn view(&self) -> State {
        State {
            blocks: code(self.blocks@),
            block: self.block as int,
            slots: texts(self.slots@),
            scopes: scopes_of(self.locals@),
        }
    }
}

impl Unit {
    /// A unit for `module`, with no function under construction.
    pub fn new(module: Module) -> (unit: Unit)
        ensures
            unit.module == module,
            unit@ == (State {
                blocks: Seq::empty(),
                block: 0,
                slots: Seq::empty(),
                scopes: Seq::empty(),
            }),
    {
        let unit = Unit {
            module,
            slots: Vec::new(),
            blocks: Vec::new(),
            block: 0,
            locals: Vec::new(),
        };
        assert(unit@.blocks =~= Seq::empty());
        assert(unit@.slots =~= Seq::empty());
        assert(unit@.scopes =~= Seq::empty());
        unit
    }

    /// Enters a scope.
    pub fn add_scope(&mut self)
        ensures
            final(self)@ == old(self)@.add_scope(),
            final(self).module == old(self).module,
    {
        self.locals.push(StringHashMap::new());
        assert(self@.scopes =~= old(self)@.add_scope().scopes);
    }

    /// Leaves the innermost scope.
    pub fn leave_scope(&mut self)
        requires
            old(self)@.scopes.len() > 0,
        ensures
            final(self)@ == old(self)@.leave_scope(),
            final(self).module == old(self).module,
    {
        self.locals.pop();
        assert(self@.scopes =~= old(self)@.leave_scope().scopes);
    }

    /// Binds `name` to `value` in the innermost scope.
    pub fn define(&mut self, name: String, value: Operand)
        requires
            old(self)@.scopes.len() > 0,
        ensures
            final(self)@ == old(self)@.define(name@, value),
            final(self).module == old(self).module,
    {
        let last = self.locals.len() - 1;
        self.locals[last].insert(name, value);
        assert(self@.scopes =~= old(self)@.define(name@, value).scopes);
    }

    /// The binding of `var` in the innermost scope that has one.
    pub fn lookup(&self, var: &str) -> (found: Option<Operand>)
        ensures
            found == self@.lookup(var@),
    {
        let mut i: usize = self.locals.len();
        assert(self@.scopes.take(i as int) =~= self@.scopes);
        while i > 0
            invariant
                i <= self.locals@.len(),
                self@.lookup(var@) == lookup_in(self@.scopes.take(i as int), var@),
            decreases i,
        {
            i -= 1;
            assert(self@.scopes.take(i + 1).drop_last() =~= self@.scopes.take(i as int));
            match self.locals[i].get(var) {
                Some(local) => {
                    return Some(*local);
                },
                None => {},
            }
        }
        None
    }

    /// Leaves every scope.
    pub fn clear_locals(&mut self)
        ensures
            final(self)@ == old(self)@.clear_locals(),
            final(self).module == old(self).module,
    {
        self.locals.clear();
        assert(self@.scopes =~= Seq::empty());
    }

    /// Forgets the bindings of the innermost scope.
    pub fn clear_scope(&mut self)
        requires
            old(self)@.scopes.len() > 0,
        ensures
            final(self)@ == old(self)@.clear_scope(),
            final(self).module == old(self).module,
    {
        let last = self.locals.len() - 1;
        self.locals[last].clear();
        assert(self@.scopes =~= old(self)@.clear_scope().scopes);
    }

    /// Adds a constant global term to the module.
    pub fn add_global(&mut self, fun: Evaluator, name: String, symbol: u32, arity: u16)
        ensures
            final(self).module@ == (ModuleView {
                globals: old(self).module@.globals.push(
                    GlobalView { name: name@, fun, symbol, arity },
                ),
                functions: old(self).module@.functions,
            }),
            final(self)@ == old(self)@,
    {
        self.module.add_global(fun, name, symbol, arity);
    }

    /// Appends `inst` to the current block.
    pub fn emit(&mut self, inst: Inst)
        requires
            0 <= old(self)@.block < old(self)@.blocks.len(),
        ensures
            final(self)@ == old(self)@.emit(inst),
            final(self).module == old(self).module,
    {
        let block = self.block;
        self.blocks[block].push(inst);
        assert(self.blocks@[block as int]@ =~= old(self).blocks@[block as int]@ + seq![inst]);
        assert(self@.blocks =~= old(self)@.emit(inst).blocks);
    }

    /// Makes a stack slot for the local `name` and returns its number.
    pub fn alloca(&mut self, name: String) -> (slot: usize)
        ensures
            slot == old(self)@.slots.len(),
            final(self)@ == old(self)@.alloca(name@),
            final(self).module == old(self).module,
    {
        let slot = self.slots.len();
        self.slots.push(name);
        assert(self@.slots =~= old(self)@.alloca(name@).slots);
        slot
    }

    /// Starts a function body: one empty block to append to, no slot, one
    /// empty scope.
    pub fn begin(&mut self)
        ensures
            final(self)@ == State::start(),
            final(self).module == old(self).module,
    {
        self.slots = Vec::new();
        let mut blocks: Vec<Vec<Inst>> = Vec::new();
        blocks.push(Vec::new());
        self.blocks = blocks;
        self.block = 0;
        self.clear_locals();
        self.add_scope();
        assert(self@.blocks =~= State::start().blocks);
        assert(self@.slots =~= State::start().slots);
        assert(self@.scopes =~= State::start().scopes);
    }

    /// Ends a function body: its slots and blocks become those of function
    /// `f` of the module.
    pub fn finish(&mut self, f: usize)
        requires
            f < old(self).module@.functions.len(),
        ensures
            final(self).module@ == (ModuleView {
                globals: old(self).module@.globals,
                functions: old(self).module@.functions.update(
                    f as int,
                    FunctionView {
                        slots: old(self)@.slots,
                        blocks: old(self)@.blocks,
                        ..old(self).module@.functions[f as int]
                    },
                ),
            }),
    {
        let mut slots: Vec<String> = Vec::new();
        let mut blocks: Vec<Vec<Inst>> = Vec::new();
        core::mem::swap(&mut slots, &mut self.slots);
        core::mem::swap(&mut blocks, &mut self.blocks);
        let function = &mut self.module.functions[f];
        function.slots = slots;
        function.blocks = blocks;
        assert(self.module@.globals =~= old(self).module@.globals);
        assert(self.module@.functions =~= old(self).module@.functions.update(
            f as int,
            FunctionView {
                slots: old(self)@.slots,
                blocks: old(self)@.blocks,
                ..old(self).module@.functions[f as int]
            },
        ));
    }

    /// Appends a fresh empty block and returns its number.
    pub fn add_block(&mut self) -> (block: usize)
        ensures
            block == old(self)@.blocks.len(),
            final(self)@ == old(self)@.add_block(),
            final(self).module == old(self).module,
    {
        let block = self.blocks.len();
        self.blocks.push(Vec::new());
        assert(self@.blocks =~= old(self)@.add_block().blocks);
        block
    }

    /// Loads constant global term number `global` into a fresh slot and
    /// binds `name` to the slot.
    pub fn load_global(&mut self, name: String, global: usize)
        requires
            old(self)@.inv(),
        ensures
            final(self)@ == old(self)@.load_global(name@, global as int),
            final(self).module == old(self).module,
    {
        let dst = self.alloca(name.clone());
        self.emit(Inst::LoadGlobal { dst, global });
        self.define(name, Operand::Slot(dst));
    }

    /// Loads argument `index` of the local `var` into a fresh slot and binds
    /// `name` to the slot. Fails, changing nothing, when `var` is not bound.
    pub fn load_arg(&mut self, name: String, var: &str, index: u64) -> (done: Result<
        (),
        Malformed,
    >)
        requires
            old(self)@.inv(),
        ensures
            final(self).module == old(self).module,
            done.is_ok() == old(self)@.lookup(var@).is_some(),
            done.is_ok() ==> final(self)@ == old(self)@.load_arg(
                name@,
                old(self)@.lookup(var@).unwrap(),
                index,
            ),
            done.is_err() ==> final(self)@ == old(self)@,
    {
        let src = match self.lookup(var) {
            Some(src) => src,
            None => {
                return Err(Malformed);
            },
        };
        let dst = self.alloca(name.clone());
        self.emit(Inst::LoadArg { dst, src, index });
        self.define(name, Operand::Slot(dst));
        Ok(())
    }

    /// Copies the local `var` into a fresh slot and binds `name` to the
    /// slot. Fails, changing nothing, when `var` is not bound.
    pub fn copy(&mut self, name: String, var: &str) -> (done: Result<(), Malformed>)
        requires
            old(self)@.inv(),
        ensures
            final(self).module == old(self).module,
            done.is_ok() == old(self)@.lookup(var@).is_some(),
            done.is_ok() ==> final(self)@ == old(self)@.copy(
                name@,
                old(self)@.lookup(var@).unwrap(),
            ),
            done.is_err() ==> final(self)@ == old(self)@,
    {
        let src = match self.lookup(var) {
            Some(src) => src,
            None => {
                return Err(Malformed);
            },
        };
        let dst = self.alloca(name.clone());
        self.emit(Inst::Copy { dst, src });
        self.define(name, Operand::Slot(dst));
        Ok(())
    }

    /// Emits a call of `prim` on the local `var` with the locals `args`,
    /// handed over in a stack array, and binds `name` to the place of `var`.
    /// Fails when `var` or one of `args` is not bound.
    pub fn compile_apply_call(
        &mut self,
        name: String,
        prim: Prim,
        var: &str,
        args: &Vec<String>,
    ) -> (done: Result<(), Malformed>)
        requires
            old(self)@.inv(),
        ensures
            final(self).module == old(self).module,
            done.is_ok() == (old(self)@.lookup(var@).is_some() && all_bound(
                old(self)@,
                texts(args@),
            )),
            done.is_ok() ==> final(self)@ == old(self)@.apply(
                name@,
                prim,
                old(self)@.lookup(var@).unwrap(),
                operands(old(self)@, texts(args@)),
            ),
    {
        let term = match self.lookup(var) {
            Some(term) => term,
            None => {
                return Err(Malformed);
            },
        };
        let len = args.len();
        self.emit(Inst::ArgsAlloca { len });
        let ghost names = texts(args@);
        let ghost found = operands(old(self)@, names);
        let mut i: usize = 0;
        assert(stores(found.take(0)) =~= Seq::empty());
        assert(seq![Inst::ArgsAlloca { len }] + stores(found.take(0)) =~= seq![
            Inst::ArgsAlloca { len },
        ]);
        while i < len
            invariant
                i <= len,
                len == args@.len(),
                names == texts(args@),
                found == operands(old(self)@, names),
                old(self)@.inv(),
                self.module == old(self).module,
                forall|j: int| 0 <= j < i ==> (#[trigger] old(self)@.lookup(names[j])).is_some(),
                self@ == old(self)@.emit_all(
                    seq![Inst::ArgsAlloca { len }] + stores(found.take(i as int)),
                ),
            decreases len - i,
        {
            let src = match self.lookup(args[i].as_str()) {
                Some(src) => src,
                None => {
                    assert(old(self)@.lookup(names[i as int]).is_none());
                    return Err(Malformed);
                },
            };
            let ghost before = seq![Inst::ArgsAlloca { len }] + stores(found.take(i as int));
            self.emit(Inst::ArgStore { at: i, src });
            proof {
                lemma_emit_more(old(self)@, before, seq![Inst::ArgStore { at: i, src }]);
                assert(before + seq![Inst::ArgStore { at: i, src }] =~= seq![
                    Inst::ArgsAlloca { len },
                ] + stores(found.take(i + 1)));
            }
            i += 1;
        }
        let ghost before = seq![Inst::ArgsAlloca { len }] + stores(found.take(len as int));
        self.emit(Inst::Call { prim, term, len });
        proof {
            lemma_emit_more(old(self)@, before, seq![Inst::Call { prim, term, len }]);
            assert(found.take(len as int) =~= found);
        }
        self.define(name, term);
        Ok(())
    }

    /// Starts an arm of the switch that will end block `origin`: adds its
    /// table entry to `origin`, moves to a fresh block and clears the
    /// innermost scope.
    pub fn begin_arm(&mut self, origin: usize, symbol: u32)
        requires
            origin < old(self)@.blocks.len(),
            old(self)@.scopes.len() > 0,
        ensures
            final(self)@ == old(self)@.begin_arm(origin as int, symbol),
            final(self).module == old(self).module,
    {
        let target = self.blocks.len();
        self.blocks[origin].push(Inst::Case { symbol, target });
        self.blocks.push(Vec::new());
        self.block = target;
        self.clear_scope();
        assert(self@.blocks =~= old(self)@.begin_arm(origin as int, symbol).blocks);
    }

    /// Ends a switch on `on` with `cases` arms: adds the default block,
    /// leaves the scope of the arms and appends the switch to block
    /// `origin`, where the next instruction goes.
    pub fn end_switch(&mut self, origin: usize, on: Operand, cases: usize)
        requires
            origin < old(self)@.blocks.len(),
            old(self)@.scopes.len() > 0,
        ensures
            final(self)@ == old(self)@.end_switch(origin as int, on, cases as nat),
            final(self).module == old(self).module,
    {
        let default = self.blocks.len();
        let mut block: Vec<Inst> = Vec::new();
        block.push(Inst::Unreachable);
        self.blocks.push(block);
        self.block = origin;
        self.leave_scope();
        self.emit(Inst::Switch { on, default, cases });
        assert(self@.blocks =~= old(self)@.end_switch(origin as int, on, cases as nat).blocks);
    }
}

} // verus!
