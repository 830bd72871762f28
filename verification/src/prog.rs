//! Programs in table form: constructor constants, functions and an entry
//! block, each in its own table, with names that are static strings. Every
//! operation names the local that it binds, and a case gives its tag
//! directly. The tables are compiled in order, so a body can load the
//! constants and the functions that stand before it.

use crate::lir::compile::{framed, outcome, output_of, Error, OptLevel, DEPTH, FUEL};
use crate::machine::sound::{has_main, valid_modules_do_not_go_wrong};
use crate::machine::{exec_main, jit};
use crate::rts::Evaluator;
use crate::target::{
    lemma_position_first, position, texts, FunctionView, GlobalView, Inst, Linkage, Module,
    ModuleView, Operand, Prim, Signature,
};
use crate::verify::{valid, verify};
use crate::unit::{
    all_bound, lemma_define_visible, lemma_empty_scope, lemma_start_empty, operands, stores,
    Malformed, State, Unit,
};
use vstd::prelude::*;

verus! {

/// The name of a global or of a local.
pub type Name = &'static str;

/// A constructor tag.
pub type Symbol = u32;

/// The number of arguments that a function or a constructor takes.
pub type Arity = u16;

/// The configuration of a compilation.
#[derive(Clone, Copy, Debug, PartialEq, Eq, Structural)]
pub struct Config {
    pub target: Target,
    pub opt_level: OptLevel,
}

/// What the compiler is asked to do with the module it made.
#[derive(Clone, Copy, Debug, PartialEq, Eq, Structural)]
pub enum Target {
    /// Run it, and report what the entry point returned.
    Jit,
    /// Hand it on to be written out as an object file.
    Binary,
}

/// What a compilation produced.
#[derive(Clone, Copy, Debug, PartialEq, Eq, Structural)]
pub enum Output {
    /// The program ran, and its entry point returned this value.
    Jit(i32),
    /// The module is ready to be written out.
    Binary,
}

/// A program in table form.
#[derive(Debug)]
pub struct Prog {
    pub globals: Vec<Global>,
    pub funs: Vec<Fun>,
    pub main: Block,
}

/// A constructor constant.
#[derive(Debug)]
pub struct Global {
    pub name: Name,
    pub symbol: Symbol,
    pub arity: Arity,
}

/// A function. Its body knows the incoming pointer as `arg_name`.
#[derive(Debug)]
pub struct Fun {
    pub name: Name,
    pub arg_name: Name,
    pub symbol: Symbol,
    pub arity: Arity,
    pub block: Block,
}

/// A sequence of operations.
#[derive(Debug)]
pub struct Block(pub Vec<Op>);

/// One operation of a block.
#[derive(Debug)]
pub enum Op {
    LoadGlobal(LoadGlobal),
    LoadArg(LoadArg),
    NewApp(NewApp),
    NewPartial(NewPartial),
    ApplyPartial(ApplyPartial),
    Copy(Copy),
    FreeArgs(FreeArgs),
    FreeTerm(FreeTerm),
    Eval(Eval),
    Return(Return),
    ReturnSymbol(ReturnSymbol),
    Switch(Switch),
}

/// Copy the constant term `global` into a new local `name`.
#[derive(Debug)]
pub struct LoadGlobal {
    pub name: Name,
    pub global: Name,
}

/// Load argument `index` of `var` into a new local `name`.
#[derive(Debug)]
pub struct LoadArg {
    pub name: Name,
    pub var: Name,
    pub index: u64,
}

/// Build a saturated application in `var` and call it `name` too.
#[derive(Debug)]
pub struct NewApp {
    pub name: Name,
    pub var: Name,
    pub args: Vec<Name>,
}

/// Turn `var` into a partial application and call it `name` too.
#[derive(Debug)]
pub struct NewPartial {
    pub name: Name,
    pub var: Name,
    pub args: Vec<Name>,
}

/// Give the partial application `var` more arguments and call it `name`
/// too.
#[derive(Debug)]
pub struct ApplyPartial {
    pub name: Name,
    pub var: Name,
    pub args: Vec<Name>,
}

/// Copy `var`, with all it holds, into a new local `name`.
#[derive(Debug)]
pub struct Copy {
    pub name: Name,
    pub var: Name,
}

/// Release the argument block of `var`.
#[derive(Debug)]
pub struct FreeArgs {
    pub var: Name,
}

/// Release `var` with all it holds.
#[derive(Debug)]
pub struct FreeTerm {
    pub var: Name,
}

/// Call the evaluator of `var` on `var`, and call the result `name` too.
#[derive(Debug)]
pub struct Eval {
    pub name: Name,
    pub var: Name,
}

/// Write `var` through the incoming pointer and return.
#[derive(Debug)]
pub struct Return {
    pub var: Name,
}

/// Return the constructor tag of `var` from the entry point.
#[derive(Debug)]
pub struct ReturnSymbol {
    pub var: Name,
}

/// Continue with the case that has the tag of `var`.
#[derive(Debug)]
pub struct Switch {
    pub var: Name,
    pub cases: Vec<Case>,
}

/// One arm of a switch: the tag it is for and what to do then.
#[derive(Debug)]
pub struct Case {
    pub symbol: Symbol,
    pub block: Block,
}

/// The characters of each name.
pub open spec fn spellings(names: Seq<Name>) -> Seq<Seq<char>> {
    Seq::new(names.len(), |i: int| names[i]@)
}

/// The names that are visible after `op`, when `visible` were before it.
pub open spec fn after(op: Op, visible: Set<Seq<char>>) -> Set<Seq<char>> {
    match op {
        Op::LoadGlobal(LoadGlobal { name, .. }) => visible.insert(name@),
        Op::LoadArg(LoadArg { name, .. }) => visible.insert(name@),
        Op::NewApp(NewApp { name, .. }) => visible.insert(name@),
        Op::NewPartial(NewPartial { name, .. }) => visible.insert(name@),
        Op::ApplyPartial(ApplyPartial { name, .. }) => visible.insert(name@),
        Op::Copy(Copy { name, .. }) => visible.insert(name@),
        Op::Eval(Eval { name, .. }) => visible.insert(name@),
        _ => visible,
    }
}

/// Every one of `names` is among `visible`.
pub open spec fn all_visible(names: Seq<Name>, visible: Set<Seq<char>>) -> bool {
    forall|i: int| 0 <= i < names.len() ==> visible.contains(#[trigger] names[i]@)
}

/// `op` uses only locals among `visible` and loads only constant terms
/// among `globals`, and the arms of a switch are well-formed in their turn.
pub open spec fn wf_op(op: Op, visible: Set<Seq<char>>, globals: Seq<Seq<char>>) -> bool
    decreases op, 0int,
{
    match op {
        Op::LoadGlobal(LoadGlobal { global, .. }) => position(globals, global@, 0) < globals.len(),
        Op::LoadArg(LoadArg { var, .. }) => visible.contains(var@),
        Op::NewApp(NewApp { var, args, .. }) => visible.contains(var@) && all_visible(
            args@,
            visible,
        ),
        Op::NewPartial(NewPartial { var, args, .. }) => visible.contains(var@) && all_visible(
            args@,
            visible,
        ),
        Op::ApplyPartial(ApplyPartial { var, args, .. }) => visible.contains(var@) && all_visible(
            args@,
            visible,
        ),
        Op::Copy(Copy { var, .. }) => visible.contains(var@),
        Op::FreeArgs(FreeArgs { var }) => visible.contains(var@),
        Op::FreeTerm(FreeTerm { var }) => visible.contains(var@),
        Op::Eval(Eval { var, .. }) => visible.contains(var@),
        Op::Return(Return { var }) => visible.contains(var@),
        Op::ReturnSymbol(ReturnSymbol { var }) => visible.contains(var@),
        Op::Switch(Switch { var, cases }) => {
            &&& visible.contains(var@)
            &&& forall|i: int|
                0 <= i < cases@.len() ==> wf_block(
                    (#[trigger] cases@[i]).block.0@,
                    0,
                    visible,
                    globals,
                )
        },
    }
}

/// The operations of `ops` from `from` on are well-formed, each with the
/// locals that `visible` and the operations before it make visible.
pub open spec fn wf_block(
    ops: Seq<Op>,
    from: int,
    visible: Set<Seq<char>>,
    globals: Seq<Seq<char>>,
) -> bool
    decreases ops, ops.len() - from,
{
    if from < 0 || from >= ops.len() {
        true
    } else {
        &&& wf_op(ops[from], visible, globals)
        &&& wf_block(ops, from + 1, after(ops[from], visible), globals)
    }
}

/// The function under construction after `op` was compiled in state `s`,
/// with the constant terms `globals` in the module.
pub open spec fn after_op(op: Op, s: State, globals: Seq<Seq<char>>) -> State
    decreases op, 0int,
{
    match op {
        Op::LoadGlobal(LoadGlobal { name, global }) => s.load_global(
            name@,
            position(globals, global@, 0),
        ),
        Op::LoadArg(LoadArg { name, var, index }) => s.load_arg(
            name@,
            s.lookup(var@).unwrap(),
            index,
        ),
        Op::NewApp(NewApp { name, var, args }) => s.apply(
            name@,
            Prim::NewApp,
            s.lookup(var@).unwrap(),
            operands(s, spellings(args@)),
        ),
        Op::NewPartial(NewPartial { name, var, args }) => s.apply(
            name@,
            Prim::NewPartial,
            s.lookup(var@).unwrap(),
            operands(s, spellings(args@)),
        ),
        Op::ApplyPartial(ApplyPartial { name, var, args }) => s.apply(
            name@,
            Prim::ApplyPartial,
            s.lookup(var@).unwrap(),
            operands(s, spellings(args@)),
        ),
        Op::Copy(Copy { name, var }) => s.copy(name@, s.lookup(var@).unwrap()),
        Op::FreeArgs(FreeArgs { var }) => s.emit(Inst::FreeArgs { term: s.lookup(var@).unwrap() }),
        Op::FreeTerm(FreeTerm { var }) => s.emit(Inst::FreeTerm { term: s.lookup(var@).unwrap() }),
        Op::Eval(Eval { name, var }) => s.emit(Inst::Eval { term: s.lookup(var@).unwrap() }).define(
            name@,
            s.lookup(var@).unwrap(),
        ),
        Op::Return(Return { var }) => s.emit(Inst::Return { src: s.lookup(var@).unwrap() }),
        Op::ReturnSymbol(ReturnSymbol { var }) => s.emit(
            Inst::ReturnSymbol { src: s.lookup(var@).unwrap() },
        ),
        Op::Switch(Switch { var, cases }) => after_arms(
            cases@,
            0,
            s.add_scope(),
            s.block,
            globals,
        ).end_switch(s.block, s.lookup(var@).unwrap(), cases@.len()),
    }
}

/// The function under construction after the operations of `ops` from
/// `from` on were compiled, one after the other, starting in state `s`.
pub open spec fn after_block(ops: Seq<Op>, from: int, s: State, globals: Seq<Seq<char>>) -> State
    decreases ops, ops.len() - from,
{
    if from < 0 || from >= ops.len() {
        s
    } else {
        after_block(ops, from + 1, after_op(ops[from], s, globals), globals)
    }
}

/// The function under construction after the arms of `cases` from `from`
/// on were compiled for the switch that will end block `origin`: each in a
/// block of its own and in a scope of its own.
pub open spec fn after_arms(
    cases: Seq<Case>,
    from: int,
    s: State,
    origin: int,
    globals: Seq<Seq<char>>,
) -> State
    decreases cases, cases.len() - from,
{
    if from < 0 || from >= cases.len() {
        s
    } else {
        after_arms(
            cases,
            from + 1,
            after_block(cases[from].block.0@, 0, s.begin_arm(origin, cases[from].symbol), globals),
            origin,
            globals,
        )
    }
}

/// Every one of `names` is visible exactly when every one has a binding.
pub proof fn lemma_all_visible(s: State, names: Seq<Name>)
    ensures
        all_visible(names, s.visible()) == all_bound(s, spellings(names)),
{
    if all_visible(names, s.visible()) {
        assert forall|i: int| 0 <= i < spellings(names).len() implies (#[trigger] s.lookup(
            spellings(names)[i],
        )).is_some() by {
            assert(s.visible().contains(names[i]@));
        }
    }
    if all_bound(s, spellings(names)) {
        assert forall|i: int| 0 <= i < names.len() implies s.visible().contains(
            #[trigger] names[i]@,
        ) by {
            assert(s.lookup(spellings(names)[i]).is_some());
        }
    }
}

/// The name as an owned string.
fn string(name: &str) -> (owned: String)
    ensures
        owned@ == name@,
{
    name.to_owned()
}

/// The names as owned strings.
fn strings(names: &Vec<Name>) -> (owned: Vec<String>)
    ensures
        texts(owned@) == spellings(names@),
{
    let mut owned: Vec<String> = Vec::new();
    let mut i: usize = 0;
    while i < names.len()
        invariant
            i <= names@.len(),
            owned@.len() == i,
            forall|j: int| 0 <= j < i ==> (#[trigger] owned@[j])@ == names@[j]@,
        decreases names@.len() - i,
    {
        owned.push(string(names[i]));
        i += 1;
    }
    assert(texts(owned@) =~= spellings(names@));
    owned
}

/// Compiles an application: a call of `prim` on `var` with `args`.
fn apply(name: Name, prim: Prim, var: Name, args: &Vec<Name>, unit: &mut Unit) -> (done: Result<
    (),
    Malformed,
>)
    requires
        old(unit)@.inv(),
    ensures
        final(unit).module == old(unit).module,
        done.is_ok() == (old(unit)@.visible().contains(var@) && all_visible(
            args@,
            old(unit)@.visible(),
        )),
        done.is_ok() ==> final(unit)@ == old(unit)@.apply(
            name@,
            prim,
            old(unit)@.lookup(var@).unwrap(),
            operands(old(unit)@, spellings(args@)),
        ),
        done.is_ok() ==> framed(old(unit)@, final(unit)@),
        done.is_ok() ==> final(unit)@.visible() == old(unit)@.visible().insert(name@),
{
    let ghost s = unit@;
    proof {
        lemma_all_visible(s, args@);
    }
    let owned = strings(args);
    match unit.compile_apply_call(string(name), prim, var, &owned) {
        Ok(()) => {},
        Err(e) => {
            return Err(e);
        },
    }
    proof {
        let term = s.lookup(var@).unwrap();
        let found = operands(s, spellings(args@));
        let len = found.len() as usize;
        lemma_define_visible(
            s.emit_all(
                seq![Inst::ArgsAlloca { len }] + stores(found) + seq![
                    Inst::Call { prim, term, len },
                ],
            ),
            name@,
            term,
        );
        assert(unit@.scopes.drop_last() =~= s.scopes.drop_last());
    }
    Ok(())
}

impl Op {
    /// Compiles the operation into the function under construction. Fails
    /// exactly when the operation is not well-formed where it stands.
    pub fn compile(&self, unit: &mut Unit) -> (done: Result<(), Malformed>)
        requires
            old(unit)@.inv(),
        ensures
            final(unit).module == old(unit).module,
            done.is_ok() == wf_op(*self, old(unit)@.visible(), old(unit).module.global_names()),
            done.is_ok() ==> final(unit)@ == after_op(
                *self,
                old(unit)@,
                old(unit).module.global_names(),
            ),
            done.is_ok() ==> framed(old(unit)@, final(unit)@),
            done.is_ok() ==> final(unit)@.visible() == after(*self, old(unit)@.visible()),
        decreases self, 0int,
    {
        let ghost s = unit@;
        let ghost globals = unit.module.global_names();
        match self {
            Op::LoadGlobal(LoadGlobal { name, global }) => {
                let index = match unit.module.get_global(&string(global)) {
                    Some(index) => index,
                    None => {
                        return Err(Malformed);
                    },
                };
                unit.load_global(string(name), index);
                proof {
                    let dst = s.slots.len() as usize;
                    lemma_define_visible(
                        s.alloca(name@).emit(Inst::LoadGlobal { dst, global: index }),
                        name@,
                        Operand::Slot(dst),
                    );
                    assert(unit@.scopes.drop_last() =~= s.scopes.drop_last());
                }
                Ok(())
            },
            Op::LoadArg(LoadArg { name, var, index }) => {
                match unit.load_arg(string(name), var, *index) {
                    Ok(()) => {},
                    Err(e) => {
                        return Err(e);
                    },
                }
                proof {
                    let dst = s.slots.len() as usize;
                    let src = s.lookup(var@).unwrap();
                    lemma_define_visible(
                        s.alloca(name@).emit(Inst::LoadArg { dst, src, index: *index }),
                        name@,
                        Operand::Slot(dst),
                    );
                    assert(unit@.scopes.drop_last() =~= s.scopes.drop_last());
                }
                Ok(())
            },
            Op::NewApp(NewApp { name, var, args }) => apply(name, Prim::NewApp, var, args, unit),
            Op::NewPartial(NewPartial { name, var, args }) => apply(
                name,
                Prim::NewPartial,
                var,
                args,
                unit,
            ),
            Op::ApplyPartial(ApplyPartial { name, var, args }) => apply(
                name,
                Prim::ApplyPartial,
                var,
                args,
                unit,
            ),
            Op::Copy(Copy { name, var }) => {
                match unit.copy(string(name), var) {
                    Ok(()) => {},
                    Err(e) => {
                        return Err(e);
                    },
                }
                proof {
                    let dst = s.slots.len() as usize;
                    let src = s.lookup(var@).unwrap();
                    lemma_define_visible(
                        s.alloca(name@).emit(Inst::Copy { dst, src }),
                        name@,
                        Operand::Slot(dst),
                    );
                    assert(unit@.scopes.drop_last() =~= s.scopes.drop_last());
                }
                Ok(())
            },
            Op::FreeArgs(FreeArgs { var }) => {
                let term = match unit.lookup(var) {
                    Some(term) => term,
                    None => {
                        return Err(Malformed);
                    },
                };
                unit.emit(Inst::FreeArgs { term });
                Ok(())
            },
            Op::FreeTerm(FreeTerm { var }) => {
                let term = match unit.lookup(var) {
                    Some(term) => term,
                    None => {
                        return Err(Malformed);
                    },
                };
                unit.emit(Inst::FreeTerm { term });
                Ok(())
            },
            Op::Eval(Eval { name, var }) => {
                let term = match unit.lookup(var) {
                    Some(term) => term,
                    None => {
                        return Err(Malformed);
                    },
                };
                unit.emit(Inst::Eval { term });
                unit.define(string(name), term);
                proof {
                    lemma_define_visible(s.emit(Inst::Eval { term }), name@, term);
                    assert(unit@.scopes.drop_last() =~= s.scopes.drop_last());
                }
                Ok(())
            },
            Op::Return(Return { var }) => {
                let src = match unit.lookup(var) {
                    Some(src) => src,
                    None => {
                        return Err(Malformed);
                    },
                };
                unit.emit(Inst::Return { src });
                Ok(())
            },
            Op::ReturnSymbol(ReturnSymbol { var }) => {
                let src = match unit.lookup(var) {
                    Some(src) => src,
                    None => {
                        return Err(Malformed);
                    },
                };
                unit.emit(Inst::ReturnSymbol { src });
                Ok(())
            },
            Op::Switch(Switch { var, cases }) => {
                let on = match unit.lookup(var) {
                    Some(on) => on,
                    None => {
                        return Err(Malformed);
                    },
                };
                let origin = unit.block;
                unit.add_scope();
                let ghost entered = unit@;
                let mut i: usize = 0;
                proof {
                    assert(entered.scopes.drop_last() =~= s.scopes);
                }
                while i < cases.len()
                    invariant
                        i <= cases@.len(),
                        *self == Op::Switch(Switch { var: *var, cases: *cases }),
                        unit.module == old(unit).module,
                        globals == old(unit).module.global_names(),
                        s == old(unit)@,
                        s.inv(),
                        origin == s.block,
                        entered == s.add_scope(),
                        origin < unit@.blocks.len(),
                        unit@.scopes.len() == entered.scopes.len(),
                        unit@.scopes.drop_last() == s.scopes,
                        s.blocks.len() <= unit@.blocks.len(),
                        after_arms(cases@, 0, entered, origin as int, globals) == after_arms(
                            cases@,
                            i as int,
                            unit@,
                            origin as int,
                            globals,
                        ),
                        forall|j: int|
                            0 <= j < i ==> wf_block(
                                (#[trigger] cases@[j]).block.0@,
                                0,
                                s.visible(),
                                globals,
                            ),
                    decreases cases@.len() - i,
                {
                    let case = &cases[i];
                    let ghost at_arm = unit@;
                    unit.begin_arm(origin, case.symbol);
                    proof {
                        assert(unit@.scopes =~= s.scopes.push(Map::empty())) by {
                            assert(at_arm.scopes =~= at_arm.scopes.drop_last().push(
                                at_arm.scopes.last(),
                            ));
                        }
                        assert forall|name: Seq<char>| #[trigger]
                            unit@.visible().contains(name) == s.visible().contains(name) by {
                            lemma_empty_scope(s.scopes, name);
                        }
                        assert(unit@.visible() =~= s.visible());
                        assert(self->Switch_0.cases == *cases);
                        assert(decreases_to!(*self => self->Switch_0));
                        assert(decreases_to!(self->Switch_0 => self->Switch_0.cases));
                        assert(decreases_to!(*cases => cases@));
                        assert(decreases_to!(cases@ => cases@[i as int]));
                        assert(decreases_to!(cases@[i as int] => cases@[i as int].block));
                    }
                    let ghost in_arm = unit@;
                    match case.block.compile(unit) {
                        Ok(()) => {},
                        Err(e) => {
                            assert(!wf_block(cases@[i as int].block.0@, 0, s.visible(), globals));
                            return Err(e);
                        },
                    }
                    proof {
                        assert(unit@.scopes.drop_last() == in_arm.scopes.drop_last());
                        assert(in_arm.scopes.drop_last() =~= s.scopes);
                    }
                    i += 1;
                }
                unit.end_switch(origin, on, cases.len());
                proof {
                    assert(unit@.scopes == s.scopes);
                    assert(unit@.visible() =~= s.visible());
                }
                Ok(())
            },
        }
    }
}

impl Block {
    /// Compiles the operations of the block, one after the other, into the
    /// function under construction. Fails exactly when the block is not
    /// well-formed where it stands.
    pub fn compile(&self, unit: &mut Unit) -> (done: Result<(), Malformed>)
        requires
            old(unit)@.inv(),
        ensures
            final(unit).module == old(unit).module,
            done.is_ok() == wf_block(
                self.0@,
                0,
                old(unit)@.visible(),
                old(unit).module.global_names(),
            ),
            done.is_ok() ==> final(unit)@ == after_block(
                self.0@,
                0,
                old(unit)@,
                old(unit).module.global_names(),
            ),
            done.is_ok() ==> framed(old(unit)@, final(unit)@),
        decreases self, 1int,
    {
        let ghost s = unit@;
        let ghost globals = unit.module.global_names();
        let mut i: usize = 0;
        while i < self.0.len()
            invariant
                i <= self.0@.len(),
                unit.module == old(unit).module,
                globals == old(unit).module.global_names(),
                s == old(unit)@,
                framed(s, unit@),
                wf_block(self.0@, 0, s.visible(), globals) == wf_block(
                    self.0@,
                    i as int,
                    unit@.visible(),
                    globals,
                ),
                after_block(self.0@, 0, s, globals) == after_block(
                    self.0@,
                    i as int,
                    unit@,
                    globals,
                ),
            decreases self.0@.len() - i,
        {
            proof {
                assert(decreases_to!(*self => self.0));
                assert(decreases_to!(self.0 => self.0@));
                assert(decreases_to!(self.0@ => self.0@[i as int]));
            }
            match self.0[i].compile(unit) {
                Ok(()) => {},
                Err(e) => {
                    return Err(e);
                },
            }
            proof {
                assert(unit@.scopes.drop_last() == s.scopes.drop_last());
            }
            i += 1;
        }
        Ok(())
    }
}

/// The names of constant global terms.
pub open spec fn names_of(globals: Seq<GlobalView>) -> Seq<Seq<char>> {
    Seq::new(globals.len(), |i: int| globals[i].name)
}

/// The module `m` with the constant term of `global`.
pub open spec fn with_global(m: ModuleView, global: Global) -> ModuleView {
    ModuleView {
        globals: m.globals.push(
            GlobalView {
                name: global.name@,
                fun: Evaluator::Noop,
                symbol: global.symbol,
                arity: global.arity,
            },
        ),
        functions: m.functions,
    }
}

/// The module `m` with the target function of `fun`, compiled with the
/// constant terms of `m` to load, and then with the constant term of `fun`.
pub open spec fn with_fun(m: ModuleView, fun: Fun) -> ModuleView {
    let made = after_block(
        fun.block.0@,
        0,
        State::start().define(fun.arg_name@, Operand::Param),
        names_of(m.globals),
    );
    ModuleView {
        globals: m.globals.push(
            GlobalView {
                name: fun.name@,
                fun: Evaluator::Code(m.functions.len() as usize),
                symbol: fun.symbol,
                arity: fun.arity,
            },
        ),
        functions: m.functions.push(
            FunctionView {
                name: Seq::empty(),
                linkage: Linkage::Internal,
                signature: Signature::Evaluator,
                slots: made.slots,
                blocks: made.blocks,
            },
        ),
    }
}

/// The module `m` with the entry point `main`, compiled from `block` with
/// the constant terms of `m` to load.
pub open spec fn with_main(m: ModuleView, block: Block) -> ModuleView {
    let made = after_block(block.0@, 0, State::start(), names_of(m.globals));
    ModuleView {
        globals: m.globals,
        functions: m.functions.push(
            FunctionView {
                name: "main"@,
                linkage: Linkage::External,
                signature: Signature::Main,
                slots: made.slots,
                blocks: made.blocks,
            },
        ),
    }
}

impl Prog {
    /// The module after the first `n` constants were compiled.
    pub open spec fn after_globals(&self, n: int) -> ModuleView
        decreases n,
    {
        if n <= 0 {
            ModuleView { globals: Seq::empty(), functions: Seq::empty() }
        } else {
            with_global(self.after_globals(n - 1), self.globals@[n - 1])
        }
    }

    /// The module after every constant and the first `n` functions were
    /// compiled.
    pub open spec fn after_funs(&self, n: int) -> ModuleView
        decreases n,
    {
        if n <= 0 {
            self.after_globals(self.globals@.len() as int)
        } else {
            with_fun(self.after_funs(n - 1), self.funs@[n - 1])
        }
    }

    /// The target module of the program.
    pub open spec fn emitted(&self) -> ModuleView {
        with_main(self.after_funs(self.funs@.len() as int), self.main)
    }

    /// Function `n` is well-formed: its body uses only locals that are
    /// bound, starting from the name of its incoming pointer, and loads
    /// only the constant terms that stand before it.
    pub open spec fn wf_fun(&self, n: int) -> bool {
        wf_block(
            self.funs@[n].block.0@,
            0,
            Set::empty().insert(self.funs@[n].arg_name@),
            names_of(self.after_funs(n).globals),
        )
    }

    /// Every function is well-formed, and so is the entry block, which
    /// starts without a local and can load every constant term.
    pub open spec fn well_formed(&self) -> bool {
        &&& forall|n: int| 0 <= n < self.funs@.len() ==> self.wf_fun(n)
        &&& wf_block(
            self.main.0@,
            0,
            Set::empty(),
            names_of(self.after_funs(self.funs@.len() as int).globals),
        )
    }

    /// What compiling the program under `config` comes to.
    pub open spec fn compiled(&self, config: Config) -> Result<Output, Error> {
        if !self.well_formed() {
            Err(Error::Malformed)
        } else if !valid(self.emitted()) {
            Err(Error::Invalid)
        } else {
            match config.target {
                Target::Jit => ran(exec_main(self.emitted(), FUEL as nat, DEPTH as nat)),
                Target::Binary => Ok(Output::Binary),
            }
        }
    }
}

/// What a run that ended in `halt` makes of the compilation: the value the
/// entry point returned, or the exit code of the unhandled-case trap; a
/// run that was cut short is an error.
pub open spec fn ran(halt: crate::machine::Halt) -> Result<Output, Error> {
    match outcome(halt) {
        Ok(crate::lir::compile::Output::ExitCode(code)) => Ok(Output::Jit(code)),
        Ok(crate::lir::compile::Output::Binary) => Ok(Output::Binary),
        Err(e) => Err(e),
    }
}

impl Global {
    /// Adds the constant term of the constant to the module.
    pub fn compile(&self, unit: &mut Unit)
        ensures
            final(unit).module@ == with_global(old(unit).module@, *self),
            final(unit)@ == old(unit)@,
    {
        unit.add_global(Evaluator::Noop, string(self.name), self.symbol, self.arity);
    }
}

impl Fun {
    /// Compiles the function into a new function of the module, and adds
    /// its constant term. Fails exactly when the body is not well-formed.
    pub fn compile(&self, unit: &mut Unit) -> (done: Result<(), Malformed>)
        ensures
            done.is_ok() == wf_block(
                self.block.0@,
                0,
                Set::empty().insert(self.arg_name@),
                names_of(old(unit).module@.globals),
            ),
            done.is_ok() ==> final(unit).module@ == with_fun(old(unit).module@, *self),
    {
        assert(unit.module.global_names() =~= names_of(unit.module@.globals));
        let fun = unit.module.add_function(String::new(), Signature::Evaluator, Linkage::Internal);
        assert(unit.module.global_names() =~= names_of(unit.module@.globals));
        unit.begin();
        unit.define(string(self.arg_name), Operand::Param);
        proof {
            lemma_define_visible(State::start(), self.arg_name@, Operand::Param);
            lemma_start_empty();
        }
        match self.block.compile(unit) {
            Ok(()) => {},
            Err(e) => {
                return Err(e);
            },
        }
        unit.finish(fun);
        unit.add_global(Evaluator::Code(fun), string(self.name), self.symbol, self.arity);
        assert(unit.module@.functions =~= with_fun(old(unit).module@, *self).functions);
        Ok(())
    }
}

impl Prog {
    /// Compiles the entry block into a new externally visible function
    /// `main`. Fails exactly when the block is not well-formed.
    pub fn compile_main(&self, unit: &mut Unit) -> (done: Result<(), Malformed>)
        ensures
            done.is_ok() == wf_block(
                self.main.0@,
                0,
                Set::empty(),
                names_of(old(unit).module@.globals),
            ),
            done.is_ok() ==> final(unit).module@ == with_main(old(unit).module@, self.main),
    {
        assert(unit.module.global_names() =~= names_of(unit.module@.globals));
        let fun = unit.module.add_function(string("main"), Signature::Main, Linkage::External);
        assert(unit.module.global_names() =~= names_of(unit.module@.globals));
        unit.begin();
        proof {
            lemma_start_empty();
        }
        match self.main.compile(unit) {
            Ok(()) => {},
            Err(e) => {
                return Err(e);
            },
        }
        unit.finish(fun);
        assert(unit.module@.functions =~= with_main(old(unit).module@, self.main).functions);
        Ok(())
    }

    /// Lowers the program to its target module. Fails exactly when the
    /// program is not well-formed.
    pub fn emit(&self) -> (made: Result<Module, Malformed>)
        ensures
            made.is_ok() == self.well_formed(),
            made matches Ok(module) ==> module@ == self.emitted(),
    {
        let mut unit = Unit::new(Module::new());
        let mut i: usize = 0;
        while i < self.globals.len()
            invariant
                i <= self.globals@.len(),
                unit.module@ == self.after_globals(i as int),
            decreases self.globals@.len() - i,
        {
            self.globals[i].compile(&mut unit);
            i += 1;
        }
        let mut i: usize = 0;
        while i < self.funs.len()
            invariant
                i <= self.funs@.len(),
                unit.module@ == self.after_funs(i as int),
                forall|n: int| 0 <= n < i ==> self.wf_fun(n),
            decreases self.funs@.len() - i,
        {
            match self.funs[i].compile(&mut unit) {
                Ok(()) => {},
                Err(e) => {
                    assert(!self.wf_fun(i as int));
                    return Err(e);
                },
            }
            i += 1;
        }
        match self.compile_main(&mut unit) {
            Ok(()) => {},
            Err(e) => {
                return Err(e);
            },
        }
        Ok(unit.module)
    }

    /// Compiles the program: lowers it to its target module, verifies the
    /// module and, when asked to, runs it from its entry point.
    pub fn compile(&self, config: Config) -> (out: Result<Output, Error>)
        ensures
            out == self.compiled(config),
    {
        let module = match self.emit() {
            Ok(module) => module,
            Err(_) => {
                return Err(Error::Malformed);
            },
        };
        if !verify(&module) {
            return Err(Error::Invalid);
        }
        match config.target {
            Target::Jit => match output_of(jit(&module, FUEL, DEPTH)) {
                Ok(crate::lir::compile::Output::ExitCode(code)) => Ok(Output::Jit(code)),
                Ok(crate::lir::compile::Output::Binary) => Ok(Output::Binary),
                Err(e) => Err(e),
            },
            Target::Binary => Ok(Output::Binary),
        }
    }
}

proof fn lemma_funs_are_unnamed(prog: Prog, n: int)
    requires
        0 <= n,
    ensures
        forall|k: int|
            0 <= k < prog.after_funs(n).functions.len() ==> (#[trigger] prog.after_funs(
                n,
            ).functions[k]).name == Seq::<char>::empty(),
    decreases n,
{
    if n > 0 {
        lemma_funs_are_unnamed(prog, n - 1);
    } else {
        lemma_globals_have_no_function(prog, prog.globals@.len() as int);
    }
}

proof fn lemma_globals_have_no_function(prog: Prog, n: int)
    requires
        0 <= n,
    ensures
        prog.after_globals(n).functions.len() == 0,
    decreases n,
{
    if n > 0 {
        lemma_globals_have_no_function(prog, n - 1);
    }
}

/// The module of a program in table form has an entry point.
pub proof fn programs_have_main(prog: Prog)
    ensures
        has_main(prog.emitted()),
{
    reveal_strlit("main");
    let before = prog.after_funs(prog.funs@.len() as int);
    let m = prog.emitted();
    let at = before.functions.len() as int;
    lemma_funs_are_unnamed(prog, prog.funs@.len() as int);
    let names = Seq::new(m.functions.len(), |i: int| m.functions[i].name);
    assert(names[at] == "main"@);
    assert("main"@.len() == 4);
    assert forall|k: int| 0 <= k < at implies names[k] != "main"@ by {
        assert(m.functions[k] == before.functions[k]);
    }
    lemma_position_first(names, "main"@, 0, at);
}

/// Compiling a program in table form does not go wrong: whatever the
/// program, a compilation never ends because the module it made is broken
/// where it runs.
pub proof fn compile_does_not_go_wrong(prog: Prog, config: Config)
    ensures
        prog.compiled(config) != Err::<Output, Error>(
            Error::Fault(crate::machine::Fault::Invalid),
        ),
{
    if prog.well_formed() && valid(prog.emitted()) && config.target == Target::Jit {
        programs_have_main(prog);
        valid_modules_do_not_go_wrong(prog.emitted(), FUEL as nat, DEPTH as nat);
    }
}

} // verus!
