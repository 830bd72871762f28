//! The code generator for programs: it lowers every global to a constant
//! term of the target module and every function to target code.

use crate::lir::{
    after, all_visible, initial, is_main, main_name, self_name, wf_block, wf_op, Case, Global, Op,
    Program,
};
use crate::machine::{exec_main, jit, Fault, Halt};
use crate::rts::{todo, Evaluator};
use crate::target::{
    texts, FunctionView, GlobalView, Inst, Linkage, Module, ModuleView, Operand, Prim, Signature,
};
use crate::verify::{valid, verify};
use crate::unit::{
    all_bound, lemma_define_visible, lemma_empty_scope, lemma_start_empty, operands, Malformed,
    State, Unit,
};
use vstd::prelude::*;
use vstd::string::StringExecFns;

verus! {

/// The name of the constant term of the global called `name`.
pub open spec fn term_label(name: Seq<char>) -> Seq<char> {
    "term_"@ + name
}

/// The name of the target function of the function called `name`.
pub open spec fn fun_label(name: Seq<char>) -> Seq<char> {
    "fun_"@ + name
}

/// The name of the constant term of the global called `name`.
pub fn term_name(name: &String) -> (label: String)
    ensures
        label@ == term_label(name@),
{
    String::from_str("term_").concat(name.as_str())
}

/// The name of the target function of the function called `name`.
pub fn fun_name(name: &String) -> (label: String)
    ensures
        label@ == fun_label(name@),
{
    String::from_str("fun_").concat(name.as_str())
}

/// What compiling leaves of the state it started in: the same insertion
/// point, the same scopes below the innermost, and no block fewer.
pub open spec fn framed(before: State, now: State) -> bool {
    &&& now.inv()
    &&& now.block == before.block
    &&& now.scopes.len() == before.scopes.len()
    &&& now.scopes.drop_last() == before.scopes.drop_last()
    &&& before.blocks.len() <= now.blocks.len()
}

/// The function under construction after `op` was compiled in state `s`.
pub open spec fn after_op(op: Op, s: State, program: Program) -> State
    decreases op, 0int,
{
    match op {
        Op::LoadGlobal { global } => s.load_global(
            global@,
            program.term_index(global@).unwrap() as int,
        ),
        Op::LoadArg { name, var, index } => s.load_arg(name@, s.lookup(var@).unwrap(), index),
        Op::NewApp { name, var, args } => s.apply(
            name@,
            Prim::NewApp,
            s.lookup(var@).unwrap(),
            operands(s, texts(args@)),
        ),
        Op::NewPartial { name, var, args } => s.apply(
            name@,
            Prim::NewPartial,
            s.lookup(var@).unwrap(),
            operands(s, texts(args@)),
        ),
        Op::ApplyPartial { name, var, args } => s.apply(
            name@,
            Prim::ApplyPartial,
            s.lookup(var@).unwrap(),
            operands(s, texts(args@)),
        ),
        Op::Copy { name, var } => s.copy(name@, s.lookup(var@).unwrap()),
        Op::Eval { var } => s.emit(Inst::Eval { term: s.lookup(var@).unwrap() }),
        Op::FreeArgs { var } => s.emit(Inst::FreeArgs { term: s.lookup(var@).unwrap() }),
        Op::FreeTerm { var } => s.emit(Inst::FreeTerm { term: s.lookup(var@).unwrap() }),
        Op::ReturnSymbol { var } => s.emit(Inst::ReturnSymbol { src: s.lookup(var@).unwrap() }),
        Op::Return { var } => s.emit(Inst::Return { src: s.lookup(var@).unwrap() }),
        Op::Switch { var, cases } => after_arms(
            cases@,
            0,
            s.add_scope(),
            s.block,
            program,
        ).end_switch(s.block, s.lookup(var@).unwrap(), cases@.len()),
        Op::Todo => s.emit(Inst::Todo),
    }
}

/// The function under construction after the operations of `ops` from
/// `from` on were compiled, one after the other, starting in state `s`.
pub open spec fn after_block(ops: Seq<Op>, from: int, s: State, program: Program) -> State
    decreases ops, ops.len() - from,
{
    if from < 0 || from >= ops.len() {
        s
    } else {
        after_block(ops, from + 1, after_op(ops[from], s, program), program)
    }
}

/// The function under construction after the arms of `cases` from `from`
/// on were compiled for the switch that will end block `origin`: each in a
/// block of its own and in a scope of its own.
pub open spec fn after_arms(cases: Seq<Case>, from: int, s: State, origin: int, program: Program) -> State
    decreases cases, cases.len() - from,
{
    if from < 0 || from >= cases.len() {
        s
    } else {
        after_arms(
            cases,
            from + 1,
            after_block(
                cases[from].block@,
                0,
                s.begin_arm(origin, program.const_symbol(cases[from].global@).unwrap()),
                program,
            ),
            origin,
            program,
        )
    }
}

/// Every one of `names` is visible exactly when every one has a binding.
pub proof fn lemma_all_visible(s: State, names: Seq<String>)
    ensures
        all_visible(names, s.visible()) == all_bound(s, texts(names)),
{
    if all_visible(names, s.visible()) {
        assert forall|i: int| 0 <= i < texts(names).len() implies (#[trigger] s.lookup(
            texts(names)[i],
        )).is_some() by {
            assert(s.visible().contains(names[i]@));
        }
    }
    if all_bound(s, texts(names)) {
        assert forall|i: int| 0 <= i < names.len() implies s.visible().contains(
            #[trigger] names[i]@,
        ) by {
            assert(s.lookup(texts(names)[i]).is_some());
        }
    }
}

/// Compiles one operation into the function under construction. Fails
/// exactly when the operation is not well-formed where it stands.
pub fn compile_op(op: &Op, unit: &mut Unit, program: &Program) -> (done: Result<(), Malformed>)
    requires
        old(unit)@.inv(),
    ensures
        final(unit).module == old(unit).module,
        done.is_ok() == wf_op(*op, old(unit)@.visible(), *program),
        done.is_ok() ==> final(unit)@ == after_op(*op, old(unit)@, *program),
        done.is_ok() ==> framed(old(unit)@, final(unit)@),
        done.is_ok() ==> final(unit)@.visible() == after(*op, old(unit)@.visible()),
    decreases op, 0int,
{
    let ghost s = unit@;
    match op {
        Op::LoadGlobal { global } => {
            let index = match program.get_term(global) {
                Some(index) => index,
                None => {
                    return Err(Malformed);
                },
            };
            unit.load_global(global.clone(), index);
            proof {
                let dst = s.slots.len() as usize;
                lemma_define_visible(
                    s.alloca(global@).emit(Inst::LoadGlobal { dst, global: index }),
                    global@,
                    Operand::Slot(dst),
                );
                assert(unit@.scopes.drop_last() =~= s.scopes.drop_last());
            }
            Ok(())
        },
        Op::LoadArg { name, var, index } => {
            match unit.load_arg(name.clone(), var.as_str(), *index) {
                Ok(()) => {},
                Err(e) => {
                    return Err(e);
                },
            }
            proof {
                let dst = s.slots.len() as usize;
                let src = s.lookup(var@).unwrap();
                lemma_define_visible(
                    s.alloca(name@).emit(Inst::LoadArg { dst, src, index: *index }),
                    name@,
                    Operand::Slot(dst),
                );
                assert(unit@.scopes.drop_last() =~= s.scopes.drop_last());
            }
            Ok(())
        },
        Op::NewApp { name, var, args } => apply(name, Prim::NewApp, var, args, unit),
        Op::NewPartial { name, var, args } => apply(name, Prim::NewPartial, var, args, unit),
        Op::ApplyPartial { name, var, args } => apply(name, Prim::ApplyPartial, var, args, unit),
        Op::Copy { name, var } => {
            match unit.copy(name.clone(), var.as_str()) {
                Ok(()) => {},
                Err(e) => {
                    return Err(e);
                },
            }
            proof {
                let dst = s.slots.len() as usize;
                let src = s.lookup(var@).unwrap();
                lemma_define_visible(
                    s.alloca(name@).emit(Inst::Copy { dst, src }),
                    name@,
                    Operand::Slot(dst),
                );
                assert(unit@.scopes.drop_last() =~= s.scopes.drop_last());
            }
            Ok(())
        },
        Op::Eval { var } => {
            let term = match unit.lookup(var.as_str()) {
                Some(term) => term,
                None => {
                    return Err(Malformed);
                },
            };
            unit.emit(Inst::Eval { term });
            Ok(())
        },
        Op::FreeArgs { var } => {
            let term = match unit.lookup(var.as_str()) {
                Some(term) => term,
                None => {
                    return Err(Malformed);
                },
            };
            unit.emit(Inst::FreeArgs { term });
            Ok(())
        },
        Op::FreeTerm { var } => {
            let term = match unit.lookup(var.as_str()) {
                Some(term) => term,
                None => {
                    return Err(Malformed);
                },
            };
            unit.emit(Inst::FreeTerm { term });
            Ok(())
        },
        Op::ReturnSymbol { var } => {
            let src = match unit.lookup(var.as_str()) {
                Some(src) => src,
                None => {
                    return Err(Malformed);
                },
            };
            unit.emit(Inst::ReturnSymbol { src });
            Ok(())
        },
        Op::Return { var } => {
            let src = match unit.lookup(var.as_str()) {
                Some(src) => src,
                None => {
                    return Err(Malformed);
                },
            };
            unit.emit(Inst::Return { src });
            Ok(())
        },
        Op::Switch { var, cases } => {
            let on = match unit.lookup(var.as_str()) {
                Some(on) => on,
                None => {
                    return Err(Malformed);
                },
            };
            let origin = unit.block;
            unit.add_scope();
            let ghost entered = unit@;
            let mut i: usize = 0;
            proof {
                assert(entered.scopes.drop_last() =~= s.scopes);
            }
            while i < cases.len()
                invariant
                    i <= cases@.len(),
                    *op == (Op::Switch { var: *var, cases: *cases }),
                    unit.module == old(unit).module,
                    s == old(unit)@,
                    s.inv(),
                    origin == s.block,
                    entered == s.add_scope(),
                    origin < unit@.blocks.len(),
                    unit@.scopes.len() == entered.scopes.len(),
                    unit@.scopes.drop_last() == s.scopes,
                    s.blocks.len() <= unit@.blocks.len(),
                    after_arms(cases@, 0, entered, origin as int, *program) == after_arms(
                        cases@,
                        i as int,
                        unit@,
                        origin as int,
                        *program,
                    ),
                    forall|j: int|
                        0 <= j < i ==> {
                            &&& program.const_symbol((#[trigger] cases@[j]).global@).is_some()
                            &&& wf_block(cases@[j].block@, 0, s.visible(), *program)
                        },
                decreases cases@.len() - i,
            {
                let case = &cases[i];
                let symbol = match program.get(&case.global) {
                    Some(Global::Const { symbol, .. }) => *symbol,
                    _ => {
                        assert(program.const_symbol(cases@[i as int].global@).is_none());
                        return Err(Malformed);
                    },
                };
                let ghost at_arm = unit@;
                unit.begin_arm(origin, symbol);
                proof {
                    assert(unit@.scopes =~= s.scopes.push(Map::empty())) by {
                        assert(at_arm.scopes =~= at_arm.scopes.drop_last().push(
                            at_arm.scopes.last(),
                        ));
                    }
                    assert forall|name: Seq<char>| #[trigger]
                        unit@.visible().contains(name) == s.visible().contains(name) by {
                        lemma_empty_scope(s.scopes, name);
                    }
                    assert(unit@.visible() =~= s.visible());
                    assert(op->cases == *cases);
                    assert(decreases_to!(*op => op->cases));
                    assert(decreases_to!(*cases => cases@));
                    assert(decreases_to!(cases@ => cases@[i as int]));
                    assert(decreases_to!(cases@[i as int] => cases@[i as int].block));
                }
                let ghost in_arm = unit@;
                match compile_block(&case.block, unit, program) {
                    Ok(()) => {},
                    Err(e) => {
                        assert(!wf_block(cases@[i as int].block@, 0, s.visible(), *program));
                        return Err(e);
                    },
                }
                proof {
                    assert(unit@.scopes.drop_last() == in_arm.scopes.drop_last());
                    assert(in_arm.scopes.drop_last() =~= s.scopes);
                }
                i += 1;
            }
            unit.end_switch(origin, on, cases.len());
            proof {
                assert(unit@.scopes == s.scopes);
                assert(unit@.visible() =~= s.visible());
            }
            Ok(())
        },
        Op::Todo => {
            unit.emit(Inst::Todo);
            Ok(())
        },
    }
}

/// Compiles an application: a call of `prim` on `var` with `args`.
fn apply(name: &String, prim: Prim, var: &String, args: &Vec<String>, unit: &mut Unit) -> (done:
    Result<(), Malformed>)
    requires
        old(unit)@.inv(),
    ensures
        final(unit).module == old(unit).module,
        done.is_ok() == (old(unit)@.visible().contains(var@) && all_visible(
            args@,
            old(unit)@.visible(),
        )),
        done.is_ok() ==> final(unit)@ == old(unit)@.apply(
            name@,
            prim,
            old(unit)@.lookup(var@).unwrap(),
            operands(old(unit)@, texts(args@)),
        ),
        done.is_ok() ==> framed(old(unit)@, final(unit)@),
        done.is_ok() ==> final(unit)@.visible() == old(unit)@.visible().insert(name@),
{
    let ghost s = unit@;
    proof {
        lemma_all_visible(s, args@);
    }
    match unit.compile_apply_call(name.clone(), prim, var.as_str(), args) {
        Ok(()) => {},
        Err(e) => {
            return Err(e);
        },
    }
    proof {
        let term = s.lookup(var@).unwrap();
        let found = operands(s, texts(args@));
        let len = found.len() as usize;
        lemma_define_visible(
            s.emit_all(
                seq![Inst::ArgsAlloca { len }] + crate::unit::stores(found) + seq![
                    Inst::Call { prim, term, len },
                ],
            ),
            name@,
            term,
        );
        assert(unit@.scopes.drop_last() =~= s.scopes.drop_last());
    }
    Ok(())
}

/// Compiles the operations of a block, one after the other, into the
/// function under construction. Fails exactly when the block is not
/// well-formed where it stands.
pub fn compile_block(block: &Vec<Op>, unit: &mut Unit, program: &Program) -> (done: Result<
    (),
    Malformed,
>)
    requires
        old(unit)@.inv(),
    ensures
        final(unit).module == old(unit).module,
        done.is_ok() == wf_block(block@, 0, old(unit)@.visible(), *program),
        done.is_ok() ==> final(unit)@ == after_block(block@, 0, old(unit)@, *program),
        done.is_ok() ==> framed(old(unit)@, final(unit)@),
    decreases block, 1int,
{
    let ghost s = unit@;
    let mut i: usize = 0;
    while i < block.len()
        invariant
            i <= block@.len(),
            unit.module == old(unit).module,
            s == old(unit)@,
            framed(s, unit@),
            wf_block(block@, 0, s.visible(), *program) == wf_block(
                block@,
                i as int,
                unit@.visible(),
                *program,
            ),
            after_block(block@, 0, s, *program) == after_block(block@, i as int, unit@, *program),
        decreases block@.len() - i,
    {
        let ghost before = unit@;
        match compile_op(&block[i], unit, program) {
            Ok(()) => {},
            Err(e) => {
                return Err(e);
            },
        }
        proof {
            assert(unit@.scopes.drop_last() == s.scopes.drop_last());
        }
        i += 1;
    }
    Ok(())
}

/// The state that the body of the global called `name` is compiled from:
/// in the entry point no local is bound, elsewhere `self` is bound to the
/// incoming pointer.
pub open spec fn start_of(name: Seq<char>) -> State {
    if name == main_name() {
        State::start()
    } else {
        State::start().define(self_name(), Operand::Param)
    }
}

/// The function under construction after the body of entry `i` was
/// compiled.
pub open spec fn body(program: Program, i: int) -> State {
    match program.entries@[i].1 {
        Global::Fun { block, .. } => after_block(
            block@,
            0,
            start_of(program.entries@[i].0@),
            program,
        ),
        _ => State::start(),
    }
}

/// The module `m` with the constant term of the global `global` called
/// `name`, and with a target function still without a body if the global is
/// a function.
pub open spec fn declare(m: ModuleView, name: Seq<char>, global: Global) -> ModuleView {
    match global {
        Global::Const { arity, symbol } => ModuleView {
            globals: m.globals.push(
                GlobalView { name: term_label(name), fun: Evaluator::Noop, symbol, arity },
            ),
            functions: m.functions,
        },
        Global::Fun { arity, .. } => ModuleView {
            globals: m.globals.push(
                GlobalView {
                    name: term_label(name),
                    fun: Evaluator::Code(m.functions.len() as usize),
                    symbol: 0,
                    arity,
                },
            ),
            functions: m.functions.push(
                FunctionView {
                    name: fun_label(name),
                    linkage: Linkage::Internal,
                    signature: Signature::Evaluator,
                    slots: Seq::empty(),
                    blocks: Seq::empty(),
                },
            ),
        },
    }
}

/// The module after the first `n` entries were declared: every global but
/// the entry point.
pub open spec fn declared(program: Program, n: int) -> ModuleView
    decreases n,
{
    if n <= 0 {
        ModuleView { globals: Seq::empty(), functions: Seq::empty() }
    } else if program.entries@[n - 1].0@ == main_name() {
        declared(program, n - 1)
    } else {
        declare(declared(program, n - 1), program.entries@[n - 1].0@, program.entries@[n - 1].1)
    }
}

/// The module `m` with the body of entry `i`, if that entry is a function:
/// as a new function `main` for the entry point, else in function `f`.
pub open spec fn define(m: ModuleView, program: Program, i: int, f: int) -> ModuleView {
    let made = body(program, i);
    if !(program.entries@[i].1 is Fun) {
        m
    } else if program.entries@[i].0@ == main_name() {
        ModuleView {
            globals: m.globals,
            functions: m.functions.push(
                FunctionView {
                    name: main_name(),
                    linkage: Linkage::External,
                    signature: Signature::Main,
                    slots: made.slots,
                    blocks: made.blocks,
                },
            ),
        }
    } else {
        ModuleView {
            globals: m.globals,
            functions: m.functions.update(
                f,
                FunctionView { slots: made.slots, blocks: made.blocks, ..m.functions[f] },
            ),
        }
    }
}

/// The module after every entry was declared and the first `n` entries
/// were defined.
pub open spec fn defined(program: Program, n: int) -> ModuleView
    decreases n,
{
    if n <= 0 {
        declared(program, program.entries@.len() as int)
    } else {
        define(
            defined(program, n - 1),
            program,
            n - 1,
            declared(program, n - 1).functions.len() as int,
        )
    }
}

/// The target module of `program`.
pub open spec fn emitted(program: Program) -> ModuleView {
    defined(program, program.entries@.len() as int)
}

/// Declaring more entries never takes a function away.
pub proof fn lemma_declared_grows(program: Program, n: int, m: int)
    requires
        0 <= n <= m,
    ensures
        declared(program, n).functions.len() <= declared(program, m).functions.len(),
    decreases m - n,
{
    if n < m {
        lemma_declared_grows(program, n, m - 1);
    }
}

/// Nothing is visible where the entry point starts, and only `self` where
/// another function starts.
pub proof fn lemma_start_visible(name: Seq<char>)
    ensures
        start_of(name).visible() == initial(name),
        start_of(name).inv(),
{
    lemma_start_empty();
    if name != main_name() {
        lemma_define_visible(State::start(), self_name(), Operand::Param);
        assert(State::start().define(self_name(), Operand::Param).blocks.len() == 1);
    }
}

/// Declares the global `global` called `name`: its constant term, and for
/// a function the target function that its body will go to.
pub fn define_const(name: &String, global: &Global, unit: &mut Unit)
    ensures
        final(unit).module@ == declare(old(unit).module@, name@, *global),
        final(unit)@ == old(unit)@,
{
    match global {
        Global::Const { arity, symbol } => {
            unit.add_global(Evaluator::Noop, term_name(name), *symbol, *arity);
        },
        Global::Fun { arity, .. } => {
            let fun = unit.module.add_function(
                fun_name(name),
                Signature::Evaluator,
                Linkage::Internal,
            );
            unit.add_global(Evaluator::Code(fun), term_name(name), 0, *arity);
        },
    }
}

/// Compiles the body of the entry point into a new externally visible
/// function `main`. Fails exactly when the body is not well-formed.
pub fn define_main(main: &Vec<Op>, unit: &mut Unit, program: &Program) -> (done: Result<
    (),
    Malformed,
>)
    ensures
        done.is_ok() == wf_block(main@, 0, initial(main_name()), *program),
        done.is_ok() ==> final(unit).module@ == (ModuleView {
            globals: old(unit).module@.globals,
            functions: old(unit).module@.functions.push(
                FunctionView {
                    name: main_name(),
                    linkage: Linkage::External,
                    signature: Signature::Main,
                    slots: after_block(main@, 0, State::start(), *program).slots,
                    blocks: after_block(main@, 0, State::start(), *program).blocks,
                },
            ),
        }),
{
    let fun = unit.module.add_function("main".to_owned(), Signature::Main, Linkage::External);
    unit.begin();
    proof {
        lemma_start_visible(main_name());
    }
    match compile_block(main, unit, program) {
        Ok(()) => {},
        Err(e) => {
            return Err(e);
        },
    }
    unit.finish(fun);
    assert(unit.module@.functions =~= old(unit).module@.functions.push(
        FunctionView {
            name: main_name(),
            linkage: Linkage::External,
            signature: Signature::Main,
            slots: after_block(main@, 0, State::start(), *program).slots,
            blocks: after_block(main@, 0, State::start(), *program).blocks,
        },
    ));
    Ok(())
}

/// Compiles the body of a function into function `fun` of the module, with
/// `self` bound to the incoming pointer. Fails exactly when the body is not
/// well-formed.
pub fn define_fun(fun: usize, block: &Vec<Op>, unit: &mut Unit, program: &Program) -> (done:
    Result<(), Malformed>)
    requires
        fun < old(unit).module@.functions.len(),
    ensures
        done.is_ok() == wf_block(block@, 0, Set::empty().insert(self_name()), *program),
        done.is_ok() ==> final(unit).module@ == (ModuleView {
            globals: old(unit).module@.globals,
            functions: old(unit).module@.functions.update(
                fun as int,
                FunctionView {
                    slots: after_block(
                        block@,
                        0,
                        State::start().define(self_name(), Operand::Param),
                        *program,
                    ).slots,
                    blocks: after_block(
                        block@,
                        0,
                        State::start().define(self_name(), Operand::Param),
                        *program,
                    ).blocks,
                    ..old(unit).module@.functions[fun as int]
                },
            ),
        }),
{
    unit.begin();
    unit.define("self".to_owned(), Operand::Param);
    proof {
        lemma_define_visible(State::start(), self_name(), Operand::Param);
        lemma_start_empty();
    }
    match compile_block(block, unit, program) {
        Ok(()) => {},
        Err(e) => {
            return Err(e);
        },
    }
    unit.finish(fun);
    Ok(())
}

/// Lowers `program` to its target module. Fails exactly when the program
/// is not well-formed.
pub fn emit(program: &Program) -> (made: Result<Module, Malformed>)
    ensures
        made.is_ok() == program.well_formed(),
        made matches Ok(module) ==> module@ == emitted(*program),
{
    let main = "main".to_owned();
    match program.get(&main) {
        Some(Global::Fun { arity, .. }) => {
            if *arity != 0 {
                return Err(Malformed);
            }
        },
        _ => {
            return Err(Malformed);
        },
    }
    let mut unit = Unit::new(Module::new());
    let n = program.len();
    let mut i: usize = 0;
    while i < n
        invariant
            i <= n,
            n == program.entries@.len(),
            unit.module@ == declared(*program, i as int),
        decreases n - i,
    {
        let entry = &program.entries[i];
        if !is_main(&entry.0) {
            define_const(&entry.0, &entry.1, &mut unit);
        }
        i += 1;
    }
    let mut funs: usize = 0;
    let mut i: usize = 0;
    while i < n
        invariant
            i <= n,
            n == program.entries@.len(),
            unit.module@ == defined(*program, i as int),
            funs == declared(*program, i as int).functions.len(),
            declared(*program, n as int).functions.len() <= unit.module@.functions.len(),
            forall|j: int| 0 <= j < i ==> program.wf_entry(j),
        decreases n - i,
    {
        let entry = &program.entries[i];
        proof {
            lemma_declared_grows(*program, i + 1, n as int);
            lemma_start_visible(entry.0@);
        }
        match &entry.1 {
            Global::Fun { block, .. } => {
                if is_main(&entry.0) {
                    match define_main(block, &mut unit, program) {
                        Ok(()) => {},
                        Err(e) => {
                            assert(!program.wf_entry(i as int));
                            return Err(e);
                        },
                    }
                } else {
                    let total = unit.module.functions.len();
                    assert(funs < total);
                    match define_fun(funs, block, &mut unit, program) {
                        Ok(()) => {},
                        Err(e) => {
                            assert(!program.wf_entry(i as int));
                            return Err(e);
                        },
                    }
                    funs += 1;
                }
            },
            Global::Const { .. } => {},
        }
        i += 1;
    }
    Ok(unit.module)
}

/// What the compiler is asked to do with the module it made.
#[derive(Clone, Copy, Debug, PartialEq, Eq, Structural)]
pub enum Mode {
    /// Run it, and report what the entry point returned.
    Jit,
    /// Hand it on to be written out as an object file.
    Aot,
}

/// How hard the target's pass manager is asked to optimise.
#[derive(Clone, Copy, Debug, PartialEq, Eq, Structural)]
pub enum OptLevel {
    O0,
    O1,
    O2,
    O3,
}

/// The configuration of a compilation.
#[derive(Clone, Copy, Debug, PartialEq, Eq, Structural)]
pub struct Config {
    pub mode: Mode,
    pub opt_level: OptLevel,
}

/// What a compilation produced.
#[derive(Clone, Copy, Debug, PartialEq, Eq, Structural)]
pub enum Output {
    /// The program ran, and the process is to exit with this code.
    ExitCode(i32),
    /// The module is ready to be written out.
    Binary,
}

/// Why a compilation produced nothing.
#[derive(Clone, Copy, Debug, PartialEq, Eq, Structural)]
pub enum Error {
    /// The program is not well-formed.
    Malformed,
    /// The module that the program was lowered to is not valid.
    Invalid,
    /// The program ran into a fault.
    Fault(Fault),
    /// The program did not come to an end within the steps it was given.
    OutOfFuel,
    /// The calls of the program nested deeper than it was allowed.
    StackOverflow,
}

impl Default for Config {
    /// Run the program, unoptimised.
    fn default() -> (config: Config)
        ensures
            config == (Config { mode: Mode::Jit, opt_level: OptLevel::O0 }),
    {
        Config { mode: Mode::Jit, opt_level: OptLevel::O0 }
    }
}

/// The configuration that the command line asks for: run the program or
/// hand the module on, at optimisation level `optimize`. There is none for
/// a level above 3.
pub fn config(eval: bool, optimize: u8) -> (made: Option<Config>)
    ensures
        made == (if optimize > 3 {
            None
        } else {
            Some(
                Config {
                    mode: if eval {
                        Mode::Jit
                    } else {
                        Mode::Aot
                    },
                    opt_level: if optimize == 0 {
                        OptLevel::O0
                    } else if optimize == 1 {
                        OptLevel::O1
                    } else if optimize == 2 {
                        OptLevel::O2
                    } else {
                        OptLevel::O3
                    },
                },
            )
        }),
{
    let mode = if eval {
        Mode::Jit
    } else {
        Mode::Aot
    };
    let opt_level = match optimize {
        0 => OptLevel::O0,
        1 => OptLevel::O1,
        2 => OptLevel::O2,
        3 => OptLevel::O3,
        _ => {
            return None;
        },
    };
    Some(Config { mode, opt_level })
}

/// The code that the compiler's process exits with after a compilation:
/// the program's own exit code when it ran, 0 when the module was handed
/// on, 3 when nothing was produced.
pub fn exit_status(out: Result<Output, Error>) -> (code: i32)
    ensures
        code == (match out {
            Ok(Output::ExitCode(code)) => code,
            Ok(Output::Binary) => 0,
            Err(_) => 3,
        }),
{
    match out {
        Ok(Output::ExitCode(code)) => code,
        Ok(Output::Binary) => 0,
        Err(_) => 3,
    }
}

/// The steps that a program is given to run in.
pub const FUEL: u64 = 0xffff_ffff_ffff_ffff;

/// How deep the calls of a program may nest when it is run.
pub const DEPTH: usize = 256;

/// The pass pipeline that the target's pass manager is to run for `level`:
/// none at the baseline.
pub fn opt(level: OptLevel) -> (passes: Option<&'static str>)
    ensures
        match level {
            OptLevel::O0 => passes.is_none(),
            OptLevel::O1 => passes.is_some() && passes.unwrap()@ == "default<O1>"@,
            OptLevel::O2 => passes.is_some() && passes.unwrap()@ == "default<O2>"@,
            OptLevel::O3 => passes.is_some() && passes.unwrap()@ == "default<O3>"@,
        },
{
    match level {
        OptLevel::O0 => None,
        OptLevel::O1 => Some("default<O1>"),
        OptLevel::O2 => Some("default<O2>"),
        OptLevel::O3 => Some("default<O3>"),
    }
}

/// What a run that ended in `halt` makes of the compilation: the value the
/// entry point returned, or the exit code of the unhandled-case trap, is
/// the exit code; a run that was cut short is an error.
pub open spec fn outcome(halt: Halt) -> Result<Output, Error> {
    match halt {
        Halt::Exit(code) => Ok(Output::ExitCode(code)),
        Halt::Unhandled => Ok(Output::ExitCode(1)),
        Halt::Fault(fault) => Err(Error::Fault(fault)),
        Halt::OutOfFuel => Err(Error::OutOfFuel),
        Halt::StackOverflow => Err(Error::StackOverflow),
    }
}

/// What compiling `program` under `config` comes to.
pub open spec fn compiled(program: Program, config: Config) -> Result<Output, Error> {
    if !program.well_formed() {
        Err(Error::Malformed)
    } else if !valid(emitted(program)) {
        Err(Error::Invalid)
    } else {
        match config.mode {
            Mode::Jit => outcome(exec_main(emitted(program), FUEL as nat, DEPTH as nat)),
            Mode::Aot => Ok(Output::Binary),
        }
    }
}

/// What a run that ended in `halt` makes of the compilation.
pub fn output_of(halt: Halt) -> (out: Result<Output, Error>)
    ensures
        out == outcome(halt),
{
    match halt {
        Halt::Exit(code) => Ok(Output::ExitCode(code)),
        Halt::Unhandled => Ok(Output::ExitCode(todo().code)),
        Halt::Fault(fault) => Err(Error::Fault(fault)),
        Halt::OutOfFuel => Err(Error::OutOfFuel),
        Halt::StackOverflow => Err(Error::StackOverflow),
    }
}

/// Compiles `program`: lowers it to its target module, verifies the module
/// and, when asked to, runs it from its entry point.
pub fn compile(program: &Program, config: Config) -> (out: Result<Output, Error>)
    ensures
        out == compiled(*program, config),
{
    let module = match emit(program) {
        Ok(module) => module,
        Err(_) => {
            return Err(Error::Malformed);
        },
    };
    if !verify(&module) {
        return Err(Error::Invalid);
    }
    match config.mode {
        Mode::Jit => output_of(jit(&module, FUEL, DEPTH)),
        Mode::Aot => Ok(Output::Binary),
    }
}

} // verus!
