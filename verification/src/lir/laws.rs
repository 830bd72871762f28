//! What holds of every compilation: a constant comes back as the exit
//! code, a load finds the constant term of the global it names, the constant
//! term of a function points at its code, and a compilation is never cut
//! short by a broken module.

use crate::lir::compile::{
    after_block, after_op, body, compiled, declared, defined, emitted, fun_label, term_label,
    Config, Error, Mode, Output, DEPTH, FUEL,
};
use crate::lir::{initial, main_name, wf_block, wf_op, Global, Op, Program};
use crate::machine::sound::{has_main, valid_modules_do_not_go_wrong};
use crate::machine::{
    entry, exec_call, exec_from, exec_main, exit_code, global_term, read, step, Fault, Frame, Halt,
};
use crate::rts::{zero, Evaluator};
use crate::target::{
    lemma_position, lemma_position_first, position, FunctionView, GlobalView, Inst, Linkage,
    ModuleView, Operand, Signature,
};
use crate::unit::{lemma_define_visible, lemma_start_empty, lookup_in, State};
use crate::verify::{block_ok, function_ok, inst_ok, table_start, valid};
use vstd::prelude::*;

verus! {

/// The module of a program that loads one constant and returns its tag.
pub open spec fn round_trip_module(name: Seq<char>, symbol: u32, arity: u16) -> ModuleView {
    ModuleView {
        globals: seq![GlobalView { name: term_label(name), fun: Evaluator::Noop, symbol, arity }],
        functions: seq![
            FunctionView {
                name: main_name(),
                linkage: Linkage::External,
                signature: Signature::Main,
                slots: seq![name],
                blocks: seq![
                    seq![
                        Inst::LoadGlobal { dst: 0, global: 0 },
                        Inst::ReturnSymbol { src: Operand::Slot(0) },
                    ],
                ],
            },
        ],
    }
}

/// A program of a constant, in entry `c`, and an entry point, in the other
/// entry, that loads the constant and returns its tag.
pub open spec fn is_round_trip(
    program: Program,
    c: int,
    name: Seq<char>,
    symbol: u32,
    arity: u16,
) -> bool {
    &&& name != main_name()
    &&& program.entries@.len() == 2
    &&& (c == 0 || c == 1)
    &&& program.entries@[c].0@ == name
    &&& program.entries@[c].1 == (Global::Const { arity, symbol })
    &&& program.entries@[1 - c].0@ == main_name()
    &&& program.entries@[1 - c].1 matches Global::Fun { arity: none, block }
    &&& none == 0
    &&& block@.len() == 2
    &&& block@[0] matches Op::LoadGlobal { global }
    &&& global@ == name
    &&& block@[1] matches Op::ReturnSymbol { var }
    &&& var@ == name
}

proof fn lemma_round_trip_names(program: Program, c: int, name: Seq<char>, symbol: u32, arity: u16)
    requires
        is_round_trip(program, c, name, symbol, arity),
    ensures
        position(program.names(), name, 0) == c,
        position(program.names(), main_name(), 0) == 1 - c,
        program.find(name) == Some(Global::Const { arity, symbol }),
        program.find(main_name()) == Some(program.entries@[1 - c].1),
        program.term_index(name) == Some(0nat),
{
    let names = program.names();
    assert(names.len() == 2);
    assert(names[c] == name);
    assert(names[1 - c] == main_name());
    assert(position(names, main_name(), 2) == 2);
    assert(position(names, name, 2) == 2);
    assert(position(names, main_name(), 1) == if c == 0 {
        1int
    } else {
        2int
    });
    assert(position(names, name, 1) == if c == 1 {
        1int
    } else {
        2int
    });
    assert(position(names, main_name(), 0) == 1 - c);
    assert(position(names, name, 0) == c);
    assert(program.terms_before(0) == 0);
    assert(program.terms_before(c) == 0);
}

proof fn lemma_round_trip_body(program: Program, c: int, name: Seq<char>, symbol: u32, arity: u16)
    requires
        is_round_trip(program, c, name, symbol, arity),
    ensures
        body(program, 1 - c).slots == seq![name],
        body(program, 1 - c).blocks == seq![
            seq![
                Inst::LoadGlobal { dst: 0, global: 0 },
                Inst::ReturnSymbol { src: Operand::Slot(0) },
            ],
        ],
        program.wf_entry(1 - c),
{
    lemma_round_trip_names(program, c, name, symbol, arity);
    lemma_start_empty();
    let block = program.entries@[1 - c].1->block;
    let ops = block@;
    let s0 = State::start();
    let s1 = after_op(ops[0], s0, program);
    let load = Inst::LoadGlobal { dst: 0, global: 0 };
    let ret = Inst::ReturnSymbol { src: Operand::Slot(0) };
    assert(s1 == s0.load_global(name, 0));
    assert(s1.slots =~= seq![name]);
    assert(s1.blocks =~= seq![seq![load]]);
    lemma_define_visible(s0.alloca(name).emit(load), name, Operand::Slot(0));
    assert(s1.lookup(name) == Some(Operand::Slot(0)));
    let s2 = after_op(ops[1], s1, program);
    assert(s2 == s1.emit(ret));
    assert(s1.blocks[0] + seq![ret] =~= seq![load, ret]);
    assert(s2.blocks =~= seq![seq![load, ret]]);
    assert(after_block(ops, 2, s2, program) == s2);
    assert(after_block(ops, 1, s1, program) == s2);
    assert(after_block(ops, 0, s0, program) == s2);
    assert(body(program, 1 - c) == s2);
    let v0 = initial(main_name());
    assert(wf_op(ops[0], v0, program));
    let v1 = crate::lir::after(ops[0], v0);
    assert(v1.contains(name));
    assert(wf_op(ops[1], v1, program));
    assert(wf_block(ops, 2, crate::lir::after(ops[1], v1), program));
    assert(wf_block(ops, 1, v1, program));
    assert(wf_block(ops, 0, v0, program));
}

proof fn lemma_round_trip_emitted(program: Program, c: int, name: Seq<char>, symbol: u32, arity: u16)
    requires
        is_round_trip(program, c, name, symbol, arity),
    ensures
        program.well_formed(),
        emitted(program) == round_trip_module(name, symbol, arity),
{
    lemma_round_trip_names(program, c, name, symbol, arity);
    lemma_round_trip_body(program, c, name, symbol, arity);
    let m = round_trip_module(name, symbol, arity);
    let d0 = declared(program, 0);
    let d1 = declared(program, 1);
    let d2 = declared(program, 2);
    assert(d0.globals =~= Seq::empty());
    assert(d2.globals =~= m.globals);
    assert(d1.functions =~= Seq::empty());
    assert(d2.functions =~= Seq::empty());
    assert(defined(program, 0) == d2);
    let e1 = defined(program, 1);
    let e = defined(program, 2);
    if c == 0 {
        assert(e1 == d2);
    } else {
        assert(e1.functions =~= m.functions);
        assert(e == e1);
    }
    assert(e.functions =~= m.functions);
    assert(e.globals =~= m.globals);
    assert(program.wf_entry(c));
    assert forall|i: int| 0 <= i < program.entries@.len() implies program.wf_entry(i) by {
        assert(i == c || i == 1 - c);
    }
}

proof fn lemma_round_trip_valid(name: Seq<char>, symbol: u32, arity: u16)
    ensures
        valid(round_trip_module(name, symbol, arity)),
{
    let m = round_trip_module(name, symbol, arity);
    let f = m.functions[0];
    let block = f.blocks[0];
    assert(block.len() == 2);
    assert(block.last() == block[1]);
    assert(table_start(block) == 1);
    assert(block_ok(block));
    assert(inst_ok(m, f, block[0]));
    assert(inst_ok(m, f, block[1]));
    assert forall|b: int, j: int|
        0 <= b < f.blocks.len() && 0 <= j < f.blocks[b].len() implies inst_ok(
        m,
        f,
        #[trigger] f.blocks[b][j],
    ) by {
        assert(b == 0);
        assert(j == 0 || j == 1);
    }
    assert(function_ok(m, f));
}

proof fn lemma_round_trip_run(name: Seq<char>, symbol: u32, arity: u16, fuel: nat, depth: nat)
    requires
        fuel >= 2,
    ensures
        exec_main(round_trip_module(name, symbol, arity), fuel, depth) == Halt::Exit(
            exit_code(symbol),
        ),
{
    let m = round_trip_module(name, symbol, arity);
    let names = Seq::new(m.functions.len(), |i: int| m.functions[i].name);
    assert(names.len() == 1);
    assert(names[0] == main_name());
    assert(position(names, "main"@, 0) == 0);
    let start = entry(m, 0, zero());
    assert(start.slots.len() == 1);
    let loaded = Frame {
        slots: start.slots.update(0, global_term(m.globals[0])),
        ..start
    };
    assert(step(m, Signature::Main, Inst::LoadGlobal { dst: 0, global: 0 }, start) == Ok::<
        Frame,
        crate::machine::Fault,
    >(loaded));
    assert(read(loaded, Signature::Main, Operand::Slot(0)) == Some(global_term(m.globals[0])));
    let end = exec_from(m, 0, 0, 1, loaded, (fuel - 1) as nat, depth);
    assert(end.halt == Some(Halt::Exit(exit_code(symbol))));
    assert(exec_from(m, 0, 0, 0, start, fuel, depth) == end);
    assert(exec_call(m, 0, zero(), fuel, depth).0 == Some(Halt::Exit(exit_code(symbol))));
}

/// A constant comes back as the exit code: a program of a constructor
/// constant with the tag `symbol` and an entry point that loads the
/// constant and returns its tag, in either order, is well-formed, and
/// compiled to be run it gives the exit code `symbol`, read as a signed
/// integer.
pub proof fn constant_round_trip(
    program: Program,
    config: Config,
    c: int,
    name: Seq<char>,
    symbol: u32,
    arity: u16,
)
    requires
        is_round_trip(program, c, name, symbol, arity),
        config.mode == Mode::Jit,
    ensures
        compiled(program, config) == Ok::<Output, Error>(Output::ExitCode(exit_code(symbol))),
        symbol <= 0x7fff_ffff ==> compiled(program, config) == Ok::<Output, Error>(
            Output::ExitCode(symbol as i32),
        ),
{
    lemma_round_trip_emitted(program, c, name, symbol, arity);
    lemma_round_trip_valid(name, symbol, arity);
    lemma_round_trip_run(name, symbol, arity, FUEL as nat, DEPTH as nat);
}

/// The constant term that entry `i` of `program` has in the module.
pub open spec fn term_of(program: Program, i: int) -> GlobalView {
    match program.entries@[i].1 {
        Global::Const { arity, symbol } => GlobalView {
            name: term_label(program.entries@[i].0@),
            fun: Evaluator::Noop,
            symbol,
            arity,
        },
        Global::Fun { arity, .. } => GlobalView {
            name: term_label(program.entries@[i].0@),
            fun: Evaluator::Code(declared(program, i).functions.len() as usize),
            symbol: 0,
            arity,
        },
    }
}

/// The function that entry `i` of `program` has in the module, if the
/// entry is a function other than the entry point.
pub open spec fn function_of(program: Program, i: int) -> FunctionView {
    FunctionView {
        name: fun_label(program.entries@[i].0@),
        linkage: Linkage::Internal,
        signature: Signature::Evaluator,
        slots: body(program, i).slots,
        blocks: body(program, i).blocks,
    }
}

/// Entry `i` of `program` is a function other than the entry point.
pub open spec fn is_fun(program: Program, i: int) -> bool {
    &&& 0 <= i < program.entries@.len()
    &&& program.entries@[i].0@ != main_name()
    &&& program.entries@[i].1 is Fun
}

proof fn lemma_terms_grow(program: Program, a: int, b: int)
    requires
        0 <= a <= b,
    ensures
        program.terms_before(a) <= program.terms_before(b),
    decreases b - a,
{
    if a < b {
        lemma_terms_grow(program, a, b - 1);
    }
}

/// The constant terms of the first `n` entries stand in the module in the
/// order of the entries.
pub proof fn lemma_declared_terms(program: Program, n: int)
    requires
        0 <= n <= program.entries@.len(),
    ensures
        declared(program, n).globals.len() == program.terms_before(n),
        forall|i: int|
            0 <= i < n && program.entries@[i].0@ != main_name() ==> declared(
                program,
                n,
            ).globals[#[trigger] program.terms_before(i) as int] == term_of(program, i),
    decreases n,
{
    if n > 0 {
        lemma_declared_terms(program, n - 1);
        assert forall|i: int|
            0 <= i < n && program.entries@[i].0@ != main_name() implies declared(
            program,
            n,
        ).globals[#[trigger] program.terms_before(i) as int] == term_of(program, i) by {
            if i < n - 1 {
                lemma_terms_grow(program, i + 1, n - 1);
            }
        }
    }
}

/// Defining functions leaves the constant terms as they were declared.
pub proof fn lemma_defined_globals(program: Program, n: int)
    requires
        0 <= n,
    ensures
        defined(program, n).globals == declared(program, program.entries@.len() as int).globals,
    decreases n,
{
    if n > 0 {
        lemma_defined_globals(program, n - 1);
    }
}

/// A load finds the constant term of the global it names: where `name` has
/// a constant term, the term with its number in the module of `program` is
/// the term of the first entry called `name`, under the name made from
/// `name`, with the tag and the arity of that entry.
pub proof fn load_finds_its_term(program: Program, name: Seq<char>)
    requires
        program.term_index(name).is_some(),
    ensures
        program.term_index(name).unwrap() < emitted(program).globals.len(),
        emitted(program).globals[program.term_index(name).unwrap() as int] == term_of(
            program,
            position(program.names(), name, 0),
        ),
        term_of(program, position(program.names(), name, 0)).name == term_label(name),
        program.find(name) matches Some(Global::Const { arity, symbol }) ==> term_of(
            program,
            position(program.names(), name, 0),
        ) == (GlobalView { name: term_label(name), fun: Evaluator::Noop, symbol, arity }),
{
    let len = program.entries@.len() as int;
    let at = position(program.names(), name, 0);
    lemma_position(program.names(), name, 0);
    lemma_declared_terms(program, len);
    lemma_defined_globals(program, len);
    lemma_terms_grow(program, at + 1, len);
    assert(program.names()[at] == program.entries@[at].0@);
    assert(program.terms_before(at + 1) == program.terms_before(at) + 1);
}

/// Every function declared makes the module one function longer.
pub proof fn lemma_declared_strictly(program: Program, i: int, j: int)
    requires
        is_fun(program, i),
        i < j,
    ensures
        declared(program, i).functions.len() < declared(program, j).functions.len(),
{
    crate::lir::compile::lemma_declared_grows(program, i + 1, j);
}

proof fn lemma_declared_functions(program: Program, n: int)
    requires
        0 <= n <= program.entries@.len(),
    ensures
        forall|i: int|
            is_fun(program, i) && i < n ==> (#[trigger] declared(program, n).functions[declared(
                program,
                i,
            ).functions.len() as int]) == (FunctionView {
                slots: Seq::empty(),
                blocks: Seq::empty(),
                ..function_of(program, i)
            }),
    decreases n,
{
    if n > 0 {
        lemma_declared_functions(program, n - 1);
        assert forall|i: int| is_fun(program, i) && i < n implies (#[trigger] declared(
            program,
            n,
        ).functions[declared(program, i).functions.len() as int]) == (FunctionView {
            slots: Seq::empty(),
            blocks: Seq::empty(),
            ..function_of(program, i)
        }) by {
            if i < n - 1 {
                lemma_declared_strictly(program, i, n - 1);
            }
        }
    }
}

proof fn lemma_defined_functions(program: Program, n: int)
    requires
        0 <= n <= program.entries@.len(),
    ensures
        declared(program, program.entries@.len() as int).functions.len() <= defined(
            program,
            n,
        ).functions.len(),
        forall|i: int|
            is_fun(program, i) ==> (#[trigger] defined(program, n).functions[declared(
                program,
                i,
            ).functions.len() as int]) == (if i < n {
                function_of(program, i)
            } else {
                FunctionView {
                    slots: Seq::empty(),
                    blocks: Seq::empty(),
                    ..function_of(program, i)
                }
            }),
    decreases n,
{
    let len = program.entries@.len() as int;
    if n == 0 {
        lemma_declared_functions(program, len);
    } else {
        lemma_defined_functions(program, n - 1);
        let now = declared(program, n - 1).functions.len() as int;
        let before = defined(program, n - 1);
        let after = defined(program, n);
        if is_fun(program, n - 1) {
            lemma_declared_strictly(program, n - 1, len);
            assert(now < before.functions.len());
            assert(before.functions[now] == (FunctionView {
                slots: Seq::empty(),
                blocks: Seq::empty(),
                ..function_of(program, n - 1)
            }));
            assert(after.functions == before.functions.update(
                now,
                FunctionView {
                    slots: body(program, n - 1).slots,
                    blocks: body(program, n - 1).blocks,
                    ..before.functions[now]
                },
            ));
        }
        assert forall|i: int| is_fun(program, i) implies (#[trigger] after.functions[declared(
            program,
            i,
        ).functions.len() as int]) == (if i < n {
            function_of(program, i)
        } else {
            FunctionView { slots: Seq::empty(), blocks: Seq::empty(), ..function_of(program, i) }
        }) by {
            let k = declared(program, i).functions.len() as int;
            lemma_declared_strictly(program, i, len);
            assert(k < before.functions.len());
            assert(before.functions[k] == (if i < n - 1 {
                function_of(program, i)
            } else {
                FunctionView {
                    slots: Seq::empty(),
                    blocks: Seq::empty(),
                    ..function_of(program, i)
                }
            }));
            if i < n - 1 {
                lemma_declared_strictly(program, i, n - 1);
                assert(k != now);
            } else if i > n - 1 {
                if is_fun(program, n - 1) {
                    lemma_declared_strictly(program, n - 1, i);
                    assert(k != now);
                }
            }
            if !is_fun(program, n - 1) {
                if program.entries@[n - 1].1 is Fun {
                    assert(after.functions[k] == before.functions[k]);
                } else {
                    assert(after == before);
                }
            }
        }
    }
}

/// The constant term of a function points at its code: a function of
/// `program` other than the entry point has, at the index that the
/// evaluator of its constant term names, a function of the module that
/// takes a pointer to a term and holds the body compiled from it.
pub proof fn term_points_at_code(program: Program, i: int)
    requires
        is_fun(program, i),
    ensures
        term_of(program, i).fun == Evaluator::Code(declared(program, i).functions.len() as usize),
        declared(program, i).functions.len() < emitted(program).functions.len(),
        emitted(program).functions[declared(program, i).functions.len() as int] == function_of(
            program,
            i,
        ),
{
    let len = program.entries@.len() as int;
    lemma_defined_functions(program, len);
    lemma_declared_strictly(program, i, len);
}

proof fn lemma_fun_label_is_not_main(name: Seq<char>)
    ensures
        fun_label(name) != main_name(),
{
    reveal_strlit("fun_");
    reveal_strlit("main");
    assert(fun_label(name)[0] == 'f');
    assert(main_name()[0] == 'm');
}

proof fn lemma_declared_names(program: Program, n: int)
    requires
        0 <= n,
    ensures
        forall|k: int|
            0 <= k < declared(program, n).functions.len() ==> (#[trigger] declared(
                program,
                n,
            ).functions[k]).name != main_name(),
    decreases n,
{
    if n > 0 {
        lemma_declared_names(program, n - 1);
        lemma_fun_label_is_not_main(program.entries@[n - 1].0@);
    }
}

/// Entry `i` of `program` is an entry point: a function called `main`.
pub open spec fn is_main_fun(program: Program, i: int) -> bool {
    &&& 0 <= i < program.entries@.len()
    &&& program.entries@[i].0@ == main_name()
    &&& program.entries@[i].1 is Fun
}

proof fn lemma_defined_names(program: Program, n: int)
    requires
        0 <= n <= program.entries@.len(),
    ensures
        declared(program, program.entries@.len() as int).functions.len() <= defined(
            program,
            n,
        ).functions.len(),
        forall|k: int|
            0 <= k < declared(program, program.entries@.len() as int).functions.len()
                ==> (#[trigger] defined(program, n).functions[k]).name != main_name(),
        forall|k: int|
            declared(program, program.entries@.len() as int).functions.len() <= k < defined(
                program,
                n,
            ).functions.len() ==> {
                &&& (#[trigger] defined(program, n).functions[k]).name == main_name()
                &&& defined(program, n).functions[k].signature == Signature::Main
            },
        (exists|i: int| is_main_fun(program, i) && i < n) ==> declared(
            program,
            program.entries@.len() as int,
        ).functions.len() < defined(program, n).functions.len(),
    decreases n,
{
    let len = program.entries@.len() as int;
    let base = declared(program, len).functions.len();
    if n == 0 {
        lemma_declared_names(program, len);
    } else {
        lemma_defined_names(program, n - 1);
        let before = defined(program, n - 1);
        let after = defined(program, n);
        if is_fun(program, n - 1) {
            lemma_declared_strictly(program, n - 1, len);
        }
        assert forall|k: int| 0 <= k < base implies (#[trigger] after.functions[k]).name
            != main_name() by {
            assert(before.functions[k].name != main_name());
        }
        assert forall|k: int| base <= k < after.functions.len() implies {
            &&& (#[trigger] after.functions[k]).name == main_name()
            &&& after.functions[k].signature == Signature::Main
        } by {
            if k < before.functions.len() {
                assert(before.functions[k].name == main_name());
            }
        }
        if exists|i: int| is_main_fun(program, i) && i < n {
            let i = choose|i: int| is_main_fun(program, i) && i < n;
            if i < n - 1 {
                assert(is_main_fun(program, i) && i < n - 1);
            }
        }
    }
}

/// The module of a well-formed program has an entry point.
pub proof fn well_formed_programs_have_main(program: Program)
    requires
        program.well_formed(),
    ensures
        has_main(emitted(program)),
{
    let len = program.entries@.len() as int;
    let m = emitted(program);
    let base = declared(program, len).functions.len() as int;
    lemma_position(program.names(), main_name(), 0);
    let at = position(program.names(), main_name(), 0);
    assert(program.names()[at] == program.entries@[at].0@);
    assert(is_main_fun(program, at) && at < len);
    lemma_defined_names(program, len);
    let names = Seq::new(m.functions.len(), |i: int| m.functions[i].name);
    assert(names[base] == m.functions[base].name);
    assert forall|k: int| 0 <= k < base implies names[k] != main_name() by {
        assert(m.functions[k].name != main_name());
    }
    lemma_position_first(names, main_name(), 0, base);
}

/// Compiling does not go wrong: whatever the program, a compilation never
/// ends because the module it made is broken where it runs.
pub proof fn compile_does_not_go_wrong(program: Program, config: Config)
    ensures
        compiled(program, config) != Err::<Output, Error>(Error::Fault(Fault::Invalid)),
{
    if program.well_formed() && valid(emitted(program)) && config.mode == Mode::Jit {
        well_formed_programs_have_main(program);
        valid_modules_do_not_go_wrong(emitted(program), FUEL as nat, DEPTH as nat);
    }
}

} // verus!
