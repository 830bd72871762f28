//! Valid modules do not go wrong: a run of a module that passed
//! verification is never cut short because the module is broken.

use crate::machine::{
    called, entry, exec_call, exec_from, exec_main, global_term, read, select, step, Fault, Frame,
    Halt,
};
use crate::rts::{header, zero, Evaluator, TermView};
use crate::target::{position, FunctionView, Inst, ModuleView, Operand, Prim, Signature};
use crate::verify::{
    block_ok, evaluator_ok, function_ok, inst_ok, is_terminator, operand_ok, table_start, valid,
};
use vstd::prelude::*;

verus! {

/// Every evaluator in `t` that was set is one that `m` has, all the way
/// down.
pub open spec fn term_ok(m: ModuleView, t: TermView) -> bool
    decreases t,
{
    &&& t.fun is Null || evaluator_ok(m, t.fun)
    &&& forall|i: int| 0 <= i < t.args.len() ==> term_ok(m, #[trigger] t.args[i])
}

/// Every one of `terms` is in order.
pub open spec fn terms_ok(m: ModuleView, terms: Seq<TermView>) -> bool {
    forall|i: int| 0 <= i < terms.len() ==> term_ok(m, #[trigger] terms[i])
}

/// The frame is one of function `f`: it has the slots of `f`, and all its
/// terms are in order.
pub open spec fn frame_ok(m: ModuleView, f: FunctionView, frame: Frame) -> bool {
    &&& frame.slots.len() == f.slots.len()
    &&& terms_ok(m, frame.slots)
    &&& terms_ok(m, frame.array)
    &&& term_ok(m, frame.this)
}

/// The module has an entry point: the first function called `main` takes
/// nothing and returns a 32-bit integer.
pub open spec fn has_main(m: ModuleView) -> bool {
    let names = Seq::new(m.functions.len(), |i: int| m.functions[i].name);
    let f = position(names, "main"@, 0);
    f < m.functions.len() && m.functions[f].signature == Signature::Main
}

proof fn lemma_read_ok(m: ModuleView, f: FunctionView, frame: Frame, op: Operand)
    requires
        frame_ok(m, f, frame),
        operand_ok(f, op),
    ensures
        read(frame, f.signature, op) is Some,
        term_ok(m, read(frame, f.signature, op).unwrap()),
{
}

proof fn lemma_write_ok(m: ModuleView, f: FunctionView, frame: Frame, op: Operand, t: TermView)
    requires
        frame_ok(m, f, frame),
        operand_ok(f, op),
        term_ok(m, t),
    ensures
        frame_ok(m, f, crate::machine::write(frame, op, t)),
{
}

proof fn lemma_called_ok(m: ModuleView, prim: Prim, t: TermView, array: Seq<TermView>, len: nat)
    requires
        term_ok(m, t),
        terms_ok(m, array),
        crate::machine::callable(prim, t, array, len),
    ensures
        term_ok(m, called(prim, t, array, len)),
{
    let made = called(prim, t, array, len);
    match prim {
        Prim::NewApp => {
            assert forall|i: int| 0 <= i < made.args.len() implies term_ok(
                m,
                #[trigger] made.args[i],
            ) by {
                assert(made.args[i] == array[i]);
            }
        },
        Prim::NewPartial => {
            assert(term_ok(m, header(t)));
            assert(term_ok(m, zero()));
            assert forall|i: int| 0 <= i < made.args.len() implies term_ok(
                m,
                #[trigger] made.args[i],
            ) by {
                if i == t.capacity - 1 {
                } else if 0 <= i < len {
                    assert(made.args[i] == array[i]);
                } else {
                }
            }
        },
        Prim::ApplyPartial => {
            assert(term_ok(m, t.args[t.capacity - 1]));
            assert forall|i: int| 0 <= i < made.args.len() implies term_ok(
                m,
                #[trigger] made.args[i],
            ) by {
                if t.length <= i < t.length + len {
                    assert(made.args[i] == array[i - t.length]);
                } else {
                    assert(made.args[i] == t.args[i]);
                }
            }
        },
    }
}

proof fn lemma_step_ok(m: ModuleView, f: FunctionView, inst: Inst, frame: Frame)
    requires
        valid(m),
        inst_ok(m, f, inst),
        frame_ok(m, f, frame),
        !is_terminator(inst),
        !(inst is Eval),
    ensures
        match step(m, f.signature, inst, frame) {
            Ok(next) => frame_ok(m, f, next),
            Err(fault) => fault != Fault::Invalid,
        },
{
    let sig = f.signature;
    match inst {
        Inst::LoadGlobal { dst, global } => {
            let t = global_term(m.globals[global as int]);
            assert(evaluator_ok(m, m.globals[global as int].fun));
            assert(term_ok(m, t));
            lemma_write_ok(m, f, frame, Operand::Slot(dst), t);
        },
        Inst::LoadArg { dst, src, index } => {
            lemma_read_ok(m, f, frame, src);
            let t = read(frame, sig, src).unwrap();
            if index < t.args.len() {
                assert(term_ok(m, t.args[index as int]));
                lemma_write_ok(m, f, frame, Operand::Slot(dst), t.args[index as int]);
            }
        },
        Inst::ArgsAlloca { len } => {
            assert(term_ok(m, zero()));
        },
        Inst::ArgStore { at, src } => {
            lemma_read_ok(m, f, frame, src);
        },
        Inst::Call { prim, term, len } => {
            lemma_read_ok(m, f, frame, term);
            let t = read(frame, sig, term).unwrap();
            if crate::machine::callable(prim, t, frame.array, len as nat) {
                lemma_called_ok(m, prim, t, frame.array, len as nat);
                let cleared = Frame { array: Seq::empty(), ..frame };
                assert(frame_ok(m, f, cleared));
                lemma_write_ok(m, f, cleared, term, called(prim, t, frame.array, len as nat));
            }
        },
        Inst::Copy { dst, src } => {
            lemma_read_ok(m, f, frame, src);
            let t = read(frame, sig, src).unwrap();
            lemma_write_ok(m, f, frame, Operand::Slot(dst), t);
        },
        Inst::FreeArgs { term } => {
            lemma_read_ok(m, f, frame, term);
            let t = read(frame, sig, term).unwrap();
            lemma_write_ok(m, f, frame, term, crate::rts::spec_free(t));
        },
        Inst::FreeTerm { term } => {
            lemma_read_ok(m, f, frame, term);
            let t = read(frame, sig, term).unwrap();
            lemma_write_ok(m, f, frame, term, crate::rts::spec_free(t));
        },
        _ => {},
    }
}

proof fn lemma_select_ok(block: Seq<Inst>, from: int, to: int, symbol: u32, f: FunctionView, m: ModuleView)
    requires
        0 <= from <= to <= block.len(),
        forall|j: int| 0 <= j < block.len() ==> inst_ok(m, f, #[trigger] block[j]),
    ensures
        select(block, from, to, symbol) matches Some(target) ==> target < f.blocks.len(),
    decreases to - from,
{
    if from < to {
        lemma_select_ok(block, from + 1, to, symbol, f, m);
        assert(inst_ok(m, f, block[from]));
    }
}

/// What a sound run ends in: never in a broken module, and when the
/// function just returns, it is one that takes a pointer to a term and it
/// leaves a term in order behind.
pub open spec fn sound_end(m: ModuleView, f: FunctionView, halt: Option<Halt>, this: TermView) -> bool {
    &&& halt != Some(Halt::Fault(Fault::Invalid))
    &&& halt is None ==> f.signature == Signature::Evaluator && term_ok(m, this)
}

proof fn lemma_sound_from(
    m: ModuleView,
    f: int,
    b: int,
    pc: int,
    frame: Frame,
    fuel: nat,
    depth: nat,
)
    requires
        valid(m),
        0 <= f < m.functions.len(),
        frame_ok(m, m.functions[f], frame),
        0 <= b < m.functions[f].blocks.len(),
        0 <= pc < m.functions[f].blocks[b].len(),
    ensures
        sound_end(
            m,
            m.functions[f],
            exec_from(m, f, b, pc, frame, fuel, depth).halt,
            exec_from(m, f, b, pc, frame, fuel, depth).frame.this,
        ),
    decreases fuel, 0int,
{
    let fun = m.functions[f];
    let blocks = fun.blocks;
    let sig = fun.signature;
    let block = blocks[b];
    let inst = block[pc];
    assert(function_ok(m, fun));
    assert(block_ok(block));
    assert(inst_ok(m, fun, inst));
    if fuel > 0 {
        let rest = (fuel - 1) as nat;
        if !is_terminator(inst) {
            assert(pc + 1 < block.len()) by {
                if pc == block.len() - 1 {
                    assert(block.last() == inst);
                }
            }
        } else {
            assert(pc == block.len() - 1) by {
                if pc < block.len() - 1 {
                    assert(!is_terminator(block[pc]));
                }
            }
            assert(block.last() == inst);
        }
        match inst {
            Inst::Eval { term } => {
                lemma_read_ok(m, fun, frame, term);
                let t = read(frame, sig, term).unwrap();
                match t.fun {
                    Evaluator::Noop => {
                        lemma_sound_from(m, f, b, pc + 1, frame, rest, depth);
                    },
                    Evaluator::Null => {},
                    Evaluator::Code(g) => {
                        if depth > 0 {
                            lemma_sound_call(m, g as int, t, rest, (depth - 1) as nat);
                            let (halt, reduced) = exec_call(
                                m,
                                g as int,
                                t,
                                rest,
                                (depth - 1) as nat,
                            );
                            if halt.is_none() {
                                lemma_write_ok(m, fun, frame, term, reduced);
                                lemma_sound_from(
                                    m,
                                    f,
                                    b,
                                    pc + 1,
                                    crate::machine::write(frame, term, reduced),
                                    rest,
                                    depth,
                                );
                            }
                        }
                    },
                }
            },
            Inst::Return { src } => {
                lemma_read_ok(m, fun, frame, src);
            },
            Inst::ReturnSymbol { src } => {
                lemma_read_ok(m, fun, frame, src);
            },
            Inst::Switch { on, default, cases } => {
                lemma_read_ok(m, fun, frame, on);
                let t = read(frame, sig, on).unwrap();
                assert(table_start(block) == pc - cases);
                assert(cases <= pc);
                assert forall|j: int| 0 <= j < block.len() implies inst_ok(
                    m,
                    fun,
                    #[trigger] block[j],
                ) by {
                    assert(inst_ok(m, fun, blocks[b][j]));
                }
                lemma_select_ok(block, pc - cases, pc, t.symbol, fun, m);
                let target = match select(block, pc - cases, pc, t.symbol) {
                    Some(target) => target,
                    None => default,
                };
                assert(block_ok(blocks[target as int]));
                lemma_sound_from(m, f, target as int, 0, frame, rest, depth);
            },
            Inst::Unreachable => {},
            Inst::Todo => {},
            _ => {
                lemma_step_ok(m, fun, inst, frame);
                match step(m, sig, inst, frame) {
                    Ok(next) => {
                        lemma_sound_from(m, f, b, pc + 1, next, rest, depth);
                    },
                    Err(_) => {},
                }
            },
        }
    }
}

proof fn lemma_sound_call(m: ModuleView, f: int, this: TermView, fuel: nat, depth: nat)
    requires
        valid(m),
        0 <= f < m.functions.len(),
        term_ok(m, this),
    ensures
        sound_end(
            m,
            m.functions[f],
            exec_call(m, f, this, fuel, depth).0,
            exec_call(m, f, this, fuel, depth).1,
        ),
    decreases fuel, 1int,
{
    let fun = m.functions[f];
    assert(function_ok(m, fun));
    assert(block_ok(fun.blocks[0]));
    let start = entry(m, f, this);
    assert(term_ok(m, zero()));
    assert(frame_ok(m, fun, start));
    lemma_sound_from(m, f, 0, 0, start, fuel, depth);
}

/// A valid module does not go wrong: a run of a module that is valid and
/// has an entry point never ends because the module is broken. It ends
/// with the value that the entry point returned, in the unhandled-case
/// trap, in a fault of the program, or because it was given too few steps
/// or too little room for its calls.
pub proof fn valid_modules_do_not_go_wrong(m: ModuleView, fuel: nat, depth: nat)
    requires
        valid(m),
        has_main(m),
    ensures
        exec_main(m, fuel, depth) != Halt::Fault(Fault::Invalid),
{
    let names = Seq::new(m.functions.len(), |i: int| m.functions[i].name);
    let f = position(names, "main"@, 0);
    crate::target::lemma_position(names, "main"@, 0);
    assert(term_ok(m, zero()));
    lemma_sound_call(m, f, zero(), fuel, depth);
}

/// A call into a valid module does not go wrong: on a term whose
/// evaluators the module has, a call of any of its functions never ends
/// because the module is broken, and when it returns it leaves such a term
/// behind.
pub proof fn valid_calls_do_not_go_wrong(m: ModuleView, f: int, this: TermView, fuel: nat, depth: nat)
    requires
        valid(m),
        0 <= f < m.functions.len(),
        term_ok(m, this),
    ensures
        exec_call(m, f, this, fuel, depth).0 != Some(Halt::Fault(Fault::Invalid)),
        exec_call(m, f, this, fuel, depth).0 is None ==> term_ok(
            m,
            exec_call(m, f, this, fuel, depth).1,
        ),
{
    lemma_sound_call(m, f, this, fuel, depth);
}

} // verus!
