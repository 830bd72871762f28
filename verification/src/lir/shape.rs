//! Programs whose blocks end as blocks must: such a program, when it is
//! well-formed, is lowered to a valid module.

use crate::lir::compile::{
    after_arms, after_block, after_op, body, compiled, declared, defined, emitted,
    lemma_start_visible, start_of, Config, Error, Mode, Output,
};
use crate::lir::{after, main_name, self_name, wf_block, wf_op, Case, Global, Op, Program};
use crate::machine::Fault;
use crate::rts::Evaluator;
use crate::target::{texts, FunctionView, Inst, ModuleView, Operand, Prim, Signature};
use crate::unit::{
    lemma_define_visible, lemma_empty_scope, lemma_start_empty, lookup_in, operands, stores, State,
};
use crate::verify::{
    block_ok, evaluator_ok, function_ok, inst_ok, is_terminator, table_start, valid,
};
use vstd::prelude::*;

verus! {

/// Whether `op` ends the block it stands in.
pub open spec fn closes(op: Op) -> bool {
    op is Return || op is ReturnSymbol || op is Switch || op is Todo
}

/// `op` returns as the function it stands in returns, a tag from the entry
/// point and a term elsewhere, and the arms of a switch are shaped in
/// their turn.
pub open spec fn shaped_op(op: Op, main: bool) -> bool
    decreases op, 0int,
{
    match op {
        Op::Return { .. } => !main,
        Op::ReturnSymbol { .. } => main,
        Op::Switch { cases, .. } => forall|i: int|
            0 <= i < cases@.len() ==> shaped_block((#[trigger] cases@[i]).block@, main),
        _ => true,
    }
}

/// The block is not empty, its last operation ends it and no other does,
/// and every operation is shaped.
pub open spec fn shaped_block(ops: Seq<Op>, main: bool) -> bool
    decreases ops, 1int,
{
    &&& ops.len() > 0
    &&& closes(ops.last())
    &&& forall|i: int|
        0 <= i < ops.len() ==> {
            &&& shaped_op(#[trigger] ops[i], main)
            &&& i < ops.len() - 1 ==> !closes(ops[i])
        }
}

/// The body of every function of `program` is shaped.
pub open spec fn shaped(program: Program) -> bool {
    forall|i: int|
        0 <= i < program.entries@.len() ==> match (#[trigger] program.entries@[i]).1 {
            Global::Fun { block, .. } => shaped_block(
                block@,
                program.entries@[i].0@ == main_name(),
            ),
            _ => true,
        }
}

/// The type of the function that is compiled: that of the entry point, or
/// that of the others.
spec fn signature_of(main: bool) -> Signature {
    if main {
        Signature::Main
    } else {
        Signature::Evaluator
    }
}

/// Whether `op` names a term of a function of type `sig` with `slots`
/// stack slots.
spec fn fits_operand(sig: Signature, slots: nat, op: Operand) -> bool {
    match op {
        Operand::Param => sig == Signature::Evaluator,
        Operand::Slot(i) => i < slots,
    }
}

/// Whether `inst` fits a function of type `sig` with `slots` stack slots
/// and `blocks` blocks, in a module with `globals` constant terms.
spec fn fits_inst(globals: nat, sig: Signature, slots: nat, blocks: nat, inst: Inst) -> bool {
    match inst {
        Inst::LoadGlobal { dst, global } => dst < slots && global < globals,
        Inst::LoadArg { dst, src, .. } => dst < slots && fits_operand(sig, slots, src),
        Inst::ArgsAlloca { .. } => true,
        Inst::ArgStore { src, .. } => fits_operand(sig, slots, src),
        Inst::Call { term, .. } => fits_operand(sig, slots, term),
        Inst::Copy { dst, src } => dst < slots && fits_operand(sig, slots, src),
        Inst::Eval { term } => fits_operand(sig, slots, term),
        Inst::FreeArgs { term } => fits_operand(sig, slots, term),
        Inst::FreeTerm { term } => fits_operand(sig, slots, term),
        Inst::Return { src } => sig == Signature::Evaluator && fits_operand(sig, slots, src),
        Inst::ReturnSymbol { src } => sig == Signature::Main && fits_operand(sig, slots, src),
        Inst::Case { target, .. } => target < blocks,
        Inst::Switch { on, default, .. } => fits_operand(sig, slots, on) && default < blocks,
        Inst::Unreachable => true,
        Inst::Todo => true,
    }
}

/// Neither the end of a block nor an entry of a case table.
spec fn is_plain(inst: Inst) -> bool {
    !is_terminator(inst) && !(inst is Case)
}

/// A block that is still open: nothing in it ends it, and it has no case
/// table.
spec fn plain(block: Seq<Inst>) -> bool {
    forall|j: int| 0 <= j < block.len() ==> is_plain(#[trigger] block[j])
}

/// A block that waits for its switch: plain up to `start`, and a case
/// table from there on.
spec fn tabled(block: Seq<Inst>, start: int) -> bool {
    &&& 0 <= start <= block.len()
    &&& forall|j: int|
        0 <= j < block.len() ==> if j < start {
            is_plain(#[trigger] block[j])
        } else {
            block[j] is Case
        }
}

/// Every local that is bound names a term of the function.
spec fn scopes_ok(s: State, sig: Signature) -> bool {
    forall|var: Seq<char>|
        (#[trigger] s.lookup(var)) is Some ==> fits_operand(
            sig,
            s.slots.len(),
            s.lookup(var).unwrap(),
        )
}

/// Every instruction made so far fits the function.
spec fn code_ok(s: State, sig: Signature, globals: nat) -> bool {
    forall|b: int, j: int|
        0 <= b < s.blocks.len() && 0 <= j < s.blocks[b].len() ==> fits_inst(
            globals,
            sig,
            s.slots.len(),
            s.blocks.len(),
            #[trigger] s.blocks[b][j],
        )
}

/// The function under construction is in order.
spec fn good(s: State, sig: Signature, globals: nat) -> bool {
    &&& s.inv()
    &&& scopes_ok(s, sig)
    &&& code_ok(s, sig, globals)
}

/// What compiling into the current block leaves of the state `s`: the
/// insertion point, the scopes below the innermost and every other block
/// are as before, and every new block is a basic block.
spec fn extends(s: State, t: State) -> bool {
    &&& t.block == s.block
    &&& s.blocks.len() <= t.blocks.len()
    &&& s.slots.len() <= t.slots.len()
    &&& t.scopes.len() == s.scopes.len()
    &&& t.scopes.drop_last() == s.scopes.drop_last()
    &&& forall|b: int| 0 <= b < s.blocks.len() && b != s.block ==> #[trigger] t.blocks[b] == s.blocks[b]
    &&& forall|b: int| s.blocks.len() <= b < t.blocks.len() ==> block_ok(#[trigger] t.blocks[b])
}

proof fn lemma_fits_more(globals: nat, sig: Signature, slots: nat, blocks: nat, inst: Inst, more_slots: nat, more_blocks: nat)
    requires
        fits_inst(globals, sig, slots, blocks, inst),
        slots <= more_slots,
        blocks <= more_blocks,
    ensures
        fits_inst(globals, sig, more_slots, more_blocks, inst),
{
}

/// A plain block with one more instruction that ends it is a basic block.
proof fn lemma_closed(block: Seq<Inst>, last: Inst)
    requires
        plain(block),
        is_terminator(last),
        !(last is Switch),
    ensures
        block_ok(block.push(last)),
{
    let done = block.push(last);
    assert(done.last() == last);
    assert(table_start(done) == done.len() - 1);
    assert forall|j: int| 0 <= j < done.len() - 1 implies {
        &&& !is_terminator(#[trigger] done[j])
        &&& (done[j] is Case) == (j >= table_start(done))
    } by {
        assert(done[j] == block[j]);
        assert(is_plain(block[j]));
    }
}

/// A block that waits for its switch is a basic block once the switch
/// stands behind its table.
proof fn lemma_switched(block: Seq<Inst>, start: int, on: Operand, default: usize, cases: usize)
    requires
        tabled(block, start),
        block.len() - start == cases,
    ensures
        block_ok(block.push(Inst::Switch { on, default, cases })),
{
    let last = Inst::Switch { on, default, cases };
    let done = block.push(last);
    assert(done.last() == last);
    assert(table_start(done) == start);
    assert forall|j: int| 0 <= j < done.len() - 1 implies {
        &&& !is_terminator(#[trigger] done[j])
        &&& (done[j] is Case) == (j >= table_start(done))
    } by {
        assert(done[j] == block[j]);
    }
}

/// Appending plain instructions that fit to the current block keeps the
/// function in order and the block open.
proof fn lemma_emit_plain(s: State, insts: Seq<Inst>, sig: Signature, globals: nat)
    requires
        good(s, sig, globals),
        plain(s.blocks[s.block]),
        forall|j: int|
            0 <= j < insts.len() ==> is_plain(#[trigger] insts[j]) && fits_inst(
                globals,
                sig,
                s.slots.len(),
                s.blocks.len(),
                insts[j],
            ),
    ensures
        good(s.emit_all(insts), sig, globals),
        extends(s, s.emit_all(insts)),
        plain(s.emit_all(insts).blocks[s.block]),
        s.emit_all(insts).scopes == s.scopes,
        s.emit_all(insts).slots == s.slots,
{
    let t = s.emit_all(insts);
    let block = s.blocks[s.block];
    assert forall|b: int, j: int| 0 <= b < t.blocks.len() && 0 <= j < t.blocks[b].len() implies fits_inst(
        globals,
        sig,
        t.slots.len(),
        t.blocks.len(),
        #[trigger] t.blocks[b][j],
    ) by {
        if b == s.block {
            if j < block.len() {
                assert(t.blocks[b][j] == s.blocks[b][j]);
            } else {
                assert(t.blocks[b][j] == insts[j - block.len()]);
            }
        } else {
            assert(t.blocks[b][j] == s.blocks[b][j]);
        }
    }
    assert forall|j: int| 0 <= j < t.blocks[s.block].len() implies is_plain(
        #[trigger] t.blocks[s.block][j],
    ) by {
        if j < block.len() {
            assert(t.blocks[s.block][j] == block[j]);
        } else {
            assert(t.blocks[s.block][j] == insts[j - block.len()]);
        }
    }
    assert(t.inv());
    assert(code_ok(t, sig, globals));
    assert forall|var: Seq<char>| (#[trigger] t.lookup(var)) is Some implies fits_operand(
        sig,
        t.slots.len(),
        t.lookup(var).unwrap(),
    ) by {
        assert(s.lookup(var) is Some);
    }
    assert(scopes_ok(t, sig));
    assert(t.scopes.drop_last() == s.scopes.drop_last());
}

/// Making a slot keeps the function in order.
proof fn lemma_alloca(s: State, name: Seq<char>, sig: Signature, globals: nat)
    requires
        good(s, sig, globals),
    ensures
        good(s.alloca(name), sig, globals),
        extends(s, s.alloca(name)),
        s.alloca(name).blocks == s.blocks,
        s.alloca(name).scopes == s.scopes,
        s.alloca(name).slots.len() == s.slots.len() + 1,
{
    let t = s.alloca(name);
    assert forall|var: Seq<char>| (#[trigger] t.lookup(var)) is Some implies fits_operand(
        sig,
        t.slots.len(),
        t.lookup(var).unwrap(),
    ) by {
        assert(s.lookup(var) is Some);
    }
    assert forall|b: int, j: int| 0 <= b < t.blocks.len() && 0 <= j < t.blocks[b].len() implies fits_inst(
        globals,
        sig,
        t.slots.len(),
        t.blocks.len(),
        #[trigger] t.blocks[b][j],
    ) by {
        lemma_fits_more(
            globals,
            sig,
            s.slots.len(),
            s.blocks.len(),
            s.blocks[b][j],
            t.slots.len(),
            t.blocks.len(),
        );
    }
}

/// Binding a name to a term of the function keeps the function in order.
proof fn lemma_define(s: State, name: Seq<char>, value: Operand, sig: Signature, globals: nat)
    requires
        good(s, sig, globals),
        fits_operand(sig, s.slots.len(), value),
    ensures
        good(s.define(name, value), sig, globals),
        extends(s, s.define(name, value)),
        s.define(name, value).blocks == s.blocks,
        s.define(name, value).slots == s.slots,
        s.define(name, value).visible() == s.visible().insert(name),
{
    let t = s.define(name, value);
    lemma_define_visible(s, name, value);
    assert(t.scopes.drop_last() =~= s.scopes.drop_last());
    assert forall|var: Seq<char>| (#[trigger] t.lookup(var)) is Some implies fits_operand(
        sig,
        t.slots.len(),
        t.lookup(var).unwrap(),
    ) by {
        if var != name {
            assert(t.lookup(var) == s.lookup(var));
        }
    }
}

/// Appending an instruction that ends the block, and is no switch, to the
/// current block keeps the function in order and makes the block a basic
/// block.
proof fn lemma_emit_closing(s: State, inst: Inst, sig: Signature, globals: nat)
    requires
        good(s, sig, globals),
        plain(s.blocks[s.block]),
        is_terminator(inst),
        !(inst is Switch),
        fits_inst(globals, sig, s.slots.len(), s.blocks.len(), inst),
    ensures
        good(s.emit(inst), sig, globals),
        extends(s, s.emit(inst)),
        block_ok(s.emit(inst).blocks[s.block]),
        s.emit(inst).scopes == s.scopes,
{
    let t = s.emit(inst);
    let block = s.blocks[s.block];
    assert(t.blocks[s.block] =~= block.push(inst));
    lemma_closed(block, inst);
    assert forall|b: int, j: int| 0 <= b < t.blocks.len() && 0 <= j < t.blocks[b].len() implies fits_inst(
        globals,
        sig,
        t.slots.len(),
        t.blocks.len(),
        #[trigger] t.blocks[b][j],
    ) by {
        if b == s.block {
            if j < block.len() {
                assert(t.blocks[b][j] == s.blocks[b][j]);
            }
        } else {
            assert(t.blocks[b][j] == s.blocks[b][j]);
        }
    }
    assert forall|var: Seq<char>| (#[trigger] t.lookup(var)) is Some implies fits_operand(
        sig,
        t.slots.len(),
        t.lookup(var).unwrap(),
    ) by {
        assert(s.lookup(var) is Some);
    }
}

proof fn lemma_extends_trans(a: State, b: State, c: State)
    requires
        a.inv(),
        extends(a, b),
        extends(b, c),
    ensures
        extends(a, c),
{
    assert forall|k: int| 0 <= k < a.blocks.len() && k != a.block implies #[trigger] c.blocks[k]
        == a.blocks[k] by {
        assert(c.blocks[k] == b.blocks[k]);
    }
    assert forall|k: int| a.blocks.len() <= k < c.blocks.len() implies block_ok(
        #[trigger] c.blocks[k],
    ) by {
        if k < b.blocks.len() {
            assert(block_ok(b.blocks[k]));
            assert(c.blocks[k] == b.blocks[k]);
        }
    }
}

/// The constant terms of a module: one for every entry but the entry
/// point.
spec fn terms(program: Program) -> nat {
    program.terms_before(program.entries@.len() as int)
}

proof fn lemma_terms_grow(program: Program, a: int, b: int)
    requires
        0 <= a <= b,
    ensures
        program.terms_before(a) <= program.terms_before(b),
        program.terms_before(b) <= b,
    decreases b,
{
    if b > 0 {
        if a < b {
            lemma_terms_grow(program, a, b - 1);
        } else {
            lemma_terms_grow(program, a - 1, b - 1);
        }
    }
}

proof fn lemma_term_index(program: Program, name: Seq<char>)
    requires
        program.find(name).is_some(),
        name != main_name(),
    ensures
        program.term_index(name) is Some,
        program.term_index(name).unwrap() < terms(program),
        terms(program) <= usize::MAX,
{
    let names = program.names();
    let len = program.entries@.len() as int;
    crate::target::lemma_position(names, name, 0);
    let at = crate::target::position(names, name, 0);
    assert(names[at] == program.entries@[at].0@);
    lemma_terms_grow(program, at + 1, len);
    lemma_terms_grow(program, 0, len);
    assert(program.entries.len() == len);
}

/// The names that a lookup in `scopes` finds.
spec fn seen(scopes: Seq<Map<Seq<char>, Operand>>) -> Set<Seq<char>> {
    Set::new(|var: Seq<char>| lookup_in(scopes, var).is_some())
}

/// Every local bound in `scopes` names a term of the function.
spec fn bound_ok(scopes: Seq<Map<Seq<char>, Operand>>, sig: Signature, slots: nat) -> bool {
    forall|var: Seq<char>|
        (#[trigger] lookup_in(scopes, var)) is Some ==> fits_operand(
            sig,
            slots,
            lookup_in(scopes, var).unwrap(),
        )
}

proof fn lemma_op(op: Op, s: State, program: Program, main: bool)
    requires
        good(s, signature_of(main), terms(program)),
        plain(s.blocks[s.block]),
        wf_op(op, s.visible(), program),
        shaped_op(op, main),
    ensures
        good(after_op(op, s, program), signature_of(main), terms(program)),
        extends(s, after_op(op, s, program)),
        after_op(op, s, program).visible() == after(op, s.visible()),
        if closes(op) {
            block_ok(after_op(op, s, program).blocks[s.block])
        } else {
            plain(after_op(op, s, program).blocks[s.block])
        },
    decreases op, 0int,
{
    let sig = signature_of(main);
    let globals = terms(program);
    match op {
        Op::LoadGlobal { global } => {
            lemma_term_index(program, global@);
            let index = program.term_index(global@).unwrap() as int;
            let dst = s.slots.len() as usize;
            let inst = Inst::LoadGlobal { dst, global: index as usize };
            let s1 = s.alloca(global@);
            lemma_alloca(s, global@, sig, globals);
            lemma_emit_plain(s1, seq![inst], sig, globals);
            let s2 = s1.emit(inst);
            lemma_define(s2, global@, Operand::Slot(dst), sig, globals);
            lemma_extends_trans(s, s1, s2);
            lemma_extends_trans(s, s2, s2.define(global@, Operand::Slot(dst)));
            assert(s2.visible() =~= s.visible());
        },
        Op::LoadArg { name, var, index } => {
            let src = s.lookup(var@).unwrap();
            let dst = s.slots.len() as usize;
            let inst = Inst::LoadArg { dst, src, index };
            let s1 = s.alloca(name@);
            lemma_alloca(s, name@, sig, globals);
            lemma_emit_plain(s1, seq![inst], sig, globals);
            let s2 = s1.emit(inst);
            lemma_define(s2, name@, Operand::Slot(dst), sig, globals);
            lemma_extends_trans(s, s1, s2);
            lemma_extends_trans(s, s2, s2.define(name@, Operand::Slot(dst)));
            assert(s2.visible() =~= s.visible());
        },
        Op::NewApp { name, var, args } => {
            lemma_apply(s, name@, Prim::NewApp, var@, args@, sig, globals);
        },
        Op::NewPartial { name, var, args } => {
            lemma_apply(s, name@, Prim::NewPartial, var@, args@, sig, globals);
        },
        Op::ApplyPartial { name, var, args } => {
            lemma_apply(s, name@, Prim::ApplyPartial, var@, args@, sig, globals);
        },
        Op::Copy { name, var } => {
            let src = s.lookup(var@).unwrap();
            let dst = s.slots.len() as usize;
            let inst = Inst::Copy { dst, src };
            let s1 = s.alloca(name@);
            lemma_alloca(s, name@, sig, globals);
            lemma_emit_plain(s1, seq![inst], sig, globals);
            let s2 = s1.emit(inst);
            lemma_define(s2, name@, Operand::Slot(dst), sig, globals);
            lemma_extends_trans(s, s1, s2);
            lemma_extends_trans(s, s2, s2.define(name@, Operand::Slot(dst)));
            assert(s2.visible() =~= s.visible());
        },
        Op::Eval { var } => {
            let term = s.lookup(var@).unwrap();
            lemma_emit_plain(s, seq![Inst::Eval { term }], sig, globals);
        },
        Op::FreeArgs { var } => {
            let term = s.lookup(var@).unwrap();
            lemma_emit_plain(s, seq![Inst::FreeArgs { term }], sig, globals);
        },
        Op::FreeTerm { var } => {
            let term = s.lookup(var@).unwrap();
            lemma_emit_plain(s, seq![Inst::FreeTerm { term }], sig, globals);
        },
        Op::ReturnSymbol { var } => {
            let src = s.lookup(var@).unwrap();
            lemma_emit_closing(s, Inst::ReturnSymbol { src }, sig, globals);
        },
        Op::Return { var } => {
            let src = s.lookup(var@).unwrap();
            lemma_emit_closing(s, Inst::Return { src }, sig, globals);
        },
        Op::Todo => {
            lemma_emit_closing(s, Inst::Todo, sig, globals);
        },
        Op::Switch { var, cases } => {
            let on = s.lookup(var@).unwrap();
            let origin = s.block;
            let s1 = s.add_scope();
            let start = s.blocks[origin].len() as int;
            assert(s1.scopes.drop_last() =~= s.scopes);
            assert forall|name: Seq<char>| #[trigger]
                lookup_in(s1.scopes, name) == lookup_in(s.scopes, name) by {
                lemma_empty_scope(s.scopes, name);
            }
            assert forall|name: Seq<char>| (#[trigger] s1.lookup(name)) is Some implies fits_operand(
                sig,
                s1.slots.len(),
                s1.lookup(name).unwrap(),
            ) by {
                assert(lookup_in(s1.scopes, name) == lookup_in(s.scopes, name));
                assert(s.lookup(name) is Some);
            }
            assert(good(s1, sig, globals));
            assert(bound_ok(s.scopes, sig, s1.slots.len())) by {
                assert forall|name: Seq<char>| (#[trigger] lookup_in(s.scopes, name)) is Some implies fits_operand(
                    sig,
                    s1.slots.len(),
                    lookup_in(s.scopes, name).unwrap(),
                ) by {
                    assert(s.lookup(name) is Some);
                }
            }
            assert(tabled(s1.blocks[origin], start)) by {
                assert forall|j: int| 0 <= j < s1.blocks[origin].len() implies is_plain(
                    #[trigger] s1.blocks[origin][j],
                ) by {
                    assert(is_plain(s.blocks[origin][j]));
                }
            }
            assert(seen(s.scopes) =~= s.visible());
            assert(decreases_to!(op => op->cases));
            assert(decreases_to!(op->cases => cases@));
            lemma_arms(cases@, 0, s1, origin, program, main, s.scopes, start);
            let s2 = after_arms(cases@, 0, s1, origin, program);
            let default = s2.blocks.len() as usize;
            let count = cases@.len() as usize;
            assert(cases.len() == cases@.len());
            let switch = Inst::Switch { on, default, cases: count };
            let s3 = s2.end_switch(origin, on, cases@.len());
            assert(s3 == after_op(op, s, program));
            let waiting = s2.blocks[origin];
            lemma_switched(waiting, start, on, default, count);
            lemma_closed(Seq::empty(), Inst::Unreachable);
            assert(Seq::<Inst>::empty().push(Inst::Unreachable) =~= seq![Inst::Unreachable]);
            assert(s3.blocks[origin] =~= waiting.push(switch));
            assert(s3.blocks.len() == s2.blocks.len() + 1);
            assert(s3.scopes == s.scopes);
            assert(s3.visible() =~= s.visible());
            assert forall|b: int, j: int|
                0 <= b < s3.blocks.len() && 0 <= j < s3.blocks[b].len() implies fits_inst(
                globals,
                sig,
                s3.slots.len(),
                s3.blocks.len(),
                #[trigger] s3.blocks[b][j],
            ) by {
                if b == origin {
                    if j < waiting.len() {
                        assert(s3.blocks[b][j] == s2.blocks[b][j]);
                        lemma_fits_more(
                            globals,
                            sig,
                            s2.slots.len(),
                            s2.blocks.len(),
                            s2.blocks[b][j],
                            s3.slots.len(),
                            s3.blocks.len(),
                        );
                    } else {
                        assert(s3.blocks[b][j] == switch);
                        assert(fits_operand(sig, s.slots.len(), on));
                    }
                } else if b < s2.blocks.len() {
                    assert(s3.blocks[b][j] == s2.blocks[b][j]);
                    lemma_fits_more(
                        globals,
                        sig,
                        s2.slots.len(),
                        s2.blocks.len(),
                        s2.blocks[b][j],
                        s3.slots.len(),
                        s3.blocks.len(),
                    );
                } else {
                    assert(s3.blocks[b][j] == Inst::Unreachable);
                }
            }
            assert forall|name: Seq<char>| (#[trigger] s3.lookup(name)) is Some implies fits_operand(
                sig,
                s3.slots.len(),
                s3.lookup(name).unwrap(),
            ) by {
                assert(s.lookup(name) is Some);
            }
            assert forall|b: int| 0 <= b < s.blocks.len() && b != s.block implies #[trigger] s3.blocks[b]
                == s.blocks[b] by {
                assert(s3.blocks[b] == s2.blocks[b]);
                assert(s2.blocks[b] == s1.blocks[b]);
            }
            assert forall|b: int| s.blocks.len() <= b < s3.blocks.len() implies block_ok(
                #[trigger] s3.blocks[b],
            ) by {
                if b < s2.blocks.len() {
                    assert(s3.blocks[b] == s2.blocks[b]);
                    assert(block_ok(s2.blocks[b]));
                } else {
                    assert(s3.blocks[b] =~= seq![Inst::Unreachable]);
                }
            }
        },
    }
}

proof fn lemma_apply(
    s: State,
    name: Seq<char>,
    prim: Prim,
    var: Seq<char>,
    args: Seq<String>,
    sig: Signature,
    globals: nat,
)
    requires
        good(s, sig, globals),
        plain(s.blocks[s.block]),
        s.visible().contains(var),
        crate::lir::all_visible(args, s.visible()),
    ensures
        good(
            s.apply(name, prim, s.lookup(var).unwrap(), operands(s, texts(args))),
            sig,
            globals,
        ),
        extends(s, s.apply(name, prim, s.lookup(var).unwrap(), operands(s, texts(args)))),
        s.apply(name, prim, s.lookup(var).unwrap(), operands(s, texts(args))).visible()
            == s.visible().insert(name),
        plain(
            s.apply(name, prim, s.lookup(var).unwrap(), operands(s, texts(args))).blocks[s.block],
        ),
{
    let term = s.lookup(var).unwrap();
    let found = operands(s, texts(args));
    let len = found.len() as usize;
    let insts = seq![Inst::ArgsAlloca { len }] + stores(found) + seq![
        Inst::Call { prim, term, len },
    ];
    assert forall|j: int| 0 <= j < insts.len() implies is_plain(#[trigger] insts[j]) && fits_inst(
        globals,
        sig,
        s.slots.len(),
        s.blocks.len(),
        insts[j],
    ) by {
        if j == 0 {
        } else if j <= found.len() {
            assert(insts[j] == stores(found)[j - 1]);
            assert(s.visible().contains(args[j - 1]@));
            assert(texts(args)[j - 1] == args[j - 1]@);
            assert(s.lookup(texts(args)[j - 1]) is Some);
        } else {
            assert(insts[j] == Inst::Call { prim, term, len });
        }
    }
    lemma_emit_plain(s, insts, sig, globals);
    let s1 = s.emit_all(insts);
    lemma_define(s1, name, term, sig, globals);
    lemma_extends_trans(s, s1, s1.define(name, term));
    assert(s1.visible() =~= s.visible());
}

proof fn lemma_block(ops: Seq<Op>, from: int, s: State, program: Program, main: bool)
    requires
        good(s, signature_of(main), terms(program)),
        plain(s.blocks[s.block]),
        0 <= from <= ops.len(),
        wf_block(ops, from, s.visible(), program),
        forall|i: int|
            from <= i < ops.len() ==> {
                &&& shaped_op(#[trigger] ops[i], main)
                &&& i < ops.len() - 1 ==> !closes(ops[i])
            },
        from < ops.len() ==> closes(ops.last()),
    ensures
        good(after_block(ops, from, s, program), signature_of(main), terms(program)),
        extends(s, after_block(ops, from, s, program)),
        from < ops.len() ==> block_ok(after_block(ops, from, s, program).blocks[s.block]),
        from == ops.len() ==> after_block(ops, from, s, program) == s,
    decreases ops, ops.len() - from,
{
    if from < ops.len() {
        lemma_op(ops[from], s, program, main);
        let s1 = after_op(ops[from], s, program);
        if from == ops.len() - 1 {
            assert(ops.last() == ops[from]);
            assert(after_block(ops, from + 1, s1, program) == s1);
        } else {
            lemma_block(ops, from + 1, s1, program, main);
            let s2 = after_block(ops, from + 1, s1, program);
            lemma_extends_trans(s, s1, s2);
        }
    }
}

proof fn lemma_arms(
    cases: Seq<Case>,
    from: int,
    s: State,
    origin: int,
    program: Program,
    main: bool,
    outer: Seq<Map<Seq<char>, Operand>>,
    start: int,
)
    requires
        good(s, signature_of(main), terms(program)),
        0 <= origin < s.blocks.len(),
        tabled(s.blocks[origin], start),
        s.scopes.drop_last() == outer,
        bound_ok(outer, signature_of(main), s.slots.len()),
        0 <= from <= cases.len(),
        forall|i: int|
            from <= i < cases.len() ==> {
                &&& program.const_symbol((#[trigger] cases[i]).global@).is_some()
                &&& wf_block(cases[i].block@, 0, seen(outer), program)
                &&& shaped_block(cases[i].block@, main)
            },
    ensures
        good(after_arms(cases, from, s, origin, program), signature_of(main), terms(program)),
        after_arms(cases, from, s, origin, program).scopes.len() == s.scopes.len(),
        after_arms(cases, from, s, origin, program).scopes.drop_last() == outer,
        s.blocks.len() <= after_arms(cases, from, s, origin, program).blocks.len(),
        s.slots.len() <= after_arms(cases, from, s, origin, program).slots.len(),
        forall|b: int|
            0 <= b < s.blocks.len() && b != origin ==> #[trigger] after_arms(
                cases,
                from,
                s,
                origin,
                program,
            ).blocks[b] == s.blocks[b],
        forall|b: int|
            s.blocks.len() <= b < after_arms(cases, from, s, origin, program).blocks.len()
                ==> block_ok(#[trigger] after_arms(cases, from, s, origin, program).blocks[b]),
        tabled(after_arms(cases, from, s, origin, program).blocks[origin], start),
        after_arms(cases, from, s, origin, program).blocks[origin].len() == s.blocks[origin].len()
            + cases.len() - from,
    decreases cases, cases.len() - from,
{
    let sig = signature_of(main);
    let globals = terms(program);
    if from < cases.len() {
        let symbol = program.const_symbol(cases[from].global@).unwrap();
        let target = s.blocks.len() as usize;
        let s1 = s.begin_arm(origin, symbol);
        let entry = Inst::Case { symbol, target };
        assert(s1.blocks.len() == s.blocks.len() + 1);
        assert(s1.block == s.blocks.len());
        assert(s1.scopes =~= outer.push(Map::empty())) by {
            assert(s.scopes =~= s.scopes.drop_last().push(s.scopes.last()));
        }
        assert(s1.scopes.drop_last() =~= outer);
        assert forall|name: Seq<char>| #[trigger]
            lookup_in(s1.scopes, name) == lookup_in(outer, name) by {
            lemma_empty_scope(outer, name);
        }
        assert(s1.visible() =~= seen(outer));
        assert(s1.blocks[origin] =~= s.blocks[origin].push(entry));
        assert(s1.blocks[s1.block] =~= Seq::empty());
        assert forall|b: int, j: int|
            0 <= b < s1.blocks.len() && 0 <= j < s1.blocks[b].len() implies fits_inst(
            globals,
            sig,
            s1.slots.len(),
            s1.blocks.len(),
            #[trigger] s1.blocks[b][j],
        ) by {
            if b == origin {
                if j < s.blocks[origin].len() {
                    assert(s1.blocks[b][j] == s.blocks[b][j]);
                    lemma_fits_more(
                        globals,
                        sig,
                        s.slots.len(),
                        s.blocks.len(),
                        s.blocks[b][j],
                        s1.slots.len(),
                        s1.blocks.len(),
                    );
                }
            } else if b < s.blocks.len() {
                assert(s1.blocks[b][j] == s.blocks[b][j]);
                lemma_fits_more(
                    globals,
                    sig,
                    s.slots.len(),
                    s.blocks.len(),
                    s.blocks[b][j],
                    s1.slots.len(),
                    s1.blocks.len(),
                );
            }
        }
        assert forall|name: Seq<char>| (#[trigger] s1.lookup(name)) is Some implies fits_operand(
            sig,
            s1.slots.len(),
            s1.lookup(name).unwrap(),
        ) by {
            assert(lookup_in(s1.scopes, name) == lookup_in(outer, name));
        }
        assert(good(s1, sig, globals));
        assert(plain(s1.blocks[s1.block]));
        let arm = cases[from].block@;
        assert(decreases_to!(cases => cases[from]));
        assert(decreases_to!(cases[from] => cases[from].block));
        assert(decreases_to!(cases[from].block => cases[from].block@));
        assert(arm.last() == arm[arm.len() - 1]);
        lemma_block(arm, 0, s1, program, main);
        let s2 = after_block(arm, 0, s1, program);
        assert(s2.blocks[origin] == s1.blocks[origin]);
        assert(tabled(s2.blocks[origin], start)) by {
            assert forall|j: int| 0 <= j < s2.blocks[origin].len() implies if j < start {
                is_plain(#[trigger] s2.blocks[origin][j])
            } else {
                s2.blocks[origin][j] is Case
            } by {
                if j < s.blocks[origin].len() {
                    assert(s2.blocks[origin][j] == s.blocks[origin][j]);
                }
            }
        }
        assert(bound_ok(outer, sig, s2.slots.len())) by {
            assert forall|name: Seq<char>| (#[trigger] lookup_in(outer, name)) is Some implies fits_operand(
                sig,
                s2.slots.len(),
                lookup_in(outer, name).unwrap(),
            ) by {
                assert(fits_operand(sig, s.slots.len(), lookup_in(outer, name).unwrap()));
            }
        }
        lemma_arms(cases, from + 1, s2, origin, program, main, outer, start);
        let t = after_arms(cases, from + 1, s2, origin, program);
        assert(t == after_arms(cases, from, s, origin, program));
        assert forall|b: int| 0 <= b < s.blocks.len() && b != origin implies #[trigger] t.blocks[b]
            == s.blocks[b] by {
            assert(t.blocks[b] == s2.blocks[b]);
            assert(s2.blocks[b] == s1.blocks[b]);
        }
        assert forall|b: int| s.blocks.len() <= b < t.blocks.len() implies block_ok(
            #[trigger] t.blocks[b],
        ) by {
            if b < s2.blocks.len() {
                assert(t.blocks[b] == s2.blocks[b]);
                if b >= s1.blocks.len() {
                    assert(block_ok(s2.blocks[b]));
                }
            }
        }
    }
}

/// A function that is in order by itself: it has an entry block, its
/// blocks are basic blocks, and its instructions fit it in a module with
/// `globals` constant terms.
spec fn function_fits(globals: nat, f: FunctionView) -> bool {
    &&& f.blocks.len() > 0
    &&& forall|b: int| 0 <= b < f.blocks.len() ==> block_ok(#[trigger] f.blocks[b])
    &&& forall|b: int, j: int|
        0 <= b < f.blocks.len() && 0 <= j < f.blocks[b].len() ==> fits_inst(
            globals,
            f.signature,
            f.slots.len(),
            f.blocks.len(),
            #[trigger] f.blocks[b][j],
        )
}

proof fn lemma_function_ok(m: ModuleView, f: FunctionView)
    requires
        function_fits(m.globals.len(), f),
    ensures
        function_ok(m, f),
{
    assert forall|b: int, j: int|
        0 <= b < f.blocks.len() && 0 <= j < f.blocks[b].len() implies inst_ok(
        m,
        f,
        #[trigger] f.blocks[b][j],
    ) by {
        assert(fits_inst(
            m.globals.len(),
            f.signature,
            f.slots.len(),
            f.blocks.len(),
            f.blocks[b][j],
        ));
    }
}

/// Entry `i` of `program` is a function whose body is well-formed and
/// shaped.
spec fn entry_ok(program: Program, i: int) -> bool {
    &&& 0 <= i < program.entries@.len()
    &&& program.entries@[i].1 matches Global::Fun { block, .. }
    &&& program.wf_entry(i)
    &&& shaped_block(block@, program.entries@[i].0@ == main_name())
}

proof fn lemma_body(program: Program, i: int, f: FunctionView)
    requires
        entry_ok(program, i),
        f.slots == body(program, i).slots,
        f.blocks == body(program, i).blocks,
        f.signature == signature_of(program.entries@[i].0@ == main_name()),
    ensures
        function_fits(terms(program), f),
{
    let name = program.entries@[i].0@;
    let main = name == main_name();
    let sig = signature_of(main);
    let globals = terms(program);
    let block = program.entries@[i].1->block;
    let ops = block@;
    let s0 = start_of(name);
    lemma_start_visible(name);
    lemma_start_empty();
    let empty = State::start();
    assert(empty.blocks[0] =~= Seq::<Inst>::empty());
    assert(good(empty, sig, globals)) by {
        assert forall|var: Seq<char>| (#[trigger] empty.lookup(var)) is Some implies fits_operand(
            sig,
            empty.slots.len(),
            empty.lookup(var).unwrap(),
        ) by {
            assert(empty.visible().contains(var));
        }
    }
    if !main {
        lemma_define(empty, self_name(), Operand::Param, sig, globals);
    }
    assert(good(s0, sig, globals));
    assert(plain(s0.blocks[s0.block]));
    assert(ops.last() == ops[ops.len() - 1]);
    lemma_block(ops, 0, s0, program, main);
    let s = after_block(ops, 0, s0, program);
    assert(body(program, i) == s);
    assert forall|b: int| 0 <= b < f.blocks.len() implies block_ok(#[trigger] f.blocks[b]) by {
        if b == 0 {
        } else {
            assert(block_ok(s.blocks[b]));
        }
    }
}

proof fn lemma_declared_ok(program: Program, n: int)
    requires
        0 <= n,
    ensures
        forall|k: int|
            0 <= k < declared(program, n).functions.len() ==> (#[trigger] declared(
                program,
                n,
            ).functions[k]).signature == Signature::Evaluator,
        forall|g: int|
            0 <= g < declared(program, n).globals.len() ==> match (#[trigger] declared(
                program,
                n,
            ).globals[g]).fun {
                Evaluator::Null => false,
                Evaluator::Noop => true,
                Evaluator::Code(k) => k < declared(program, n).functions.len(),
            },
    decreases n,
{
    if n > 0 {
        lemma_declared_ok(program, n - 1);
        let before = declared(program, n - 1);
        let now = declared(program, n);
        assert forall|g: int| 0 <= g < now.globals.len() implies match (#[trigger] now.globals[g]).fun {
            Evaluator::Null => false,
            Evaluator::Noop => true,
            Evaluator::Code(k) => k < now.functions.len(),
        } by {
            if g < before.globals.len() {
                assert(now.globals[g] == before.globals[g]);
            }
        }
        assert forall|k: int| 0 <= k < now.functions.len() implies (#[trigger] now.functions[k]).signature
            == Signature::Evaluator by {
            if k < before.functions.len() {
                assert(now.functions[k] == before.functions[k]);
            }
        }
    }
}

proof fn lemma_defined_ok(program: Program, n: int)
    requires
        0 <= n <= program.entries@.len(),
        program.well_formed(),
        shaped(program),
    ensures
        declared(program, program.entries@.len() as int).functions.len() <= defined(
            program,
            n,
        ).functions.len(),
        declared(program, n).functions.len() <= declared(
            program,
            program.entries@.len() as int,
        ).functions.len(),
        forall|k: int|
            0 <= k < declared(program, program.entries@.len() as int).functions.len()
                ==> (#[trigger] defined(program, n).functions[k]).signature
                == Signature::Evaluator,
        forall|k: int|
            0 <= k < defined(program, n).functions.len() && (k < declared(
                program,
                n,
            ).functions.len() || k >= declared(
                program,
                program.entries@.len() as int,
            ).functions.len()) ==> function_fits(
                terms(program),
                #[trigger] defined(program, n).functions[k],
            ),
    decreases n,
{
    let len = program.entries@.len() as int;
    let base = declared(program, len).functions.len();
    crate::lir::compile::lemma_declared_grows(program, n, len);
    if n == 0 {
        lemma_declared_ok(program, len);
    } else {
        lemma_defined_ok(program, n - 1);
        let before = defined(program, n - 1);
        let now = defined(program, n);
        let at = declared(program, n - 1).functions.len() as int;
        crate::lir::compile::lemma_declared_grows(program, n - 1, n);
        assert(program.wf_entry(n - 1));
        if program.entries@[n - 1].1 is Fun {
            assert(entry_ok(program, n - 1));
            if program.entries@[n - 1].0@ == main_name() {
                lemma_body(program, n - 1, now.functions[before.functions.len() as int]);
            } else {
                crate::lir::laws::lemma_declared_strictly(program, n - 1, len);
                lemma_body(program, n - 1, now.functions[at]);
            }
        }
        assert forall|k: int| 0 <= k < base implies (#[trigger] now.functions[k]).signature
            == Signature::Evaluator by {
            assert(before.functions[k].signature == Signature::Evaluator);
        }
        assert forall|k: int|
            0 <= k < now.functions.len() && (k < declared(program, n).functions.len() || k
                >= base) implies function_fits(terms(program), #[trigger] now.functions[k]) by {
            if k < at || (base <= k < before.functions.len()) {
                assert(function_fits(terms(program), before.functions[k]));
                assert(now.functions[k] == before.functions[k]);
            }
        }
    }
}

/// A well-formed program whose blocks end as blocks must is lowered to a
/// valid module.
pub proof fn shaped_programs_are_valid(program: Program)
    requires
        program.well_formed(),
        shaped(program),
    ensures
        valid(emitted(program)),
{
    let len = program.entries@.len() as int;
    let m = emitted(program);
    lemma_defined_ok(program, len);
    lemma_declared_ok(program, len);
    crate::lir::laws::lemma_declared_terms(program, len);
    crate::lir::laws::lemma_defined_globals(program, len);
    assert(m.globals.len() == terms(program));
    assert forall|f: int| 0 <= f < m.functions.len() implies function_ok(
        m,
        #[trigger] m.functions[f],
    ) by {
        assert(function_fits(terms(program), m.functions[f]));
        lemma_function_ok(m, m.functions[f]);
    }
    assert forall|g: int| 0 <= g < m.globals.len() implies evaluator_ok(
        m,
        (#[trigger] m.globals[g]).fun,
    ) by {
        let d = declared(program, len);
        assert(m.globals[g] == d.globals[g]);
        match d.globals[g].fun {
            Evaluator::Code(k) => {
                assert(m.functions[k as int].signature == Signature::Evaluator);
            },
            _ => {},
        }
    }
}

/// A well-formed program whose blocks end as blocks must compiles: it is
/// neither rejected nor cut short by a broken module. Handed on, it is a
/// module to write out; run, it ends with an exit code, in a fault of its
/// own, or out of the steps or the room for calls that it was given.
pub proof fn shaped_programs_compile(program: Program, config: Config)
    requires
        program.well_formed(),
        shaped(program),
    ensures
        config.mode == Mode::Aot ==> compiled(program, config) == Ok::<Output, Error>(
            Output::Binary,
        ),
        compiled(program, config) != Err::<Output, Error>(Error::Malformed),
        compiled(program, config) != Err::<Output, Error>(Error::Invalid),
        compiled(program, config) != Err::<Output, Error>(Error::Fault(Fault::Invalid)),
{
    shaped_programs_are_valid(program);
    crate::lir::laws::compile_does_not_go_wrong(program, config);
}

} // verus!
