//! Verification of target modules: the conditions that a module has to meet
//! before it is run or written out.

use crate::rts::Evaluator;
use crate::target::{FunctionView, Function, Inst, Module, ModuleView, Operand, Signature};
use vstd::prelude::*;

verus! {

/// Whether `inst` ends a block.
pub open spec fn is_terminator(inst: Inst) -> bool {
    inst is Return || inst is ReturnSymbol || inst is Switch || inst is Unreachable || inst is Todo
}

/// Whether `op` names a term of function `f`: a slot that the function
/// has, or the incoming pointer where there is one.
pub open spec fn operand_ok(f: FunctionView, op: Operand) -> bool {
    match op {
        Operand::Param => f.signature == Signature::Evaluator,
        Operand::Slot(i) => i < f.slots.len(),
    }
}

/// Whether `inst` fits function `f` of module `m`: it names slots, blocks
/// and constant terms that exist, and it returns what the function returns.
pub open spec fn inst_ok(m: ModuleView, f: FunctionView, inst: Inst) -> bool {
    match inst {
        Inst::LoadGlobal { dst, global } => dst < f.slots.len() && global < m.globals.len(),
        Inst::LoadArg { dst, src, .. } => dst < f.slots.len() && operand_ok(f, src),
        Inst::ArgsAlloca { .. } => true,
        Inst::ArgStore { src, .. } => operand_ok(f, src),
        Inst::Call { term, .. } => operand_ok(f, term),
        Inst::Copy { dst, src } => dst < f.slots.len() && operand_ok(f, src),
        Inst::Eval { term } => operand_ok(f, term),
        Inst::FreeArgs { term } => operand_ok(f, term),
        Inst::FreeTerm { term } => operand_ok(f, term),
        Inst::Return { src } => f.signature == Signature::Evaluator && operand_ok(f, src),
        Inst::ReturnSymbol { src } => f.signature == Signature::Main && operand_ok(f, src),
        Inst::Case { target, .. } => target < f.blocks.len(),
        Inst::Switch { on, default, .. } => operand_ok(f, on) && default < f.blocks.len(),
        Inst::Unreachable => true,
        Inst::Todo => true,
    }
}

/// Where the case table of `block` starts: as many entries before the
/// last instruction as the switch there says, or none.
pub open spec fn table_start(block: Seq<Inst>) -> int {
    match block.last() {
        Inst::Switch { cases, .. } => block.len() - 1 - cases,
        _ => block.len() - 1,
    }
}

/// Whether `block` has the shape of a basic block: its last instruction,
/// and no other, ends it, and the table entries are those that stand
/// directly before a switch, as many as the switch says.
pub open spec fn block_ok(block: Seq<Inst>) -> bool {
    &&& block.len() > 0
    &&& is_terminator(block.last())
    &&& table_start(block) >= 0
    &&& forall|j: int|
        0 <= j < block.len() - 1 ==> {
            &&& !is_terminator(#[trigger] block[j])
            &&& (block[j] is Case) == (j >= table_start(block))
        }
}

/// Whether function `f` of module `m` has an entry block, well-shaped
/// blocks, and instructions that fit.
pub open spec fn function_ok(m: ModuleView, f: FunctionView) -> bool {
    &&& f.blocks.len() > 0
    &&& forall|b: int| 0 <= b < f.blocks.len() ==> block_ok(#[trigger] f.blocks[b])
    &&& forall|b: int, j: int|
        0 <= b < f.blocks.len() && 0 <= j < f.blocks[b].len() ==> inst_ok(
            m,
            f,
            #[trigger] f.blocks[b][j],
        )
}

/// Whether `fun` is an evaluator that module `m` has: the inert one, or one
/// of its functions that take a pointer to a term.
pub open spec fn evaluator_ok(m: ModuleView, fun: Evaluator) -> bool {
    match fun {
        Evaluator::Null => false,
        Evaluator::Noop => true,
        Evaluator::Code(f) => f < m.functions.len() && m.functions[f as int].signature
            == Signature::Evaluator,
    }
}

/// Whether the module is valid: every function is, and every constant term
/// has an evaluator.
pub open spec fn valid(m: ModuleView) -> bool {
    &&& forall|f: int| 0 <= f < m.functions.len() ==> function_ok(m, #[trigger] m.functions[f])
    &&& forall|g: int| 0 <= g < m.globals.len() ==> evaluator_ok(m, (#[trigger] m.globals[g]).fun)
}

/// Whether `inst` ends a block.
pub fn ends_block(inst: Inst) -> (b: bool)
    ensures
        b == is_terminator(inst),
{
    match inst {
        Inst::Return { .. } => true,
        Inst::ReturnSymbol { .. } => true,
        Inst::Switch { .. } => true,
        Inst::Unreachable => true,
        Inst::Todo => true,
        _ => false,
    }
}

/// Whether `block` has the shape of a basic block.
pub fn verify_block(block: &Vec<Inst>) -> (ok: bool)
    ensures
        ok == block_ok(block@),
{
    let n = block.len();
    if n == 0 {
        return false;
    }
    let last = block[n - 1];
    if !ends_block(last) {
        return false;
    }
    let start = match last {
        Inst::Switch { cases, .. } => {
            if cases > n - 1 {
                return false;
            }
            n - 1 - cases
        },
        _ => n - 1,
    };
    let mut j: usize = 0;
    while j < n - 1
        invariant
            j <= n - 1,
            n == block@.len(),
            start == table_start(block@),
            forall|k: int|
                0 <= k < j ==> {
                    &&& !is_terminator(#[trigger] block@[k])
                    &&& (block@[k] is Case) == (k >= start)
                },
        decreases n - 1 - j,
    {
        let inst = block[j];
        if ends_block(inst) {
            return false;
        }
        let is_case = match inst {
            Inst::Case { .. } => true,
            _ => false,
        };
        if is_case != (j >= start) {
            return false;
        }
        j += 1;
    }
    true
}

/// Whether `op` names a term of `function`.
fn verify_operand(function: &Function, op: Operand) -> (ok: bool)
    ensures
        ok == operand_ok(function@, op),
{
    match op {
        Operand::Param => match function.signature {
            Signature::Evaluator => true,
            Signature::Main => false,
        },
        Operand::Slot(i) => i < function.slots.len(),
    }
}

/// Whether `function` returns a 32-bit integer.
fn is_entry(function: &Function) -> (b: bool)
    ensures
        b == (function@.signature == Signature::Main),
{
    match function.signature {
        Signature::Main => true,
        Signature::Evaluator => false,
    }
}

/// Whether `inst` fits `function` of `module`.
pub fn verify_inst(module: &Module, function: &Function, inst: Inst) -> (ok: bool)
    ensures
        ok == inst_ok(module@, function@, inst),
{
    match inst {
        Inst::LoadGlobal { dst, global } => dst < function.slots.len() && global
            < module.globals.len(),
        Inst::LoadArg { dst, src, .. } => dst < function.slots.len() && verify_operand(
            function,
            src,
        ),
        Inst::ArgsAlloca { .. } => true,
        Inst::ArgStore { src, .. } => verify_operand(function, src),
        Inst::Call { term, .. } => verify_operand(function, term),
        Inst::Copy { dst, src } => dst < function.slots.len() && verify_operand(function, src),
        Inst::Eval { term } => verify_operand(function, term),
        Inst::FreeArgs { term } => verify_operand(function, term),
        Inst::FreeTerm { term } => verify_operand(function, term),
        Inst::Return { src } => !is_entry(function) && verify_operand(function, src),
        Inst::ReturnSymbol { src } => is_entry(function) && verify_operand(function, src),
        Inst::Case { target, .. } => target < function.blocks.len(),
        Inst::Switch { on, default, .. } => verify_operand(function, on) && default
            < function.blocks.len(),
        Inst::Unreachable => true,
        Inst::Todo => true,
    }
}

/// Whether `function` of `module` has an entry block, well-shaped blocks,
/// and instructions that fit.
pub fn verify_function(module: &Module, function: &Function) -> (ok: bool)
    ensures
        ok == function_ok(module@, function@),
{
    let n = function.blocks.len();
    if n == 0 {
        return false;
    }
    let ghost f = function@;
    let mut b: usize = 0;
    while b < n
        invariant
            b <= n,
            n == function.blocks@.len(),
            f == function@,
            forall|c: int| 0 <= c < b ==> block_ok(#[trigger] f.blocks[c]),
            forall|c: int, j: int|
                0 <= c < b && 0 <= j < f.blocks[c].len() ==> inst_ok(
                    module@,
                    f,
                    #[trigger] f.blocks[c][j],
                ),
        decreases n - b,
    {
        let block = &function.blocks[b];
        assert(f.blocks[b as int] == block@);
        if !verify_block(block) {
            return false;
        }
        let mut j: usize = 0;
        while j < block.len()
            invariant
                j <= block@.len(),
                b < n,
                n == function.blocks@.len(),
                f == function@,
                f.blocks[b as int] == block@,
                forall|k: int| 0 <= k < j ==> inst_ok(module@, f, #[trigger] block@[k]),
            decreases block@.len() - j,
        {
            if !verify_inst(module, function, block[j]) {
                assert(!inst_ok(module@, f, f.blocks[b as int][j as int]));
                return false;
            }
            j += 1;
        }
        b += 1;
    }
    true
}

/// Verifies `module`: tells whether it is valid.
pub fn verify(module: &Module) -> (ok: bool)
    ensures
        ok == valid(module@),
{
    let ghost m = module@;
    let mut f: usize = 0;
    while f < module.functions.len()
        invariant
            f <= module.functions@.len(),
            m == module@,
            forall|g: int| 0 <= g < f ==> function_ok(m, #[trigger] m.functions[g]),
        decreases module.functions@.len() - f,
    {
        assert(m.functions[f as int] == module.functions@[f as int]@);
        if !verify_function(module, &module.functions[f]) {
            return false;
        }
        f += 1;
    }
    let mut g: usize = 0;
    while g < module.globals.len()
        invariant
            g <= module.globals@.len(),
            m == module@,
            forall|h: int| 0 <= h < g ==> evaluator_ok(m, (#[trigger] m.globals[h]).fun),
        decreases module.globals@.len() - g,
    {
        assert(m.globals[g as int] == module.globals@[g as int]@);
        let ok = match module.globals[g].fun {
            Evaluator::Null => false,
            Evaluator::Noop => true,
            Evaluator::Code(f) => f < module.functions.len() && !is_entry(&module.functions[f]),
        };
        if !ok {
            assert(!evaluator_ok(m, m.globals[g as int].fun));
            return false;
        }
        g += 1;
    }
    true
}

} // verus!
