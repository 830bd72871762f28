//! The machine that target modules run on: what each instruction does to
//! the terms in the stack slots of a function, with the runtime primitives
//! doing the work on terms.

use crate::rts::{
    apply_partial, calloc_terms, copy, copyable, free_args, free_term, is_partial, new_app,
    new_partial, owned, spec_apply_partial, spec_free, spec_new_app, spec_new_partial, views, zero,
    Evaluator, Term, TermView,
};
use crate::target::{
    code, GlobalView, Inst, Module, ModuleView, Operand, Prim, Signature,
};
use vstd::prelude::*;

pub mod sound;

verus! {

/// Why a run was cut short.
#[derive(Clone, Copy, Debug, PartialEq, Eq, Structural)]
pub enum Fault {
    /// The module is broken where control stands: an index out of range, a
    /// block without an end, a return that does not fit the function.
    Invalid,
    /// The program reached into memory that it does not have: a slot outside
    /// an argument block or outside the stack array, an evaluator that was
    /// never set, a primitive applied to a term that is not in shape for it.
    Memory,
    /// Control reached a point that was declared unreachable.
    Unreachable,
}

/// How a run ended.
#[derive(Clone, Copy, Debug, PartialEq, Eq, Structural)]
pub enum Halt {
    /// The entry point returned this value.
    Exit(i32),
    /// The unhandled-case trap was called.
    Unhandled,
    /// The run was cut short.
    Fault(Fault),
    /// The run used up the steps it was given.
    OutOfFuel,
    /// The calls nested deeper than the run was allowed.
    StackOverflow,
}

/// The terms that a running function works on.
pub ghost struct Frame {
    /// The stack slots.
    pub slots: Seq<TermView>,
    /// The stack array of the call being prepared.
    pub array: Seq<TermView>,
    /// The term behind the incoming pointer.
    pub this: TermView,
}

/// The end of a run of a function: how it halted, if it did not just
/// return, and what the frame was then.
pub ghost struct Outcome {
    pub halt: Option<Halt>,
    pub frame: Frame,
}

/// The constructor tag as the entry point returns it: the same 32 bits,
/// read as a signed integer.
pub open spec fn exit_code(symbol: u32) -> i32 {
    if symbol <= 0x7fff_ffff {
        symbol as i32
    } else {
        (symbol - 0x1_0000_0000) as i32
    }
}

/// The term that a constant global term holds.
pub open spec fn global_term(g: GlobalView) -> TermView {
    TermView { fun: g.fun, args: Seq::empty(), symbol: g.symbol, length: g.arity, capacity: g.arity }
}

/// The term that `op` names, if it names one.
pub open spec fn read(frame: Frame, sig: Signature, op: Operand) -> Option<TermView> {
    match op {
        Operand::Param => if sig == Signature::Evaluator {
            Some(frame.this)
        } else {
            None
        },
        Operand::Slot(i) => if i < frame.slots.len() {
            Some(frame.slots[i as int])
        } else {
            None
        },
    }
}

/// The frame with `t` where `op` names a term.
pub open spec fn write(frame: Frame, op: Operand, t: TermView) -> Frame {
    match op {
        Operand::Param => Frame { this: t, ..frame },
        Operand::Slot(i) => Frame { slots: frame.slots.update(i as int, t), ..frame },
    }
}

/// Whether `t` and the stack array are in shape for a call of `prim` with
/// `len` arguments.
pub open spec fn callable(prim: Prim, t: TermView, array: Seq<TermView>, len: nat) -> bool {
    match prim {
        Prim::NewApp => len <= array.len(),
        Prim::NewPartial => len <= array.len() && len < t.capacity,
        Prim::ApplyPartial => is_partial(t) && len <= array.len() && t.length + len <= t.capacity,
    }
}

/// What a call of `prim` makes of `t`.
pub open spec fn called(prim: Prim, t: TermView, array: Seq<TermView>, len: nat) -> TermView {
    match prim {
        Prim::NewApp => spec_new_app(t, array, len),
        Prim::NewPartial => spec_new_partial(t, array, len),
        Prim::ApplyPartial => spec_apply_partial(t, array, len),
    }
}

/// What an instruction that does not move control does to the frame.
pub open spec fn step(m: ModuleView, sig: Signature, inst: Inst, frame: Frame) -> Result<
    Frame,
    Fault,
> {
    match inst {
        Inst::LoadGlobal { dst, global } => if dst < frame.slots.len() && global
            < m.globals.len() {
            Ok(write(frame, Operand::Slot(dst), global_term(m.globals[global as int])))
        } else {
            Err(Fault::Invalid)
        },
        Inst::LoadArg { dst, src, index } => match read(frame, sig, src) {
            Some(t) => if dst >= frame.slots.len() {
                Err(Fault::Invalid)
            } else if index >= t.args.len() {
                Err(Fault::Memory)
            } else {
                Ok(write(frame, Operand::Slot(dst), t.args[index as int]))
            },
            None => Err(Fault::Invalid),
        },
        Inst::ArgsAlloca { len } => Ok(
            Frame { array: Seq::new(len as nat, |i: int| zero()), ..frame },
        ),
        Inst::ArgStore { at, src } => match read(frame, sig, src) {
            Some(t) => if at < frame.array.len() {
                Ok(Frame { array: frame.array.update(at as int, t), ..frame })
            } else {
                Err(Fault::Memory)
            },
            None => Err(Fault::Invalid),
        },
        Inst::Call { prim, term, len } => match read(frame, sig, term) {
            Some(t) => if callable(prim, t, frame.array, len as nat) {
                Ok(
                    write(
                        Frame { array: Seq::empty(), ..frame },
                        term,
                        called(prim, t, frame.array, len as nat),
                    ),
                )
            } else {
                Err(Fault::Memory)
            },
            None => Err(Fault::Invalid),
        },
        Inst::Copy { dst, src } => match read(frame, sig, src) {
            Some(t) => if dst >= frame.slots.len() {
                Err(Fault::Invalid)
            } else if copyable(t) {
                Ok(write(frame, Operand::Slot(dst), t))
            } else {
                Err(Fault::Memory)
            },
            None => Err(Fault::Invalid),
        },
        Inst::FreeArgs { term } => match read(frame, sig, term) {
            Some(t) => Ok(write(frame, term, spec_free(t))),
            None => Err(Fault::Invalid),
        },
        Inst::FreeTerm { term } => match read(frame, sig, term) {
            Some(t) => if owned(t) {
                Ok(write(frame, term, spec_free(t)))
            } else {
                Err(Fault::Memory)
            },
            None => Err(Fault::Invalid),
        },
        Inst::Case { .. } => Ok(frame),
        _ => Err(Fault::Invalid),
    }
}

/// The target of the first entry for `symbol` among the table entries of
/// `block` from `from` up to `to`.
pub open spec fn select(block: Seq<Inst>, from: int, to: int, symbol: u32) -> Option<usize>
    decreases to - from,
{
    if from < 0 || from >= to || to > block.len() {
        None
    } else {
        match block[from] {
            Inst::Case { symbol: key, target } if key == symbol => Some(target),
            _ => select(block, from + 1, to, symbol),
        }
    }
}

/// The frame that a call of function `f` starts with.
pub open spec fn entry(m: ModuleView, f: int, this: TermView) -> Frame {
    Frame {
        slots: Seq::new(m.functions[f].slots.len(), |i: int| zero()),
        array: Seq::empty(),
        this,
    }
}

/// A call of function `f` on the term `this`, given `fuel` steps and room
/// for `depth` calls inside it: how it halted, if it did not just return,
/// and what it made of `this`.
pub open spec fn exec_call(m: ModuleView, f: int, this: TermView, fuel: nat, depth: nat) -> (
    Option<Halt>,
    TermView,
)
    decreases fuel, 1int,
{
    if 0 <= f < m.functions.len() {
        let end = exec_from(m, f, 0, 0, entry(m, f, this), fuel, depth);
        (end.halt, end.frame.this)
    } else {
        (Some(Halt::Fault(Fault::Invalid)), this)
    }
}

/// The run of function `f` from instruction `pc` of block `b` on, given
/// `fuel` steps and room for `depth` nested calls. Every instruction takes
/// one step.
pub open spec fn exec_from(
    m: ModuleView,
    f: int,
    b: int,
    pc: int,
    frame: Frame,
    fuel: nat,
    depth: nat,
) -> Outcome
    decreases fuel, 0int,
{
    let blocks = m.functions[f].blocks;
    let sig = m.functions[f].signature;
    if fuel == 0 {
        Outcome { halt: Some(Halt::OutOfFuel), frame }
    } else if !(0 <= b < blocks.len() && 0 <= pc < blocks[b].len()) {
        Outcome { halt: Some(Halt::Fault(Fault::Invalid)), frame }
    } else {
        match blocks[b][pc] {
            Inst::Eval { term } => match read(frame, sig, term) {
                Some(t) => match t.fun {
                    Evaluator::Noop => exec_from(m, f, b, pc + 1, frame, (fuel - 1) as nat, depth),
                    Evaluator::Null => Outcome { halt: Some(Halt::Fault(Fault::Memory)), frame },
                    Evaluator::Code(g) => if depth == 0 {
                        Outcome { halt: Some(Halt::StackOverflow), frame }
                    } else {
                        let (halt, reduced) = exec_call(
                            m,
                            g as int,
                            t,
                            (fuel - 1) as nat,
                            (depth - 1) as nat,
                        );
                        if halt.is_some() {
                            Outcome { halt, frame }
                        } else {
                            exec_from(
                                m,
                                f,
                                b,
                                pc + 1,
                                write(frame, term, reduced),
                                (fuel - 1) as nat,
                                depth,
                            )
                        }
                    },
                },
                None => Outcome { halt: Some(Halt::Fault(Fault::Invalid)), frame },
            },
            Inst::Return { src } => match read(frame, sig, src) {
                Some(t) => if sig == Signature::Evaluator {
                    Outcome { halt: None, frame: Frame { this: t, ..frame } }
                } else {
                    Outcome { halt: Some(Halt::Fault(Fault::Invalid)), frame }
                },
                None => Outcome { halt: Some(Halt::Fault(Fault::Invalid)), frame },
            },
            Inst::ReturnSymbol { src } => match read(frame, sig, src) {
                Some(t) => if sig == Signature::Main {
                    Outcome { halt: Some(Halt::Exit(exit_code(t.symbol))), frame }
                } else {
                    Outcome { halt: Some(Halt::Fault(Fault::Invalid)), frame }
                },
                None => Outcome { halt: Some(Halt::Fault(Fault::Invalid)), frame },
            },
            Inst::Switch { on, default, cases } => match read(frame, sig, on) {
                Some(t) => if cases <= pc {
                    let target = match select(blocks[b], pc - cases, pc, t.symbol) {
                        Some(target) => target,
                        None => default,
                    };
                    exec_from(m, f, target as int, 0, frame, (fuel - 1) as nat, depth)
                } else {
                    Outcome { halt: Some(Halt::Fault(Fault::Invalid)), frame }
                },
                None => Outcome { halt: Some(Halt::Fault(Fault::Invalid)), frame },
            },
            Inst::Unreachable => Outcome { halt: Some(Halt::Fault(Fault::Unreachable)), frame },
            Inst::Todo => Outcome { halt: Some(Halt::Unhandled), frame },
            inst => match step(m, sig, inst, frame) {
                Ok(next) => exec_from(m, f, b, pc + 1, next, (fuel - 1) as nat, depth),
                Err(fault) => Outcome { halt: Some(Halt::Fault(fault)), frame },
            },
        }
    }
}

/// The run of the module from its entry point, the first function called
/// `main`, given `fuel` steps and room for `depth` nested calls.
pub open spec fn exec_main(m: ModuleView, fuel: nat, depth: nat) -> Halt {
    let names = Seq::new(m.functions.len(), |i: int| m.functions[i].name);
    let f = crate::target::position(names, "main"@, 0);
    if f < m.functions.len() && m.functions[f].signature == Signature::Main {
        match exec_call(m, f, zero(), fuel, depth).0 {
            Some(halt) => halt,
            None => Halt::Fault(Fault::Invalid),
        }
    } else {
        Halt::Fault(Fault::Invalid)
    }
}

/// A copy outlives the term it was made from: after a copy of slot `src`
/// into slot `dst` and the release of slot `src` with all it holds, slot
/// `dst` still holds what `src` held, tag and tree, and nothing else has
/// changed but the block of `src`.
pub proof fn copy_survives_free(m: ModuleView, sig: Signature, frame: Frame, dst: usize, src: usize)
    requires
        dst != src,
        dst < frame.slots.len(),
        src < frame.slots.len(),
        copyable(frame.slots[src as int]),
        owned(frame.slots[src as int]),
    ensures
        step(m, sig, Inst::Copy { dst, src: Operand::Slot(src) }, frame) is Ok,
        step(
            m,
            sig,
            Inst::FreeTerm { term: Operand::Slot(src) },
            step(m, sig, Inst::Copy { dst, src: Operand::Slot(src) }, frame).unwrap(),
        ) == Ok::<Frame, Fault>(
            Frame {
                slots: frame.slots.update(dst as int, frame.slots[src as int]).update(
                    src as int,
                    spec_free(frame.slots[src as int]),
                ),
                ..frame
            },
        ),
{
}

/// Evaluating an inert term changes nothing: where the evaluator of the
/// term that `Eval` names is the inert one, the run goes on with the next
/// instruction in the same frame.
pub proof fn eval_of_inert_term(
    m: ModuleView,
    f: int,
    b: int,
    pc: int,
    frame: Frame,
    fuel: nat,
    depth: nat,
    term: Operand,
)
    requires
        fuel > 0,
        0 <= b < m.functions[f].blocks.len(),
        0 <= pc < m.functions[f].blocks[b].len(),
        m.functions[f].blocks[b][pc] == (Inst::Eval { term }),
        read(frame, m.functions[f].signature, term) is Some,
        read(frame, m.functions[f].signature, term).unwrap().fun == Evaluator::Noop,
    ensures
        exec_from(m, f, b, pc, frame, fuel, depth) == exec_from(
            m,
            f,
            b,
            pc + 1,
            frame,
            (fuel - 1) as nat,
            depth,
        ),
{
}

/// The frame that the terms of a running function stand for.
pub open spec fn frame_of(this: Term, slots: Seq<Term>, array: Seq<Term>) -> Frame {
    Frame { slots: views(slots), array: views(array), this: this@ }
}

/// Storing a term in a slot stores its value in the values of the slots.
pub proof fn lemma_views_update(terms: Seq<Term>, i: int, t: Term)
    requires
        0 <= i < terms.len(),
    ensures
        views(terms.update(i, t)) == views(terms).update(i, t@),
{
    assert(views(terms.update(i, t)) =~= views(terms).update(i, t@));
}

/// The constructor tag as the entry point returns it.
pub fn to_exit_code(symbol: u32) -> (code: i32)
    ensures
        code == exit_code(symbol),
{
    if symbol <= 0x7fff_ffff {
        symbol as i32
    } else {
        let low: u32 = symbol - 0x8000_0000;
        let code: i32 = low as i32;
        code - 0x4000_0000 - 0x4000_0000
    }
}

/// The term that `op` names, if it names one.
fn peek<'a>(this: &'a Term, slots: &'a Vec<Term>, sig: Signature, op: Operand) -> (found: Option<
    &'a Term,
>)
    ensures
        match read(frame_of(*this, slots@, Seq::empty()), sig, op) {
            Some(t) => found.is_some() && found.unwrap()@ == t,
            None => found.is_none(),
        },
        found matches Some(t) ==> (match op {
            Operand::Param => *t == *this,
            Operand::Slot(i) => i < slots@.len() && *t == slots@[i as int],
        }),
{
    match op {
        Operand::Param => match sig {
            Signature::Evaluator => Some(this),
            Signature::Main => None,
        },
        Operand::Slot(i) => if i < slots.len() {
            Some(&slots[i])
        } else {
            None
        },
    }
}

/// Whether `t` and a stack array of `size` terms are in shape for a call of
/// `prim` with `len` arguments.
fn is_callable(prim: Prim, t: &Term, size: usize, len: usize) -> (b: bool)
    ensures
        b == callable(prim, t@, Seq::new(size as nat, |i: int| zero()), len as nat),
{
    match prim {
        Prim::NewApp => len <= size,
        Prim::NewPartial => len <= size && len < t.capacity as usize,
        Prim::ApplyPartial => t.fun == Evaluator::Noop && t.length < t.capacity && t.args.len()
            == t.capacity as usize && len <= size && len <= (t.capacity - t.length) as usize,
    }
}

/// Calls `prim` on `t` with the first `len` terms of `args`.
fn call_prim(prim: Prim, t: &mut Term, args: Vec<Term>, len: usize)
    requires
        callable(prim, old(t)@, views(args@), len as nat),
    ensures
        final(t)@ == called(prim, old(t)@, views(args@), len as nat),
{
    match prim {
        Prim::NewApp => new_app(t, args, len),
        Prim::NewPartial => new_partial(t, args, len),
        Prim::ApplyPartial => apply_partial(t, args, len),
    }
}

/// Carries out an instruction that does not move control.
fn exec_step(
    module: &Module,
    sig: Signature,
    inst: Inst,
    this: &mut Term,
    slots: &mut Vec<Term>,
    array: &mut Vec<Term>,
) -> (done: Result<(), Fault>)
    ensures
        match step(module@, sig, inst, frame_of(*old(this), old(slots)@, old(array)@)) {
            Ok(next) => done.is_ok() && frame_of(*final(this), final(slots)@, final(array)@)
                == next,
            Err(fault) => done == Err::<(), Fault>(fault),
        },
{
    let ghost frame = frame_of(*this, slots@, array@);
    assert(read(frame, sig, Operand::Param) == read(
        frame_of(*this, slots@, Seq::empty()),
        sig,
        Operand::Param,
    ));
    assert(forall|op: Operand| #[trigger]
        read(frame, sig, op) == read(frame_of(*this, slots@, Seq::empty()), sig, op));
    match inst {
        Inst::LoadGlobal { dst, global } => {
            if dst < slots.len() && global < module.globals.len() {
                let g = &module.globals[global];
                let t = Term {
                    fun: g.fun,
                    args: Vec::new(),
                    symbol: g.symbol,
                    length: g.arity,
                    capacity: g.arity,
                };
                assert(t@.args =~= Seq::empty());
                proof {
                    lemma_views_update(slots@, dst as int, t);
                }
                slots[dst] = t;
                Ok(())
            } else {
                Err(Fault::Invalid)
            }
        },
        Inst::LoadArg { dst, src, index } => {
            let value = match peek(this, slots, sig, src) {
                Some(t) => {
                    if dst >= slots.len() {
                        return Err(Fault::Invalid);
                    }
                    if index >= t.args.len() as u64 {
                        return Err(Fault::Memory);
                    }
                    t.args[index as usize].clone()
                },
                None => {
                    return Err(Fault::Invalid);
                },
            };
            proof {
                lemma_views_update(slots@, dst as int, value);
            }
            slots[dst] = value;
            Ok(())
        },
        Inst::ArgsAlloca { len } => {
            *array = calloc_terms(len);
            assert(views(array@) =~= Seq::new(len as nat, |i: int| zero()));
            Ok(())
        },
        Inst::ArgStore { at, src } => {
            let value = match peek(this, slots, sig, src) {
                Some(t) => {
                    if at >= array.len() {
                        return Err(Fault::Memory);
                    }
                    t.clone()
                },
                None => {
                    return Err(Fault::Invalid);
                },
            };
            proof {
                lemma_views_update(array@, at as int, value);
            }
            array[at] = value;
            Ok(())
        },
        Inst::Call { prim, term, len } => {
            match peek(this, slots, sig, term) {
                Some(t) => {
                    let ok = is_callable(prim, t, array.len(), len);
                    assert(ok == callable(prim, t@, views(array@), len as nat));
                    if !ok {
                        return Err(Fault::Memory);
                    }
                },
                None => {
                    return Err(Fault::Invalid);
                },
            }
            let mut args: Vec<Term> = Vec::new();
            core::mem::swap(&mut args, array);
            assert(views(array@) =~= Seq::empty());
            match term {
                Operand::Param => {
                    call_prim(prim, this, args, len);
                },
                Operand::Slot(i) => {
                    call_prim(prim, &mut slots[i], args, len);
                    proof {
                        lemma_views_update(old(slots)@, i as int, slots@[i as int]);
                    }
                },
            }
            Ok(())
        },
        Inst::Copy { dst, src } => {
            let mut value = Term::zeroed();
            match peek(this, slots, sig, src) {
                Some(t) => {
                    if dst >= slots.len() {
                        return Err(Fault::Invalid);
                    }
                    if !t.is_copyable() {
                        return Err(Fault::Memory);
                    }
                    copy(&mut value, t);
                },
                None => {
                    return Err(Fault::Invalid);
                },
            }
            proof {
                lemma_views_update(slots@, dst as int, value);
            }
            slots[dst] = value;
            Ok(())
        },
        Inst::FreeArgs { term } => {
            match term {
                Operand::Param => {
                    match sig {
                        Signature::Evaluator => {
                            free_args(this);
                        },
                        Signature::Main => {
                            return Err(Fault::Invalid);
                        },
                    }
                },
                Operand::Slot(i) => {
                    if i >= slots.len() {
                        return Err(Fault::Invalid);
                    }
                    free_args(&mut slots[i]);
                    proof {
                        lemma_views_update(old(slots)@, i as int, slots@[i as int]);
                    }
                },
            }
            Ok(())
        },
        Inst::FreeTerm { term } => {
            match term {
                Operand::Param => {
                    match sig {
                        Signature::Evaluator => {
                            if !this.is_owned() {
                                return Err(Fault::Memory);
                            }
                            free_term(this);
                        },
                        Signature::Main => {
                            return Err(Fault::Invalid);
                        },
                    }
                },
                Operand::Slot(i) => {
                    if i >= slots.len() {
                        return Err(Fault::Invalid);
                    }
                    if !slots[i].is_owned() {
                        return Err(Fault::Memory);
                    }
                    free_term(&mut slots[i]);
                    proof {
                        lemma_views_update(old(slots)@, i as int, slots@[i as int]);
                    }
                },
            }
            Ok(())
        },
        Inst::Case { .. } => Ok(()),
        _ => Err(Fault::Invalid),
    }
}

/// The target of the first entry for `symbol` among the `cases` table
/// entries of `block` that end before `pc`.
fn select_target(block: &Vec<Inst>, pc: usize, cases: usize, symbol: u32) -> (found: Option<usize>)
    requires
        cases <= pc <= block@.len(),
    ensures
        found == select(block@, pc - cases, pc as int, symbol),
{
    let mut i: usize = pc - cases;
    while i < pc
        invariant
            pc - cases <= i <= pc <= block@.len(),
            select(block@, pc - cases, pc as int, symbol) == select(
                block@,
                i as int,
                pc as int,
                symbol,
            ),
        decreases pc - i,
    {
        match block[i] {
            Inst::Case { symbol: key, target } => {
                if key == symbol {
                    return Some(target);
                }
            },
            _ => {},
        }
        i += 1;
    }
    None
}

/// Calls function `f` of `module` on the term `this`, with `fuel` steps to
/// run on and room for `depth` calls inside the call. Returns how the run
/// halted, or nothing when the function returned; then `this` holds what
/// the function made of it.
pub fn call(module: &Module, f: usize, this: &mut Term, fuel: u64, depth: usize) -> (halt: Option<
    Halt,
>)
    ensures
        halt == exec_call(module@, f as int, old(this)@, fuel as nat, depth as nat).0,
        halt.is_none() ==> final(this)@ == exec_call(
            module@,
            f as int,
            old(this)@,
            fuel as nat,
            depth as nat,
        ).1,
    decreases fuel, 1int,
{
    if f >= module.functions.len() {
        return Some(Halt::Fault(Fault::Invalid));
    }
    let function = &module.functions[f];
    let sig = function.signature;
    let mut slots = calloc_terms(function.slots.len());
    let mut array: Vec<Term> = Vec::new();
    let mut b: usize = 0;
    let mut pc: usize = 0;
    let mut steps: u64 = fuel;
    let ghost m = module@;
    let ghost goal = exec_from(
        m,
        f as int,
        0,
        0,
        entry(m, f as int, old(this)@),
        fuel as nat,
        depth as nat,
    );
    proof {
        assert(views(slots@) =~= entry(m, f as int, old(this)@).slots);
        assert(views(array@) =~= Seq::empty());
        assert(m.functions[f as int] == function@);
    }
    loop
        invariant
            f < module.functions@.len(),
            m == module@,
            *function == module.functions@[f as int],
            sig == function.signature,
            m.functions[f as int] == function@,
            steps <= fuel,
            exec_call(m, f as int, old(this)@, fuel as nat, depth as nat) == (
                goal.halt,
                goal.frame.this,
            ),
            goal == exec_from(
                m,
                f as int,
                b as int,
                pc as int,
                frame_of(*this, slots@, array@),
                steps as nat,
                depth as nat,
            ),
        decreases steps,
    {
        let ghost frame = frame_of(*this, slots@, array@);
        if steps == 0 {
            return Some(Halt::OutOfFuel);
        }
        if b >= function.blocks.len() {
            return Some(Halt::Fault(Fault::Invalid));
        }
        let block = &function.blocks[b];
        if pc >= block.len() {
            return Some(Halt::Fault(Fault::Invalid));
        }
        let inst = block[pc];
        assert(m.functions[f as int].blocks[b as int] == block@);
        assert(inst == m.functions[f as int].blocks[b as int][pc as int]);
        assert(forall|op: Operand| #[trigger]
            read(frame, sig, op) == read(frame_of(*this, slots@, Seq::empty()), sig, op));
        steps = steps - 1;
        match inst {
            Inst::Eval { term } => {
                let fun = match peek(this, &slots, sig, term) {
                    Some(t) => t.fun,
                    None => {
                        return Some(Halt::Fault(Fault::Invalid));
                    },
                };
                match fun {
                    Evaluator::Noop => {},
                    Evaluator::Null => {
                        return Some(Halt::Fault(Fault::Memory));
                    },
                    Evaluator::Code(g) => {
                        if depth == 0 {
                            return Some(Halt::StackOverflow);
                        }
                        let halt = match term {
                            Operand::Param => call(module, g, this, steps, depth - 1),
                            Operand::Slot(i) => {
                                let ghost before = slots@;
                                let halt = call(module, g, &mut slots[i], steps, depth - 1);
                                proof {
                                    lemma_views_update(before, i as int, slots@[i as int]);
                                }
                                halt
                            },
                        };
                        if halt.is_some() {
                            return halt;
                        }
                    },
                }
                pc = pc + 1;
            },
            Inst::Return { src } => {
                let value = match peek(this, &slots, sig, src) {
                    Some(t) => t.clone(),
                    None => {
                        return Some(Halt::Fault(Fault::Invalid));
                    },
                };
                match sig {
                    Signature::Evaluator => {
                        *this = value;
                        return None;
                    },
                    Signature::Main => {
                        return Some(Halt::Fault(Fault::Invalid));
                    },
                }
            },
            Inst::ReturnSymbol { src } => {
                let symbol = match peek(this, &slots, sig, src) {
                    Some(t) => t.symbol,
                    None => {
                        return Some(Halt::Fault(Fault::Invalid));
                    },
                };
                match sig {
                    Signature::Main => {
                        return Some(Halt::Exit(to_exit_code(symbol)));
                    },
                    Signature::Evaluator => {
                        return Some(Halt::Fault(Fault::Invalid));
                    },
                }
            },
            Inst::Switch { on, default, cases } => {
                let symbol = match peek(this, &slots, sig, on) {
                    Some(t) => t.symbol,
                    None => {
                        return Some(Halt::Fault(Fault::Invalid));
                    },
                };
                if cases > pc {
                    return Some(Halt::Fault(Fault::Invalid));
                }
                b = match select_target(block, pc, cases, symbol) {
                    Some(target) => target,
                    None => default,
                };
                pc = 0;
            },
            Inst::Unreachable => {
                return Some(Halt::Fault(Fault::Unreachable));
            },
            Inst::Todo => {
                return Some(Halt::Unhandled);
            },
            _ => {
                match exec_step(module, sig, inst, this, &mut slots, &mut array) {
                    Ok(()) => {},
                    Err(fault) => {
                        return Some(Halt::Fault(fault));
                    },
                }
                pc = pc + 1;
            },
        }
    }
}

/// Runs `module` from its entry point, the first function called `main`,
/// with `fuel` steps to run on and room for `depth` nested calls.
pub fn jit(module: &Module, fuel: u64, depth: usize) -> (halt: Halt)
    ensures
        halt == exec_main(module@, fuel as nat, depth as nat),
{
    let name = "main".to_owned();
    assert(module.function_names() =~= Seq::new(
        module@.functions.len(),
        |i: int| module@.functions[i].name,
    ));
    match module.get_function(&name) {
        Some(f) => {
            match module.functions[f].signature {
                Signature::Main => {
                    let mut this = Term::zeroed();
                    match call(module, f, &mut this, fuel, depth) {
                        Some(halt) => halt,
                        None => Halt::Fault(Fault::Invalid),
                    }
                },
                Signature::Evaluator => Halt::Fault(Fault::Invalid),
            }
        },
        None => Halt::Fault(Fault::Invalid),
    }
}

} // verus!
