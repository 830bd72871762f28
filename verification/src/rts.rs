//! The term runtime: the uniform record that compiled programs compute with,
//! and the primitives that build, extend, copy and release it.
//!
//! A term owns its argument block, and through it every term stored there.
//! The block is held as a vector: an empty vector stands for "no block".

use vstd::prelude::*;

verus! {

/// What happens when a term is evaluated.
#[derive(Clone, Copy, Debug, PartialEq, Eq, Structural)]
pub enum Evaluator {
    /// No evaluator at all: what a zero-initialised slot holds.
    Null,
    /// The inert evaluator of constructors and of partial applications.
    Noop,
    /// The compiled body of the function with this index in its module.
    Code(usize),
}

/// The mathematical value of a term: its header and the values of the slots
/// of its argument block.
pub ghost struct TermView {
    pub fun: Evaluator,
    pub args: Seq<TermView>,
    pub symbol: u32,
    pub length: u16,
    pub capacity: u16,
}

/// A term: evaluator, argument block, constructor tag, number of arguments
/// held and number of arguments the block is meant for.
#[derive(Debug, PartialEq, Eq)]
pub struct Term {
    pub fun: Evaluator,
    pub args: Vec<Term>,
    pub symbol: u32,
    pub length: u16,
    pub capacity: u16,
}

/// The value of `t`, slot by slot.
pub open spec fn term_view(t: Term) -> TermView
    decreases t,
{
    TermView {
        fun: t.fun,
        args: Seq::new(
            t.args@.len(),
            |i: int|
                if 0 <= i < t.args@.len() {
                    term_view(t.args@[i])
                } else {
                    arbitrary()
                },
        ),
        symbol: t.symbol,
        length: t.length,
        capacity: t.capacity,
    }
}

impl View for Term {
    type V = TermView;

    open spec fn view(&self) -> TermView {
        term_view(*self)
    }
}

/// The values of a run of terms.
pub open spec fn views(terms: Seq<Term>) -> Seq<TermView> {
    Seq::new(terms.len(), |i: int| terms[i]@)
}

/// The value of a zero-initialised slot.
pub open spec fn zero() -> TermView {
    TermView { fun: Evaluator::Null, args: Seq::empty(), symbol: 0, length: 0, capacity: 0 }
}

/// The flat header copy of `t` that a partial application keeps in its last
/// slot: evaluator and tag, no block.
pub open spec fn header(t: TermView) -> TermView {
    TermView { fun: t.fun, args: Seq::empty(), symbol: t.symbol, length: 0, capacity: 0 }
}

/// The shape every term keeps: it holds no more than it is meant for, and
/// its block is either absent or has one slot per argument it is meant for.
pub open spec fn well_formed(t: TermView) -> bool {
    &&& t.length <= t.capacity
    &&& (t.args.len() == 0 || t.args.len() == t.capacity)
}

/// `t` is a partial application: inert, not yet saturated, with its block in
/// place.
pub open spec fn is_partial(t: TermView) -> bool {
    &&& t.fun == Evaluator::Noop
    &&& t.length < t.capacity
    &&& t.args.len() == t.capacity
}

/// Every argument that `t` holds lies inside its block, and so on downwards
/// through the arguments held.
pub open spec fn owned(t: TermView) -> bool
    decreases t,
{
    &&& t.length <= t.args.len()
    &&& forall|i: int| 0 <= i < t.length ==> owned(#[trigger] t.args[i])
}

/// The block of `t` has exactly the slots that `t` is meant for, and so on
/// downwards through every slot.
pub open spec fn copyable(t: TermView) -> bool
    decreases t,
{
    &&& t.args.len() == t.capacity
    &&& forall|i: int| 0 <= i < t.args.len() ==> copyable(#[trigger] t.args[i])
}

/// The part of `t` that its `length` reaches: the arguments held, without the
/// slots behind them.
pub open spec fn held(t: TermView) -> TermView
    decreases t,
{
    TermView {
        fun: t.fun,
        args: Seq::new(
            t.length as nat,
            |i: int|
                if 0 <= i < t.length && i < t.args.len() {
                    held(t.args[i])
                } else {
                    zero()
                },
        ),
        symbol: t.symbol,
        length: t.length,
        capacity: t.capacity,
    }
}

/// `t` after `new_app` has given it a block made of the first `length` of
/// `args`.
pub open spec fn spec_new_app(t: TermView, args: Seq<TermView>, length: nat) -> TermView {
    TermView { args: args.take(length as int), ..t }
}

/// `t` after `new_partial`: inert, holding the first `length` of `args` in a
/// zeroed block of `capacity` slots whose last slot keeps the header of `t`.
pub open spec fn spec_new_partial(t: TermView, args: Seq<TermView>, length: nat) -> TermView {
    TermView {
        fun: Evaluator::Noop,
        args: Seq::new(
            t.capacity as nat,
            |i: int|
                if i == t.capacity - 1 {
                    header(t)
                } else if 0 <= i < length {
                    args[i]
                } else {
                    zero()
                },
        ),
        symbol: t.symbol,
        length: length as u16,
        capacity: t.capacity,
    }
}

/// `t` after `apply_partial`: the first `length` of `args` stored behind the
/// arguments already held, and the saved evaluator restored once the block
/// is full.
pub open spec fn spec_apply_partial(t: TermView, args: Seq<TermView>, length: nat) -> TermView {
    TermView {
        fun: if t.length + length == t.capacity {
            t.args[t.capacity - 1].fun
        } else {
            t.fun
        },
        args: Seq::new(
            t.args.len(),
            |i: int|
                if t.length <= i < t.length + length {
                    args[i - t.length]
                } else {
                    t.args[i]
                },
        ),
        symbol: t.symbol,
        length: (t.length + length) as u16,
        capacity: t.capacity,
    }
}

/// `t` with its block released.
pub open spec fn spec_free(t: TermView) -> TermView {
    TermView { args: Seq::empty(), ..t }
}

/// A partial application that is given its missing arguments is the
/// saturated application: making a partial application of the header `t`
/// with the arguments `first` and then applying it to `rest`, which fills
/// it, gives the term that `new_app` makes of `t` with `first` followed by
/// `rest`, evaluator included.
pub proof fn partial_then_apply(t: TermView, first: Seq<TermView>, rest: Seq<TermView>)
    requires
        t.length == t.capacity,
        first.len() + rest.len() == t.capacity,
        rest.len() > 0,
    ensures
        is_partial(spec_new_partial(t, first, first.len())),
        spec_apply_partial(spec_new_partial(t, first, first.len()), rest, rest.len())
            == spec_new_app(t, first + rest, t.capacity as nat),
{
    let partial = spec_new_partial(t, first, first.len());
    let applied = spec_apply_partial(partial, rest, rest.len());
    let built = spec_new_app(t, first + rest, t.capacity as nat);
    assert(partial.args[t.capacity - 1] == header(t));
    assert(applied.args =~= built.args);
}

/// The primitives keep a term in shape: a term that holds no more than it
/// is meant for, in a block that is absent or has one slot per argument,
/// is still such a term after an application of as many arguments as it is
/// meant for was built in it, after it was made a partial application,
/// which then keeps its header in its last slot, after a partial
/// application was given more arguments, and after its block was released.
pub proof fn primitives_keep_shape(t: TermView, args: Seq<TermView>, length: nat)
    requires
        well_formed(t),
    ensures
        length == t.capacity && length <= args.len() ==> well_formed(
            spec_new_app(t, args, length),
        ),
        length < t.capacity ==> {
            &&& well_formed(spec_new_partial(t, args, length))
            &&& is_partial(spec_new_partial(t, args, length))
            &&& spec_new_partial(t, args, length).args[t.capacity - 1] == header(t)
        },
        is_partial(t) && t.length + length <= t.capacity ==> well_formed(
            spec_apply_partial(t, args, length),
        ),
        well_formed(spec_free(t)),
{
}

/// A copy is the term it was made from: the same header and, slot by slot,
/// the same tree.
pub proof fn copy_is_equal(dest: Term, src: Term)
    requires
        dest@ == src@,
    ensures
        dest@.symbol == src.symbol,
        dest@.fun == src.fun,
        dest@.length == src.length,
        dest@.capacity == src.capacity,
        dest.args@.len() == src.args@.len(),
        forall|i: int| 0 <= i < src.args@.len() ==> (#[trigger] dest.args@[i])@ == src.args@[i]@,
{
    assert(dest@.args.len() == dest.args@.len());
    assert(src@.args.len() == src.args@.len());
    assert forall|i: int| 0 <= i < src.args@.len() implies (#[trigger] dest.args@[i])@
        == src.args@[i]@ by {
        assert(dest@.args[i] == dest.args@[i]@);
        assert(src@.args[i] == src.args@[i]@);
    }
}

/// A term's view has the slots of its block, each with the view of the term
/// stored there.
pub proof fn lemma_view_args(t: Term)
    ensures
        t@.args == views(t.args@),
        t@.fun == t.fun,
        t@.symbol == t.symbol,
        t@.length == t.length,
        t@.capacity == t.capacity,
{
    assert(t@.args =~= views(t.args@));
}

impl Clone for Term {
    /// An independent term with the same value.
    fn clone(&self) -> (res: Self)
        ensures
            res@ == self@,
        decreases self,
    {
        let mut args: Vec<Term> = Vec::new();
        let mut i: usize = 0;
        while i < self.args.len()
            invariant
                i <= self.args@.len(),
                args@.len() == i,
                forall|j: int| 0 <= j < i ==> (#[trigger] args@[j])@ == self.args@[j]@,
            decreases self.args@.len() - i,
        {
            let slot = self.args[i].clone();
            args.push(slot);
            i += 1;
        }
        let res = Term {
            fun: self.fun,
            args,
            symbol: self.symbol,
            length: self.length,
            capacity: self.capacity,
        };
        assert(res@.args =~= self@.args);
        res
    }
}

impl Term {
    /// The term that a zero-initialised slot holds.
    pub fn zeroed() -> (t: Term)
        ensures
            t@ == zero(),
    {
        let t = Term { fun: Evaluator::Null, args: Vec::new(), symbol: 0, length: 0, capacity: 0 };
        assert(t@.args =~= Seq::empty());
        t
    }

    /// The term in slot `i` of the block.
    pub fn arg(&self, i: usize) -> (r: &Term)
        requires
            i < self.args@.len(),
        ensures
            *r == self.args@[i as int],
            r@ == self@.args[i as int],
    {
        &self.args[i]
    }

    /// Slot `i` of the block, to be written through.
    pub fn arg_mut(&mut self, i: usize) -> (r: &mut Term)
        requires
            i < old(self).args@.len(),
        ensures
            *r == old(self).args@[i as int],
            final(self).args@ == old(self).args@.update(i as int, *final(r)),
            final(self).fun == old(self).fun,
            final(self).symbol == old(self).symbol,
            final(self).length == old(self).length,
            final(self).capacity == old(self).capacity,
    {
        &mut self.args[i]
    }

    /// Whether every argument held lies inside its block, all the way down.
    pub fn is_owned(&self) -> (b: bool)
        ensures
            b == owned(self@),
        decreases self,
    {
        if self.length as usize > self.args.len() {
            return false;
        }
        let n = self.length as usize;
        let mut i: usize = 0;
        while i < n
            invariant
                i <= n,
                n == self.length,
                n <= self.args@.len(),
                forall|j: int| 0 <= j < i ==> owned(#[trigger] self@.args[j]),
            decreases n - i,
        {
            if !self.args[i].is_owned() {
                assert(!owned(self@.args[i as int]));
                return false;
            }
            i += 1;
        }
        true
    }

    /// Whether the block has one slot per argument the term is meant for,
    /// all the way down.
    pub fn is_copyable(&self) -> (b: bool)
        ensures
            b == copyable(self@),
        decreases self,
    {
        if self.args.len() != self.capacity as usize {
            return false;
        }
        let n = self.args.len();
        let mut i: usize = 0;
        while i < n
            invariant
                i <= n,
                n == self.args@.len(),
                self.args@.len() == self.capacity,
                forall|j: int| 0 <= j < i ==> copyable(#[trigger] self@.args[j]),
            decreases n - i,
        {
            if !self.args[i].is_copyable() {
                assert(!copyable(self@.args[i as int]));
                return false;
            }
            i += 1;
        }
        true
    }
}

/// A block of `capacity` slots. Nothing has been stored in them yet; each
/// holds the zero term.
pub fn alloc_terms(capacity: usize) -> (block: Vec<Term>)
    ensures
        block@.len() == capacity,
        forall|i: int| 0 <= i < capacity ==> (#[trigger] block@[i])@ == zero(),
{
    calloc_terms(capacity)
}

/// A zero-initialised block of `capacity` slots.
pub fn calloc_terms(capacity: usize) -> (block: Vec<Term>)
    ensures
        block@.len() == capacity,
        forall|i: int| 0 <= i < capacity ==> (#[trigger] block@[i])@ == zero(),
{
    let mut block: Vec<Term> = Vec::new();
    let mut i: usize = 0;
    while i < capacity
        invariant
            i <= capacity,
            block@.len() == i,
            forall|j: int| 0 <= j < i ==> (#[trigger] block@[j])@ == zero(),
        decreases capacity - i,
    {
        block.push(Term::zeroed());
        i += 1;
    }
    block
}

/// The evaluator of constructors and of partial applications: it leaves the
/// term as it is.
pub fn noop(term: &mut Term)
    ensures
        *final(term) == *old(term),
{
}

/// Gives `term` a block made of the first `length` terms of `args`, which
/// move into it. The header of `term` is left as the caller set it.
pub fn new_app(term: &mut Term, args: Vec<Term>, length: usize)
    requires
        length <= args@.len(),
    ensures
        final(term)@ == spec_new_app(old(term)@, views(args@), length as nat),
{
    let mut block = args;
    block.truncate(length);
    term.args = block;
    assert(term@.args =~= views(args@).take(length as int));
}

/// Turns `term`, the header of a function meant for `capacity` arguments,
/// into a partial application that holds the first `length` terms of `args`.
pub fn new_partial(term: &mut Term, args: Vec<Term>, length: usize)
    requires
        length <= args@.len(),
        length < old(term).capacity,
    ensures
        final(term)@ == spec_new_partial(old(term)@, views(args@), length as nat),
{
    let fun = Term { fun: term.fun, args: Vec::new(), symbol: term.symbol, length: 0, capacity: 0 };
    assert(fun@.args =~= Seq::empty());
    let capacity = term.capacity as usize;
    let mut block = calloc_terms(capacity);
    let mut rest = args;
    rest.truncate(length);
    assert(rest@ =~= args@.take(length as int));
    let mut i: usize = length;
    while i > 0
        invariant
            i <= length,
            length < capacity,
            length <= args@.len(),
            rest@ == args@.take(i as int),
            block@.len() == capacity,
            forall|j: int| 0 <= j < i ==> (#[trigger] block@[j])@ == zero(),
            forall|j: int| i <= j < length ==> (#[trigger] block@[j])@ == args@[j]@,
            forall|j: int| length <= j < capacity ==> (#[trigger] block@[j])@ == zero(),
        decreases i,
    {
        let value = rest.pop().unwrap();
        i -= 1;
        block[i] = value;
        assert(rest@ =~= args@.take(i as int));
    }
    let last = capacity - 1;
    block[last] = fun;
    term.args = block;
    term.fun = Evaluator::Noop;
    term.length = length as u16;
    assert(term@.args =~= spec_new_partial(old(term)@, views(args@), length as nat).args);
}

/// Stores the first `length` terms of `args` behind the arguments that the
/// partial application `term` already holds. When that fills the block, the
/// evaluator saved in the last slot becomes the term's evaluator again.
pub fn apply_partial(term: &mut Term, args: Vec<Term>, length: usize)
    requires
        is_partial(old(term)@),
        length <= args@.len(),
        old(term).length + length <= old(term).capacity,
    ensures
        final(term)@ == spec_apply_partial(old(term)@, views(args@), length as nat),
{
    let last = term.capacity as usize - 1;
    let fun = term.args[last].fun;
    proof {
        lemma_view_args(term.args@[last as int]);
    }
    let offset = term.length as usize;
    let mut rest = args;
    rest.truncate(length);
    assert(rest@ =~= args@.take(length as int));
    let mut i: usize = length;
    while i > 0
        invariant
            i <= length,
            offset + length <= term.args@.len(),
            offset + length <= old(term).capacity,
            offset == old(term).length,
            length <= args@.len(),
            rest@ == args@.take(i as int),
            term.args@.len() == old(term).args@.len(),
            term.fun == old(term).fun,
            term.symbol == old(term).symbol,
            term.length == old(term).length,
            term.capacity == old(term).capacity,
            forall|j: int| 0 <= j < offset + i ==> (#[trigger] term.args@[j])@ == old(term)@.args[j],
            forall|j: int| offset + i <= j < offset + length ==> (#[trigger] term.args@[j])@ == args@[j - offset]@,
            forall|j: int| offset + length <= j < term.args@.len() ==> (#[trigger] term.args@[j])@ == old(term)@.args[j],
        decreases i,
    {
        let value = rest.pop().unwrap();
        i -= 1;
        term.args[offset + i] = value;
        assert(rest@ =~= args@.take(i as int));
    }
    term.length = (offset + length) as u16;
    if term.length == term.capacity {
        term.fun = fun;
    }
    assert(term@.args =~= spec_apply_partial(old(term)@, views(args@), length as nat).args);
}

/// Makes `dest` an independent copy of `src`: the same header, and a block
/// of its own that holds a copy of every slot of the block of `src`.
pub fn copy(dest: &mut Term, src: &Term)
    requires
        copyable(src@),
    ensures
        final(dest)@ == src@,
    decreases src,
{
    dest.fun = src.fun;
    dest.symbol = src.symbol;
    dest.length = src.length;
    dest.capacity = src.capacity;
    if src.capacity == 0 {
        dest.args = Vec::new();
        assert(dest@.args =~= src@.args);
        return ;
    }
    let size = src.capacity as usize;
    let mut block = alloc_terms(size);
    let mut i: usize = 0;
    while i < size
        invariant
            i <= size,
            size == src.args@.len(),
            block@.len() == size,
            copyable(src@),
            forall|j: int| 0 <= j < i ==> (#[trigger] block@[j])@ == src.args@[j]@,
        decreases size - i,
    {
        assert(copyable(src@.args[i as int]));
        copy(&mut block[i], &src.args[i]);
        i += 1;
    }
    dest.args = block;
    assert(dest@.args =~= src@.args);
}

/// Releases the block of `term`, and nothing below it.
pub fn free_args(term: &mut Term)
    ensures
        final(term)@ == spec_free(old(term)@),
{
    term.args = Vec::new();
    assert(term@.args =~= Seq::empty());
}

/// Releases every argument that `term` holds, each with all that it holds,
/// and then the block of `term`. Slots behind the arguments held are released
/// with the block, as they are.
pub fn free_term(term: &mut Term)
    requires
        owned(old(term)@),
    ensures
        final(term)@ == spec_free(old(term)@),
    decreases old(term)@,
{
    let n = term.length as usize;
    let mut i: usize = 0;
    while i < n
        invariant
            i <= n,
            n == old(term).length,
            n <= term.args@.len(),
            term.args@.len() == old(term).args@.len(),
            forall|j: int| i <= j < term.args@.len() ==> (#[trigger] term.args@[j])@ == old(term)@.args[j],
            owned(old(term)@),
            term.fun == old(term).fun,
            term.symbol == old(term).symbol,
            term.length == old(term).length,
            term.capacity == old(term).capacity,
        decreases n - i,
    {
        assert(owned(old(term)@.args[i as int]));
        free_term(&mut term.args[i]);
        i += 1;
    }
    free_args(term);
}

/// What the unhandled-case trap does to the process: the message it writes
/// to standard error and the code it exits with.
#[derive(Clone, Copy, Debug, PartialEq, Eq)]
pub struct Trap {
    pub message: &'static str,
    pub code: i32,
}

/// The unhandled-case trap.
pub fn todo() -> (trap: Trap)
    ensures
        trap.message@ == "unhandled case\n"@,
        trap.code == 1,
{
    Trap { message: "unhandled case\n", code: 1 }
}

/// A printable snapshot of a term: its header and the arguments it holds.
#[derive(Debug, PartialEq, Eq)]
pub struct ShowTerm {
    pub fun: Evaluator,
    pub args: Vec<ShowTerm>,
    pub symbol: u32,
    pub length: u16,
    pub capacity: u16,
}

/// The value of a snapshot.
pub open spec fn show_view(s: ShowTerm) -> TermView
    decreases s,
{
    TermView {
        fun: s.fun,
        args: Seq::new(
            s.args@.len(),
            |i: int|
                if 0 <= i < s.args@.len() {
                    show_view(s.args@[i])
                } else {
                    arbitrary()
                },
        ),
        symbol: s.symbol,
        length: s.length,
        capacity: s.capacity,
    }
}

impl View for ShowTerm {
    type V = TermView;

    open spec fn view(&self) -> TermView {
        show_view(*self)
    }
}

/// Takes a snapshot of `term` and of the arguments it holds, all the way
/// down. Slots behind the arguments held are not shown.
pub fn show_term(term: &Term) -> (shown: ShowTerm)
    requires
        owned(term@),
    ensures
        shown@ == held(term@),
    decreases term,
{
    let mut args: Vec<ShowTerm> = Vec::new();
    let n = term.length as usize;
    let mut i: usize = 0;
    while i < n
        invariant
            i <= n,
            n == term.length,
            n <= term.args@.len(),
            owned(term@),
            args@.len() == i,
            forall|j: int| 0 <= j < i ==> (#[trigger] args@[j])@ == held(term@.args[j]),
        decreases n - i,
    {
        assert(owned(term@.args[i as int]));
        let arg = term.arg(i);
        args.push(show_term(arg));
        i += 1;
    }
    let shown = ShowTerm {
        fun: term.fun,
        args,
        symbol: term.symbol,
        length: term.length,
        capacity: term.capacity,
    };
    assert(shown@.args =~= held(term@).args);
    shown
}

} // verus!
