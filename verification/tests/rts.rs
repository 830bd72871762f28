use yoke::rts::{
    alloc_terms, apply_partial, calloc_terms, copy, free_args, free_term, new_app, new_partial,
    noop, show_term, todo, Evaluator, ShowTerm, Term,
};

fn constant(symbol: u32) -> Term {
    Term {
        fun: Evaluator::Noop,
        args: vec![],
        symbol,
        length: 0,
        capacity: 0,
    }
}

fn header(fun: Evaluator, symbol: u32, arity: u16) -> Term {
    Term {
        fun,
        args: vec![],
        symbol,
        length: arity,
        capacity: arity,
    }
}

#[test]
fn test_free_term() {
    let mut term1 = Term {
        fun: Evaluator::Noop,
        args: alloc_terms(2),
        symbol: 1,
        length: 2,
        capacity: 2,
    };

    let term2 = constant(2);

    *term1.arg_mut(0) = term2.clone();
    *term1.arg_mut(1) = term2.clone();

    assert_eq!(term1.arg(0).symbol, 2);
    assert_eq!(term1.arg(1).symbol, 2);

    free_term(&mut term1);
}

#[test]
fn test_copy_nil() {
    let mut term1 = constant(1);
    let mut term2 = constant(2);

    copy(&mut term2, &term1);

    assert_eq!(term2.symbol, 1);

    free_term(&mut term1);
    free_term(&mut term2);
}

#[test]
fn lib_test_copy() {
    let mut term1 = Term {
        fun: Evaluator::Noop,
        args: alloc_terms(2),
        symbol: 1,
        length: 2,
        capacity: 2,
    };
    let term2 = constant(2);
    *term1.arg_mut(0) = term2.clone();
    *term1.arg_mut(1) = term2.clone();

    let mut term3 = constant(3);
    copy(&mut term3, &term1);

    assert_eq!(term3.symbol, 1);
    assert_eq!(term3.arg(0).symbol, 2);
    assert_eq!(term3.arg(1).symbol, 2);

    free_term(&mut term1);
    free_term(&mut term3);
}

#[test]
fn test_new_app() {
    let mut term1 = Term {
        fun: Evaluator::Noop,
        args: vec![],
        symbol: 1,
        length: 1,
        capacity: 1,
    };

    let term2 = constant(2);

    let args = vec![term2];
    let length = args.len();
    new_app(&mut term1, args, length);

    assert_eq!(term1.symbol, 1);
    assert_eq!(term1.arg(0).symbol, 2);

    free_term(&mut term1);
}

#[test]
fn test_new_partial() {
    let mut term1 = Term {
        fun: Evaluator::Noop,
        args: vec![],
        symbol: 1,
        length: 0,
        capacity: 2,
    };

    let term2 = constant(2);

    let args = vec![term2];
    let length = args.len();
    new_partial(&mut term1, args, length);

    assert_eq!(term1.symbol, 1);
    assert_eq!(term1.arg(0).symbol, 2);
    assert_eq!(term1.arg(1).symbol, 1);

    free_term(&mut term1);
}

#[test]
fn test_copy_partial() {
    let mut term1 = Term {
        fun: Evaluator::Noop,
        args: vec![],
        symbol: 1,
        length: 2,
        capacity: 2,
    };

    let term2 = constant(2);

    let args = vec![term2];
    let length = args.len();
    new_partial(&mut term1, args, length);

    let mut term3 = constant(0);
    copy(&mut term3, &term1);

    assert_eq!(term3.symbol, 1);
    assert_eq!(term3.arg(0).symbol, 2);
    assert_eq!(term3.arg(1).symbol, 1);

    free_term(&mut term3);
    free_term(&mut term1);
}

#[test]
fn test_apply_partial() {
    let mut term1 = Term {
        fun: Evaluator::Noop,
        args: vec![],
        symbol: 1,
        length: 2,
        capacity: 2,
    };

    let term2 = constant(2);

    let args = vec![term2];
    let length = args.len();
    new_partial(&mut term1, args, length);

    let term3 = constant(3);

    let args = vec![term3];
    let length = args.len();
    apply_partial(&mut term1, args, length);

    assert_eq!(term1.symbol, 1);
    assert_eq!(term1.arg(0).symbol, 2);
    assert_eq!(term1.arg(1).symbol, 3);

    free_term(&mut term1);
}

#[test]
fn test_rts_free_term() {
    let mut term1 = Term {
        fun: Evaluator::Noop,
        args: alloc_terms(2),
        symbol: 1,
        length: 2,
        capacity: 2,
    };

    let term2 = constant(2);

    *term1.arg_mut(0) = term2.clone();
    *term1.arg_mut(1) = term2.clone();

    assert_eq!(term1.arg(0).symbol, 2);
    assert_eq!(term1.arg(1).symbol, 2);

    free_term(&mut term1);
    assert_eq!(term1.args.len(), 0);
    assert_eq!(term1.symbol, 1);
    assert_eq!(term1.length, 2);
    assert_eq!(term1.capacity, 2);
}

#[test]
fn test_rts_copy_nil() {
    let mut term1 = constant(1);
    let mut term2 = constant(2);

    copy(&mut term2, &term1);

    assert_eq!(term2.symbol, 1);
    assert_eq!(term2, term1);

    free_term(&mut term1);
    free_term(&mut term2);
}

#[test]
fn test_rts_copy() {
    let mut term1 = Term {
        fun: Evaluator::Noop,
        args: alloc_terms(2),
        symbol: 1,
        length: 2,
        capacity: 2,
    };
    let term2 = constant(2);
    *term1.arg_mut(0) = term2.clone();
    *term1.arg_mut(1) = term2.clone();

    let mut term3 = constant(3);
    copy(&mut term3, &term1);

    assert_eq!(term3.symbol, 1);
    assert_eq!(term3.arg(0).symbol, 2);
    assert_eq!(term3.arg(1).symbol, 2);
    assert_eq!(term3, term1);

    free_term(&mut term1);
    free_term(&mut term3);
}

#[test]
fn test_rts_new_app() {
    let mut term1 = Term {
        fun: Evaluator::Noop,
        args: vec![],
        symbol: 1,
        length: 1,
        capacity: 1,
    };

    let term2 = constant(2);

    let args = vec![term2];
    let length = args.len();
    new_app(&mut term1, args, length);

    assert_eq!(term1.symbol, 1);
    assert_eq!(term1.arg(0).symbol, 2);
    assert_eq!(term1.fun, Evaluator::Noop);
    assert_eq!(term1.length, 1);
    assert_eq!(term1.capacity, 1);

    free_term(&mut term1);
}

#[test]
fn blocks_start_out_zeroed() {
    for block in [alloc_terms(3), calloc_terms(3)] {
        assert_eq!(block.len(), 3);
        for slot in &block {
            assert_eq!(*slot, Term::zeroed());
        }
    }
    assert_eq!(
        Term::zeroed(),
        Term {
            fun: Evaluator::Null,
            args: vec![],
            symbol: 0,
            length: 0,
            capacity: 0
        }
    );
    assert_eq!(calloc_terms(0).len(), 0);
}

#[test]
fn new_app_takes_only_the_length_it_is_given() {
    let mut term = header(Evaluator::Code(4), 9, 2);
    new_app(&mut term, vec![constant(1), constant(2), constant(3)], 2);
    assert_eq!(term.args, vec![constant(1), constant(2)]);
    assert_eq!(term.fun, Evaluator::Code(4));
    assert_eq!(term.symbol, 9);
    assert_eq!(term.length, 2);
    assert_eq!(term.capacity, 2);
}

#[test]
fn new_partial_keeps_the_header_in_the_last_slot() {
    let mut term = header(Evaluator::Code(7), 5, 3);
    new_partial(&mut term, vec![constant(1)], 1);
    assert_eq!(term.fun, Evaluator::Noop);
    assert_eq!(term.symbol, 5);
    assert_eq!(term.length, 1);
    assert_eq!(term.capacity, 3);
    assert_eq!(
        term.args,
        vec![
            constant(1),
            Term::zeroed(),
            Term {
                fun: Evaluator::Code(7),
                args: vec![],
                symbol: 5,
                length: 0,
                capacity: 0
            },
        ]
    );
}

#[test]
fn new_partial_without_arguments_is_all_header() {
    let mut term = header(Evaluator::Code(0), 5, 1);
    new_partial(&mut term, vec![], 0);
    assert_eq!(term.length, 0);
    assert_eq!(term.fun, Evaluator::Noop);
    assert_eq!(term.args.len(), 1);
    assert_eq!(term.args[0].fun, Evaluator::Code(0));
}

#[test]
fn apply_partial_stays_inert_until_it_is_full() {
    let mut term = header(Evaluator::Code(7), 5, 3);
    new_partial(&mut term, vec![constant(1)], 1);
    apply_partial(&mut term, vec![constant(2)], 1);
    assert_eq!(term.fun, Evaluator::Noop);
    assert_eq!(term.length, 2);
    assert_eq!(term.args[0], constant(1));
    assert_eq!(term.args[1], constant(2));
    assert_eq!(term.args[2].fun, Evaluator::Code(7));
    apply_partial(&mut term, vec![constant(3)], 1);
    assert_eq!(term.fun, Evaluator::Code(7));
    assert_eq!(term.length, 3);
    assert_eq!(term.capacity, 3);
    assert_eq!(term.args, vec![constant(1), constant(2), constant(3)]);
}

#[test]
fn partial_then_apply_is_the_application() {
    let mut partial = header(Evaluator::Code(3), 8, 2);
    new_partial(&mut partial, vec![constant(1)], 1);
    apply_partial(&mut partial, vec![constant(2)], 1);

    let mut full = header(Evaluator::Code(3), 8, 2);
    new_app(&mut full, vec![constant(1), constant(2)], 2);

    assert_eq!(partial, full);
}

#[test]
fn copy_is_deep_and_outlives_its_source() {
    let mut inner = header(Evaluator::Noop, 2, 1);
    new_app(&mut inner, vec![constant(3)], 1);
    let mut outer = header(Evaluator::Noop, 1, 2);
    new_app(&mut outer, vec![inner, constant(4)], 2);
    assert!(outer.is_copyable());

    let before = outer.clone();
    let mut dest = constant(0);
    copy(&mut dest, &outer);
    assert_eq!(dest, before);

    free_term(&mut outer);
    assert_eq!(outer.args.len(), 0);
    assert_eq!(dest, before);
    assert_eq!(dest.symbol, 1);
    assert_eq!(dest.arg(0).arg(0).symbol, 3);
}

#[test]
fn a_header_without_its_block_is_neither_copyable_nor_owned() {
    let term = header(Evaluator::Code(0), 0, 2);
    assert!(!term.is_copyable());
    assert!(!term.is_owned());
    assert!(constant(1).is_copyable());
    assert!(constant(1).is_owned());
}

#[test]
fn free_args_releases_the_block_only() {
    let mut term = header(Evaluator::Noop, 1, 1);
    new_app(&mut term, vec![constant(2)], 1);
    free_args(&mut term);
    assert_eq!(term, header(Evaluator::Noop, 1, 1));
}

#[test]
fn free_term_leaves_the_slots_behind_the_arguments_alone() {
    let mut term = header(Evaluator::Code(1), 5, 3);
    new_partial(&mut term, vec![constant(1)], 1);
    assert!(term.is_owned());
    free_term(&mut term);
    assert_eq!(term.args.len(), 0);
    assert_eq!(term.length, 1);
    assert_eq!(term.capacity, 3);
    assert_eq!(term.fun, Evaluator::Noop);
}

#[test]
fn noop_leaves_the_term_as_it_is() {
    let mut term = header(Evaluator::Noop, 1, 1);
    new_app(&mut term, vec![constant(2)], 1);
    let before = term.clone();
    noop(&mut term);
    assert_eq!(term, before);
}

#[test]
fn todo_is_the_unhandled_case_trap() {
    let trap = todo();
    assert_eq!(trap.message, "unhandled case\n");
    assert_eq!(trap.code, 1);
}

#[test]
fn show_term_shows_what_is_held() {
    let mut term = header(Evaluator::Code(1), 5, 3);
    new_partial(&mut term, vec![constant(1)], 1);
    let shown = show_term(&term);
    assert_eq!(
        shown,
        ShowTerm {
            fun: Evaluator::Noop,
            args: vec![ShowTerm {
                fun: Evaluator::Noop,
                args: vec![],
                symbol: 1,
                length: 0,
                capacity: 0
            }],
            symbol: 5,
            length: 1,
            capacity: 3,
        }
    );
    let flat = show_term(&constant(7));
    assert_eq!(flat.symbol, 7);
    assert_eq!(flat.args.len(), 0);
}
