use yoke::machine::{call, jit, to_exit_code, Fault, Halt};
use yoke::rts::{Evaluator, Term};
use yoke::target::{Function, GlobalTerm, Inst, Linkage, Module, Operand, Prim, Signature};

fn function(name: &str, signature: Signature, slots: usize, blocks: Vec<Vec<Inst>>) -> Function {
    Function {
        name: name.to_string(),
        linkage: Linkage::Internal,
        signature,
        slots: (0..slots).map(|i| format!("s{}", i)).collect(),
        blocks,
    }
}

fn global(fun: Evaluator, symbol: u32, arity: u16) -> GlobalTerm {
    GlobalTerm {
        name: format!("g{}", symbol),
        fun,
        symbol,
        arity,
    }
}

fn main_of(slots: usize, blocks: Vec<Vec<Inst>>) -> Module {
    Module {
        globals: vec![
            global(Evaluator::Noop, 42, 0),
            global(Evaluator::Noop, 7, 2),
        ],
        functions: vec![function("main", Signature::Main, slots, blocks)],
    }
}

#[test]
fn test_jit() {
    let module = Module {
        globals: vec![
            GlobalTerm {
                name: "0".to_string(),
                fun: Evaluator::Noop,
                symbol: 0,
                arity: 0,
            },
            global(Evaluator::Noop, 42, 0),
        ],
        functions: vec![Function {
            name: "main".to_string(),
            linkage: Linkage::External,
            signature: Signature::Main,
            slots: vec!["answer".to_string()],
            blocks: vec![vec![
                Inst::LoadGlobal { dst: 0, global: 1 },
                Inst::ReturnSymbol {
                    src: Operand::Slot(0),
                },
            ]],
        }],
    };
    assert!(yoke::verify::verify(&module));
    let result = jit(&module, 100, 64);
    assert_eq!(result, Halt::Exit(42));
}

#[test]
fn jit_wants_an_entry_point() {
    let mut module = main_of(0, vec![vec![Inst::Todo]]);
    module.functions[0].name = "start".to_string();
    assert_eq!(jit(&module, 100, 64), Halt::Fault(Fault::Invalid));
    module.functions[0].name = "main".to_string();
    assert_eq!(jit(&module, 100, 64), Halt::Unhandled);
    module.functions[0].signature = Signature::Evaluator;
    assert_eq!(jit(&module, 100, 64), Halt::Fault(Fault::Invalid));
}

#[test]
fn the_exit_code_is_the_tag_read_as_signed() {
    assert_eq!(to_exit_code(0), 0);
    assert_eq!(to_exit_code(17), 17);
    assert_eq!(to_exit_code(0x7fff_ffff), i32::MAX);
    assert_eq!(to_exit_code(0x8000_0000), i32::MIN);
    assert_eq!(to_exit_code(0xffff_ffff), -1);
}

#[test]
fn a_switch_goes_to_the_first_entry_with_the_tag() {
    let table = |symbol: u32| {
        main_of(
            3,
            vec![
                vec![
                    Inst::LoadGlobal { dst: 0, global: 0 },
                    Inst::LoadGlobal { dst: 1, global: 1 },
                    Inst::Case { symbol, target: 1 },
                    Inst::Case {
                        symbol: 42,
                        target: 2,
                    },
                    Inst::Case {
                        symbol: 42,
                        target: 1,
                    },
                    Inst::Switch {
                        on: Operand::Slot(0),
                        default: 3,
                        cases: 3,
                    },
                ],
                vec![Inst::ReturnSymbol {
                    src: Operand::Slot(1),
                }],
                vec![Inst::ReturnSymbol {
                    src: Operand::Slot(0),
                }],
                vec![Inst::Unreachable],
            ],
        )
    };
    assert_eq!(jit(&table(42), 100, 64), Halt::Exit(7));
    assert_eq!(jit(&table(5), 100, 64), Halt::Exit(42));
}

#[test]
fn a_switch_without_the_tag_goes_to_the_default() {
    let module = main_of(
        1,
        vec![
            vec![
                Inst::LoadGlobal { dst: 0, global: 0 },
                Inst::Case {
                    symbol: 1,
                    target: 1,
                },
                Inst::Switch {
                    on: Operand::Slot(0),
                    default: 2,
                    cases: 1,
                },
            ],
            vec![Inst::Unreachable],
            vec![Inst::Todo],
        ],
    );
    assert_eq!(jit(&module, 100, 64), Halt::Unhandled);
}

#[test]
fn a_broken_module_faults_where_it_is_broken() {
    let invalid = |slots: usize, blocks: Vec<Vec<Inst>>| {
        assert_eq!(
            jit(&main_of(slots, blocks), 100, 64),
            Halt::Fault(Fault::Invalid)
        );
    };
    invalid(0, vec![]);
    invalid(0, vec![vec![]]);
    invalid(0, vec![vec![Inst::LoadGlobal { dst: 0, global: 0 }]]);
    invalid(1, vec![vec![Inst::LoadGlobal { dst: 0, global: 2 }]]);
    invalid(1, vec![vec![Inst::LoadGlobal { dst: 0, global: 0 }]]);
    invalid(
        1,
        vec![vec![Inst::Eval {
            term: Operand::Param,
        }]],
    );
    invalid(
        1,
        vec![vec![Inst::Return {
            src: Operand::Slot(0),
        }]],
    );
    invalid(
        1,
        vec![vec![Inst::Switch {
            on: Operand::Slot(0),
            default: 0,
            cases: 1,
        }]],
    );
    invalid(
        1,
        vec![vec![Inst::Switch {
            on: Operand::Slot(0),
            default: 5,
            cases: 0,
        }]],
    );
}

#[test]
fn reaching_outside_a_block_is_a_memory_fault() {
    let memory = |slots: usize, blocks: Vec<Vec<Inst>>| {
        assert_eq!(
            jit(&main_of(slots, blocks), 100, 64),
            Halt::Fault(Fault::Memory)
        );
    };
    // a slot that was never written has no evaluator
    memory(
        1,
        vec![vec![Inst::Eval {
            term: Operand::Slot(0),
        }]],
    );
    // a constant has no argument block
    memory(
        2,
        vec![vec![
            Inst::LoadGlobal { dst: 0, global: 0 },
            Inst::LoadArg {
                dst: 1,
                src: Operand::Slot(0),
                index: 0,
            },
        ]],
    );
    // a store outside the stack array
    memory(
        1,
        vec![vec![Inst::ArgStore {
            at: 0,
            src: Operand::Slot(0),
        }]],
    );
    // a call that takes more than the stack array has
    memory(
        1,
        vec![vec![
            Inst::LoadGlobal { dst: 0, global: 1 },
            Inst::ArgsAlloca { len: 1 },
            Inst::Call {
                prim: Prim::NewApp,
                term: Operand::Slot(0),
                len: 2,
            },
        ]],
    );
    // applying what is no partial application
    memory(
        1,
        vec![vec![
            Inst::LoadGlobal { dst: 0, global: 1 },
            Inst::ArgsAlloca { len: 1 },
            Inst::Call {
                prim: Prim::ApplyPartial,
                term: Operand::Slot(0),
                len: 1,
            },
        ]],
    );
    // copying a header whose block was never built
    memory(
        2,
        vec![vec![
            Inst::LoadGlobal { dst: 0, global: 1 },
            Inst::Copy {
                dst: 1,
                src: Operand::Slot(0),
            },
        ]],
    );
}

#[test]
fn a_call_hands_the_term_to_the_function_and_takes_it_back() {
    let module = Module {
        globals: vec![global(Evaluator::Noop, 9, 0)],
        functions: vec![function(
            "f",
            Signature::Evaluator,
            1,
            vec![vec![
                Inst::LoadGlobal { dst: 0, global: 0 },
                Inst::Return {
                    src: Operand::Slot(0),
                },
            ]],
        )],
    };
    let mut this = Term::zeroed();
    assert_eq!(call(&module, 0, &mut this, 10, 4), None);
    assert_eq!(
        this,
        Term {
            fun: Evaluator::Noop,
            args: vec![],
            symbol: 9,
            length: 0,
            capacity: 0
        }
    );
    let mut this = Term::zeroed();
    assert_eq!(
        call(&module, 1, &mut this, 10, 4),
        Some(Halt::Fault(Fault::Invalid))
    );
    assert_eq!(call(&module, 0, &mut this, 1, 4), Some(Halt::OutOfFuel));
}

#[test]
fn an_application_is_built_in_place() {
    let module = main_of(
        3,
        vec![vec![
            Inst::LoadGlobal { dst: 0, global: 1 },
            Inst::LoadGlobal { dst: 1, global: 0 },
            Inst::ArgsAlloca { len: 2 },
            Inst::ArgStore {
                at: 0,
                src: Operand::Slot(1),
            },
            Inst::ArgStore {
                at: 1,
                src: Operand::Slot(1),
            },
            Inst::Call {
                prim: Prim::NewApp,
                term: Operand::Slot(0),
                len: 2,
            },
            Inst::LoadArg {
                dst: 2,
                src: Operand::Slot(0),
                index: 1,
            },
            Inst::FreeTerm {
                term: Operand::Slot(0),
            },
            Inst::ReturnSymbol {
                src: Operand::Slot(2),
            },
        ]],
    );
    assert_eq!(jit(&module, 100, 64), Halt::Exit(42));
}
