use yoke::lir::compile::{
    compile, config, emit, exit_status, opt, Config, Error, Mode, OptLevel, Output,
};
use yoke::lir::{Case, Global, Op, Program};
use yoke::machine::{jit, Fault, Halt};
use yoke::rts::{todo, Evaluator};
use yoke::target::{Inst, Linkage, Operand, Prim, Signature};

fn program(entries: Vec<(&str, Global)>) -> Program {
    let mut program = Program::new();
    for (name, global) in entries {
        program.insert(name.to_string(), global);
    }
    program
}

fn run(program: &Program) -> i32 {
    match compile(program, Config::default()) {
        Ok(Output::ExitCode(result)) => result,
        other => panic!("{:?}", other),
    }
}

#[test]
fn compile_test_return_symbol() {
    let prog = program(vec![
        (
            "True",
            Global::Const {
                arity: 0,
                symbol: 1,
            },
        ),
        (
            "main",
            Global::Fun {
                arity: 0,
                block: vec![
                    Op::LoadGlobal {
                        global: "True".to_string(),
                    },
                    Op::ReturnSymbol {
                        var: "True".to_string(),
                    },
                ],
            },
        ),
    ]);
    assert_eq!(run(&prog), 1);
}

#[test]
fn compile_test_copy() {
    let prog = program(vec![
        (
            "True",
            Global::Const {
                arity: 0,
                symbol: 1,
            },
        ),
        (
            "main",
            Global::Fun {
                arity: 0,
                block: vec![
                    Op::LoadGlobal {
                        global: "True".to_string(),
                    },
                    Op::Copy {
                        name: "x".to_string(),
                        var: "True".to_string(),
                    },
                    Op::FreeTerm {
                        var: "x".to_string(),
                    },
                    Op::ReturnSymbol {
                        var: "x".to_string(),
                    },
                ],
            },
        ),
    ]);
    assert_eq!(run(&prog), 1);
}

#[test]
fn compile_test_id() {
    let prog = program(vec![
        (
            "True",
            Global::Const {
                arity: 0,
                symbol: 1,
            },
        ),
        (
            "id",
            Global::Fun {
                arity: 1,
                block: vec![
                    Op::LoadArg {
                        name: "x".to_string(),
                        var: "self".to_string(),
                        index: 0,
                    },
                    Op::FreeArgs {
                        var: "self".to_string(),
                    },
                    Op::Eval {
                        var: "x".to_string(),
                    },
                    Op::Return {
                        var: "x".to_string(),
                    },
                ],
            },
        ),
        (
            "main",
            Global::Fun {
                arity: 0,
                block: vec![
                    Op::LoadGlobal {
                        global: "id".to_string(),
                    },
                    Op::LoadGlobal {
                        global: "True".to_string(),
                    },
                    Op::NewApp {
                        name: "result".to_string(),
                        var: "id".to_string(),
                        args: vec!["True".to_string()],
                    },
                    Op::Eval {
                        var: "result".to_string(),
                    },
                    Op::ReturnSymbol {
                        var: "result".to_string(),
                    },
                ],
            },
        ),
    ]);
    assert_eq!(run(&prog), 1);
}

#[test]
fn compile_test_switch() {
    let prog = program(vec![
        (
            "True",
            Global::Const {
                arity: 0,
                symbol: 1,
            },
        ),
        (
            "False",
            Global::Const {
                arity: 0,
                symbol: 2,
            },
        ),
        (
            "main",
            Global::Fun {
                arity: 0,
                block: vec![
                    Op::LoadGlobal {
                        global: "True".to_string(),
                    },
                    Op::LoadGlobal {
                        global: "False".to_string(),
                    },
                    Op::Switch {
                        var: "True".to_string(),
                        cases: vec![
                            Case {
                                global: "True".to_string(),
                                block: vec![Op::ReturnSymbol {
                                    var: "False".to_string(),
                                }],
                            },
                            Case {
                                global: "False".to_string(),
                                block: vec![Op::ReturnSymbol {
                                    var: "True".to_string(),
                                }],
                            },
                        ],
                    },
                ],
            },
        ),
    ]);
    assert_eq!(run(&prog), 2);
}

#[test]
fn compile_rejects_a_program_without_main() {
    let prog = program(vec![(
        "True",
        Global::Const {
            arity: 0,
            symbol: 1,
        },
    )]);
    assert_eq!(compile(&prog, Config::default()), Err(Error::Malformed));
}

fn constant(symbol: u32) -> Global {
    Global::Const { arity: 0, symbol }
}

fn fun(arity: u16, block: Vec<Op>) -> Global {
    Global::Fun { arity, block }
}

fn load(global: &str) -> Op {
    Op::LoadGlobal {
        global: global.to_string(),
    }
}

fn ret_symbol(var: &str) -> Op {
    Op::ReturnSymbol {
        var: var.to_string(),
    }
}

fn names(list: &[&str]) -> Vec<String> {
    list.iter().map(|name| name.to_string()).collect()
}

fn id() -> Global {
    fun(
        1,
        vec![
            Op::LoadArg {
                name: "x".to_string(),
                var: "self".to_string(),
                index: 0,
            },
            Op::FreeArgs {
                var: "self".to_string(),
            },
            Op::Eval {
                var: "x".to_string(),
            },
            Op::Return {
                var: "x".to_string(),
            },
        ],
    )
}

fn second() -> Global {
    fun(
        2,
        vec![
            Op::LoadArg {
                name: "x".to_string(),
                var: "self".to_string(),
                index: 1,
            },
            Op::FreeArgs {
                var: "self".to_string(),
            },
            Op::Return {
                var: "x".to_string(),
            },
        ],
    )
}

#[test]
fn a_constant_comes_back_as_the_exit_code() {
    for symbol in [0u32, 1, 17, 2147483647] {
        let prog = program(vec![
            ("c", constant(symbol)),
            ("main", fun(0, vec![load("c"), ret_symbol("c")])),
        ]);
        assert_eq!(
            compile(&prog, Config::default()),
            Ok(Output::ExitCode(symbol as i32))
        );
    }
}

#[test]
fn a_tag_above_the_signed_range_wraps() {
    let prog = program(vec![
        ("c", constant(0xffff_ffff)),
        ("main", fun(0, vec![load("c"), ret_symbol("c")])),
    ]);
    assert_eq!(compile(&prog, Config::default()), Ok(Output::ExitCode(-1)));
    let prog = program(vec![
        ("c", constant(0x8000_0000)),
        ("main", fun(0, vec![load("c"), ret_symbol("c")])),
    ]);
    assert_eq!(
        compile(&prog, Config::default()),
        Ok(Output::ExitCode(i32::MIN))
    );
}

#[test]
fn the_order_of_the_globals_does_not_matter() {
    let prog = program(vec![
        ("main", fun(0, vec![load("c"), ret_symbol("c")])),
        ("c", constant(5)),
    ]);
    assert_eq!(run(&prog), 5);
}

#[test]
fn todo_exits_with_the_code_of_the_trap() {
    let prog = program(vec![("main", fun(0, vec![Op::Todo]))]);
    assert_eq!(compile(&prog, Config::default()), Ok(Output::ExitCode(1)));
    let module = emit(&prog).unwrap();
    assert_eq!(jit(&module, 100, 64), Halt::Unhandled);
    assert!(todo().message.contains("unhandled case"));
    assert_eq!(todo().code, 1);
}

#[test]
fn a_freed_copy_still_has_its_tag() {
    let prog = program(vec![
        ("True", constant(1)),
        (
            "main",
            fun(
                0,
                vec![
                    load("True"),
                    Op::Copy {
                        name: "x".to_string(),
                        var: "True".to_string(),
                    },
                    Op::FreeTerm {
                        var: "x".to_string(),
                    },
                    ret_symbol("x"),
                ],
            ),
        ),
    ]);
    assert_eq!(compile(&prog, Config::default()), Ok(Output::ExitCode(1)));
}

#[test]
fn a_copy_outlives_its_source() {
    let prog = program(vec![
        ("Pair", constant(7)),
        ("A", constant(3)),
        (
            "main",
            fun(
                0,
                vec![
                    load("Pair"),
                    load("A"),
                    Op::NewApp {
                        name: "p".to_string(),
                        var: "Pair".to_string(),
                        args: names(&[]),
                    },
                    Op::Copy {
                        name: "x".to_string(),
                        var: "p".to_string(),
                    },
                    Op::FreeTerm {
                        var: "p".to_string(),
                    },
                    ret_symbol("x"),
                ],
            ),
        ),
    ]);
    assert_eq!(run(&prog), 7);
}

#[test]
fn a_copied_application_keeps_its_arguments() {
    let prog = program(vec![
        ("Box", Global::Const { arity: 1, symbol: 7 }),
        ("A", constant(3)),
        (
            "main",
            fun(
                0,
                vec![
                    load("Box"),
                    load("A"),
                    Op::NewApp {
                        name: "b".to_string(),
                        var: "Box".to_string(),
                        args: names(&["A"]),
                    },
                    Op::Copy {
                        name: "x".to_string(),
                        var: "b".to_string(),
                    },
                    Op::FreeTerm {
                        var: "b".to_string(),
                    },
                    Op::LoadArg {
                        name: "a".to_string(),
                        var: "x".to_string(),
                        index: 0,
                    },
                    ret_symbol("a"),
                ],
            ),
        ),
    ]);
    assert_eq!(run(&prog), 3);
}

#[test]
fn partial_then_apply_runs_like_the_full_application() {
    let partial = program(vec![
        ("A", constant(3)),
        ("B", constant(4)),
        ("f", second()),
        (
            "main",
            fun(
                0,
                vec![
                    load("f"),
                    load("A"),
                    load("B"),
                    Op::NewPartial {
                        name: "p".to_string(),
                        var: "f".to_string(),
                        args: names(&["A"]),
                    },
                    Op::ApplyPartial {
                        name: "q".to_string(),
                        var: "p".to_string(),
                        args: names(&["B"]),
                    },
                    Op::Eval {
                        var: "q".to_string(),
                    },
                    ret_symbol("q"),
                ],
            ),
        ),
    ]);
    let full = program(vec![
        ("A", constant(3)),
        ("B", constant(4)),
        ("f", second()),
        (
            "main",
            fun(
                0,
                vec![
                    load("f"),
                    load("A"),
                    load("B"),
                    Op::NewApp {
                        name: "r".to_string(),
                        var: "f".to_string(),
                        args: names(&["A", "B"]),
                    },
                    Op::Eval {
                        var: "r".to_string(),
                    },
                    ret_symbol("r"),
                ],
            ),
        ),
    ]);
    assert_eq!(run(&partial), 4);
    assert_eq!(run(&full), 4);
}

#[test]
fn a_partial_application_is_inert() {
    let prog = program(vec![
        ("A", constant(3)),
        ("f", Global::Fun { arity: 2, block: vec![Op::Todo] }),
        (
            "main",
            fun(
                0,
                vec![
                    load("f"),
                    load("A"),
                    Op::NewPartial {
                        name: "p".to_string(),
                        var: "f".to_string(),
                        args: names(&["A"]),
                    },
                    Op::Eval {
                        var: "p".to_string(),
                    },
                    Op::LoadArg {
                        name: "a".to_string(),
                        var: "p".to_string(),
                        index: 0,
                    },
                    ret_symbol("a"),
                ],
            ),
        ),
    ]);
    assert_eq!(run(&prog), 3);
}

#[test]
fn evaluating_a_constructor_changes_nothing() {
    let prog = program(vec![
        ("Box", Global::Const { arity: 1, symbol: 7 }),
        ("A", constant(3)),
        (
            "main",
            fun(
                0,
                vec![
                    load("Box"),
                    load("A"),
                    Op::NewApp {
                        name: "b".to_string(),
                        var: "Box".to_string(),
                        args: names(&["A"]),
                    },
                    Op::Eval {
                        var: "b".to_string(),
                    },
                    Op::Eval {
                        var: "b".to_string(),
                    },
                    Op::LoadArg {
                        name: "a".to_string(),
                        var: "b".to_string(),
                        index: 0,
                    },
                    Op::Switch {
                        var: "b".to_string(),
                        cases: vec![Case {
                            global: "Box".to_string(),
                            block: vec![ret_symbol("a")],
                        }],
                    },
                ],
            ),
        ),
    ]);
    assert_eq!(run(&prog), 3);
}

#[test]
fn an_arm_sees_the_locals_around_it_and_not_those_of_other_arms() {
    let arms = |second_arm: Vec<Op>| {
        program(vec![
            ("True", constant(1)),
            ("False", constant(2)),
            (
                "main",
                fun(
                    0,
                    vec![
                        load("False"),
                        Op::Switch {
                            var: "False".to_string(),
                            cases: vec![
                                Case {
                                    global: "True".to_string(),
                                    block: vec![load("True"), ret_symbol("True")],
                                },
                                Case {
                                    global: "False".to_string(),
                                    block: second_arm,
                                },
                            ],
                        },
                    ],
                ),
            ),
        ])
    };
    assert_eq!(run(&arms(vec![ret_symbol("False")])), 2);
    assert_eq!(
        compile(&arms(vec![ret_symbol("True")]), Config::default()),
        Err(Error::Malformed)
    );
}

#[test]
fn a_nested_switch_ends_the_arm_it_stands_in() {
    let prog = program(vec![
        ("True", constant(1)),
        ("False", constant(2)),
        (
            "main",
            fun(
                0,
                vec![
                    load("True"),
                    load("False"),
                    Op::Switch {
                        var: "True".to_string(),
                        cases: vec![
                            Case {
                                global: "True".to_string(),
                                block: vec![Op::Switch {
                                    var: "False".to_string(),
                                    cases: vec![
                                        Case {
                                            global: "True".to_string(),
                                            block: vec![ret_symbol("True")],
                                        },
                                        Case {
                                            global: "False".to_string(),
                                            block: vec![ret_symbol("False")],
                                        },
                                    ],
                                }],
                            },
                            Case {
                                global: "False".to_string(),
                                block: vec![ret_symbol("True")],
                            },
                        ],
                    },
                ],
            ),
        ),
    ]);
    assert_eq!(run(&prog), 2);
    let module = emit(&prog).unwrap();
    let main = &module.functions[0];
    assert_eq!(main.blocks.len(), 7);
    assert_eq!(
        main.blocks[1],
        vec![
            Inst::Case {
                symbol: 1,
                target: 2
            },
            Inst::Case {
                symbol: 2,
                target: 3
            },
            Inst::Switch {
                on: Operand::Slot(1),
                default: 4,
                cases: 2
            },
        ]
    );
}

#[test]
fn emit_lowers_globals_to_constant_terms() {
    let prog = program(vec![
        ("True", Global::Const { arity: 3, symbol: 9 }),
        ("id", id()),
        ("main", fun(0, vec![Op::Todo])),
    ]);
    let module = emit(&prog).unwrap();
    assert_eq!(module.globals.len(), 2);
    assert_eq!(module.globals[0].name, "term_True");
    assert_eq!(module.globals[0].fun, Evaluator::Noop);
    assert_eq!(module.globals[0].symbol, 9);
    assert_eq!(module.globals[0].arity, 3);
    assert_eq!(module.globals[1].name, "term_id");
    assert_eq!(module.globals[1].fun, Evaluator::Code(0));
    assert_eq!(module.globals[1].symbol, 0);
    assert_eq!(module.globals[1].arity, 1);
    assert_eq!(module.functions.len(), 2);
    assert_eq!(module.functions[0].name, "fun_id");
    assert_eq!(module.functions[0].linkage, Linkage::Internal);
    assert_eq!(module.functions[0].signature, Signature::Evaluator);
    assert_eq!(module.functions[1].name, "main");
    assert_eq!(module.functions[1].linkage, Linkage::External);
    assert_eq!(module.functions[1].signature, Signature::Main);
    assert_eq!(module.functions[1].blocks, vec![vec![Inst::Todo]]);
}

#[test]
fn emit_lowers_operations_to_instructions_on_slots() {
    let prog = program(vec![
        ("True", constant(1)),
        ("id", id()),
        (
            "main",
            fun(
                0,
                vec![
                    load("id"),
                    load("True"),
                    Op::NewApp {
                        name: "result".to_string(),
                        var: "id".to_string(),
                        args: names(&["True"]),
                    },
                    Op::Eval {
                        var: "result".to_string(),
                    },
                    ret_symbol("result"),
                ],
            ),
        ),
    ]);
    let module = emit(&prog).unwrap();
    let id = &module.functions[0];
    assert_eq!(id.slots, names(&["x"]));
    assert_eq!(
        id.blocks,
        vec![vec![
            Inst::LoadArg {
                dst: 0,
                src: Operand::Param,
                index: 0
            },
            Inst::FreeArgs {
                term: Operand::Param
            },
            Inst::Eval {
                term: Operand::Slot(0)
            },
            Inst::Return {
                src: Operand::Slot(0)
            },
        ]]
    );
    let main = &module.functions[1];
    assert_eq!(main.slots, names(&["id", "True"]));
    assert_eq!(
        main.blocks,
        vec![vec![
            Inst::LoadGlobal { dst: 0, global: 1 },
            Inst::LoadGlobal { dst: 1, global: 0 },
            Inst::ArgsAlloca { len: 1 },
            Inst::ArgStore {
                at: 0,
                src: Operand::Slot(1)
            },
            Inst::Call {
                prim: Prim::NewApp,
                term: Operand::Slot(0),
                len: 1
            },
            Inst::Eval {
                term: Operand::Slot(0)
            },
            Inst::ReturnSymbol {
                src: Operand::Slot(0)
            },
        ]]
    );
}

#[test]
fn emit_lowers_a_switch_to_a_table_and_blocks() {
    let prog = program(vec![
        ("True", constant(1)),
        ("False", constant(2)),
        (
            "main",
            fun(
                0,
                vec![
                    load("True"),
                    load("False"),
                    Op::Switch {
                        var: "True".to_string(),
                        cases: vec![
                            Case {
                                global: "False".to_string(),
                                block: vec![ret_symbol("True")],
                            },
                            Case {
                                global: "True".to_string(),
                                block: vec![ret_symbol("False")],
                            },
                        ],
                    },
                ],
            ),
        ),
    ]);
    let module = emit(&prog).unwrap();
    assert_eq!(
        module.functions[0].blocks,
        vec![
            vec![
                Inst::LoadGlobal { dst: 0, global: 0 },
                Inst::LoadGlobal { dst: 1, global: 1 },
                Inst::Case {
                    symbol: 2,
                    target: 1
                },
                Inst::Case {
                    symbol: 1,
                    target: 2
                },
                Inst::Switch {
                    on: Operand::Slot(0),
                    default: 3,
                    cases: 2
                },
            ],
            vec![Inst::ReturnSymbol {
                src: Operand::Slot(0)
            }],
            vec![Inst::ReturnSymbol {
                src: Operand::Slot(1)
            }],
            vec![Inst::Unreachable],
        ]
    );
}

#[test]
fn loading_a_global_twice_binds_its_name_anew() {
    let prog = program(vec![
        ("c", constant(5)),
        (
            "main",
            fun(
                0,
                vec![
                    load("c"),
                    Op::FreeArgs {
                        var: "c".to_string(),
                    },
                    load("c"),
                    ret_symbol("c"),
                ],
            ),
        ),
    ]);
    let module = emit(&prog).unwrap();
    assert_eq!(
        module.functions[0].blocks[0],
        vec![
            Inst::LoadGlobal { dst: 0, global: 0 },
            Inst::FreeArgs {
                term: Operand::Slot(0)
            },
            Inst::LoadGlobal { dst: 1, global: 0 },
            Inst::ReturnSymbol {
                src: Operand::Slot(1)
            },
        ]
    );
}

#[test]
fn malformed_programs_are_rejected() {
    let malformed = |entries: Vec<(&str, Global)>| {
        assert_eq!(
            compile(&program(entries), Config::default()),
            Err(Error::Malformed)
        );
    };
    // a local that was never defined
    malformed(vec![("main", fun(0, vec![ret_symbol("x")]))]);
    // a global that does not exist
    malformed(vec![("main", fun(0, vec![load("c"), ret_symbol("c")]))]);
    // the entry point has no constant term
    malformed(vec![("main", fun(0, vec![load("main"), ret_symbol("main")]))]);
    // an argument that was never defined
    malformed(vec![
        ("c", constant(1)),
        (
            "main",
            fun(
                0,
                vec![
                    load("c"),
                    Op::NewApp {
                        name: "r".to_string(),
                        var: "c".to_string(),
                        args: names(&["d"]),
                    },
                    ret_symbol("r"),
                ],
            ),
        ),
    ]);
    // `self` is not bound in the entry point
    malformed(vec![("main", fun(0, vec![ret_symbol("self")]))]);
    // a case that names a function
    malformed(vec![
        ("c", constant(1)),
        ("f", fun(0, vec![Op::Todo])),
        (
            "main",
            fun(
                0,
                vec![
                    load("c"),
                    Op::Switch {
                        var: "c".to_string(),
                        cases: vec![Case {
                            global: "f".to_string(),
                            block: vec![Op::Todo],
                        }],
                    },
                ],
            ),
        ),
    ]);
    // a function other than the entry point that is malformed
    malformed(vec![
        ("f", fun(1, vec![Op::Return { var: "x".to_string() }])),
        ("main", fun(0, vec![Op::Todo])),
    ]);
    // an entry point with arguments
    malformed(vec![("main", fun(1, vec![Op::Todo]))]);
    // an entry point that is no function
    malformed(vec![("main", constant(1))]);
    // no program at all
    malformed(vec![]);
}

#[test]
fn invalid_modules_are_rejected() {
    let invalid = |entries: Vec<(&str, Global)>| {
        let prog = program(entries);
        assert!(emit(&prog).is_ok());
        assert_eq!(compile(&prog, Config::default()), Err(Error::Invalid));
        let aot = Config {
            mode: Mode::Aot,
            opt_level: OptLevel::O0,
        };
        assert_eq!(compile(&prog, aot), Err(Error::Invalid));
    };
    // a block that does not end
    invalid(vec![("c", constant(1)), ("main", fun(0, vec![load("c")]))]);
    // an empty block
    invalid(vec![("main", fun(0, vec![]))]);
    // an operation behind the end of the block
    invalid(vec![(
        "main",
        fun(0, vec![Op::Todo, Op::Todo]),
    )]);
    // the entry point has no pointer to return through
    invalid(vec![
        ("c", constant(1)),
        ("main", fun(0, vec![load("c"), Op::Return { var: "c".to_string() }])),
    ]);
    // only the entry point returns a tag
    invalid(vec![
        ("f", fun(1, vec![ret_symbol("self")])),
        ("main", fun(0, vec![Op::Todo])),
    ]);
}

#[test]
fn faults_of_the_program_are_reported() {
    // an argument that is not there
    let prog = program(vec![
        ("c", constant(1)),
        (
            "main",
            fun(
                0,
                vec![
                    load("c"),
                    Op::LoadArg {
                        name: "x".to_string(),
                        var: "c".to_string(),
                        index: 0,
                    },
                    ret_symbol("x"),
                ],
            ),
        ),
    ]);
    assert_eq!(
        compile(&prog, Config::default()),
        Err(Error::Fault(Fault::Memory))
    );
    // a tag that no case is for
    let prog = program(vec![
        ("True", constant(1)),
        ("False", constant(2)),
        (
            "main",
            fun(
                0,
                vec![
                    load("False"),
                    Op::Switch {
                        var: "False".to_string(),
                        cases: vec![Case {
                            global: "True".to_string(),
                            block: vec![ret_symbol("False")],
                        }],
                    },
                ],
            ),
        ),
    ]);
    assert_eq!(
        compile(&prog, Config::default()),
        Err(Error::Fault(Fault::Unreachable))
    );
    // a partial application of too many arguments
    let prog = program(vec![
        ("A", constant(3)),
        ("f", id()),
        (
            "main",
            fun(
                0,
                vec![
                    load("f"),
                    load("A"),
                    Op::NewPartial {
                        name: "p".to_string(),
                        var: "f".to_string(),
                        args: names(&["A"]),
                    },
                    ret_symbol("p"),
                ],
            ),
        ),
    ]);
    assert_eq!(
        compile(&prog, Config::default()),
        Err(Error::Fault(Fault::Memory))
    );
    // freeing a term whose arguments were never built
    let prog = program(vec![
        ("f", id()),
        (
            "main",
            fun(
                0,
                vec![
                    load("f"),
                    Op::FreeTerm {
                        var: "f".to_string(),
                    },
                    ret_symbol("f"),
                ],
            ),
        ),
    ]);
    assert_eq!(
        compile(&prog, Config::default()),
        Err(Error::Fault(Fault::Memory))
    );
}

#[test]
fn a_program_that_does_not_end_runs_out_of_fuel() {
    let prog = program(vec![
        (
            "loop",
            fun(
                0,
                vec![
                    load("loop"),
                    Op::Eval {
                        var: "loop".to_string(),
                    },
                    Op::Return {
                        var: "loop".to_string(),
                    },
                ],
            ),
        ),
        (
            "main",
            fun(
                0,
                vec![
                    load("loop"),
                    Op::Eval {
                        var: "loop".to_string(),
                    },
                    ret_symbol("loop"),
                ],
            ),
        ),
    ]);
    let module = emit(&prog).unwrap();
    assert_eq!(jit(&module, 100, 1000), Halt::OutOfFuel);
    assert_eq!(jit(&module, 0, 64), Halt::OutOfFuel);
    assert_eq!(jit(&module, 1000, 64), Halt::StackOverflow);
    assert_eq!(jit(&module, 1000, 0), Halt::StackOverflow);
    assert_eq!(
        compile(&prog, Config::default()),
        Err(Error::StackOverflow)
    );
}

#[test]
fn calls_nest_as_deep_as_they_are_allowed() {
    let prog = program(vec![
        ("True", constant(1)),
        ("id", id()),
        (
            "main",
            fun(
                0,
                vec![
                    load("id"),
                    load("True"),
                    Op::NewApp {
                        name: "result".to_string(),
                        var: "id".to_string(),
                        args: names(&["True"]),
                    },
                    Op::Eval {
                        var: "result".to_string(),
                    },
                    ret_symbol("result"),
                ],
            ),
        ),
    ]);
    let module = emit(&prog).unwrap();
    assert_eq!(jit(&module, 100, 1), Halt::Exit(1));
    assert_eq!(jit(&module, 100, 0), Halt::StackOverflow);
}

#[test]
fn fuel_counts_the_instructions() {
    let prog = program(vec![
        ("c", constant(5)),
        ("main", fun(0, vec![load("c"), ret_symbol("c")])),
    ]);
    let module = emit(&prog).unwrap();
    assert_eq!(jit(&module, 1, 64), Halt::OutOfFuel);
    assert_eq!(jit(&module, 2, 64), Halt::Exit(5));
}

#[test]
fn ahead_of_time_hands_the_module_on() {
    let prog = program(vec![
        ("c", constant(5)),
        ("main", fun(0, vec![load("c"), ret_symbol("c")])),
    ]);
    for opt_level in [OptLevel::O0, OptLevel::O1, OptLevel::O2, OptLevel::O3] {
        let config = Config {
            mode: Mode::Aot,
            opt_level,
        };
        assert_eq!(compile(&prog, config), Ok(Output::Binary));
    }
}

#[test]
fn the_default_is_to_run_unoptimised() {
    assert_eq!(
        Config::default(),
        Config {
            mode: Mode::Jit,
            opt_level: OptLevel::O0
        }
    );
}

#[test]
fn the_pass_pipeline_follows_the_level() {
    assert_eq!(opt(OptLevel::O0), None);
    assert_eq!(opt(OptLevel::O1), Some("default<O1>"));
    assert_eq!(opt(OptLevel::O2), Some("default<O2>"));
    assert_eq!(opt(OptLevel::O3), Some("default<O3>"));
}

#[test]
fn the_command_line_picks_mode_and_level() {
    assert_eq!(
        config(true, 0),
        Some(Config {
            mode: Mode::Jit,
            opt_level: OptLevel::O0
        })
    );
    assert_eq!(
        config(false, 1),
        Some(Config {
            mode: Mode::Aot,
            opt_level: OptLevel::O1
        })
    );
    assert_eq!(
        config(false, 2),
        Some(Config {
            mode: Mode::Aot,
            opt_level: OptLevel::O2
        })
    );
    assert_eq!(
        config(true, 3),
        Some(Config {
            mode: Mode::Jit,
            opt_level: OptLevel::O3
        })
    );
    assert_eq!(config(true, 4), None);
}

#[test]
fn the_exit_status_is_the_programs_own() {
    assert_eq!(exit_status(Ok(Output::ExitCode(10))), 10);
    assert_eq!(exit_status(Ok(Output::Binary)), 0);
    assert_eq!(exit_status(Err(Error::Malformed)), 3);
    assert_eq!(exit_status(Err(Error::Invalid)), 3);
    assert_eq!(exit_status(Err(Error::OutOfFuel)), 3);
    assert_eq!(exit_status(Err(Error::StackOverflow)), 3);
    assert_eq!(exit_status(Err(Error::Fault(Fault::Memory))), 3);
}

#[test]
fn a_program_is_a_mapping() {
    let mut prog = Program::new();
    assert_eq!(prog.len(), 0);
    prog.insert("c".to_string(), constant(1));
    prog.insert("d".to_string(), constant(2));
    prog.insert("c".to_string(), constant(3));
    assert_eq!(prog.len(), 2);
    assert_eq!(prog.get(&"c".to_string()), Some(&constant(3)));
    assert_eq!(prog.get(&"d".to_string()), Some(&constant(2)));
    assert_eq!(prog.get(&"e".to_string()), None);
    assert_eq!(prog.index_of(&"d".to_string()), Some(1));
    assert_eq!(prog.index_of(&"e".to_string()), None);
}

#[test]
fn constant_terms_are_numbered_without_the_entry_point() {
    let prog = program(vec![
        ("a", constant(1)),
        ("main", fun(0, vec![Op::Todo])),
        ("b", constant(2)),
    ]);
    assert_eq!(prog.get_term(&"a".to_string()), Some(0));
    assert_eq!(prog.get_term(&"b".to_string()), Some(1));
    assert_eq!(prog.get_term(&"main".to_string()), None);
    assert_eq!(prog.get_term(&"c".to_string()), None);
}
