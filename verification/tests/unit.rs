use yoke::rts::Evaluator;
use yoke::target::{Inst, Linkage, Module, Operand, Prim, Signature};
use yoke::unit::{Malformed, Unit};
use yoke::verify::{verify_block, verify_function, verify_inst, ends_block, verify};

fn names(list: &[&str]) -> Vec<String> {
    list.iter().map(|name| name.to_string()).collect()
}

#[test]
fn lookup_walks_from_the_innermost_scope_outward() {
    let mut unit = Unit::new(Module::new());
    assert_eq!(unit.lookup("x"), None);
    unit.add_scope();
    unit.define("x".to_string(), Operand::Slot(0));
    unit.define("y".to_string(), Operand::Param);
    unit.add_scope();
    assert_eq!(unit.lookup("x"), Some(Operand::Slot(0)));
    unit.define("x".to_string(), Operand::Slot(1));
    assert_eq!(unit.lookup("x"), Some(Operand::Slot(1)));
    assert_eq!(unit.lookup("y"), Some(Operand::Param));
    assert_eq!(unit.lookup("z"), None);
    unit.clear_scope();
    assert_eq!(unit.lookup("x"), Some(Operand::Slot(0)));
    assert_eq!(unit.locals.len(), 2);
    unit.define("x".to_string(), Operand::Slot(2));
    unit.leave_scope();
    assert_eq!(unit.lookup("x"), Some(Operand::Slot(0)));
    unit.clear_locals();
    assert_eq!(unit.lookup("x"), None);
    assert_eq!(unit.locals.len(), 0);
}

#[test]
fn a_later_definition_replaces_an_earlier_one() {
    let mut unit = Unit::new(Module::new());
    unit.add_scope();
    unit.define("x".to_string(), Operand::Slot(0));
    unit.define("x".to_string(), Operand::Slot(5));
    assert_eq!(unit.lookup("x"), Some(Operand::Slot(5)));
}

#[test]
fn begin_starts_with_one_block_and_one_scope() {
    let mut unit = Unit::new(Module::new());
    unit.add_scope();
    unit.define("x".to_string(), Operand::Slot(0));
    unit.begin();
    assert_eq!(unit.blocks, vec![Vec::<Inst>::new()]);
    assert_eq!(unit.block, 0);
    assert_eq!(unit.slots.len(), 0);
    assert_eq!(unit.locals.len(), 1);
    assert_eq!(unit.lookup("x"), None);
}

#[test]
fn slots_are_numbered_in_the_order_they_are_made() {
    let mut unit = Unit::new(Module::new());
    unit.begin();
    assert_eq!(unit.alloca("a".to_string()), 0);
    assert_eq!(unit.alloca("b".to_string()), 1);
    assert_eq!(unit.slots, names(&["a", "b"]));
    unit.emit(Inst::Todo);
    assert_eq!(unit.blocks, vec![vec![Inst::Todo]]);
    assert_eq!(unit.add_block(), 1);
    unit.emit(Inst::Unreachable);
    assert_eq!(unit.blocks, vec![vec![Inst::Todo, Inst::Unreachable], vec![]]);
}

#[test]
fn an_application_fills_a_stack_array_and_calls() {
    let mut unit = Unit::new(Module::new());
    unit.begin();
    unit.define("f".to_string(), Operand::Param);
    unit.define("a".to_string(), Operand::Slot(3));
    unit.define("b".to_string(), Operand::Slot(4));
    let done = unit.compile_apply_call(
        "r".to_string(),
        Prim::ApplyPartial,
        "f",
        &names(&["b", "a", "b"]),
    );
    assert_eq!(done, Ok(()));
    assert_eq!(
        unit.blocks[0],
        vec![
            Inst::ArgsAlloca { len: 3 },
            Inst::ArgStore {
                at: 0,
                src: Operand::Slot(4)
            },
            Inst::ArgStore {
                at: 1,
                src: Operand::Slot(3)
            },
            Inst::ArgStore {
                at: 2,
                src: Operand::Slot(4)
            },
            Inst::Call {
                prim: Prim::ApplyPartial,
                term: Operand::Param,
                len: 3
            },
        ]
    );
    assert_eq!(unit.lookup("r"), Some(Operand::Param));
    assert_eq!(unit.slots.len(), 0);
}

#[test]
fn an_application_of_unbound_locals_fails() {
    let mut unit = Unit::new(Module::new());
    unit.begin();
    unit.define("f".to_string(), Operand::Param);
    assert_eq!(
        unit.compile_apply_call("r".to_string(), Prim::NewApp, "g", &names(&[])),
        Err(Malformed)
    );
    assert_eq!(
        unit.compile_apply_call("r".to_string(), Prim::NewApp, "f", &names(&["f", "x"])),
        Err(Malformed)
    );
    assert_eq!(
        unit.compile_apply_call("r".to_string(), Prim::NewApp, "f", &names(&[])),
        Ok(())
    );
}

#[test]
fn loads_and_copies_bind_fresh_slots() {
    let mut unit = Unit::new(Module::new());
    unit.begin();
    unit.load_global("c".to_string(), 7);
    assert_eq!(unit.load_arg("x".to_string(), "c", 2), Ok(()));
    assert_eq!(unit.copy("y".to_string(), "x"), Ok(()));
    assert_eq!(unit.load_arg("z".to_string(), "nope", 0), Err(Malformed));
    assert_eq!(unit.copy("z".to_string(), "nope"), Err(Malformed));
    assert_eq!(unit.slots, names(&["c", "x", "y"]));
    assert_eq!(
        unit.blocks[0],
        vec![
            Inst::LoadGlobal { dst: 0, global: 7 },
            Inst::LoadArg {
                dst: 1,
                src: Operand::Slot(0),
                index: 2
            },
            Inst::Copy {
                dst: 2,
                src: Operand::Slot(1)
            },
        ]
    );
    assert_eq!(unit.lookup("y"), Some(Operand::Slot(2)));
    assert_eq!(unit.lookup("z"), None);
}

#[test]
fn a_switch_is_built_arm_by_arm() {
    let mut unit = Unit::new(Module::new());
    unit.begin();
    unit.define("x".to_string(), Operand::Slot(0));
    unit.add_scope();
    unit.begin_arm(0, 10);
    assert_eq!(unit.block, 1);
    unit.define("y".to_string(), Operand::Slot(1));
    unit.emit(Inst::Todo);
    unit.begin_arm(0, 20);
    assert_eq!(unit.block, 2);
    assert_eq!(unit.lookup("y"), None);
    assert_eq!(unit.lookup("x"), Some(Operand::Slot(0)));
    unit.emit(Inst::Todo);
    unit.end_switch(0, Operand::Slot(0), 2);
    assert_eq!(unit.block, 0);
    assert_eq!(unit.locals.len(), 1);
    assert_eq!(
        unit.blocks,
        vec![
            vec![
                Inst::Case {
                    symbol: 10,
                    target: 1
                },
                Inst::Case {
                    symbol: 20,
                    target: 2
                },
                Inst::Switch {
                    on: Operand::Slot(0),
                    default: 3,
                    cases: 2
                },
            ],
            vec![Inst::Todo],
            vec![Inst::Todo],
            vec![Inst::Unreachable],
        ]
    );
}

#[test]
fn finish_moves_the_body_into_the_module() {
    let mut module = Module::new();
    assert_eq!(
        module.add_function("f".to_string(), Signature::Evaluator, Linkage::Internal),
        0
    );
    assert_eq!(
        module.add_function("main".to_string(), Signature::Main, Linkage::External),
        1
    );
    module.add_global(Evaluator::Code(0), "term_f".to_string(), 0, 2);
    assert_eq!(module.get_function(&"main".to_string()), Some(1));
    assert_eq!(module.get_function(&"g".to_string()), None);
    assert_eq!(module.get_global(&"term_f".to_string()), Some(0));
    assert_eq!(module.get_global(&"f".to_string()), None);
    let mut unit = Unit::new(module);
    unit.begin();
    unit.alloca("x".to_string());
    unit.emit(Inst::Todo);
    unit.finish(1);
    assert_eq!(unit.module.functions[1].slots, names(&["x"]));
    assert_eq!(unit.module.functions[1].blocks, vec![vec![Inst::Todo]]);
    assert_eq!(unit.module.functions[1].name, "main");
    assert_eq!(unit.module.functions[0].blocks.len(), 0);
    assert_eq!(unit.blocks.len(), 0);
    unit.add_global(Evaluator::Noop, "term_c".to_string(), 4, 1);
    assert_eq!(unit.module.globals.len(), 2);
    assert_eq!(unit.module.globals[1].symbol, 4);
    assert_eq!(unit.module.globals[1].arity, 1);
}

#[test]
fn a_block_ends_with_its_only_terminator() {
    assert!(ends_block(Inst::Todo));
    assert!(ends_block(Inst::Unreachable));
    assert!(ends_block(Inst::Return {
        src: Operand::Param
    }));
    assert!(!ends_block(Inst::Eval {
        term: Operand::Param
    }));
    assert!(!ends_block(Inst::Case {
        symbol: 0,
        target: 0
    }));
    assert!(verify_block(&vec![Inst::Todo]));
    assert!(verify_block(&vec![
        Inst::ArgsAlloca { len: 0 },
        Inst::Unreachable
    ]));
    assert!(!verify_block(&vec![]));
    assert!(!verify_block(&vec![Inst::ArgsAlloca { len: 0 }]));
    assert!(!verify_block(&vec![Inst::Todo, Inst::Todo]));
}

#[test]
fn a_case_table_stands_directly_before_its_switch() {
    let case = Inst::Case {
        symbol: 1,
        target: 0,
    };
    let switch = |cases: usize| Inst::Switch {
        on: Operand::Slot(0),
        default: 0,
        cases,
    };
    assert!(verify_block(&vec![switch(0)]));
    assert!(verify_block(&vec![case, case, switch(2)]));
    assert!(verify_block(&vec![Inst::ArgsAlloca { len: 0 }, case, switch(1)]));
    assert!(!verify_block(&vec![case, switch(2)]));
    assert!(!verify_block(&vec![case, case, switch(1)]));
    assert!(!verify_block(&vec![case, Inst::ArgsAlloca { len: 0 }, switch(1)]));
    assert!(!verify_block(&vec![case, Inst::Todo]));
}

#[test]
fn instructions_have_to_fit_their_function() {
    let mut module = Module::new();
    module.add_global(Evaluator::Noop, "term_c".to_string(), 1, 0);
    let eval = module.add_function("f".to_string(), Signature::Evaluator, Linkage::Internal);
    let main = module.add_function("main".to_string(), Signature::Main, Linkage::External);
    module.functions[eval].slots = names(&["x"]);
    module.functions[eval].blocks = vec![vec![Inst::Return {
        src: Operand::Param,
    }]];
    module.functions[main].slots = names(&["x"]);
    module.functions[main].blocks = vec![vec![Inst::ReturnSymbol {
        src: Operand::Slot(0),
    }]];
    assert!(verify(&module));
    let in_eval = |inst: Inst| verify_inst(&module, &module.functions[eval], inst);
    let in_main = |inst: Inst| verify_inst(&module, &module.functions[main], inst);
    assert!(in_eval(Inst::LoadGlobal { dst: 0, global: 0 }));
    assert!(!in_eval(Inst::LoadGlobal { dst: 1, global: 0 }));
    assert!(!in_eval(Inst::LoadGlobal { dst: 0, global: 1 }));
    assert!(in_eval(Inst::Eval {
        term: Operand::Param
    }));
    assert!(!in_main(Inst::Eval {
        term: Operand::Param
    }));
    assert!(in_main(Inst::Eval {
        term: Operand::Slot(0)
    }));
    assert!(!in_main(Inst::Eval {
        term: Operand::Slot(1)
    }));
    assert!(in_eval(Inst::Return {
        src: Operand::Slot(0)
    }));
    assert!(!in_main(Inst::Return {
        src: Operand::Slot(0)
    }));
    assert!(!in_eval(Inst::ReturnSymbol {
        src: Operand::Slot(0)
    }));
    assert!(in_main(Inst::Case {
        symbol: 3,
        target: 0
    }));
    assert!(!in_main(Inst::Case {
        symbol: 3,
        target: 1
    }));
    assert!(!in_main(Inst::Switch {
        on: Operand::Slot(0),
        default: 1,
        cases: 0
    }));
    assert!(verify_function(&module, &module.functions[main]));
}

#[test]
fn a_module_is_valid_when_all_of_it_is() {
    let mut module = Module::new();
    assert!(verify(&module));
    let main = module.add_function("main".to_string(), Signature::Main, Linkage::External);
    assert!(!verify(&module));
    module.functions[main].blocks = vec![vec![Inst::Todo]];
    assert!(verify(&module));
    module.add_global(Evaluator::Code(main), "term_main".to_string(), 0, 0);
    assert!(!verify(&module));
    module.globals[0].fun = Evaluator::Code(1);
    assert!(!verify(&module));
    module.globals[0].fun = Evaluator::Null;
    assert!(!verify(&module));
    module.globals[0].fun = Evaluator::Noop;
    assert!(verify(&module));
    module.functions[main].blocks.push(vec![]);
    assert!(!verify(&module));
}
