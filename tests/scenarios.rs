use script::compiler::Compiler;
use script::errors::Error;
use script::lexer::Lexer;
use script::opcodes::Op;
use script::parser::Parser;
use script::value::Value;
use script::vm::VM;

fn compile(source: &str) -> Result<Vec<Op>, Error> {
    let mut parser = Parser::new(Lexer::new(source))?;
    let mut compiler = Compiler::new();
    while let Some(ast) = parser.next()? {
        compiler.feed(&ast)?;
    }
    compiler.build()
}

fn run(source: &str) -> Result<String, Error> {
    let code = compile(source)?;
    let mut vm = VM::new();
    let mut out = String::new();
    let done = vm.run(&code, &mut out, u64::MAX)?;
    assert!(done);
    Ok(out)
}

#[test]
fn print_follows_precedence() {
    assert_eq!(run("print(1 + 2 * 3);").unwrap(), "7\n");
}

#[test]
fn while_loop_counts_to_five() {
    assert_eq!(run("x = 0; while x < 5 { x = x + 1; } print(x);").unwrap(), "5\n");
}

#[test]
fn list_element_is_replaced() {
    assert_eq!(run("xs = [1, 2, 3]; xs[1] = 99; print(xs);").unwrap(), "[1, 99, 3]\n");
}

#[test]
fn string_repeats_and_measures() {
    assert_eq!(run("s = \"ab\" * 3; print(s); print(length(s));").unwrap(), "ababab\n6\n");
}

#[test]
fn zero_takes_the_else_branch() {
    assert_eq!(run("if 0 { print(\"no\"); } else { print(\"yes\"); }").unwrap(), "yes\n");
}

#[test]
fn append_grows_a_list() {
    let out = run("xs = []; append(xs, 1); append(xs, 2); append(xs, 3); print(xs); print(length(xs));").unwrap();
    assert_eq!(out, "[1, 2, 3]\n3\n");
}

#[test]
fn adding_integer_and_string_is_incompatible() {
    match run("1 + \"a\";") {
        Err(Error::IncompatibleOperands(Op::Add, Value::Int(1), Value::Str(s))) => assert_eq!(s, "a"),
        other => panic!("unexpected {:?}", other),
    }
    let e = run("1 + \"a\";").unwrap_err();
    let m = e.message();
    assert!(m.contains("Add") && m.contains("integer") && m.contains("string"));
}

#[test]
fn index_past_the_end_is_out_of_range() {
    match run("xs = [1]; xs[5];") {
        Err(Error::IndexOutOfRange(Value::List(l), 5)) => assert_eq!(l.len(), 1),
        other => panic!("unexpected {:?}", other),
    }
}

#[test]
fn unassigned_global_is_not_found() {
    match run("y;") {
        Err(Error::GlobalNotFound(name)) => assert_eq!(name, "y"),
        other => panic!("unexpected {:?}", other),
    }
}

#[test]
fn unknown_escape_is_rejected_at_its_offset() {
    match run("\"\\q\";") {
        Err(Error::InvalidStringEscape('q', 2)) => {}
        other => panic!("unexpected {:?}", other),
    }
}

#[test]
fn store_and_pop_fuse_into_move() {
    let code = compile("x = 5; print(x);").unwrap();
    assert!(matches!(code[0], Op::PushI(5)));
    assert!(matches!(&code[1], Op::MoveG(n) if n == "x"));
    assert_eq!(code.len(), 5);
    assert_eq!(run("x = 5; print(x);").unwrap(), "5\n");
}

#[test]
fn compiled_jumps_hold_addresses() {
    let code = compile("x = 0; while x < 3 { x = x + 1; }").unwrap();
    for op in code.iter() {
        assert!(!matches!(op, Op::Target(_)));
        if let Op::Jmp(a) | Op::JmpF(a) = op {
            assert!(*a <= code.len());
        }
    }
    assert!(matches!(code[2], Op::LoadG(_)));
    assert!(code.iter().any(|op| matches!(op, Op::Jmp(2))));
}

#[test]
fn if_without_else_jumps_past_the_end() {
    let code = compile("if 1 { }").unwrap();
    assert_eq!(code.len(), 2);
    assert!(matches!(code[1], Op::JmpF(2)));
}

#[test]
fn division_truncates_toward_zero() {
    assert_eq!(run("print(0 - 7 / 2); print((0 - 7) / 2); print((0 - 7) % 2);").unwrap(), "-3\n-3\n-1\n");
}

#[test]
fn division_by_zero_is_an_error() {
    assert!(matches!(run("print(1 / 0);"), Err(Error::DivisionByZero)));
    assert!(matches!(run("print(1 % 0);"), Err(Error::DivisionByZero)));
}

#[test]
fn comparisons_give_one_or_zero() {
    let out = run("print(1 < 2, 2 <= 2, 3 > 4, \"a\" >= \"b\", [1, 2] == [1, 2], [1] != [1, 0]);").unwrap();
    assert_eq!(out, "110011\n");
}

#[test]
fn empty_string_and_list_are_true() {
    assert_eq!(run("if \"\" { print(1); } if [] { print(2); } if 0 { print(3); }").unwrap(), "1\n2\n");
}

#[test]
fn to_string_round_trips_through_the_lexer() {
    let out = run("s = to_string(12345); print(s, length(s));").unwrap();
    assert_eq!(out, "123455\n");
}

#[test]
fn append_returns_the_new_length() {
    assert_eq!(run("print(append([1], 2, 3));").unwrap(), "3\n");
}

#[test]
fn append_to_a_non_list_is_an_error() {
    assert!(matches!(run("append(1, 2);"), Err(Error::InvalidAppend(Value::Int(1)))));
}

#[test]
fn list_literal_keeps_push_order() {
    assert_eq!(run("xs = [10, 20, 30]; print(xs[0], xs[1], xs[2]);").unwrap(), "102030\n");
}

#[test]
fn list_concatenation_and_repetition() {
    assert_eq!(run("print([1] + [2, 3]); print([0] * 3); print(\"x\" + \"y\");").unwrap(), "[1, 2, 3]\n[0, 0, 0]\nxy\n");
}

#[test]
fn string_indexing_gives_code_points() {
    assert_eq!(run("print(\"AB\"[1]);").unwrap(), "66\n");
}

#[test]
fn cyclic_list_prints_with_a_depth_cap() {
    assert_eq!(run("xs = [1]; xs[0] = xs; print(xs);").unwrap(), "[[[[[...]]]]]\n");
}

#[test]
fn cyclic_list_comparison_stops() {
    assert!(matches!(run("xs = [1]; xs[0] = xs; xs == xs;"), Err(Error::RecursionLimit)));
}

#[test]
fn dump_stack_prints_the_stack() {
    assert_eq!(run("dump_stack();").unwrap(), "STACK> []\n");
    assert_eq!(run("1; dump_stack(\"at\");").unwrap(), "at [HeapPtr(0)]\n");
}

#[test]
fn nested_else_if_chains() {
    let src = "x = 2; if x == 1 { print(1); } else if x == 2 { print(2); } else { print(3); }";
    assert_eq!(run(src).unwrap(), "2\n");
}

#[test]
fn transient_lists_are_collected() {
    let src = "i = 0; keep = [7]; while i < 50 { t = [i, [i]]; i = i + 1; } print(keep, i);";
    let code = compile(src).unwrap();
    let mut vm = VM::new();
    let mut out = String::new();
    assert!(vm.run(&code, &mut out, u64::MAX).unwrap());
    assert_eq!(out, "[7]50\n");
    vm.collect();
    let more = compile("print(keep, t);").unwrap();
    let mut out2 = String::new();
    assert!(vm.run(&more, &mut out2, u64::MAX).unwrap());
    assert_eq!(out2, "[7][49, [49]]\n");
}

#[test]
fn fuel_bounds_a_run() {
    let code = compile("while 1 { }").unwrap();
    let mut vm = VM::new();
    let mut out = String::new();
    assert_eq!(vm.run(&code, &mut out, 100).unwrap(), false);
}

#[test]
fn invalid_assignment_target_is_reported() {
    assert!(matches!(compile("1 = 2;"), Err(Error::InvalidAssignmentTarget(_))));
}

#[test]
fn missing_arguments_are_reported() {
    match compile("length();") {
        Err(Error::NotEnoughArguments(_, name, 0, 1)) => assert_eq!(name, "length"),
        other => panic!("unexpected {:?}", other),
    }
}

#[test]
fn calling_a_non_builtin_is_not_implemented() {
    assert!(matches!(compile("f(1);"), Err(Error::NotImplemented(_))));
}

#[test]
fn incompatible_comparison_is_reported() {
    assert!(matches!(run("1 < \"a\";"), Err(Error::IncompatibleOperands(Op::Lt, _, _))));
}

#[test]
fn comparison_errors_name_their_opcode() {
    assert!(matches!(run("1 == \"a\";"), Err(Error::IncompatibleOperands(Op::Eq, _, _))));
    assert!(matches!(run("[1] > 2;"), Err(Error::IncompatibleOperands(Op::Gt, _, _))));
}

#[test]
fn failed_feed_leaves_the_code_unchanged() {
    let mut parser = Parser::new(Lexer::new("x = 1; 1 = 2; print(x);")).unwrap();
    let mut compiler = Compiler::new();
    assert_eq!(compiler.feed(&parser.next().unwrap().unwrap()).unwrap(), 3);
    assert!(matches!(compiler.feed(&parser.next().unwrap().unwrap()), Err(Error::InvalidAssignmentTarget(_))));
    assert_eq!(compiler.feed(&parser.next().unwrap().unwrap()).unwrap(), 3);
    let code = compiler.build().unwrap();
    assert_eq!(code.len(), 5);
}

#[test]
fn freed_slots_are_reused_last_in_first_out() {
    let code = compile("1; 2; 3;").unwrap();
    let mut vm = VM::new();
    let mut out = String::new();
    assert!(vm.run(&code, &mut out, 100).unwrap());
    let p = vm.push_value(Value::Int(7));
    assert_eq!(p, script::vm::HeapPtr(0));
}
