use script::errors::Error;
use script::opcodes::Op;
use script::text::{int_to_string, parse_decimal, string_of};
use script::value::Value;
use script::vm::VM;

#[test]
fn integer_arithmetic() {
    let a = Value::Int(7);
    let b = Value::Int(-2);
    assert!(matches!(a.add(&b), Ok(Value::Int(5))));
    assert!(matches!(a.sub(&b), Ok(Value::Int(9))));
    assert!(matches!(a.mul(&b), Ok(Value::Int(-14))));
    assert!(matches!(a.div(&b), Ok(Value::Int(-3))));
    assert!(matches!(a.modulo(&b), Ok(Value::Int(1))));
}

#[test]
fn overflow_wraps() {
    assert!(matches!(Value::Int(i64::MAX).add(&Value::Int(1)), Ok(Value::Int(i64::MIN))));
    assert!(matches!(Value::Int(i64::MIN).div(&Value::Int(-1)), Ok(Value::Int(i64::MIN))));
    assert!(matches!(Value::Int(i64::MIN).modulo(&Value::Int(-1)), Ok(Value::Int(0))));
}

#[test]
fn division_by_zero_fails() {
    assert!(matches!(Value::Int(1).div(&Value::Int(0)), Err(Error::DivisionByZero)));
    assert!(matches!(Value::Int(1).modulo(&Value::Int(0)), Err(Error::DivisionByZero)));
}

#[test]
fn negative_repetition_is_incompatible() {
    let s = Value::Str("ab".to_string());
    assert!(matches!(s.mul(&Value::Int(-1)), Err(Error::IncompatibleOperands(Op::Mul, _, _))));
    assert!(matches!(s.mul(&Value::Int(0)), Ok(Value::Str(ref t)) if t.is_empty()));
}

#[test]
fn subtraction_of_strings_is_incompatible() {
    let s = Value::Str("a".to_string());
    assert!(matches!(s.sub(&s), Err(Error::IncompatibleOperands(Op::Sub, _, _))));
}

#[test]
fn only_zero_is_false() {
    assert!(Value::Int(0).is_false());
    assert!(!Value::Int(3).is_false());
    assert!(!Value::Str(String::new()).is_false());
    assert!(!Value::List(vec![]).is_false());
}

#[test]
fn kind_names_and_lengths() {
    assert_eq!(Value::Int(1).kind_name(), "integer");
    assert_eq!(Value::Str("x".to_string()).kind_name(), "string");
    assert_eq!(Value::List(vec![]).kind_name(), "list");
    assert_eq!(Value::Str("héllo".to_string()).length(), 5);
    assert_eq!(Value::Int(99).length(), 0);
}

#[test]
fn values_compare_with_themselves_and_swap() {
    let mut vm = VM::new();
    let p = vm.push_value(Value::Int(1));
    let q = vm.push_value(Value::Int(2));
    let a = Value::List(vec![p, q]);
    let b = Value::List(vec![p]);
    assert_eq!(a.cmp(&vm, &a).unwrap(), 0);
    assert_eq!(a.cmp(&vm, &b).unwrap(), 1);
    assert_eq!(b.cmp(&vm, &a).unwrap(), -1);
    let s = Value::Str("abc".to_string());
    let t = Value::Str("abd".to_string());
    assert_eq!(s.cmp(&vm, &t).unwrap(), -1);
    assert_eq!(t.cmp(&vm, &s).unwrap(), 1);
    assert_eq!(s.cmp(&vm, &s).unwrap(), 0);
    assert!(matches!(s.cmp(&vm, &Value::Int(1)), Err(Error::IncompatibleOperands(Op::Lt, _, _))));
}

#[test]
fn integers_format_in_decimal() {
    let vm = VM::new();
    assert_eq!(Value::Int(-42).fmt(&vm, 0).unwrap(), "-42");
    assert_eq!(Value::Int(i64::MIN).fmt(&vm, 0).unwrap(), "-9223372036854775808");
    assert_eq!(int_to_string(0), "0");
    assert_eq!(int_to_string(1000).len(), 4);
}

#[test]
fn decimal_text_parses_back() {
    for n in [0i64, 7, 10, 12345, i64::MAX] {
        assert_eq!(parse_decimal(&int_to_string(n)), Some(n));
    }
    assert_eq!(parse_decimal(&"9223372036854775808".to_string()), None);
    assert_eq!(parse_decimal(&"".to_string()), None);
    assert_eq!(parse_decimal(&"12a".to_string()), None);
}

#[test]
fn chars_become_a_string() {
    assert_eq!(string_of(&vec!['h', 'i', '!']), "hi!");
}

#[test]
fn heap_reads_report_bad_pointers() {
    let mut vm = VM::new();
    let p = vm.push_value(Value::Int(5));
    assert!(matches!(vm.get(p), Ok(Value::Int(5))));
    assert!(matches!(vm.get_clone(p), Ok(Value::Int(5))));
    let far = script::vm::HeapPtr(10);
    assert!(matches!(vm.get(far), Err(Error::MemoryAccessOutOfRange(_))));
}

#[test]
fn collection_frees_unrooted_slots() {
    let mut vm = VM::new();
    let mut code = Vec::new();
    code.push(Op::PushI(1));
    code.push(Op::Pop);
    code.push(Op::PushI(2));
    let mut out = String::new();
    assert!(vm.run(&code, &mut out, 10).unwrap());
    // the slot of the popped 1 was reclaimed and reused for the 2
    assert!(matches!(vm.get(script::vm::HeapPtr(0)), Ok(Value::Int(2))));
    vm.collect();
    let top = vm.push_value(Value::Int(3));
    assert_eq!(top, script::vm::HeapPtr(1));
}
