use stacklang::context::Context;
use stacklang::eval::{EvaluationError, SideEffect, State};
use stacklang::session::{process_line, LineError, Outcome};
use stacklang::state::{Data, Stack};
use stacklang::word::Word;

fn drain(mut stack: Stack) -> Vec<i32> {
    let mut out = Vec::new();
    while let Some(d) = stack.pop() {
        out.push(d.value());
    }
    out.reverse();
    out
}

/// Runs an expression line; returns (printed, stack, error).
fn run(context: &mut Context, line: &str) -> (Vec<i32>, Vec<i32>, Option<EvaluationError>) {
    match process_line(line, context) {
        Ok(Outcome::Evaluated { printed, stack, error }) => (printed, drain(stack), error),
        Ok(Outcome::Defined(name)) => panic!("unexpected definition of {}", name),
        Err(e) => panic!("line rejected: {:?}", e),
    }
}

fn eval(line: &str) -> (Vec<i32>, Vec<i32>, Option<EvaluationError>) {
    let mut context = Context::new();
    run(&mut context, line)
}

#[test]
fn arithmetic_on_two_values() {
    assert_eq!(eval("7 3 +"), (vec![], vec![10], None));
    assert_eq!(eval("7 3 -"), (vec![], vec![4], None));
    assert_eq!(eval("7 3 *"), (vec![], vec![21], None));
    assert_eq!(eval("7 3 /"), (vec![], vec![2], None));
    assert_eq!(eval("-7 2 /"), (vec![], vec![-3], None));
    assert_eq!(eval("7 -2 /"), (vec![], vec![-3], None));
    assert_eq!(eval("-7 -2 /"), (vec![], vec![3], None));
    assert_eq!(eval("-5 abs"), (vec![], vec![5], None));
}

#[test]
fn division_by_zero_fails() {
    assert_eq!(eval("7 0 /"), (vec![], vec![7, 0], Some(EvaluationError::DivideByZero)));
}

#[test]
fn overflow_fails() {
    assert_eq!(eval("2147483647 1 +").2, Some(EvaluationError::Overflow));
    assert_eq!(eval("-2147483648 1 -").2, Some(EvaluationError::Overflow));
    assert_eq!(eval("65536 65536 *").2, Some(EvaluationError::Overflow));
    assert_eq!(eval("-2147483648 -1 /").2, Some(EvaluationError::Overflow));
    assert_eq!(eval("-2147483648 abs").2, Some(EvaluationError::Overflow));
}

#[test]
fn dup_duplicates_top() {
    assert_eq!(eval("5 dup"), (vec![], vec![5, 5], None));
    assert_eq!(eval("dup"), (vec![], vec![], Some(EvaluationError::StackUnderflow)));
}

#[test]
fn compare_gives_sign_of_second_minus_top() {
    assert_eq!(eval("3 5 ="), (vec![], vec![-1], None));
    assert_eq!(eval("5 3 ="), (vec![], vec![1], None));
    assert_eq!(eval("4 4 ="), (vec![], vec![0], None));
}

#[test]
fn conditional_runs_only_on_nonzero() {
    assert_eq!(eval("1 dup?"), (vec![], vec![], Some(EvaluationError::StackUnderflow)));
    assert_eq!(eval("0 dup?"), (vec![], vec![], None));
    assert_eq!(eval("7 1 dup?"), (vec![], vec![7, 7], None));
    assert_eq!(eval("7 0 dup?"), (vec![], vec![7], None));
}

#[test]
fn loop_pushes_index_before_each_run() {
    assert_eq!(eval("3 dup@"), (vec![], vec![0, 0, 1, 1, 2, 2], None));
    assert_eq!(eval("0 dup@"), (vec![], vec![], None));
    assert_eq!(eval("-4 dup@"), (vec![], vec![], None));
    assert_eq!(eval("0 4 +@"), (vec![], vec![6], None));
}

#[test]
fn modifier_without_word_is_rejected() {
    let mut context = Context::new();
    assert!(matches!(process_line("3 @", &mut context), Err(LineError::UnresolvedToken)));
    assert!(matches!(process_line("?", &mut context), Err(LineError::UnresolvedToken)));
}

#[test]
fn nested_modifiers() {
    assert_eq!(eval("2 1 print?@"), (vec![], vec![2], None));
    assert_eq!(eval("5 5 2 print?@"), (vec![5], vec![5, 5], None));
    assert_eq!(eval("5 1 1 dup??"), (vec![], vec![5, 5], None));
}

#[test]
fn print_shows_top_without_popping() {
    assert_eq!(eval("4 print 2 print"), (vec![4, 2], vec![4, 2], None));
    assert_eq!(eval("print"), (vec![], vec![], Some(EvaluationError::StackUnderflow)));
}

#[test]
fn failure_keeps_earlier_effects() {
    assert_eq!(eval("1 print drop drop 9"), (vec![1], vec![], Some(EvaluationError::StackUnderflow)));
}

#[test]
fn defined_word_runs_its_body() {
    let mut context = Context::new();
    assert!(matches!(process_line("4 square", &mut context), Err(LineError::UnresolvedToken)));
    match process_line(":square dup *", &mut context) {
        Ok(Outcome::Defined(name)) => assert_eq!(name, "square"),
        _ => panic!("definition rejected"),
    }
    assert_eq!(run(&mut context, "4 square"), (vec![], vec![16], None));
    match process_line(": cube dup square *", &mut context) {
        Ok(Outcome::Defined(name)) => assert_eq!(name, "cube"),
        _ => panic!("definition rejected"),
    }
    assert_eq!(run(&mut context, "3 cube"), (vec![], vec![27], None));
}

#[test]
fn redefining_twice_gives_same_results() {
    let mut once = Context::new();
    let mut twice = Context::new();
    assert!(process_line(":sq dup *", &mut once).is_ok());
    assert!(process_line(":sq dup *", &mut twice).is_ok());
    assert!(process_line(":sq dup *", &mut twice).is_ok());
    assert_eq!(run(&mut once, "6 sq"), run(&mut twice, "6 sq"));
    assert_eq!(run(&mut twice, "6 sq"), (vec![], vec![36], None));
}

#[test]
fn malformed_definitions() {
    let mut context = Context::new();
    assert!(matches!(process_line(":", &mut context), Err(LineError::MalformedDefinition)));
    assert!(matches!(process_line(":name", &mut context), Err(LineError::MalformedDefinition)));
    assert!(matches!(process_line(": name", &mut context), Err(LineError::MalformedDefinition)));
    assert!(matches!(process_line(":1x dup", &mut context), Err(LineError::MalformedDefinition)));
    assert!(matches!(process_line(":x nothing", &mut context), Err(LineError::UnresolvedToken)));
    assert!(context.get("x").is_none());
}

#[test]
fn empty_line_is_rejected() {
    let mut context = Context::new();
    assert!(matches!(process_line("   ", &mut context), Err(LineError::EmptyLine)));
}

#[test]
fn undefined_reference_fails_at_run_time() {
    let context = Context::new();
    let mut stack = Stack::new();
    let mut printed = Vec::new();
    let w = Word::Ref { to: "ghost".to_string() };
    assert_eq!(w.execute(&mut stack, &context, &mut printed), Err(EvaluationError::UndefinedWord));
}

#[test]
fn cyclic_redefinition_hits_recursion_limit() {
    let mut context = Context::new();
    assert!(process_line(":a 1", &mut context).is_ok());
    assert!(process_line(":b a", &mut context).is_ok());
    assert!(process_line(":a b", &mut context).is_ok());
    assert_eq!(run(&mut context, "a").2, Some(EvaluationError::RecursionLimit));
}

#[test]
fn primitives_shadow_definitions() {
    let mut context = Context::new();
    assert!(process_line(":dup 42", &mut context).is_ok());
    assert_eq!(run(&mut context, "1 dup"), (vec![], vec![1, 1], None));
}

#[test]
fn resolver_builds_words() {
    let mut context = Context::new();
    assert!(matches!(Word::try_parse("+", &context), Some(Word::Add)));
    assert!(matches!(Word::try_parse("abs", &context), Some(Word::Abs)));
    assert!(matches!(Word::try_parse("12", &context), Some(Word::Const { value }) if value.value() == 12));
    assert!(matches!(Word::try_parse("dup?@", &context), Some(Word::Loop { .. })));
    assert!(Word::try_parse("foo", &context).is_none());
    context.insert("foo".to_string(), vec![Word::Dup]);
    assert!(matches!(Word::try_parse("foo", &context), Some(Word::Ref { to }) if to == "foo"));
    assert!(context.get("foo").is_some());
}

#[test]
fn state_keeps_its_stack() {
    let context = Context::new();
    let mut state = State::new();
    let r = state.evaluate(&vec![Word::Const { value: Data::new(2) }, Word::Print], &context);
    assert_eq!(r, Ok(vec![SideEffect::Print(2)]));
    let r = state.evaluate(&vec![Word::Const { value: Data::new(3) }, Word::Mul, Word::Print], &context);
    assert_eq!(r, Ok(vec![SideEffect::Print(6)]));
    assert_eq!(state.stack().len(), 1);
    assert_eq!(state.evaluate(&vec![Word::Div], &context), Err(EvaluationError::StackUnderflow));
}

#[test]
fn stack_operations() {
    let mut s = Stack::new();
    assert!(s.pop().is_none());
    assert!(s.peek().is_none());
    assert!(!s.dup());
    s.push(Data::new(3));
    s.push(Data::new(10));
    assert_eq!(s.peek().map(|d| d.value()), Some(10));
    assert!(s.op2(|a, b| Data::new(b.value() - a.value())));
    assert_eq!(s.peek().map(|d| d.value()), Some(-7));
    assert!(s.op1(|a| Data::new(a.value() * 2)));
    assert!(s.dup());
    assert_eq!(drain(s), vec![-14, -14]);
}

#[test]
fn covered_pops_never_underflow() {
    assert_eq!(eval("1 2 + 3 * -4 - abs 2 /"), (vec![], vec![6], None));
    assert_eq!(eval("5 0 / 1"), (vec![], vec![5, 0], Some(EvaluationError::DivideByZero)));
    assert_eq!(eval("1 +"), (vec![], vec![1], Some(EvaluationError::StackUnderflow)));
}

#[test]
fn short_stack_operators_leave_stack_unchanged() {
    let mut s = Stack::new();
    assert!(!s.op1(|_| panic!("called on an empty stack")));
    assert!(!s.op2(|_, _| panic!("called on an empty stack")));
    assert_eq!(s.len(), 0);
    s.push(Data::new(4));
    assert!(!s.op2(|_, _| panic!("called with one value")));
    assert_eq!(drain(s), vec![4]);
}

#[test]
fn literal_out_of_range_is_integer_overflow() {
    let mut context = Context::new();
    assert!(matches!(process_line("99999999999 1 +", &mut context), Err(LineError::IntegerOverflow)));
    assert!(matches!(process_line("1 -99999999999?", &mut context), Err(LineError::IntegerOverflow)));
    assert!(matches!(process_line(":big 99999999999", &mut context), Err(LineError::IntegerOverflow)));
    assert!(matches!(process_line("foo 99999999999", &mut context), Err(LineError::UnresolvedToken)));
    assert!(context.get("big").is_none());
}
