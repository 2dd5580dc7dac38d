use rorthi::engine::run_program;
use rorthi::engine::Machine;
use rorthi::engine::Printed;
use rorthi::engine::RunStatus;
use rorthi::engine::VmError;
use rorthi::value::Value;

const FUEL: u64 = 100_000;

fn run(src: &str) -> (Vec<Printed>, RunStatus) {
    run_program(src, FUEL)
}

#[test]
fn power_prints_1024() {
    let (out, status) = run("2 10 ^ .");
    assert_eq!(status, RunStatus::Finished);
    assert_eq!(out, vec![Printed::Value(Value::Int(1024))]);
}

#[test]
fn division_truncates_toward_zero() {
    let (out, status) = run("7 2 / .");
    assert_eq!(status, RunStatus::Finished);
    assert_eq!(out, vec![Printed::Value(Value::Int(3))]);

    let (out, status) = run("-7 2 / .");
    assert_eq!(status, RunStatus::Finished);
    assert_eq!(out, vec![Printed::Value(Value::Int(-3))]);
}

#[test]
fn division_by_zero_fails() {
    let (out, status) = run("7 0 /");
    assert_eq!(status, RunStatus::Failed(VmError::DivisionByZero));
    assert!(out.is_empty());
}

#[test]
fn division_overflow_fails() {
    let (_, status) = run("-2147483648 -1 /");
    assert_eq!(status, RunStatus::Failed(VmError::NumericOverflow));
}

#[test]
fn arithmetic_basics() {
    let (out, status) = run("1 2 + 10 * 3 - .");
    assert_eq!(status, RunStatus::Finished);
    assert_eq!(out, vec![Printed::Value(Value::Int(27))]);
}

#[test]
fn addition_overflow_fails() {
    let (_, status) = run("2147483647 1 +");
    assert_eq!(status, RunStatus::Failed(VmError::NumericOverflow));
}

#[test]
fn power_overflow_fails() {
    let (_, status) = run("2 31 ^");
    assert_eq!(status, RunStatus::Failed(VmError::NumericOverflow));
}

#[test]
fn negative_exponent_is_huge_and_overflows() {
    let (_, status) = run("2 -1 ^");
    assert_eq!(status, RunStatus::Failed(VmError::NumericOverflow));
}

#[test]
fn zero_to_the_zero_is_one() {
    let (out, status) = run("0 0 ^ .");
    assert_eq!(status, RunStatus::Finished);
    assert_eq!(out, vec![Printed::Value(Value::Int(1))]);
}

#[test]
fn dup_duplicates_the_top() {
    let mut m = Machine::from_source("5 dup");
    let status = m.run_steps(FUEL);
    assert_eq!(status, RunStatus::Finished);
    assert_eq!(m.stack, vec![Value::Int(5), Value::Int(5)]);
}

#[test]
fn dup_on_empty_stack_underflows() {
    let (_, status) = run("dup");
    assert_eq!(status, RunStatus::Failed(VmError::StackUnderflow));
}

#[test]
fn type_mismatch_on_arithmetic() {
    let (_, status) = run("true 1 +");
    assert_eq!(status, RunStatus::Failed(VmError::TypeMismatch));
}

#[test]
fn underflow_on_missing_operand() {
    let (_, status) = run("1 +");
    assert_eq!(status, RunStatus::Failed(VmError::StackUnderflow));
}

#[test]
fn nested_if_skip_prints_nothing() {
    let (out, status) = run("false if true if 1 . end end");
    assert_eq!(status, RunStatus::Finished);
    assert!(out.is_empty());
}

#[test]
fn variable_round_trip_prints_42() {
    let (out, status) = run("mem x 42 store x load x .");
    assert_eq!(status, RunStatus::Finished);
    assert_eq!(out, vec![Printed::Value(Value::Int(42))]);
}

#[test]
fn truthiness_of_strings_and_integers() {
    let (out, status) = run("\"\" if 1 . end");
    assert_eq!(status, RunStatus::Finished);
    assert!(out.is_empty());

    let (out, status) = run("\"a\" if 1 . end");
    assert_eq!(status, RunStatus::Finished);
    assert_eq!(out, vec![Printed::Value(Value::Int(1))]);

    let (out, status) = run("0 if 1 . end");
    assert_eq!(status, RunStatus::Finished);
    assert!(out.is_empty());

    let (out, status) = run("5 if 1 . end");
    assert_eq!(status, RunStatus::Finished);
    assert_eq!(out, vec![Printed::Value(Value::Int(1))]);
}

#[test]
fn counter_loop_runs_exactly_three_times() {
    let mut m = Machine::from_source("mem i 3 store i begin load i 1 - store i load i . load i repeat");
    let status = m.run_steps(FUEL);
    assert_eq!(status, RunStatus::Finished);
    assert_eq!(
        m.output,
        vec![
            Printed::Value(Value::Int(2)),
            Printed::Value(Value::Int(1)),
            Printed::Value(Value::Int(0)),
        ]
    );
    let bound = m.store.iter().find(|p| p.0 == "i").map(|p| p.1.duplicate());
    assert_eq!(bound, Some(Value::Int(0)));
}

#[test]
fn while_loop_counts_down() {
    let (out, status) = run("mem i 2 store i while load i if load i . load i 1 - store i end");
    assert_eq!(status, RunStatus::Finished);
    assert_eq!(out, vec![Printed::Value(Value::Int(2)), Printed::Value(Value::Int(1))]);
}

#[test]
fn print_peeks_without_popping() {
    let mut m = Machine::from_source("9 . .");
    let status = m.run_steps(FUEL);
    assert_eq!(status, RunStatus::Finished);
    assert_eq!(
        m.output,
        vec![Printed::Value(Value::Int(9)), Printed::Value(Value::Int(9))]
    );
    assert_eq!(m.stack, vec![Value::Int(9)]);
}

#[test]
fn print_on_empty_stack_is_a_notice() {
    let (out, status) = run(".");
    assert_eq!(status, RunStatus::Finished);
    assert_eq!(out, vec![Printed::EmptyStack]);
}

#[test]
fn string_literal_strips_quotes() {
    let (out, status) = run("\"hi there\" .");
    assert_eq!(status, RunStatus::Finished);
    assert_eq!(out, vec![Printed::Value(Value::Str("hi there".to_string()))]);
}

#[test]
fn boolean_literals_print_themselves() {
    let (out, status) = run("true . false .");
    assert_eq!(status, RunStatus::Finished);
    assert_eq!(
        out,
        vec![Printed::Value(Value::Bool(true)), Printed::Value(Value::Bool(false))]
    );
}

#[test]
fn unknown_token_fails() {
    let (_, status) = run("bogus");
    assert_eq!(status, RunStatus::Failed(VmError::UnknownToken));
}

#[test]
fn lone_quote_is_an_unknown_token() {
    let (_, status) = run("\"");
    assert_eq!(status, RunStatus::Failed(VmError::UnknownToken));
}

#[test]
fn unbound_variable_fails() {
    let (_, status) = run("load x");
    assert_eq!(status, RunStatus::Failed(VmError::UnboundVariable));
}

#[test]
fn mem_declares_zero() {
    let (out, status) = run("mem x load x .");
    assert_eq!(status, RunStatus::Finished);
    assert_eq!(out, vec![Printed::Value(Value::Int(0))]);
}

#[test]
fn store_overwrites_a_binding() {
    let (out, status) = run("mem x 1 store x 2 store x load x .");
    assert_eq!(status, RunStatus::Finished);
    assert_eq!(out, vec![Printed::Value(Value::Int(2))]);
}

#[test]
fn missing_name_fails() {
    let (_, status) = run("mem");
    assert_eq!(status, RunStatus::Failed(VmError::MissingName));
    let (_, status) = run("1 store");
    assert_eq!(status, RunStatus::Failed(VmError::MissingName));
    let (_, status) = run("load");
    assert_eq!(status, RunStatus::Failed(VmError::MissingName));
}

#[test]
fn repeat_without_begin_fails() {
    let (_, status) = run("true repeat");
    assert_eq!(status, RunStatus::Failed(VmError::RepeatWithoutBegin));
}

#[test]
fn unmatched_if_fails() {
    let (_, status) = run("false if 1 2");
    assert_eq!(status, RunStatus::Failed(VmError::UnmatchedIf));
}

#[test]
fn stack_underflow_on_if_condition() {
    let (_, status) = run("if");
    assert_eq!(status, RunStatus::Failed(VmError::StackUnderflow));
}

#[test]
fn endless_loop_runs_out_of_fuel() {
    let (_, status) = run_program("begin true repeat", 1_000);
    assert_eq!(status, RunStatus::OutOfFuel);
}

#[test]
fn end_without_while_is_a_no_op() {
    let (out, status) = run("end 1 .");
    assert_eq!(status, RunStatus::Finished);
    assert_eq!(out, vec![Printed::Value(Value::Int(1))]);
}
