use rorthi::value::Value;

#[test]
fn booleans_are_themselves() {
    assert!(Value::Bool(true).as_bool());
    assert!(!Value::Bool(false).as_bool());
}

#[test]
fn integers_are_true_when_nonzero() {
    assert!(!Value::Int(0).as_bool());
    assert!(Value::Int(5).as_bool());
    assert!(Value::Int(-1).as_bool());
}

#[test]
fn strings_are_true_when_nonempty() {
    assert!(!Value::Str(String::new()).as_bool());
    assert!(Value::Str("a".to_string()).as_bool());
}

#[test]
fn as_int_reads_an_integer() {
    assert_eq!(Value::Int(7).as_int(), 7);
    assert_eq!(Value::Int(-3).as_int(), -3);
}

#[test]
fn duplicate_copies_the_value() {
    assert_eq!(Value::Int(9).duplicate(), Value::Int(9));
    assert_eq!(Value::Bool(true).duplicate(), Value::Bool(true));
    assert_eq!(Value::Str("xy".to_string()).duplicate(), Value::Str("xy".to_string()));
}
