use icicle::value::{StringFromBytesError, ToStringError, Unit, Value};
use std::sync::Arc;

#[test]
fn booleans_convert_to_strings() {
    assert_eq!(Value::boolean_from_bool(true).to_string().unwrap(), b"true".to_vec());
    assert_eq!(Value::boolean_from_bool(false).to_string().unwrap(), b"false".to_vec());
}

#[test]
fn undef_does_not_convert() {
    assert_eq!(Value::undef().to_string(), Err(ToStringError::Undef));
    assert_eq!(ToStringError::Undef.message(), "Use of undef in string context");
}

#[test]
fn strings_convert_to_their_bytes() {
    let v = Value::string_from_bytes(b"abc".to_vec()).unwrap();
    assert_eq!(v.to_string().unwrap(), b"abc".to_vec());
    let e = Value::string_from_bytes(Vec::new()).unwrap();
    assert_eq!(e.to_string().unwrap(), Vec::<u8>::new());
}

#[test]
fn errors_convert_to_their_message() {
    let v = Value::error_from_error("disk on fire");
    assert_eq!(v.to_string().unwrap(), b"disk on fire".to_vec());
}

#[test]
fn subroutines_do_not_convert() {
    let env = Arc::new(vec![Value::undef()]);
    let v = Value::subroutine_from_environment_and_procedure(env, Unit { procedure_count: 2 }, 1);
    assert_eq!(v.to_string(), Err(ToStringError::Subroutine));
}

#[test]
fn string_error_message() {
    assert_eq!(StringFromBytesError.message(), "String value would be too large");
}
