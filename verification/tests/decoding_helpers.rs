use bencode::Dict;
use bencode::HelperDecodeError;
use bencode::Value;
use bencode::decoding_helpers::pop_value_bytestring;
use bencode::decoding_helpers::pop_value_bytestring_option;
use bencode::decoding_helpers::pop_value_integer;
use bencode::decoding_helpers::pop_value_integer_option;
use bencode::decoding_helpers::pop_value_utf8_string;
use bencode::decoding_helpers::pop_value_utf8_string_option;

#[test]
fn test_utf8() {
    let mut map = Dict::new();
    map.insert(b"foo".to_vec(), Value::String(b"bar".to_vec()));
    map.insert(b"baz".to_vec(), Value::String(b"qux".to_vec()));
    map.insert(b"quux".to_vec(), Value::Integer(42));
    assert_eq!(
        pop_value_utf8_string(&mut map, "foo".to_owned()).unwrap(),
        "bar".to_owned()
    );
    assert_eq!(
        pop_value_utf8_string(&mut map, "baz".to_owned()).unwrap(),
        "qux".to_owned()
    );
    assert_eq!(pop_value_integer(&mut map, "quux".to_owned()).unwrap(), 42);
    assert_eq!(map, Dict::new());
}

#[test]
fn pop_missing_key() {
    let mut map = Dict::new();
    map.insert(b"foo".to_vec(), Value::Integer(1));
    match pop_value_integer(&mut map, "bar".to_owned()) {
        Err(HelperDecodeError::MissingKey(k)) => assert_eq!(k, "bar".to_owned()),
        other => panic!("expected a missing-key error, got {:?}", other),
    }
    assert_eq!(map.len(), 1);
}

#[test]
fn pop_wrong_type() {
    let mut map = Dict::new();
    map.insert(b"foo".to_vec(), Value::Integer(1));
    match pop_value_bytestring(&mut map, "foo".to_owned()) {
        Err(HelperDecodeError::BadType(v)) => assert_eq!(v, Value::Integer(1)),
        other => panic!("expected a wrong-type error, got {:?}", other),
    }
    // The wrong-typed entry was still removed.
    assert_eq!(map.len(), 0);
}

#[test]
fn pop_invalid_utf8() {
    let mut map = Dict::new();
    map.insert(b"foo".to_vec(), Value::String(vec![0xff, 0xfe]));
    assert!(matches!(
        pop_value_utf8_string(&mut map, "foo".to_owned()),
        Err(HelperDecodeError::FromUtf8Error(_))
    ));
}

#[test]
fn pop_option_variants() {
    let mut map = Dict::new();
    map.insert(b"n".to_vec(), Value::Integer(7));
    map.insert(b"s".to_vec(), Value::String(b"hi".to_vec()));
    map.insert(b"t".to_vec(), Value::String(b"yo".to_vec()));
    assert_eq!(
        pop_value_integer_option(&mut map, "n".to_owned()).unwrap(),
        Some(7)
    );
    assert_eq!(
        pop_value_integer_option(&mut map, "n".to_owned()).unwrap(),
        None
    );
    assert_eq!(
        pop_value_bytestring_option(&mut map, "s".to_owned()).unwrap(),
        Some(b"hi".to_vec())
    );
    assert_eq!(
        pop_value_bytestring_option(&mut map, "missing".to_owned()).unwrap(),
        None
    );
    assert_eq!(
        pop_value_utf8_string_option(&mut map, "t".to_owned()).unwrap(),
        Some("yo".to_owned())
    );
    assert_eq!(
        pop_value_utf8_string_option(&mut map, "missing".to_owned()).unwrap(),
        None
    );
    // A wrong variant is still an error for the optional forms.
    map.insert(b"n".to_vec(), Value::String(b"x".to_vec()));
    assert!(matches!(
        pop_value_integer_option(&mut map, "n".to_owned()),
        Err(HelperDecodeError::BadType(_))
    ));
}
