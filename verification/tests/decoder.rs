use bencode::DecodeError;
use bencode::Dict;
use bencode::ParseContext;
use bencode::Value;
use bencode::decode;
use bencode::read;

#[test]
fn decoder_integer() {
    assert_eq!(decode(b"i1234e").unwrap(), Value::Integer(1234));
    assert_eq!(decode(b"i1234eaaaa").unwrap(), Value::Integer(1234));
    assert_eq!(decode(b"i-1234e").unwrap(), Value::Integer(-1234));
    assert_eq!(decode(b"i0e").unwrap(), Value::Integer(0));
    assert!(decode(b"i12a34e").is_err());
}

#[test]
fn decoder_string() {
    assert_eq!(decode(b"5:abcde").unwrap(), Value::String(b"abcde".to_vec()));
    assert_eq!(decode(b"5:abcdefg").unwrap(), Value::String(b"abcde".to_vec()));
    assert_eq!(decode(b"0:").unwrap(), Value::String(b"".to_vec()));
    assert!(decode(b"-1:").is_err());
}

#[test]
fn decoder_array() {
    assert_eq!(
        decode(b"li1234ee").unwrap(),
        Value::List(vec![Value::Integer(1234)])
    );
    assert_eq!(
        decode(b"li1234ei0ee").unwrap(),
        Value::List(vec![Value::Integer(1234), Value::Integer(0)])
    );
}

#[test]
fn decoder_dict() {
    let mut expected = Dict::new();
    expected.insert(b"cow".to_vec(), Value::String(b"moo".to_vec()));
    expected.insert(b"spam".to_vec(), Value::String(b"eggs".to_vec()));
    assert_eq!(
        decode(b"d3:cow3:moo4:spam4:eggse").unwrap(),
        Value::Dictionary(expected)
    );
}

#[test]
fn decoder_error_kinds() {
    assert!(matches!(
        decode(b"i12a34e"),
        Err(DecodeError::UnexpectedCharacter(b'a', ParseContext::IntegerBody))
    ));
    assert!(matches!(
        decode(b"x"),
        Err(DecodeError::UnexpectedCharacter(b'x', ParseContext::ObjectStart))
    ));
    assert!(matches!(
        decode(b"-1:"),
        Err(DecodeError::UnexpectedCharacter(b'-', ParseContext::ObjectStart))
    ));
    assert!(matches!(
        decode(b"3x:abc"),
        Err(DecodeError::UnexpectedCharacter(b'x', ParseContext::StringLength))
    ));
    assert!(matches!(decode(b""), Err(DecodeError::UnexpectedEndOfBuffer)));
    assert!(matches!(decode(b"i12"), Err(DecodeError::UnexpectedEndOfBuffer)));
    assert!(matches!(decode(b"5:abc"), Err(DecodeError::UnexpectedEndOfBuffer)));
    assert!(matches!(decode(b"li1e"), Err(DecodeError::UnexpectedEndOfBuffer)));
}

#[test]
fn decoder_integer_edge_forms() {
    // A sign or an integer body without any digit is refused.
    assert!(matches!(
        decode(b"ie"),
        Err(DecodeError::UnexpectedCharacter(b'e', ParseContext::IntegerBody))
    ));
    assert!(matches!(
        decode(b"i-e"),
        Err(DecodeError::UnexpectedCharacter(b'e', ParseContext::IntegerBody))
    ));
    // Leading zeros and a signed zero are accepted, as the lenient grammar
    // has them.
    assert_eq!(decode(b"i012e").unwrap(), Value::Integer(12));
    assert_eq!(decode(b"i-0e").unwrap(), Value::Integer(0));
    // The full 64-bit range decodes.
    assert_eq!(
        decode(b"i9223372036854775807e").unwrap(),
        Value::Integer(i64::MAX)
    );
    assert_eq!(
        decode(b"i-9223372036854775808e").unwrap(),
        Value::Integer(i64::MIN)
    );
}

#[test]
fn decoder_huge_string_length() {
    // A declared length beyond the machine word does not wrap around: no
    // prefix of these buffers is a valid value, so the decode must not
    // succeed.
    assert!(matches!(
        decode(b"18446744073709551621:abcde"),
        Err(DecodeError::UnexpectedEndOfBuffer)
    ));
    assert!(matches!(
        decode(b"99999999999999999999999999:"),
        Err(DecodeError::UnexpectedEndOfBuffer)
    ));
    // A representable length that exceeds the buffer is end of input too.
    assert!(matches!(
        decode(b"1000000:abc"),
        Err(DecodeError::UnexpectedEndOfBuffer)
    ));
}

#[test]
fn decoder_empty_containers() {
    assert_eq!(decode(b"le").unwrap(), Value::List(vec![]));
    assert_eq!(decode(b"de").unwrap(), Value::Dictionary(Dict::new()));
}

#[test]
fn decoder_duplicate_keys_last_wins() {
    let mut expected = Dict::new();
    expected.insert(b"cow".to_vec(), Value::Integer(2));
    assert_eq!(
        decode(b"d3:cowi1e3:cowi2ee").unwrap(),
        Value::Dictionary(expected)
    );
}

#[test]
fn decoder_unsorted_keys_accepted() {
    let mut expected = Dict::new();
    expected.insert(b"cow".to_vec(), Value::String(b"moo".to_vec()));
    expected.insert(b"spam".to_vec(), Value::String(b"eggs".to_vec()));
    // The decoder does not require sorted keys in the input.
    assert_eq!(
        decode(b"d4:spam4:eggs3:cow3:mooe").unwrap(),
        Value::Dictionary(expected)
    );
}

#[test]
fn decoder_nested() {
    let mut inner = Dict::new();
    inner.insert(b"k".to_vec(), Value::List(vec![Value::Integer(-7)]));
    let expected = Value::List(vec![
        Value::Dictionary(inner),
        Value::String(b"ab".to_vec()),
    ]);
    assert_eq!(decode(b"ld1:kli-7eee2:abe").unwrap(), expected);
}

#[test]
fn read_concatenated_values() {
    let input = b"i1ei2e4:spam";
    let (first, next) = read(input, 0).unwrap();
    assert_eq!(first, Value::Integer(1));
    assert_eq!(next, 3);
    let (second, next) = read(input, next).unwrap();
    assert_eq!(second, Value::Integer(2));
    assert_eq!(next, 6);
    let (third, next) = read(input, next).unwrap();
    assert_eq!(third, Value::String(b"spam".to_vec()));
    assert_eq!(next, input.len());
}
