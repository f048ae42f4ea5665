use bencode::Dict;
use bencode::Value;
use bencode::decode;
use bencode::encode;

#[test]
fn encoder_integer() {
    assert_eq!(
        "i1234e",
        String::from_utf8(encode(&Value::Integer(1234))).unwrap()
    );
    assert_eq!(
        "i-1234e",
        String::from_utf8(encode(&Value::Integer(-1234))).unwrap()
    );
    assert_eq!("i0e", String::from_utf8(encode(&Value::Integer(0))).unwrap());
}

#[test]
fn encoder_string() {
    assert_eq!(
        "5:abcde",
        String::from_utf8(encode(&Value::String(b"abcde".to_vec()))).unwrap()
    );
    assert_eq!(
        "0:",
        String::from_utf8(encode(&Value::String(b"".to_vec()))).unwrap()
    );
}

#[test]
fn encoder_array() {
    assert_eq!(
        "li1234ee",
        String::from_utf8(encode(&Value::List(vec![Value::Integer(1234)]))).unwrap()
    );
    assert_eq!(
        "li1234ei0ee",
        String::from_utf8(encode(&Value::List(vec![
            Value::Integer(1234),
            Value::Integer(0)
        ])))
        .unwrap()
    );
}

#[test]
fn encoder_dict() {
    let mut expected = Dict::new();
    expected.insert(b"cow".to_vec(), Value::String(b"moo".to_vec()));
    expected.insert(b"spam".to_vec(), Value::String(b"eggs".to_vec()));
    assert_eq!(
        "d3:cow3:moo4:spam4:eggse",
        String::from_utf8(encode(&Value::Dictionary(expected))).unwrap()
    );
}

#[test]
fn encoder_integer_extremes() {
    assert_eq!(
        b"i9223372036854775807e".to_vec(),
        encode(&Value::Integer(i64::MAX))
    );
    assert_eq!(
        b"i-9223372036854775808e".to_vec(),
        encode(&Value::Integer(i64::MIN))
    );
}

#[test]
fn encoder_canonical_key_order() {
    // The same pairs inserted in either order encode to identical bytes,
    // with keys in ascending byte order.
    let mut first = Dict::new();
    first.insert(b"cow".to_vec(), Value::String(b"moo".to_vec()));
    first.insert(b"spam".to_vec(), Value::String(b"eggs".to_vec()));
    let mut second = Dict::new();
    second.insert(b"spam".to_vec(), Value::String(b"eggs".to_vec()));
    second.insert(b"cow".to_vec(), Value::String(b"moo".to_vec()));
    let a = encode(&Value::Dictionary(first));
    let b = encode(&Value::Dictionary(second));
    assert_eq!(a, b);
    assert_eq!(b"d3:cow3:moo4:spam4:eggse".to_vec(), a);
}

#[test]
fn encoder_any_insertion_order() {
    // Three pairs inserted in three different orders build the same
    // dictionary and encode to the same canonical bytes.
    let orders: [[usize; 3]; 3] = [[0, 1, 2], [2, 0, 1], [1, 2, 0]];
    let mut encodings = Vec::new();
    for order in orders.iter() {
        let mut d = Dict::new();
        for &i in order.iter() {
            let (key, val): (&[u8], i64) = [(b"b" as &[u8], 2), (b"a", 1), (b"c", 3)][i];
            d.insert(key.to_vec(), Value::Integer(val));
        }
        encodings.push(encode(&Value::Dictionary(d)));
    }
    assert_eq!(encodings[0], b"d1:ai1e1:bi2e1:ci3ee".to_vec());
    assert_eq!(encodings[0], encodings[1]);
    assert_eq!(encodings[0], encodings[2]);
}

#[test]
fn encoder_prefix_key_order() {
    // A key that is a proper prefix of another sorts before it.
    let mut d = Dict::new();
    d.insert(b"ab".to_vec(), Value::Integer(2));
    d.insert(b"a".to_vec(), Value::Integer(1));
    assert_eq!(b"d1:ai1e2:abi2ee".to_vec(), encode(&Value::Dictionary(d)));
}

#[test]
fn encoder_write_appends() {
    let mut out = Vec::new();
    bencode::encoder::write(&Value::Integer(7), &mut out);
    bencode::encoder::write(&Value::String(b"ab".to_vec()), &mut out);
    assert_eq!(b"i7e2:ab".to_vec(), out);
}

#[test]
fn round_trip_values() {
    let mut inner = Dict::new();
    inner.insert(b"n".to_vec(), Value::Integer(-42));
    inner.insert(b"s".to_vec(), Value::String(vec![0u8, 255u8, 10u8]));
    let v = Value::List(vec![
        Value::Integer(0),
        Value::Dictionary(inner),
        Value::List(vec![]),
        Value::String(b"".to_vec()),
    ]);
    let bytes = encode(&v);
    assert_eq!(decode(&bytes).unwrap(), v);
}

#[test]
fn round_trip_with_trailing_garbage() {
    let v = Value::Integer(1234);
    let mut bytes = encode(&v);
    bytes.extend_from_slice(b"aaaa");
    assert_eq!(decode(&bytes).unwrap(), v);
}
