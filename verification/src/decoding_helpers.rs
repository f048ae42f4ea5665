//! Functions to read the content of a dictionary while checking value types.

use vstd::prelude::*;

use crate::decoder::DecodeError;
use crate::value::BValue;
use crate::value::Dict;
use crate::value::Value;
use crate::value::spec_dict_get;
use crate::value::spec_dict_remove;
use vstd::string::StrSliceExecFns;
use vstd::utf8::decode_utf8;
use vstd::utf8::encode_utf8;
use vstd::utf8::valid_utf8;

verus! {

/// Why a dictionary read failed: a decode error passed through from the
/// decoder, a present entry of the wrong variant (handed back whole), an
/// absent key, or a byte string that is not well-formed text.
#[derive(Debug)]
pub enum HelperDecodeError {
    BencodeDecodeError(DecodeError),
    BadType(Value),
    MissingKey(String),
    FromUtf8Error(std::string::FromUtf8Error),
}

#[verifier::external_type_specification]
#[verifier::external_body]
pub struct ExFromUtf8Error(std::string::FromUtf8Error);

/// Relies on String::from_utf8: it succeeds exactly on valid UTF-8 input,
/// and the resulting text is the decoding of those bytes.
#[verifier::external_body]
fn string_from_utf8(bytes: Vec<u8>) -> (r: Result<String, std::string::FromUtf8Error>)
    ensures
        valid_utf8(bytes@) <==> r is Ok,
        r is Ok ==> r->Ok_0@ == decode_utf8(bytes@),
{
    String::from_utf8(bytes)
}

/// Pops a `Value::Integer` from a dictionary: the entry under `key` is
/// removed whenever it exists, an entry of another variant is handed back in
/// the wrong-type error, and an absent key is its own error.
pub fn pop_value_integer(map: &mut Dict, key: String) -> (r: Result<i64, HelperDecodeError>)
    ensures
        final(map).model() == spec_dict_remove(old(map).model(), encode_utf8(key@)),
        match r {
            Ok(n) => spec_dict_get(old(map).model(), encode_utf8(key@)) == Some(
                BValue::Int(n as int),
            ),
            Err(HelperDecodeError::BadType(v)) => spec_dict_get(old(map).model(), encode_utf8(key@))
                == Some(v.bval()) && !(v.bval() is Int),
            Err(HelperDecodeError::MissingKey(k)) => spec_dict_get(
                old(map).model(),
                encode_utf8(key@),
            ) is None && k@ == key@,
            Err(_) => false,
        },
{
    let kb = key.as_str().as_bytes_vec();
    match map.remove(&kb) {
        Some(v) => match v {
            Value::Integer(n) => Ok(n),
            other => Err(HelperDecodeError::BadType(other)),
        },
        None => Err(HelperDecodeError::MissingKey(key)),
    }
}

/// Pops an optional `Value::Integer`: an absent key is success with nothing,
/// while a present entry of another variant is still the wrong-type error.
pub fn pop_value_integer_option(map: &mut Dict, key: String) -> (r: Result<
    Option<i64>,
    HelperDecodeError,
>)
    ensures
        final(map).model() == spec_dict_remove(old(map).model(), encode_utf8(key@)),
        match r {
            Ok(Some(n)) => spec_dict_get(old(map).model(), encode_utf8(key@)) == Some(
                BValue::Int(n as int),
            ),
            Ok(None) => spec_dict_get(old(map).model(), encode_utf8(key@)) is None,
            Err(HelperDecodeError::BadType(v)) => spec_dict_get(old(map).model(), encode_utf8(key@))
                == Some(v.bval()) && !(v.bval() is Int),
            Err(_) => false,
        },
{
    match pop_value_integer(map, key) {
        Ok(n) => Ok(Some(n)),
        Err(HelperDecodeError::MissingKey(_)) => Ok(None),
        Err(e) => Err(e),
    }
}

/// Pops a `Value::String` from a dictionary, as raw bytes.
pub fn pop_value_bytestring(map: &mut Dict, key: String) -> (r: Result<Vec<u8>, HelperDecodeError>)
    ensures
        final(map).model() == spec_dict_remove(old(map).model(), encode_utf8(key@)),
        match r {
            Ok(b) => spec_dict_get(old(map).model(), encode_utf8(key@)) == Some(BValue::Str(b@)),
            Err(HelperDecodeError::BadType(v)) => spec_dict_get(old(map).model(), encode_utf8(key@))
                == Some(v.bval()) && !(v.bval() is Str),
            Err(HelperDecodeError::MissingKey(k)) => spec_dict_get(
                old(map).model(),
                encode_utf8(key@),
            ) is None && k@ == key@,
            Err(_) => false,
        },
{
    let kb = key.as_str().as_bytes_vec();
    match map.remove(&kb) {
        Some(v) => match v {
            Value::String(b) => Ok(b),
            other => Err(HelperDecodeError::BadType(other)),
        },
        None => Err(HelperDecodeError::MissingKey(key)),
    }
}

/// Pops an optional `Value::String`, as raw bytes.
pub fn pop_value_bytestring_option(map: &mut Dict, key: String) -> (r: Result<
    Option<Vec<u8>>,
    HelperDecodeError,
>)
    ensures
        final(map).model() == spec_dict_remove(old(map).model(), encode_utf8(key@)),
        match r {
            Ok(Some(b)) => spec_dict_get(old(map).model(), encode_utf8(key@)) == Some(
                BValue::Str(b@),
            ),
            Ok(None) => spec_dict_get(old(map).model(), encode_utf8(key@)) is None,
            Err(HelperDecodeError::BadType(v)) => spec_dict_get(old(map).model(), encode_utf8(key@))
                == Some(v.bval()) && !(v.bval() is Str),
            Err(_) => false,
        },
{
    match pop_value_bytestring(map, key) {
        Ok(b) => Ok(Some(b)),
        Err(HelperDecodeError::MissingKey(_)) => Ok(None),
        Err(e) => Err(e),
    }
}

/// Pops a `Value::String` and decodes it into text: bytes that are not
/// well-formed UTF-8 are their own error, distinct from an absent key and
/// from a wrong variant.
pub fn pop_value_utf8_string(map: &mut Dict, key: String) -> (r: Result<String, HelperDecodeError>)
    ensures
        final(map).model() == spec_dict_remove(old(map).model(), encode_utf8(key@)),
        match r {
            Ok(s) => spec_dict_get(old(map).model(), encode_utf8(key@)) matches Some(
                BValue::Str(b),
            ) && valid_utf8(b) && s@ == decode_utf8(b),
            Err(HelperDecodeError::BadType(v)) => spec_dict_get(old(map).model(), encode_utf8(key@))
                == Some(v.bval()) && !(v.bval() is Str),
            Err(HelperDecodeError::MissingKey(k)) => spec_dict_get(
                old(map).model(),
                encode_utf8(key@),
            ) is None && k@ == key@,
            Err(HelperDecodeError::FromUtf8Error(_)) => spec_dict_get(
                old(map).model(),
                encode_utf8(key@),
            ) matches Some(BValue::Str(b)) && !valid_utf8(b),
            Err(HelperDecodeError::BencodeDecodeError(_)) => false,
        },
{
    let bytes = match pop_value_bytestring(map, key) {
        Ok(b) => b,
        Err(e) => {
            return Err(e);
        },
    };
    match string_from_utf8(bytes) {
        Ok(s) => Ok(s),
        Err(e) => Err(HelperDecodeError::FromUtf8Error(e)),
    }
}

/// Pops an optional `Value::String` decoded into text.
pub fn pop_value_utf8_string_option(map: &mut Dict, key: String) -> (r: Result<
    Option<String>,
    HelperDecodeError,
>)
    ensures
        final(map).model() == spec_dict_remove(old(map).model(), encode_utf8(key@)),
        match r {
            Ok(Some(s)) => spec_dict_get(old(map).model(), encode_utf8(key@)) matches Some(
                BValue::Str(b),
            ) && valid_utf8(b) && s@ == decode_utf8(b),
            Ok(None) => spec_dict_get(old(map).model(), encode_utf8(key@)) is None,
            Err(HelperDecodeError::BadType(v)) => spec_dict_get(old(map).model(), encode_utf8(key@))
                == Some(v.bval()) && !(v.bval() is Str),
            Err(HelperDecodeError::FromUtf8Error(_)) => spec_dict_get(
                old(map).model(),
                encode_utf8(key@),
            ) matches Some(BValue::Str(b)) && !valid_utf8(b),
            Err(_) => false,
        },
{
    match pop_value_utf8_string(map, key) {
        Ok(s) => Ok(Some(s)),
        Err(HelperDecodeError::MissingKey(_)) => Ok(None),
        Err(e) => Err(e),
    }
}

} // verus!
