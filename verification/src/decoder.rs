//! The decoder: a recursive-descent parser over an in-memory byte buffer,
//! with a byte-level specification of the grammar.
//!
//! Grammar notes. An integer is `i`, an optional `-`, one or more digits,
//! `e`; a lone `-` or an empty digit run is refused, while leading zeros and
//! `-0` are accepted as the lenient grammar has them, and a digit run that
//! exceeds the 64-bit range wraps, which keeps the error set to the three
//! kinds below. A string is a digit run giving the length, `:`, and exactly
//! that many raw bytes; a declared length that cannot fit the machine word
//! exceeds any buffer that can exist, so it is reported as end of input
//! rather than folded with wraparound. Lists and dictionaries are `l`/`d`,
//! their contents, `e`; dictionary keys may arrive in any order and a later
//! duplicate key wins.

use vstd::prelude::*;

use crate::value::BValue;
use crate::value::Dict;
use crate::value::Value;
use crate::value::bval_wf;
use crate::value::bvals_of;
use crate::value::elems_wf;
use crate::value::entries_wf;
use crate::value::lemma_bvals_of_push;
use crate::value::lemma_dict_from_pairs_wf;
use crate::value::spec_dict_from_pairs;
use vstd::slice::slice_index_get;
use vstd::slice::slice_subrange;
use vstd::slice::slice_to_vec;

verus! {

/// The production being parsed when an unexpected byte was met.
#[derive(Debug, PartialEq, Eq, Clone, Copy)]
pub enum ParseContext {
    /// The first byte of an object, which selects the production.
    ObjectStart,
    /// The digits or terminator of an integer.
    IntegerBody,
    /// The digits or colon of a string length.
    StringLength,
}

/// Why a decode failed. A decode of an in-memory buffer never reports
/// `IOError`; the variant stands for a failure of an underlying byte source,
/// for callers that read the buffer from one.
#[derive(Debug, PartialEq, Eq)]
pub enum DecodeError {
    IOError,
    UnexpectedEndOfBuffer,
    UnexpectedCharacter(u8, ParseContext),
}

/// An ASCII decimal digit.
pub open spec fn is_digit(b: u8) -> bool {
    48 <= b <= 57
}

/// One accumulation step of the integer parser: the running value times ten
/// plus the digit, with 64-bit wraparound.
pub open spec fn wrap_mul_add(acc: i64, d: u8) -> i64 {
    vstd::wrapping::i64_specs::wrapping_add(
        vstd::wrapping::i64_specs::wrapping_mul(acc, 10),
        (d - 48) as i64,
    )
}


/// Parses the digit run of an integer from `pos` up to its `e` terminator,
/// folding the digits into `acc` and negating at the end when `neg`.
pub open spec fn spec_read_int_digits(input: Seq<u8>, pos: int, acc: i64, neg: bool) -> Result<
    (i64, int),
    DecodeError,
>
    decreases input.len() - pos,
{
    if pos < 0 || pos >= input.len() {
        Err(DecodeError::UnexpectedEndOfBuffer)
    } else if input[pos] == 101u8 {
        Ok(
            (
                if neg {
                    vstd::wrapping::i64_specs::wrapping_sub(0, acc)
                } else {
                    acc
                },
                pos + 1,
            ),
        )
    } else if is_digit(input[pos]) {
        spec_read_int_digits(input, pos + 1, wrap_mul_add(acc, input[pos]), neg)
    } else {
        Err(DecodeError::UnexpectedCharacter(input[pos], ParseContext::IntegerBody))
    }
}

/// Parses an integer body starting just after the `i` tag: an optional sign,
/// at least one digit, then digits up to `e`.
pub open spec fn spec_read_integer(input: Seq<u8>, pos: int) -> Result<(i64, int), DecodeError> {
    if pos < 0 || pos >= input.len() {
        Err(DecodeError::UnexpectedEndOfBuffer)
    } else {
        let neg = input[pos] == 45u8;
        let dpos = if neg {
            pos + 1
        } else {
            pos
        };
        if dpos >= input.len() {
            Err(DecodeError::UnexpectedEndOfBuffer)
        } else if !is_digit(input[dpos]) {
            Err(DecodeError::UnexpectedCharacter(input[dpos], ParseContext::IntegerBody))
        } else {
            spec_read_int_digits(input, dpos, 0, neg)
        }
    }
}

/// Parses the remaining digits of a string length from `pos` up to the `:`
/// separator, folding them into `acc`. A declared length that cannot fit the
/// machine word is longer than any buffer that can exist, so it is reported
/// as end of input.
pub open spec fn spec_read_str_len(input: Seq<u8>, pos: int, acc: usize) -> Result<
    (usize, int),
    DecodeError,
>
    decreases input.len() - pos,
{
    if pos < 0 || pos >= input.len() {
        Err(DecodeError::UnexpectedEndOfBuffer)
    } else if input[pos] == 58u8 {
        Ok((acc, pos + 1))
    } else if is_digit(input[pos]) {
        if acc * 10 + (input[pos] - 48) > usize::MAX {
            Err(DecodeError::UnexpectedEndOfBuffer)
        } else {
            spec_read_str_len(input, pos + 1, (acc * 10 + (input[pos] - 48)) as usize)
        }
    } else {
        Err(DecodeError::UnexpectedCharacter(input[pos], ParseContext::StringLength))
    }
}

/// Parses a whole string starting at its first length digit: the length,
/// `:`, then exactly that many raw bytes.
pub open spec fn spec_read_string(input: Seq<u8>, pos: int) -> Result<(Seq<u8>, int), DecodeError> {
    if pos < 0 || pos >= input.len() {
        Err(DecodeError::UnexpectedEndOfBuffer)
    } else if !is_digit(input[pos]) {
        Err(DecodeError::UnexpectedCharacter(input[pos], ParseContext::StringLength))
    } else {
        match spec_read_str_len(input, pos + 1, (input[pos] - 48) as usize) {
            Err(e) => Err(e),
            Ok((slen, p)) => if p + slen <= input.len() {
                Ok((input.subrange(p, p + slen), p + slen))
            } else {
                Err(DecodeError::UnexpectedEndOfBuffer)
            },
        }
    }
}

/// Parses list elements from `pos` up to the list's `e` terminator.
pub open spec fn spec_read_list(input: Seq<u8>, pos: int) -> Result<
    (Seq<BValue>, int),
    DecodeError,
>
    decreases input.len() - pos, 3int,
{
    if pos < 0 || pos >= input.len() {
        Err(DecodeError::UnexpectedEndOfBuffer)
    } else if input[pos] == 101u8 {
        Ok((Seq::empty(), pos + 1))
    } else {
        match spec_read(input, pos) {
            Err(e) => Err(e),
            Ok((v, p)) => if pos < p <= input.len() {
                match spec_read_list(input, p) {
                    Err(e) => Err(e),
                    Ok((rest, q)) => Ok((seq![v] + rest, q)),
                }
            } else {
                Err(DecodeError::UnexpectedEndOfBuffer)
            },
        }
    }
}

/// Parses dictionary entries from `pos` up to the dictionary's `e`
/// terminator, giving the key/value pairs in input order.
pub open spec fn spec_read_dict(input: Seq<u8>, pos: int) -> Result<
    (Seq<(Seq<u8>, BValue)>, int),
    DecodeError,
>
    decreases input.len() - pos, 3int,
{
    if pos < 0 || pos >= input.len() {
        Err(DecodeError::UnexpectedEndOfBuffer)
    } else if input[pos] == 101u8 {
        Ok((Seq::empty(), pos + 1))
    } else {
        match spec_read_string(input, pos) {
            Err(e) => Err(e),
            Ok((k, p1)) => if pos < p1 <= input.len() {
                match spec_read(input, p1) {
                    Err(e) => Err(e),
                    Ok((v, p2)) => if p1 < p2 <= input.len() {
                        match spec_read_dict(input, p2) {
                            Err(e) => Err(e),
                            Ok((rest, q)) => Ok((seq![(k, v)] + rest, q)),
                        }
                    } else {
                        Err(DecodeError::UnexpectedEndOfBuffer)
                    },
                }
            } else {
                Err(DecodeError::UnexpectedEndOfBuffer)
            },
        }
    }
}

/// Parses exactly one value starting at `pos`: the first byte selects the
/// production, and any byte after the value is left untouched.
pub open spec fn spec_read(input: Seq<u8>, pos: int) -> Result<(BValue, int), DecodeError>
    decreases input.len() - pos, 2int,
{
    if pos < 0 || pos >= input.len() {
        Err(DecodeError::UnexpectedEndOfBuffer)
    } else {
        let b = input[pos];
        if b == 105u8 {
            match spec_read_integer(input, pos + 1) {
                Err(e) => Err(e),
                Ok((n, p)) => Ok((BValue::Int(n as int), p)),
            }
        } else if b == 108u8 {
            match spec_read_list(input, pos + 1) {
                Err(e) => Err(e),
                Ok((elems, p)) => Ok((BValue::List(elems), p)),
            }
        } else if b == 100u8 {
            match spec_read_dict(input, pos + 1) {
                Err(e) => Err(e),
                Ok((pairs, p)) => Ok((BValue::Dict(spec_dict_from_pairs(pairs)), p)),
            }
        } else if is_digit(b) {
            match spec_read_string(input, pos) {
                Err(e) => Err(e),
                Ok((s, p)) => Ok((BValue::Str(s), p)),
            }
        } else {
            Err(DecodeError::UnexpectedCharacter(b, ParseContext::ObjectStart))
        }
    }
}

/// A successful digit run ends past its start and inside the buffer.
pub proof fn lemma_int_digits_ok(input: Seq<u8>, pos: int, acc: i64, neg: bool)
    ensures
        spec_read_int_digits(input, pos, acc, neg) matches Ok((n, p)) ==> pos < p <= input.len(),
    decreases input.len() - pos,
{
    if 0 <= pos < input.len() && input[pos] != 101u8 && is_digit(input[pos]) {
        lemma_int_digits_ok(input, pos + 1, wrap_mul_add(acc, input[pos]), neg);
    }
}

/// A successful integer body ends past its start and inside the buffer.
pub proof fn lemma_integer_ok(input: Seq<u8>, pos: int)
    ensures
        spec_read_integer(input, pos) matches Ok((n, p)) ==> pos < p <= input.len(),
{
    if 0 <= pos < input.len() {
        let dpos = if input[pos] == 45u8 {
            pos + 1
        } else {
            pos
        };
        lemma_int_digits_ok(input, dpos, 0, input[pos] == 45u8);
    }
}

/// A successful length run ends past its start and inside the buffer.
pub proof fn lemma_str_len_ok(input: Seq<u8>, pos: int, acc: usize)
    ensures
        spec_read_str_len(input, pos, acc) matches Ok((n, p)) ==> pos < p <= input.len(),
    decreases input.len() - pos,
{
    if 0 <= pos < input.len() && input[pos] != 58u8 && is_digit(input[pos]) && acc * 10 + (
    input[pos] - 48) <= usize::MAX {
        lemma_str_len_ok(input, pos + 1, (acc * 10 + (input[pos] - 48)) as usize);
    }
}

/// A successful string ends past its start and inside the buffer, and its
/// bytes fit a vector.
pub proof fn lemma_string_ok(input: Seq<u8>, pos: int)
    ensures
        spec_read_string(input, pos) matches Ok((s, p)) ==> pos < p <= input.len() && s.len()
            <= usize::MAX,
{
    if 0 <= pos < input.len() && is_digit(input[pos]) {
        lemma_str_len_ok(input, pos + 1, (input[pos] - 48) as usize);
    }
}

/// A successful parse of one value ends past its start, inside the buffer,
/// and yields a well-formed model value.
pub proof fn lemma_read_ok(input: Seq<u8>, pos: int)
    ensures
        spec_read(input, pos) matches Ok((v, p)) ==> pos < p <= input.len() && bval_wf(v),
    decreases input.len() - pos, 2int,
{
    if 0 <= pos < input.len() {
        let b = input[pos];
        if b == 105u8 {
            lemma_integer_ok(input, pos + 1);
        } else if b == 108u8 {
            lemma_list_ok(input, pos + 1);
        } else if b == 100u8 {
            lemma_dict_ok(input, pos + 1);
            match spec_read_dict(input, pos + 1) {
                Ok((pairs, p)) => lemma_dict_from_pairs_wf(pairs),
                Err(_) => (),
            }
        } else if is_digit(b) {
            lemma_string_ok(input, pos);
        }
    }
}

/// A successful parse of list elements ends past its start, inside the
/// buffer, and every element is well formed.
pub proof fn lemma_list_ok(input: Seq<u8>, pos: int)
    ensures
        spec_read_list(input, pos) matches Ok((elems, p)) ==> pos < p <= input.len() && elems_wf(
            elems,
        ),
    decreases input.len() - pos, 3int,
{
    if 0 <= pos < input.len() && input[pos] != 101u8 {
        lemma_read_ok(input, pos);
        match spec_read(input, pos) {
            Ok((v, p)) => {
                lemma_list_ok(input, p);
                match spec_read_list(input, p) {
                    Ok((rest, q)) => {
                        assert((seq![v] + rest).drop_first() =~= rest);
                        assert(elems_wf(seq![v] + rest));
                    },
                    Err(_) => (),
                }
            },
            Err(_) => (),
        }
    }
}

/// A successful parse of dictionary pairs ends past its start, inside the
/// buffer, and every pair is well formed.
pub proof fn lemma_dict_ok(input: Seq<u8>, pos: int)
    ensures
        spec_read_dict(input, pos) matches Ok((pairs, p)) ==> pos < p <= input.len() && entries_wf(
            pairs,
        ),
    decreases input.len() - pos, 3int,
{
    if 0 <= pos < input.len() && input[pos] != 101u8 {
        lemma_string_ok(input, pos);
        match spec_read_string(input, pos) {
            Ok((k, p1)) => {
                lemma_read_ok(input, p1);
                match spec_read(input, p1) {
                    Ok((v, p2)) => {
                        lemma_dict_ok(input, p2);
                        match spec_read_dict(input, p2) {
                            Ok((rest, q)) => {
                                assert((seq![(k, v)] + rest).drop_first() =~= rest);
                                assert(entries_wf(seq![(k, v)] + rest));
                            },
                            Err(_) => (),
                        }
                    },
                    Err(_) => (),
                }
            },
            Err(_) => (),
        }
    }
}

/// Reads the body of an integer, `pos` standing just after the `i` tag.
fn read_integer(input: &[u8], pos: usize) -> (r: Result<(i64, usize), DecodeError>)
    ensures
        match r {
            Ok((n, p)) => spec_read_integer(input@, pos as int) == Ok::<(i64, int), DecodeError>(
                (n, p as int),
            ) && pos < p <= input@.len(),
            Err(e) => spec_read_integer(input@, pos as int) == Err::<(i64, int), DecodeError>(e),
        },
{
    if pos >= input.len() {
        return Err(DecodeError::UnexpectedEndOfBuffer);
    }
    let b0 = *slice_index_get(input, pos);
    let neg = b0 == 45u8;
    let mut cur: usize = if neg {
        pos + 1
    } else {
        pos
    };
    if cur >= input.len() {
        return Err(DecodeError::UnexpectedEndOfBuffer);
    }
    let d0 = *slice_index_get(input, cur);
    if !(48 <= d0 && d0 <= 57) {
        return Err(DecodeError::UnexpectedCharacter(d0, ParseContext::IntegerBody));
    }
    let mut acc: i64 = 0;
    loop
        invariant
            pos <= cur <= input@.len(),
            spec_read_integer(input@, pos as int) == spec_read_int_digits(
                input@,
                cur as int,
                acc,
                neg,
            ),
        decreases input@.len() - cur,
    {
        if cur >= input.len() {
            return Err(DecodeError::UnexpectedEndOfBuffer);
        }
        let d = *slice_index_get(input, cur);
        if d == 101u8 {
            let v = if neg {
                0i64.wrapping_sub(acc)
            } else {
                acc
            };
            return Ok((v, cur + 1));
        }
        if 48 <= d && d <= 57 {
            acc = acc.wrapping_mul(10).wrapping_add((d - 48) as i64);
            cur = cur + 1;
        } else {
            return Err(DecodeError::UnexpectedCharacter(d, ParseContext::IntegerBody));
        }
    }
}

/// Reads a whole string, `pos` standing at its first length digit.
fn read_string(input: &[u8], pos: usize) -> (r: Result<(Vec<u8>, usize), DecodeError>)
    ensures
        match r {
            Ok((s, p)) => spec_read_string(input@, pos as int) == Ok::<(Seq<u8>, int), DecodeError>(
                (s@, p as int),
            ) && pos < p <= input@.len(),
            Err(e) => spec_read_string(input@, pos as int) == Err::<(Seq<u8>, int), DecodeError>(e),
        },
{
    if pos >= input.len() {
        return Err(DecodeError::UnexpectedEndOfBuffer);
    }
    let d0 = *slice_index_get(input, pos);
    if !(48 <= d0 && d0 <= 57) {
        return Err(DecodeError::UnexpectedCharacter(d0, ParseContext::StringLength));
    }
    let mut len_acc: usize = (d0 - 48) as usize;
    let mut cur: usize = pos + 1;
    loop
        invariant
            pos + 1 <= cur <= input@.len(),
            spec_read_str_len(input@, pos as int + 1, ((d0 - 48) as usize)) == spec_read_str_len(
                input@,
                cur as int,
                len_acc,
            ),
            spec_read_string(input@, pos as int) == (match spec_read_str_len(
                input@,
                pos as int + 1,
                ((d0 - 48) as usize),
            ) {
                Err(e) => Err::<(Seq<u8>, int), DecodeError>(e),
                Ok((slen, p)) => if p + slen <= input@.len() {
                    Ok((input@.subrange(p, p + slen as int), p + slen as int))
                } else {
                    Err(DecodeError::UnexpectedEndOfBuffer)
                },
            }),
        decreases input@.len() - cur,
    {
        if cur >= input.len() {
            return Err(DecodeError::UnexpectedEndOfBuffer);
        }
        let c = *slice_index_get(input, cur);
        if c == 58u8 {
            let data = cur + 1;
            if len_acc > input.len() - data {
                return Err(DecodeError::UnexpectedEndOfBuffer);
            }
            let s = slice_to_vec(slice_subrange(input, data, data + len_acc));
            return Ok((s, data + len_acc));
        }
        if 48 <= c && c <= 57 {
            let scaled = match len_acc.checked_mul(10) {
                Some(x) => x,
                None => {
                    return Err(DecodeError::UnexpectedEndOfBuffer);
                },
            };
            len_acc = match scaled.checked_add((c - 48) as usize) {
                Some(y) => y,
                None => {
                    return Err(DecodeError::UnexpectedEndOfBuffer);
                },
            };
            cur = cur + 1;
        } else {
            return Err(DecodeError::UnexpectedCharacter(c, ParseContext::StringLength));
        }
    }
}

/// Reads list elements up to the closing `e`, `pos` standing just after the
/// `l` tag.
fn read_list(input: &[u8], pos: usize) -> (r: Result<(Vec<Value>, usize), DecodeError>)
    ensures
        match r {
            Ok((l, p)) => spec_read_list(input@, pos as int) == Ok::<
                (Seq<BValue>, int),
                DecodeError,
            >((bvals_of(l@), p as int)) && pos < p <= input@.len(),
            Err(e) => spec_read_list(input@, pos as int) == Err::<(Seq<BValue>, int), DecodeError>(
                e,
            ),
        },
    decreases input@.len() - pos, 3int,
{
    if pos >= input.len() {
        return Err(DecodeError::UnexpectedEndOfBuffer);
    }
    let mut res: Vec<Value> = Vec::new();
    let mut cur: usize = pos;
    proof {
        assert(bvals_of(res@) =~= Seq::<BValue>::empty());
    }
    loop
        invariant
            pos <= cur <= input@.len(),
            (match spec_read_list(input@, cur as int) {
                Ok((rest, q)) => spec_read_list(input@, pos as int) == Ok::<
                    (Seq<BValue>, int),
                    DecodeError,
                >((bvals_of(res@) + rest, q)),
                Err(e) => spec_read_list(input@, pos as int) == Err::<
                    (Seq<BValue>, int),
                    DecodeError,
                >(e),
            }),
        decreases input@.len() - cur,
    {
        if cur >= input.len() {
            return Err(DecodeError::UnexpectedEndOfBuffer);
        }
        let b = *slice_index_get(input, cur);
        if b == 101u8 {
            proof {
                assert(bvals_of(res@) + Seq::<BValue>::empty() =~= bvals_of(res@));
            }
            return Ok((res, cur + 1));
        }
        match read(input, cur) {
            Err(e) => {
                return Err(e);
            },
            Ok((v, p)) => {
                proof {
                    lemma_bvals_of_push(res@, v);
                    assert(spec_read_list(input@, cur as int) == (match spec_read_list(
                        input@,
                        p as int,
                    ) {
                        Ok((rest, q)) => Ok::<(Seq<BValue>, int), DecodeError>(
                            (seq![v.bval()] + rest, q),
                        ),
                        Err(e) => Err::<(Seq<BValue>, int), DecodeError>(e),
                    }));
                    assert(bvals_of(res@).push(v.bval()) =~= bvals_of(res@) + seq![v.bval()]);
                    match spec_read_list(input@, p as int) {
                        Ok((rest, q)) => {
                            assert(bvals_of(res@) + (seq![v.bval()] + rest) =~= (bvals_of(res@)
                                + seq![v.bval()]) + rest);
                        },
                        Err(_) => (),
                    }
                }
                res.push(v);
                cur = p;
            },
        }
    }
}

/// Reads dictionary entries up to the closing `e`, `pos` standing just after
/// the `d` tag; a later pair with an equal key replaces the earlier one.
fn read_dict(input: &[u8], pos: usize) -> (r: Result<(Dict, usize), DecodeError>)
    ensures
        match r {
            Ok((d, p)) => (match spec_read_dict(input@, pos as int) {
                Ok((pairs, q)) => q == p as int && d.model() == spec_dict_from_pairs(pairs),
                Err(_) => false,
            }) && pos < p <= input@.len(),
            Err(e) => spec_read_dict(input@, pos as int) == Err::<
                (Seq<(Seq<u8>, BValue)>, int),
                DecodeError,
            >(e),
        },
    decreases input@.len() - pos, 3int,
{
    if pos >= input.len() {
        return Err(DecodeError::UnexpectedEndOfBuffer);
    }
    let mut res = Dict::new();
    let ghost mut pairs: Seq<(Seq<u8>, BValue)> = Seq::empty();
    let mut cur: usize = pos;
    loop
        invariant
            pos <= cur <= input@.len(),
            res.model() == spec_dict_from_pairs(pairs),
            (match spec_read_dict(input@, cur as int) {
                Ok((rest, q)) => spec_read_dict(input@, pos as int) == Ok::<
                    (Seq<(Seq<u8>, BValue)>, int),
                    DecodeError,
                >((pairs + rest, q)),
                Err(e) => spec_read_dict(input@, pos as int) == Err::<
                    (Seq<(Seq<u8>, BValue)>, int),
                    DecodeError,
                >(e),
            }),
        decreases input@.len() - cur,
    {
        if cur >= input.len() {
            return Err(DecodeError::UnexpectedEndOfBuffer);
        }
        let b = *slice_index_get(input, cur);
        if b == 101u8 {
            proof {
                assert(pairs + Seq::<(Seq<u8>, BValue)>::empty() =~= pairs);
            }
            return Ok((res, cur + 1));
        }
        match read_string(input, cur) {
            Err(e) => {
                return Err(e);
            },
            Ok((k, p1)) => {
                match read(input, p1) {
                    Err(e) => {
                        return Err(e);
                    },
                    Ok((v, p2)) => {
                        let ghost kk = k@;
                        let ghost vb = v.bval();
                        proof {
                            assert(spec_read_dict(input@, cur as int) == (match spec_read_dict(
                                input@,
                                p2 as int,
                            ) {
                                Ok((rest, q)) => Ok::<(Seq<(Seq<u8>, BValue)>, int), DecodeError>(
                                    (seq![(kk, vb)] + rest, q),
                                ),
                                Err(e) => Err::<(Seq<(Seq<u8>, BValue)>, int), DecodeError>(e),
                            }));
                            match spec_read_dict(input@, p2 as int) {
                                Ok((rest, q)) => {
                                    assert(pairs + (seq![(kk, vb)] + rest) =~= (pairs + seq![
                                        (kk, vb),
                                    ]) + rest);
                                },
                                Err(_) => (),
                            }
                            assert(pairs.push((kk, vb)) =~= pairs + seq![(kk, vb)]);
                            assert(pairs.push((kk, vb)).drop_last() =~= pairs);
                        }
                        res.insert(k, v);
                        proof {
                            pairs = pairs.push((kk, vb));
                        }
                        cur = p2;
                    },
                }
            },
        }
    }
}

/// Reads exactly one value starting at `pos` and hands back the position
/// just after it; any bytes that follow are left untouched, so several
/// concatenated values can be read in turn.
pub fn read(input: &[u8], pos: usize) -> (r: Result<(Value, usize), DecodeError>)
    ensures
        match r {
            Ok((v, p)) => spec_read(input@, pos as int) == Ok::<(BValue, int), DecodeError>(
                (v.bval(), p as int),
            ) && pos < p <= input@.len() && bval_wf(v.bval()),
            Err(e) => spec_read(input@, pos as int) == Err::<(BValue, int), DecodeError>(e),
        },
    decreases input@.len() - pos, 2int,
{
    proof {
        lemma_read_ok(input@, pos as int);
    }
    if pos >= input.len() {
        return Err(DecodeError::UnexpectedEndOfBuffer);
    }
    let b = *slice_index_get(input, pos);
    if b == 105u8 {
        match read_integer(input, pos + 1) {
            Ok((n, p)) => Ok((Value::Integer(n), p)),
            Err(e) => Err(e),
        }
    } else if b == 108u8 {
        match read_list(input, pos + 1) {
            Ok((l, p)) => Ok((Value::List(l), p)),
            Err(e) => Err(e),
        }
    } else if b == 100u8 {
        match read_dict(input, pos + 1) {
            Ok((d, p)) => Ok((Value::Dictionary(d), p)),
            Err(e) => Err(e),
        }
    } else if 48 <= b && b <= 57 {
        match read_string(input, pos) {
            Ok((s, p)) => Ok((Value::String(s), p)),
            Err(e) => Err(e),
        }
    } else {
        Err(DecodeError::UnexpectedCharacter(b, ParseContext::ObjectStart))
    }
}

/// Decodes the first complete value of `input`; bytes after it are ignored.
pub fn decode(input: &[u8]) -> (r: Result<Value, DecodeError>)
    ensures
        match r {
            Ok(v) => (match spec_read(input@, 0) {
                Ok((bv, p)) => bv == v.bval(),
                Err(_) => false,
            }) && bval_wf(v.bval()),
            Err(e) => spec_read(input@, 0) == Err::<(BValue, int), DecodeError>(e),
        },
{
    match read(input, 0) {
        Ok((v, _)) => Ok(v),
        Err(e) => Err(e),
    }
}

} // verus!
