//! The encoder: writes the canonical byte serialization of a value, a pure
//! function of the value's logical content.

use vstd::prelude::*;

use crate::value::BValue;
use crate::value::Dict;
use crate::value::Value;
use crate::value::bvals_of;
use crate::value::entry_models_of;
use crate::value::lemma_bvals_of_push;
use crate::value::lemma_entry_models_of_push;

verus! {

/// The decimal digits of `n`, most significant first, with no sign and no
/// leading zeros; zero is the single digit `0`.
pub open spec fn dec_digits(n: nat) -> Seq<u8>
    decreases n,
{
    if n < 10 {
        seq![(48 + n) as u8]
    } else {
        dec_digits(n / 10).push((48 + n % 10) as u8)
    }
}

/// The decimal form of `i`: a `-` prefix for a negative value, no leading
/// zeros, and `0` for zero.
pub open spec fn int_encoding(i: int) -> Seq<u8> {
    if i < 0 {
        seq![45u8] + dec_digits((-i) as nat)
    } else {
        dec_digits(i as nat)
    }
}

/// The encoding of a byte string: its decimal length, `:`, then its bytes.
pub open spec fn string_encoding(s: Seq<u8>) -> Seq<u8> {
    dec_digits(s.len()) + seq![58u8] + s
}

/// The canonical encoding of a model value. Dictionary entries are written
/// in stored order, which is ascending key order for any well-formed value.
pub open spec fn encoded(v: BValue) -> Seq<u8>
    decreases v,
{
    match v {
        BValue::Str(s) => string_encoding(s),
        BValue::Int(i) => seq![105u8] + int_encoding(i) + seq![101u8],
        BValue::List(elems) => seq![108u8] + encoded_list(elems) + seq![101u8],
        BValue::Dict(entries) => seq![100u8] + encoded_entries(entries) + seq![101u8],
    }
}

/// The concatenated encodings of list elements, in order.
pub open spec fn encoded_list(elems: Seq<BValue>) -> Seq<u8>
    decreases elems,
{
    if elems.len() == 0 {
        Seq::empty()
    } else {
        encoded(elems[0]) + encoded_list(elems.drop_first())
    }
}

/// The concatenated encodings of dictionary entries, each a key string then
/// a value, in stored order.
pub open spec fn encoded_entries(entries: Seq<(Seq<u8>, BValue)>) -> Seq<u8>
    decreases entries,
{
    if entries.len() == 0 {
        Seq::empty()
    } else {
        string_encoding(entries[0].0) + encoded(entries[0].1) + encoded_entries(
            entries.drop_first(),
        )
    }
}

/// One more element extends the encoding of a list at its end.
pub proof fn lemma_encoded_list_push(elems: Seq<BValue>, x: BValue)
    ensures
        encoded_list(elems.push(x)) == encoded_list(elems) + encoded(x),
    decreases elems.len(),
{
    reveal_with_fuel(encoded_list, 3);
    if elems.len() == 0 {
        assert(elems.push(x).drop_first() =~= Seq::<BValue>::empty());
        assert(encoded_list(elems.push(x)) =~= encoded_list(elems) + encoded(x));
    } else {
        assert(elems.push(x).drop_first() =~= elems.drop_first().push(x));
        lemma_encoded_list_push(elems.drop_first(), x);
        assert(encoded_list(elems.push(x)) =~= encoded_list(elems) + encoded(x));
    }
}

/// One more entry extends the encoding of a dictionary at its end.
pub proof fn lemma_encoded_entries_push(entries: Seq<(Seq<u8>, BValue)>, p: (Seq<u8>, BValue))
    ensures
        encoded_entries(entries.push(p)) == encoded_entries(entries) + string_encoding(p.0)
            + encoded(p.1),
    decreases entries.len(),
{
    reveal_with_fuel(encoded_entries, 3);
    if entries.len() == 0 {
        assert(entries.push(p).drop_first() =~= Seq::<(Seq<u8>, BValue)>::empty());
        assert(encoded_entries(entries.push(p)) =~= encoded_entries(entries) + string_encoding(p.0)
            + encoded(p.1));
    } else {
        assert(entries.push(p).drop_first() =~= entries.drop_first().push(p));
        lemma_encoded_entries_push(entries.drop_first(), p);
        assert(encoded_entries(entries.push(p)) =~= encoded_entries(entries) + string_encoding(p.0)
            + encoded(p.1));
    }
}

/// Appends the decimal digits of `n`, most significant first.
fn push_digits(n: u64, out: &mut Vec<u8>)
    ensures
        final(out)@ == old(out)@ + dec_digits(n as nat),
    decreases n,
{
    if n < 10 {
        out.push(48 + n as u8);
        proof {
            assert(final(out)@ =~= old(out)@ + dec_digits(n as nat));
        }
    } else {
        push_digits(n / 10, out);
        out.push(48 + (n % 10) as u8);
        proof {
            assert((n / 10) as nat == (n as nat) / 10);
            assert((n % 10) as nat == (n as nat) % 10);
            assert(final(out)@ =~= old(out)@ + dec_digits(n as nat));
        }
    }
}

/// Appends the encoding of a byte string: decimal length, `:`, raw bytes.
fn write_string(s: &Vec<u8>, out: &mut Vec<u8>)
    ensures
        final(out)@ == old(out)@ + string_encoding(s@),
{
    let n = s.len();
    push_digits(n as u64, out);
    out.push(58u8);
    out.extend_from_slice(s.as_slice());
    proof {
        assert((n as u64) as nat == s@.len());
        assert(final(out)@ =~= old(out)@ + string_encoding(s@));
    }
}

/// Appends the encoding of an integer: `i`, its decimal form, `e`.
fn write_integer(i: i64, out: &mut Vec<u8>)
    ensures
        final(out)@ == old(out)@ + seq![105u8] + int_encoding(i as int) + seq![101u8],
{
    out.push(105u8);
    if i < 0 {
        out.push(45u8);
        let mag: u64 = ((-(i + 1)) as u64) + 1;
        proof {
            assert(mag as nat == (-(i as int)) as nat);
        }
        push_digits(mag, out);
    } else {
        push_digits(i as u64, out);
        proof {
            assert((i as u64) as nat == (i as int) as nat);
        }
    }
    out.push(101u8);
    proof {
        assert(final(out)@ =~= old(out)@ + seq![105u8] + int_encoding(i as int) + seq![101u8]);
    }
}

/// Appends the encoding of a list: `l`, each element in order, `e`.
fn write_list(l: &Vec<Value>, out: &mut Vec<u8>)
    ensures
        final(out)@ == old(out)@ + seq![108u8] + encoded_list(bvals_of(l@)) + seq![101u8],
    decreases *l,
{
    out.push(108u8);
    let mut i: usize = 0;
    while i < l.len()
        invariant
            i <= l@.len(),
            out@ == old(out)@ + seq![108u8] + encoded_list(bvals_of(l@.subrange(0, i as int))),
        decreases l@.len() - i,
    {
        write(&l[i], out);
        proof {
            let pre = l@.subrange(0, i as int);
            assert(l@.subrange(0, i as int + 1) =~= pre.push(l@[i as int]));
            lemma_bvals_of_push(pre, l@[i as int]);
            lemma_encoded_list_push(bvals_of(pre), l@[i as int].bval());
        }
        i = i + 1;
    }
    out.push(101u8);
    proof {
        assert(l@.subrange(0, l@.len() as int) =~= l@);
        assert(final(out)@ =~= old(out)@ + seq![108u8] + encoded_list(bvals_of(l@)) + seq![
            101u8,
        ]);
    }
}

/// Appends the encoding of a dictionary: `d`, each entry as a key string
/// then a value in stored order, `e`.
fn write_dictionary(d: &Dict, out: &mut Vec<u8>)
    ensures
        final(out)@ == old(out)@ + seq![100u8] + encoded_entries(d.model()) + seq![101u8],
    decreases *d,
{
    out.push(100u8);
    let mut i: usize = 0;
    while i < d.entries.len()
        invariant
            i <= d.entries@.len(),
            out@ == old(out)@ + seq![100u8] + encoded_entries(
                entry_models_of(d.entries@.subrange(0, i as int)),
            ),
        decreases d.entries@.len() - i,
    {
        let e = &d.entries[i];
        write_string(&e.0, out);
        write(&e.1, out);
        proof {
            let pre = d.entries@.subrange(0, i as int);
            assert(d.entries@.subrange(0, i as int + 1) =~= pre.push(d.entries@[i as int]));
            lemma_entry_models_of_push(pre, d.entries@[i as int]);
            lemma_encoded_entries_push(
                entry_models_of(pre),
                (d.entries@[i as int].0@, d.entries@[i as int].1.bval()),
            );
        }
        i = i + 1;
    }
    out.push(101u8);
    proof {
        assert(d.entries@.subrange(0, d.entries@.len() as int) =~= d.entries@);
        assert(final(out)@ =~= old(out)@ + seq![100u8] + encoded_entries(d.model()) + seq![
            101u8,
        ]);
    }
}

/// Appends the canonical encoding of `v` to `out`.
pub fn write(v: &Value, out: &mut Vec<u8>)
    ensures
        final(out)@ == old(out)@ + encoded(v.bval()),
    decreases *v,
{
    match v {
        Value::String(s) => write_string(s, out),
        Value::Integer(i) => write_integer(*i, out),
        Value::List(l) => write_list(l, out),
        Value::Dictionary(d) => write_dictionary(d, out),
    }
}

/// The canonical encoding of `v` as a fresh byte vector: the same value
/// always encodes to the same bytes.
pub fn encode(v: &Value) -> (r: Vec<u8>)
    ensures
        r@ == encoded(v.bval()),
{
    let mut res: Vec<u8> = Vec::new();
    write(v, &mut res);
    proof {
        assert(Seq::<u8>::empty() + encoded(v.bval()) =~= encoded(v.bval()));
    }
    res
}

} // verus!
