//! Laws relating the decoder and the encoder: trailing bytes do not disturb
//! a decode, dictionaries do not depend on insertion order, and decoding a
//! canonical encoding gives the encoded value back.

use vstd::prelude::*;

use crate::decoder::DecodeError;
use crate::decoder::is_digit;
use crate::decoder::spec_read;
use crate::decoder::spec_read_dict;
use crate::decoder::spec_read_int_digits;
use crate::decoder::spec_read_integer;
use crate::decoder::spec_read_list;
use crate::decoder::spec_read_str_len;
use crate::decoder::spec_read_string;
use crate::decoder::lemma_read_ok;
use crate::decoder::lemma_list_ok;
use crate::decoder::lemma_dict_ok;
use crate::decoder::lemma_string_ok;
use crate::decoder::lemma_str_len_ok;
use crate::value::BValue;
use crate::value::lex_lt;
use crate::value::lemma_lex_trichotomy;
use crate::value::lemma_lex_asym;
use crate::value::lemma_lex_trans;
use crate::value::lemma_lex_irrefl;
use crate::value::spec_dict_insert;
use crate::value::spec_dict_from_pairs;
use crate::value::bval_wf;
use crate::value::elems_wf;
use crate::value::entries_wf;
use crate::value::entries_sorted;
use crate::value::lemma_dict_insert_at;
use crate::value::lemma_entries_wf_index;
use crate::encoder::encoded;
use crate::encoder::encoded_list;
use crate::encoder::encoded_entries;
use crate::encoder::dec_digits;
use crate::encoder::int_encoding;
use crate::encoder::string_encoding;
use crate::decoder::wrap_mul_add;

verus! {

/// A digit run that parses in `input` parses the same after `input` grows.
proof fn lemma_int_digits_ext(input: Seq<u8>, ext: Seq<u8>, pos: int, acc: i64, neg: bool)
    ensures
        spec_read_int_digits(input, pos, acc, neg) matches Ok(np) ==> spec_read_int_digits(
            input + ext,
            pos,
            acc,
            neg,
        ) == Ok::<(i64, int), DecodeError>(np),
    decreases input.len() - pos,
{
    if 0 <= pos < input.len() {
        assert((input + ext)[pos] == input[pos]);
        if input[pos] != 101u8 && is_digit(input[pos]) {
            lemma_int_digits_ext(
                input,
                ext,
                pos + 1,
                wrap_mul_add(acc, input[pos]),
                neg,
            );
        }
    }
}

/// An integer body that parses in `input` parses the same after `input`
/// grows.
proof fn lemma_integer_ext(input: Seq<u8>, ext: Seq<u8>, pos: int)
    ensures
        spec_read_integer(input, pos) matches Ok(np) ==> spec_read_integer(input + ext, pos)
            == Ok::<(i64, int), DecodeError>(np),
{
    if 0 <= pos < input.len() {
        assert((input + ext)[pos] == input[pos]);
        let neg = input[pos] == 45u8;
        let dpos = if neg {
            pos + 1
        } else {
            pos
        };
        if dpos < input.len() {
            assert((input + ext)[dpos] == input[dpos]);
            lemma_int_digits_ext(input, ext, dpos, 0, neg);
        }
    }
}

/// A length run that parses in `input` parses the same after `input` grows.
proof fn lemma_str_len_ext(input: Seq<u8>, ext: Seq<u8>, pos: int, acc: usize)
    ensures
        spec_read_str_len(input, pos, acc) matches Ok(np) ==> spec_read_str_len(
            input + ext,
            pos,
            acc,
        ) == Ok::<(usize, int), DecodeError>(np),
    decreases input.len() - pos,
{
    if 0 <= pos < input.len() {
        assert((input + ext)[pos] == input[pos]);
        if input[pos] != 58u8 && is_digit(input[pos]) && acc * 10 + (input[pos] - 48)
            <= usize::MAX {
            lemma_str_len_ext(input, ext, pos + 1, (acc * 10 + (input[pos] - 48)) as usize);
        }
    }
}

/// A string that parses in `input` parses the same after `input` grows.
proof fn lemma_string_ext(input: Seq<u8>, ext: Seq<u8>, pos: int)
    ensures
        spec_read_string(input, pos) matches Ok(sp) ==> spec_read_string(input + ext, pos) == Ok::<
            (Seq<u8>, int),
            DecodeError,
        >(sp),
{
    if 0 <= pos < input.len() && is_digit(input[pos]) {
        assert((input + ext)[pos] == input[pos]);
        lemma_str_len_ext(input, ext, pos + 1, (input[pos] - 48) as usize);
        lemma_str_len_ok(input, pos + 1, (input[pos] - 48) as usize);
        match spec_read_str_len(input, pos + 1, (input[pos] - 48) as usize) {
            Ok((slen, p)) => {
                if p + slen <= input.len() {
                    assert((input + ext).subrange(p, p + slen) =~= input.subrange(p, p + slen));
                }
            },
            Err(_) => (),
        }
    }
}

/// A value that parses in `input` parses the same after `input` grows: the
/// parse of one value never looks past its own last byte.
pub proof fn lemma_read_ext(input: Seq<u8>, ext: Seq<u8>, pos: int)
    ensures
        spec_read(input, pos) matches Ok(vp) ==> spec_read(input + ext, pos) == Ok::<
            (BValue, int),
            DecodeError,
        >(vp),
    decreases input.len() - pos, 2int,
{
    if 0 <= pos < input.len() {
        assert((input + ext)[pos] == input[pos]);
        let b = input[pos];
        if b == 105u8 {
            lemma_integer_ext(input, ext, pos + 1);
        } else if b == 108u8 {
            lemma_list_ext(input, ext, pos + 1);
        } else if b == 100u8 {
            lemma_dict_ext(input, ext, pos + 1);
        } else if is_digit(b) {
            lemma_string_ext(input, ext, pos);
        }
    }
}

/// List elements that parse in `input` parse the same after `input` grows.
proof fn lemma_list_ext(input: Seq<u8>, ext: Seq<u8>, pos: int)
    ensures
        spec_read_list(input, pos) matches Ok(lp) ==> spec_read_list(input + ext, pos) == Ok::<
            (Seq<BValue>, int),
            DecodeError,
        >(lp),
    decreases input.len() - pos, 3int,
{
    if 0 <= pos < input.len() && input[pos] != 101u8 {
        assert((input + ext)[pos] == input[pos]);
        lemma_read_ok(input, pos);
        lemma_read_ext(input, ext, pos);
        match spec_read(input, pos) {
            Ok((v, p)) => {
                lemma_list_ok(input, p);
                lemma_list_ext(input, ext, p);
            },
            Err(_) => (),
        }
    } else if 0 <= pos < input.len() {
        assert((input + ext)[pos] == input[pos]);
    }
}

/// Dictionary entries that parse in `input` parse the same after `input`
/// grows.
proof fn lemma_dict_ext(input: Seq<u8>, ext: Seq<u8>, pos: int)
    ensures
        spec_read_dict(input, pos) matches Ok(pp) ==> spec_read_dict(input + ext, pos) == Ok::<
            (Seq<(Seq<u8>, BValue)>, int),
            DecodeError,
        >(pp),
    decreases input.len() - pos, 3int,
{
    if 0 <= pos < input.len() && input[pos] != 101u8 {
        assert((input + ext)[pos] == input[pos]);
        lemma_string_ok(input, pos);
        lemma_string_ext(input, ext, pos);
        match spec_read_string(input, pos) {
            Ok((k, p1)) => {
                lemma_read_ok(input, p1);
                lemma_read_ext(input, ext, p1);
                match spec_read(input, p1) {
                    Ok((v, p2)) => {
                        lemma_dict_ok(input, p2);
                        lemma_dict_ext(input, ext, p2);
                    },
                    Err(_) => (),
                }
            },
            Err(_) => (),
        }
    } else if 0 <= pos < input.len() {
        assert((input + ext)[pos] == input[pos]);
    }
}

/// Law: the decoder is prefix-tolerant. When a buffer begins with one
/// complete value, appending any bytes after it changes neither the decoded
/// value nor the position at which it ends.
pub proof fn lemma_decode_prefix_tolerant(input: Seq<u8>, ext: Seq<u8>)
    ensures
        spec_read(input, 0) matches Ok(vp) ==> spec_read(input + ext, 0) == Ok::<
            (BValue, int),
            DecodeError,
        >(vp),
{
    lemma_read_ext(input, ext, 0);
}

/// Law: inserting two pairs with distinct keys gives the same dictionary in
/// either order, so a dictionary built from a set of pairs with unique keys
/// does not depend on the order the pairs were inserted.
pub proof fn lemma_insert_commutes(
    entries: Seq<(Seq<u8>, BValue)>,
    k1: Seq<u8>,
    v1: BValue,
    k2: Seq<u8>,
    v2: BValue,
)
    requires
        k1 != k2,
    ensures
        spec_dict_insert(spec_dict_insert(entries, k1, v1), k2, v2) == spec_dict_insert(
            spec_dict_insert(entries, k2, v2),
            k1,
            v1,
        ),
    decreases entries.len(),
{
    lemma_lex_trichotomy(k1, k2);
    lemma_lex_asym(k1, k2);
    let a = spec_dict_insert(entries, k1, v1);
    let b = spec_dict_insert(entries, k2, v2);
    if entries.len() == 0 {
        assert(a =~= seq![(k1, v1)]);
        assert(b =~= seq![(k2, v2)]);
        assert(a.drop_first() =~= Seq::<(Seq<u8>, BValue)>::empty());
        assert(b.drop_first() =~= Seq::<(Seq<u8>, BValue)>::empty());
        if lex_lt(k1, k2) {
            assert(spec_dict_insert(a.drop_first(), k2, v2) =~= seq![(k2, v2)]);
            assert(spec_dict_insert(a, k2, v2) =~= seq![(k1, v1), (k2, v2)]);
            assert(spec_dict_insert(b, k1, v1) =~= seq![(k1, v1), (k2, v2)]);
        } else {
            assert(spec_dict_insert(b.drop_first(), k1, v1) =~= seq![(k1, v1)]);
            assert(spec_dict_insert(a, k2, v2) =~= seq![(k2, v2), (k1, v1)]);
            assert(spec_dict_insert(b, k1, v1) =~= seq![(k2, v2), (k1, v1)]);
        }
    } else {
        let e0 = entries[0];
        let rest = entries.drop_first();
        lemma_lex_trichotomy(k1, e0.0);
        lemma_lex_asym(k1, e0.0);
        lemma_lex_trichotomy(k2, e0.0);
        lemma_lex_asym(k2, e0.0);
        if lex_lt(e0.0, k1) && lex_lt(e0.0, k2) {
            lemma_insert_commutes(rest, k1, v1, k2, v2);
            assert(a.drop_first() =~= spec_dict_insert(rest, k1, v1));
            assert(b.drop_first() =~= spec_dict_insert(rest, k2, v2));
            assert(spec_dict_insert(a, k2, v2) =~= seq![e0] + spec_dict_insert(
                spec_dict_insert(rest, k1, v1),
                k2,
                v2,
            ));
            assert(spec_dict_insert(b, k1, v1) =~= seq![e0] + spec_dict_insert(
                spec_dict_insert(rest, k2, v2),
                k1,
                v1,
            ));
        } else if lex_lt(k1, k2) {
            lemma_one_low_one_high(entries, k1, v1, k2, v2);
        } else {
            lemma_one_low_one_high(entries, k2, v2, k1, v1);
        }
    }
}

/// Helper for the commutation law: when the lower key lands at or before the
/// first entry, both insertion orders give the lower pair, then the first
/// insert of the higher pair.
proof fn lemma_one_low_one_high(
    entries: Seq<(Seq<u8>, BValue)>,
    kl: Seq<u8>,
    vl: BValue,
    kh: Seq<u8>,
    vh: BValue,
)
    requires
        entries.len() > 0,
        lex_lt(kl, kh),
        !(lex_lt(entries[0].0, kl) && lex_lt(entries[0].0, kh)),
    ensures
        spec_dict_insert(spec_dict_insert(entries, kl, vl), kh, vh) == spec_dict_insert(
            spec_dict_insert(entries, kh, vh),
            kl,
            vl,
        ),
{
    let e0 = entries[0];
    let rest = entries.drop_first();
    lemma_lex_asym(kl, kh);
    lemma_lex_trichotomy(kl, e0.0);
    lemma_lex_asym(kl, e0.0);
    lemma_lex_trichotomy(kh, e0.0);
    lemma_lex_asym(kh, e0.0);
    // The lower key cannot go past the first entry: e0.0 < kl would put
    // e0.0 below kh as well, which the caller has excluded.
    if lex_lt(e0.0, kl) {
        lemma_lex_trans(e0.0, kl, kh);
        assert(false);
    }
    let low = spec_dict_insert(entries, kl, vl);
    let high = spec_dict_insert(entries, kh, vh);
    if kl == e0.0 {
        // Replacing the first entry: the higher key then steps over it.
        assert(low =~= seq![(kl, vl)] + rest);
        assert(low[0] == (kl, vl));
        assert(low.drop_first() =~= rest);
        assert(spec_dict_insert(low, kh, vh) =~= seq![(kl, vl)] + spec_dict_insert(rest, kh, vh));
        if lex_lt(kh, e0.0) {
            lemma_lex_trans(kl, kh, e0.0);
            assert(false);
        }
        if kh == e0.0 {
            lemma_lex_irrefl(kl);
            assert(false);
        }
        assert(high =~= seq![e0] + spec_dict_insert(rest, kh, vh));
        assert(high[0] == e0);
        assert(high.drop_first() =~= spec_dict_insert(rest, kh, vh));
        assert(spec_dict_insert(high, kl, vl) =~= seq![(kl, vl)] + spec_dict_insert(
            rest,
            kh,
            vh,
        ));
    } else {
        // The lower pair lands in front; the higher key then steps over it.
        assert(lex_lt(kl, e0.0));
        assert(low =~= seq![(kl, vl)] + entries);
        assert(low[0] == (kl, vl));
        assert(low.drop_first() =~= entries);
        assert(spec_dict_insert(low, kh, vh) =~= seq![(kl, vl)] + spec_dict_insert(
            entries,
            kh,
            vh,
        ));
        if lex_lt(kh, e0.0) {
            assert(high =~= seq![(kh, vh)] + entries);
            assert(high[0] == (kh, vh));
            assert(spec_dict_insert(high, kl, vl) =~= seq![(kl, vl)] + high);
        } else if kh == e0.0 {
            assert(high =~= seq![(kh, vh)] + rest);
            assert(high[0] == (kh, vh));
            assert(spec_dict_insert(high, kl, vl) =~= seq![(kl, vl)] + high);
        } else {
            assert(high =~= seq![e0] + spec_dict_insert(rest, kh, vh));
            assert(high[0] == e0);
            assert(spec_dict_insert(high, kl, vl) =~= seq![(kl, vl)] + high);
        }
    }
}

/// Law: canonical dictionary ordering. Two dictionaries built from the same
/// pairs with distinct keys, inserted in either order, encode to identical
/// bytes; together with `lemma_dict_from_pairs_wf` and
/// `lemma_dict_insert_props`, which put every built dictionary's keys in
/// strictly ascending byte order, this is the canonicalization rule.
pub proof fn lemma_canonical_two_orders(
    entries: Seq<(Seq<u8>, BValue)>,
    k1: Seq<u8>,
    v1: BValue,
    k2: Seq<u8>,
    v2: BValue,
)
    requires
        k1 != k2,
    ensures
        encoded(BValue::Dict(spec_dict_insert(spec_dict_insert(entries, k1, v1), k2, v2)))
            == encoded(BValue::Dict(spec_dict_insert(spec_dict_insert(entries, k2, v2), k1, v1))),
{
    lemma_insert_commutes(entries, k1, v1, k2, v2);
}

/// When all keys are distinct, the pair at any position may be folded last
/// without changing the dictionary the pairs build.
proof fn lemma_from_pairs_remove(ps: Seq<(Seq<u8>, BValue)>, k: int)
    requires
        0 <= k < ps.len(),
        forall|i: int, j: int| 0 <= i < j < ps.len() ==> (#[trigger] ps[i]).0 != (#[trigger] ps[j]).0,
    ensures
        spec_dict_from_pairs(ps) == spec_dict_insert(
            spec_dict_from_pairs(ps.remove(k)),
            ps[k].0,
            ps[k].1,
        ),
    decreases ps.len(),
{
    ps.remove_ensures(k);
    if k == ps.len() - 1 {
        assert(ps.remove(k) =~= ps.drop_last());
    } else {
        let front = ps.drop_last();
        let last = ps.last();
        assert(forall|i: int| 0 <= i < front.len() ==> #[trigger] front[i] == ps[i]);
        lemma_from_pairs_remove(front, k);
        lemma_insert_commutes(
            spec_dict_from_pairs(front.remove(k)),
            front[k].0,
            front[k].1,
            last.0,
            last.1,
        );
        front.remove_ensures(k);
        assert(ps.remove(k).drop_last() =~= front.remove(k));
        assert(ps.remove(k).last() == last);
        assert(spec_dict_from_pairs(ps.remove(k)) == spec_dict_insert(
            spec_dict_from_pairs(front.remove(k)),
            last.0,
            last.1,
        ));
    }
}

/// Law: a dictionary built from pairs with distinct keys does not depend on
/// the order the pairs arrive: folding any rearrangement of the same pairs
/// builds the same dictionary, so both encode to identical bytes.
pub proof fn lemma_from_pairs_permutation(
    ps1: Seq<(Seq<u8>, BValue)>,
    ps2: Seq<(Seq<u8>, BValue)>,
)
    requires
        ps1.to_multiset() == ps2.to_multiset(),
        forall|i: int, j: int|
            0 <= i < j < ps1.len() ==> (#[trigger] ps1[i]).0 != (#[trigger] ps1[j]).0,
    ensures
        spec_dict_from_pairs(ps1) == spec_dict_from_pairs(ps2),
        encoded(BValue::Dict(spec_dict_from_pairs(ps1))) == encoded(
            BValue::Dict(spec_dict_from_pairs(ps2)),
        ),
    decreases ps1.len(),
{
    ps1.to_multiset_ensures();
    ps2.to_multiset_ensures();
    assert(ps1.len() == ps2.len());
    if ps1.len() > 0 {
        let p = ps2.last();
        assert(ps2.contains(p)) by {
            assert(ps2[ps2.len() - 1] == p);
        }
        assert(ps1.to_multiset().count(p) > 0);
        assert(ps1.contains(p));
        let k = choose|k: int| 0 <= k < ps1.len() && ps1[k] == p;
        let r1 = ps1.remove(k);
        let r2 = ps2.drop_last();
        ps1.remove_ensures(k);
        assert(r2 =~= ps2.remove(ps2.len() - 1));
        assert(r1.to_multiset() == r2.to_multiset()) by {
            assert(r1.to_multiset() =~= ps1.to_multiset().remove(p));
            assert(ps2.remove(ps2.len() - 1).to_multiset() =~= ps2.to_multiset().remove(p));
        }
        assert(forall|i: int, j: int|
            0 <= i < j < r1.len() ==> (#[trigger] r1[i]).0 != (#[trigger] r1[j]).0) by {
            assert(forall|i: int|
                0 <= i < r1.len() ==> #[trigger] r1[i] == (if i < k {
                    ps1[i]
                } else {
                    ps1[i + 1]
                }));
        }
        lemma_from_pairs_permutation(r1, r2);
        lemma_from_pairs_remove(ps1, k);
    }
}

/// The numeric value of a digit run folded left to right onto `acc`.
pub open spec fn digits_acc_val(acc: nat, ds: Seq<u8>) -> nat
    decreases ds.len(),
{
    if ds.len() == 0 {
        acc
    } else {
        digits_acc_val(acc * 10 + (ds[0] - 48) as nat, ds.drop_first())
    }
}

/// Folding digits never shrinks the accumulator; one digit or more scales it
/// at least tenfold.
proof fn lemma_digits_acc_val_lower(acc: nat, ds: Seq<u8>)
    requires
        forall|i: int| 0 <= i < ds.len() ==> is_digit(#[trigger] ds[i]),
    ensures
        digits_acc_val(acc, ds) >= acc,
        ds.len() > 0 ==> digits_acc_val(acc, ds) >= acc * 10,
    decreases ds.len(),
{
    if ds.len() > 0 {
        let rest = ds.drop_first();
        assert(forall|i: int| 0 <= i < rest.len() ==> is_digit(#[trigger] rest[i])) by {
            assert(forall|i: int| 0 <= i < rest.len() ==> rest[i] == ds[i + 1]);
        }
        lemma_digits_acc_val_lower(acc * 10 + (ds[0] - 48) as nat, rest);
    }
}

/// One more digit at the end multiplies the run's value by ten and adds it.
proof fn lemma_digits_acc_val_push(acc: nat, ds: Seq<u8>, d: u8)
    requires
        48 <= d,
    ensures
        digits_acc_val(acc, ds.push(d)) == digits_acc_val(acc, ds) * 10 + (d - 48) as nat,
    decreases ds.len(),
{
    reveal_with_fuel(digits_acc_val, 3);
    if ds.len() == 0 {
        assert(ds.push(d)[0] == d);
        assert(ds.push(d).drop_first() =~= Seq::<u8>::empty());
    } else {
        assert(ds.push(d)[0] == ds[0]);
        assert(ds.push(d).drop_first() =~= ds.drop_first().push(d));
        lemma_digits_acc_val_push(acc * 10 + (ds[0] - 48) as nat, ds.drop_first(), d);
        assert(digits_acc_val(acc, ds.push(d)) == digits_acc_val(
            acc * 10 + (ds[0] - 48) as nat,
            ds.drop_first().push(d),
        ));
    }
}

/// The decimal digits of `n` are digits, at least one, and fold back to `n`.
proof fn lemma_dec_digits_props(n: nat)
    ensures
        dec_digits(n).len() >= 1,
        forall|i: int| 0 <= i < dec_digits(n).len() ==> is_digit(#[trigger] dec_digits(n)[i]),
        digits_acc_val(0, dec_digits(n)) == n,
    decreases n,
{
    if n < 10 {
        assert(dec_digits(n).drop_first() =~= Seq::<u8>::empty());
        assert(digits_acc_val(0, dec_digits(n)) == digits_acc_val(0 * 10 + n, Seq::empty()));
    } else {
        lemma_dec_digits_props(n / 10);
        lemma_digits_acc_val_push(0, dec_digits(n / 10), (48 + n % 10) as u8);
        assert((n / 10) * 10 + n % 10 == n) by {
            vstd::arithmetic::div_mod::lemma_fundamental_div_mod(n as int, 10);
        }
        assert(forall|i: int|
            0 <= i < dec_digits(n).len() ==> is_digit(#[trigger] dec_digits(n)[i])) by {
            assert(forall|i: int|
                0 <= i < dec_digits(n / 10).len() ==> dec_digits(n)[i] == dec_digits(n / 10)[i]);
            assert(dec_digits(n)[dec_digits(n).len() - 1] == (48 + n % 10) as u8);
        }
    }
}

/// A digit run standing in the buffer before a `:` parses to its value, as
/// long as that value fits `usize`, so the accumulation never wraps.
proof fn lemma_read_len_digits(input: Seq<u8>, pos: int, acc: usize, ds: Seq<u8>, total: nat)
    requires
        0 <= pos,
        pos + ds.len() + 1 <= input.len(),
        forall|i: int| 0 <= i < ds.len() ==> is_digit(#[trigger] ds[i]),
        forall|i: int| 0 <= i < ds.len() ==> input[pos + i] == #[trigger] ds[i],
        input[pos + ds.len()] == 58u8,
        digits_acc_val(acc as nat, ds) == total,
        total <= usize::MAX,
    ensures
        spec_read_str_len(input, pos, acc) == Ok::<(usize, int), DecodeError>(
            (total as usize, pos + ds.len() + 1),
        ),
    decreases ds.len(),
{
    if ds.len() == 0 {
    } else {
        let d = ds[0];
        assert(input[pos] == d);
        let rest = ds.drop_first();
        assert(forall|i: int| 0 <= i < rest.len() ==> is_digit(#[trigger] rest[i]) && input[pos + 1
            + i] == rest[i]) by {
            assert(forall|i: int| 0 <= i < rest.len() ==> rest[i] == ds[i + 1]);
        }
        let acc2n: nat = (acc as nat) * 10 + (d - 48) as nat;
        lemma_digits_acc_val_lower(acc2n, rest);
        assert(acc2n <= total);
        lemma_read_len_digits(input, pos + 1, acc2n as usize, rest, total);
    }
}

/// A whole string encoding standing in the buffer parses back to its bytes.
proof fn lemma_string_reads_back(s: Seq<u8>, input: Seq<u8>, pos: int)
    requires
        s.len() <= usize::MAX,
        0 <= pos,
        pos + string_encoding(s).len() <= input.len(),
        forall|j: int|
            0 <= j < string_encoding(s).len() ==> input[pos + j] == #[trigger] string_encoding(
                s,
            )[j],
    ensures
        spec_read_string(input, pos) == Ok::<(Seq<u8>, int), DecodeError>(
            (s, pos + string_encoding(s).len()),
        ),
{
    let dd = dec_digits(s.len());
    let dl = dd.len() as int;
    let el = string_encoding(s).len() as int;
    lemma_dec_digits_props(s.len());
    assert(forall|i: int| 0 <= i < dl ==> string_encoding(s)[i] == #[trigger] dd[i]);
    assert(string_encoding(s)[dl] == 58u8);
    assert(forall|j: int| 0 <= j < s.len() ==> string_encoding(s)[dl + 1 + j] == #[trigger] s[j]);
    assert(is_digit(input[pos]));
    let rest = dd.drop_first();
    assert(forall|i: int| 0 <= i < rest.len() ==> is_digit(#[trigger] rest[i]) && input[pos + 1 + i]
        == rest[i]) by {
        assert(forall|i: int| 0 <= i < rest.len() ==> rest[i] == dd[i + 1]);
    }
    assert(digits_acc_val((input[pos] - 48) as nat, rest) == s.len()) by {
        assert(input[pos] == dd[0]);
        assert(digits_acc_val(0, dd) == digits_acc_val(0 * 10 + (dd[0] - 48) as nat, rest));
    }
    lemma_read_len_digits(input, pos + 1, (input[pos] - 48) as usize, rest, s.len());
    assert(input.subrange(pos + dl + 1, pos + el) =~= s);
}

/// The signed value denoted by a magnitude and a sign.
pub open spec fn signed_of(neg: bool, mag: nat) -> int {
    if neg {
        -(mag as int)
    } else {
        mag as int
    }
}

/// A digit run standing in the buffer before an `e` parses to its value, as
/// long as the magnitude stays within the 64-bit signed wrap point, so the
/// wrapping accumulation agrees with the exact one.
proof fn lemma_read_int_digits_back(
    input: Seq<u8>,
    pos: int,
    acc: i64,
    neg: bool,
    ds: Seq<u8>,
    ideal: nat,
    total: nat,
)
    requires
        0 <= pos,
        pos + ds.len() + 1 <= input.len(),
        forall|i: int| 0 <= i < ds.len() ==> is_digit(#[trigger] ds[i]),
        forall|i: int| 0 <= i < ds.len() ==> input[pos + i] == #[trigger] ds[i],
        input[pos + ds.len()] == 101u8,
        digits_acc_val(ideal, ds) == total,
        total <= 0x8000_0000_0000_0000,
        total == 0x8000_0000_0000_0000 ==> neg,
        ideal <= total,
        acc == vstd::wrapping::i64_specs::signed_crop(ideal as int),
    ensures
        spec_read_int_digits(input, pos, acc, neg) == Ok::<(i64, int), DecodeError>(
            (signed_of(neg, total) as i64, pos + ds.len() + 1),
        ),
    decreases ds.len(),
{
    let range: int = 0x1_0000_0000_0000_0000;
    if ds.len() == 0 {
        assert(ideal == total);
        vstd::arithmetic::div_mod::lemma_small_mod(ideal, range as nat);
        if total < 0x8000_0000_0000_0000 {
            assert(acc == total as i64);
        } else {
            assert(acc == i64::MIN);
        }
    } else {
        let d = ds[0];
        assert(input[pos] == d);
        let rest = ds.drop_first();
        assert(forall|i: int| 0 <= i < rest.len() ==> is_digit(#[trigger] rest[i]) && input[pos + 1
            + i] == rest[i]) by {
            assert(forall|i: int| 0 <= i < rest.len() ==> rest[i] == ds[i + 1]);
        }
        let ideal2: nat = ideal * 10 + (d - 48) as nat;
        lemma_digits_acc_val_lower(ideal2, rest);
        assert(ideal2 <= total);
        assert(ideal < 0x8000_0000_0000_0000);
        vstd::arithmetic::div_mod::lemma_small_mod(ideal, range as nat);
        assert(acc as int == ideal);
        assert(wrap_mul_add(acc, d) == vstd::wrapping::i64_specs::signed_crop(ideal2 as int)) by {
            vstd::arithmetic::div_mod::lemma_small_mod((ideal * 10) as nat, range as nat);
            vstd::arithmetic::div_mod::lemma_small_mod(ideal2, range as nat);
        }
        lemma_read_int_digits_back(
            input,
            pos + 1,
            wrap_mul_add(acc, d),
            neg,
            rest,
            ideal2,
            total,
        );
    }
}

/// A whole integer encoding standing in the buffer, terminator included,
/// parses back to its value.
proof fn lemma_integer_reads_back(i: int, input: Seq<u8>, pos: int)
    requires
        i64::MIN <= i <= i64::MAX,
        0 <= pos,
        pos + int_encoding(i).len() + 1 <= input.len(),
        forall|j: int|
            0 <= j < int_encoding(i).len() ==> input[pos + j] == #[trigger] int_encoding(i)[j],
        input[pos + int_encoding(i).len()] == 101u8,
    ensures
        spec_read_integer(input, pos) == Ok::<(i64, int), DecodeError>(
            (i as i64, pos + int_encoding(i).len() + 1),
        ),
{
    let range: int = 0x1_0000_0000_0000_0000;
    vstd::arithmetic::div_mod::lemma_small_mod(0, range as nat);
    if i < 0 {
        let mag = (-i) as nat;
        let dd = dec_digits(mag);
        lemma_dec_digits_props(mag);
        assert(forall|j: int| 0 <= j < dd.len() ==> int_encoding(i)[j + 1] == #[trigger] dd[j]);
        assert(int_encoding(i)[0] == 45u8);
        assert(input[pos + 0] == int_encoding(i)[0]);
        assert(input[pos] == 45u8);
        assert(forall|j: int| 0 <= j < dd.len() ==> input[pos + 1 + j] == #[trigger] dd[j]);
        lemma_read_int_digits_back(input, pos + 1, 0i64, true, dd, 0, mag);
    } else {
        let mag = i as nat;
        let dd = dec_digits(mag);
        lemma_dec_digits_props(mag);
        assert(forall|j: int| 0 <= j < dd.len() ==> input[pos + j] == #[trigger] dd[j]);
        assert(input[pos] == dd[0]);
        lemma_read_int_digits_back(input, pos, 0i64, false, dd, 0, mag);
    }
}

/// An encoding is never empty, never begins with the terminator byte `e`,
/// and begins with the byte that selects its production.
proof fn lemma_encoded_first(v: BValue)
    ensures
        encoded(v).len() >= 1,
        encoded(v)[0] != 101u8,
        v matches BValue::Str(s) ==> is_digit(encoded(v)[0]),
        v matches BValue::Int(i) ==> encoded(v)[0] == 105u8,
        v matches BValue::List(l) ==> encoded(v)[0] == 108u8,
        v matches BValue::Dict(d) ==> encoded(v)[0] == 100u8,
{
    match v {
        BValue::Str(s) => {
            lemma_dec_digits_props(s.len());
            assert(encoded(v)[0] == dec_digits(s.len())[0]);
            assert(is_digit(dec_digits(s.len())[0]));
        },
        BValue::Int(i) => {
            assert(encoded(v)[0] == 105u8);
        },
        BValue::List(l) => {
            assert(encoded(v)[0] == 108u8);
        },
        BValue::Dict(d) => {
            assert(encoded(v)[0] == 100u8);
        },
    }
}

/// Folding an already-sorted entry sequence through `spec_dict_insert`
/// leaves it as it is: a sorted sequence is its own canonical dictionary.
pub proof fn lemma_from_pairs_of_sorted(entries: Seq<(Seq<u8>, BValue)>)
    requires
        entries_sorted(entries),
    ensures
        spec_dict_from_pairs(entries) == entries,
    decreases entries.len(),
{
    if entries.len() > 0 {
        let front = entries.drop_last();
        assert(forall|i: int| 0 <= i < front.len() ==> #[trigger] front[i] == entries[i]);
        assert(entries_sorted(front));
        lemma_from_pairs_of_sorted(front);
        lemma_dict_insert_at(front, entries.last().0, entries.last().1, front.len() as int);
        assert(front.insert(front.len() as int, (entries.last().0, entries.last().1))
            =~= entries);
    }
}

/// An encoding of a well-formed value standing in the buffer parses back to
/// exactly that value, ending just past the encoding.
proof fn lemma_encoded_reads_back(v: BValue, input: Seq<u8>, pos: int)
    requires
        bval_wf(v),
        0 <= pos,
        pos + encoded(v).len() <= input.len(),
        forall|j: int| 0 <= j < encoded(v).len() ==> input[pos + j] == #[trigger] encoded(v)[j],
    ensures
        spec_read(input, pos) == Ok::<(BValue, int), DecodeError>((v, pos + encoded(v).len())),
    decreases v,
{
    lemma_encoded_first(v);
    assert(input[pos + 0] == encoded(v)[0]);
    match v {
        BValue::Str(s) => {
            assert(forall|j: int|
                0 <= j < string_encoding(s).len() ==> input[pos + j] == #[trigger] string_encoding(
                    s,
                )[j]);
            lemma_string_reads_back(s, input, pos);
        },
        BValue::Int(i) => {
            let ie = int_encoding(i);
            assert(forall|j: int| 0 <= j < ie.len() ==> encoded(v)[j + 1] == #[trigger] ie[j]);
            assert forall|j: int| 0 <= j < ie.len() implies input[pos + 1 + j] == #[trigger] ie[j] by {
                assert(input[pos + (j + 1)] == encoded(v)[j + 1]);
            }
            assert(encoded(v)[1 + ie.len() as int] == 101u8);
            assert(input[pos + (1 + ie.len() as int)] == encoded(v)[1 + ie.len() as int]);
            lemma_integer_reads_back(i, input, pos + 1);
        },
        BValue::List(elems) => {
            let el = encoded_list(elems);
            assert(forall|j: int| 0 <= j < el.len() ==> encoded(v)[j + 1] == #[trigger] el[j]);
            assert forall|j: int| 0 <= j < el.len() implies input[pos + 1 + j] == #[trigger] el[j] by {
                assert(input[pos + (j + 1)] == encoded(v)[j + 1]);
            }
            assert(encoded(v)[1 + el.len() as int] == 101u8);
            assert(input[pos + (1 + el.len() as int)] == encoded(v)[1 + el.len() as int]);
            lemma_encoded_list_reads_back(elems, input, pos + 1);
        },
        BValue::Dict(entries) => {
            let ee = encoded_entries(entries);
            assert(forall|j: int| 0 <= j < ee.len() ==> encoded(v)[j + 1] == #[trigger] ee[j]);
            assert forall|j: int| 0 <= j < ee.len() implies input[pos + 1 + j] == #[trigger] ee[j] by {
                assert(input[pos + (j + 1)] == encoded(v)[j + 1]);
            }
            assert(encoded(v)[1 + ee.len() as int] == 101u8);
            assert(input[pos + (1 + ee.len() as int)] == encoded(v)[1 + ee.len() as int]);
            lemma_entries_wf_index(entries);
            lemma_encoded_entries_reads_back(entries, input, pos + 1);
            lemma_from_pairs_of_sorted(entries);
        },
    }
}

/// Encodings of well-formed list elements standing in the buffer, followed
/// by the terminator `e`, parse back to exactly those elements.
proof fn lemma_encoded_list_reads_back(elems: Seq<BValue>, input: Seq<u8>, pos: int)
    requires
        elems_wf(elems),
        0 <= pos,
        pos + encoded_list(elems).len() + 1 <= input.len(),
        forall|j: int|
            0 <= j < encoded_list(elems).len() ==> input[pos + j] == #[trigger] encoded_list(
                elems,
            )[j],
        input[pos + encoded_list(elems).len()] == 101u8,
    ensures
        spec_read_list(input, pos) == Ok::<(Seq<BValue>, int), DecodeError>(
            (elems, pos + encoded_list(elems).len() + 1),
        ),
    decreases elems,
{
    if elems.len() == 0 {
        assert(elems =~= Seq::<BValue>::empty());
    } else {
        let e0 = elems[0];
        let rest = elems.drop_first();
        let enc0 = encoded(e0);
        let encr = encoded_list(rest);
        lemma_encoded_first(e0);
        assert(forall|j: int|
            0 <= j < enc0.len() ==> encoded_list(elems)[j] == #[trigger] enc0[j]);
        assert forall|j: int| 0 <= j < enc0.len() implies input[pos + j] == #[trigger] enc0[j] by {
            assert(input[pos + j] == encoded_list(elems)[j]);
        }
        assert(input[pos + 0] == enc0[0]);
        lemma_encoded_reads_back(e0, input, pos);
        let p1 = pos + enc0.len() as int;
        assert(forall|j: int|
            0 <= j < encr.len() ==> encoded_list(elems)[enc0.len() + j] == #[trigger] encr[j]);
        assert forall|j: int| 0 <= j < encr.len() implies input[p1 + j] == #[trigger] encr[j] by {
            assert(input[pos + (enc0.len() + j)] == encoded_list(elems)[enc0.len() + j]);
        }
        assert(input[p1 + encr.len()] == 101u8) by {
            assert(input[pos + encoded_list(elems).len()] == 101u8);
        }
        lemma_encoded_list_reads_back(rest, input, p1);
        assert(seq![e0] + rest =~= elems);
    }
}

/// Encodings of well-formed dictionary entries standing in the buffer,
/// followed by the terminator `e`, parse back to exactly those pairs.
proof fn lemma_encoded_entries_reads_back(entries: Seq<(Seq<u8>, BValue)>, input: Seq<u8>, pos: int)
    requires
        entries_wf(entries),
        0 <= pos,
        pos + encoded_entries(entries).len() + 1 <= input.len(),
        forall|j: int|
            0 <= j < encoded_entries(entries).len() ==> input[pos + j] == #[trigger] encoded_entries(
                entries,
            )[j],
        input[pos + encoded_entries(entries).len()] == 101u8,
    ensures
        spec_read_dict(input, pos) == Ok::<(Seq<(Seq<u8>, BValue)>, int), DecodeError>(
            (entries, pos + encoded_entries(entries).len() + 1),
        ),
    decreases entries,
{
    if entries.len() == 0 {
        assert(entries =~= Seq::<(Seq<u8>, BValue)>::empty());
    } else {
        let k = entries[0].0;
        let v0 = entries[0].1;
        let rest = entries.drop_first();
        let enck = string_encoding(k);
        let encv = encoded(v0);
        let encr = encoded_entries(rest);
        lemma_dec_digits_props(k.len());
        assert(enck[0] == dec_digits(k.len())[0]);
        assert(forall|j: int|
            0 <= j < enck.len() ==> encoded_entries(entries)[j] == #[trigger] enck[j]);
        assert forall|j: int| 0 <= j < enck.len() implies input[pos + j] == #[trigger] enck[j] by {
            assert(input[pos + j] == encoded_entries(entries)[j]);
        }
        assert(input[pos + 0] == enck[0]);
        lemma_string_reads_back(k, input, pos);
        let p1 = pos + enck.len() as int;
        assert(forall|j: int|
            0 <= j < encv.len() ==> encoded_entries(entries)[enck.len() + j] == #[trigger] encv[j]);
        assert forall|j: int| 0 <= j < encv.len() implies input[p1 + j] == #[trigger] encv[j] by {
            assert(input[pos + (enck.len() + j)] == encoded_entries(entries)[enck.len() + j]);
        }
        lemma_encoded_reads_back(v0, input, p1);
        let p2 = p1 + encv.len() as int;
        assert(forall|j: int|
            0 <= j < encr.len() ==> encoded_entries(entries)[enck.len() + encv.len() + j]
                == #[trigger] encr[j]);
        assert forall|j: int| 0 <= j < encr.len() implies input[p2 + j] == #[trigger] encr[j] by {
            assert(input[pos + (enck.len() + encv.len() + j)] == encoded_entries(
                entries,
            )[enck.len() + encv.len() + j]);
        }
        assert(input[p2 + encr.len()] == 101u8) by {
            assert(input[pos + encoded_entries(entries).len()] == 101u8);
        }
        lemma_encoded_entries_reads_back(rest, input, p2);
        assert(seq![(k, v0)] + rest =~= entries);
    }
}

/// Law: round trip. Decoding the canonical encoding of any well-formed model
/// value yields exactly that value and consumes the whole buffer, so
/// `decode(encode(v))` gives `v` back for every value the library can build.
pub proof fn lemma_round_trip(v: BValue)
    requires
        bval_wf(v),
    ensures
        spec_read(encoded(v), 0) == Ok::<(BValue, int), DecodeError>(
            (v, encoded(v).len() as int),
        ),
{
    lemma_encoded_reads_back(v, encoded(v), 0);
}

} // verus!
