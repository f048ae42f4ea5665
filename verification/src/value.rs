//! The value model: the tagged union of bencode objects, its mathematical
//! model, and the canonical dictionary type.

use vstd::prelude::*;

verus! {

/// Mathematical model of a bencode value: byte strings are byte sequences,
/// integers are unbounded, lists are sequences, and dictionaries are
/// sequences of key/value pairs (canonical when sorted by key).
#[verifier::ext_equal]
pub enum BValue {
    Str(Seq<u8>),
    Int(int),
    List(Seq<BValue>),
    Dict(Seq<(Seq<u8>, BValue)>),
}

/// Strict lexicographic order on byte strings: the empty string comes first,
/// otherwise the first differing byte decides, a proper prefix comes before
/// its extensions.
pub open spec fn lex_lt(a: Seq<u8>, b: Seq<u8>) -> bool
    decreases a.len(),
{
    if b.len() == 0 {
        false
    } else if a.len() == 0 {
        true
    } else if a[0] < b[0] {
        true
    } else if a[0] > b[0] {
        false
    } else {
        lex_lt(a.drop_first(), b.drop_first())
    }
}

/// The possible value types in a bencode object.
#[derive(Debug, PartialEq, Eq)]
pub enum Value {
    String(Vec<u8>),
    Integer(i64),
    List(Vec<Value>),
    Dictionary(Dict),
}

/// A dictionary with byte-string keys, stored as key/value pairs in strictly
/// ascending key order. `insert` keeps that order, so any dictionary built
/// through it is already in canonical form; code that fills the `entries`
/// field directly is responsible for keeping them sorted itself.
#[derive(Debug, PartialEq, Eq)]
pub struct Dict {
    pub entries: Vec<(Vec<u8>, Value)>,
}

impl Value {
    /// The mathematical model of this value.
    pub open spec fn bval(self) -> BValue
        decreases self,
    {
        match self {
            Value::String(s) => BValue::Str(s@),
            Value::Integer(i) => BValue::Int(i as int),
            Value::List(l) => BValue::List(bvals_of(l@)),
            Value::Dictionary(d) => BValue::Dict(entry_models_of(d.entries@)),
        }
    }
}

impl Dict {
    /// The mathematical model of this dictionary: its key/value pairs in
    /// stored order.
    pub open spec fn model(self) -> Seq<(Seq<u8>, BValue)> {
        entry_models_of(self.entries@)
    }
}

/// Models of a sequence of values, element by element.
pub open spec fn bvals_of(l: Seq<Value>) -> Seq<BValue>
    decreases l,
{
    if l.len() == 0 {
        Seq::empty()
    } else {
        seq![l[0].bval()] + bvals_of(l.drop_first())
    }
}

/// Models of a sequence of dictionary entries, pair by pair.
pub open spec fn entry_models_of(l: Seq<(Vec<u8>, Value)>) -> Seq<(Seq<u8>, BValue)>
    decreases l,
{
    if l.len() == 0 {
        Seq::empty()
    } else {
        seq![(l[0].0@, l[0].1.bval())] + entry_models_of(l.drop_first())
    }
}

/// Keys stand in strictly ascending lexicographic order, so they are unique.
pub open spec fn entries_sorted(entries: Seq<(Seq<u8>, BValue)>) -> bool {
    forall|i: int, j: int|
        0 <= i < j < entries.len() ==> lex_lt(#[trigger] entries[i].0, #[trigger] entries[j].0)
}

/// A model value is well formed when every dictionary inside it is sorted by
/// key and every byte string, key and integer fits the machine types that
/// carry it.
pub open spec fn bval_wf(v: BValue) -> bool
    decreases v,
{
    match v {
        BValue::Str(s) => s.len() <= usize::MAX,
        BValue::Int(i) => i64::MIN <= i <= i64::MAX,
        BValue::List(elems) => elems_wf(elems),
        BValue::Dict(entries) => entries_sorted(entries) && entries_wf(entries),
    }
}

/// Every element of the sequence is well formed.
pub open spec fn elems_wf(elems: Seq<BValue>) -> bool
    decreases elems,
{
    if elems.len() == 0 {
        true
    } else {
        bval_wf(elems[0]) && elems_wf(elems.drop_first())
    }
}

/// Every key fits a vector and every value is well formed; says nothing
/// about key order.
pub open spec fn entries_wf(entries: Seq<(Seq<u8>, BValue)>) -> bool
    decreases entries,
{
    if entries.len() == 0 {
        true
    } else {
        entries[0].0.len() <= usize::MAX && bval_wf(entries[0].1) && entries_wf(
            entries.drop_first(),
        )
    }
}

/// Insert a pair into a key-sorted entry sequence: the pair lands before the
/// first key that is not below the new one, replacing it when the keys are
/// equal (so on a sorted sequence the order is kept and the key stays
/// unique).
pub open spec fn spec_dict_insert(
    entries: Seq<(Seq<u8>, BValue)>,
    key: Seq<u8>,
    value: BValue,
) -> Seq<(Seq<u8>, BValue)>
    decreases entries.len(),
{
    if entries.len() == 0 {
        seq![(key, value)]
    } else if lex_lt(key, entries[0].0) {
        seq![(key, value)] + entries
    } else if key == entries[0].0 {
        seq![(key, value)] + entries.drop_first()
    } else {
        seq![entries[0]] + spec_dict_insert(entries.drop_first(), key, value)
    }
}

/// The value stored under a key: the first pair whose key matches.
pub open spec fn spec_dict_get(entries: Seq<(Seq<u8>, BValue)>, key: Seq<u8>) -> Option<BValue>
    decreases entries.len(),
{
    if entries.len() == 0 {
        None
    } else if entries[0].0 == key {
        Some(entries[0].1)
    } else {
        spec_dict_get(entries.drop_first(), key)
    }
}

/// The entries without the first pair whose key matches, if any.
pub open spec fn spec_dict_remove(entries: Seq<(Seq<u8>, BValue)>, key: Seq<u8>) -> Seq<
    (Seq<u8>, BValue),
>
    decreases entries.len(),
{
    if entries.len() == 0 {
        entries
    } else if entries[0].0 == key {
        entries.drop_first()
    } else {
        seq![entries[0]] + spec_dict_remove(entries.drop_first(), key)
    }
}

/// The dictionary built by inserting the pairs one after the other into an
/// empty dictionary, so a later pair with an equal key wins.
pub open spec fn spec_dict_from_pairs(pairs: Seq<(Seq<u8>, BValue)>) -> Seq<(Seq<u8>, BValue)>
    decreases pairs.len(),
{
    if pairs.len() == 0 {
        Seq::empty()
    } else {
        spec_dict_insert(spec_dict_from_pairs(pairs.drop_last()), pairs.last().0, pairs.last().1)
    }
}

/// The lexicographic order is irreflexive.
pub proof fn lemma_lex_irrefl(a: Seq<u8>)
    ensures
        !lex_lt(a, a),
    decreases a.len(),
{
    if a.len() > 0 {
        lemma_lex_irrefl(a.drop_first());
    }
}

/// Two byte strings compare in at most one direction.
pub proof fn lemma_lex_asym(a: Seq<u8>, b: Seq<u8>)
    ensures
        !(lex_lt(a, b) && lex_lt(b, a)),
    decreases a.len(),
{
    if a.len() > 0 && b.len() > 0 {
        lemma_lex_asym(a.drop_first(), b.drop_first());
    }
}

/// Two distinct byte strings compare in one direction or the other.
pub proof fn lemma_lex_trichotomy(a: Seq<u8>, b: Seq<u8>)
    ensures
        lex_lt(a, b) || lex_lt(b, a) || a == b,
    decreases a.len(),
{
    if a.len() == 0 && b.len() == 0 {
        assert(a =~= b);
    } else if a.len() > 0 && b.len() > 0 && a[0] == b[0] {
        lemma_lex_trichotomy(a.drop_first(), b.drop_first());
        if a.drop_first() == b.drop_first() {
            assert(a.drop_first().len() == a.len() - 1);
            assert(b.drop_first().len() == b.len() - 1);
            assert(a.len() == b.len());
            assert forall|i: int| 0 <= i < a.len() implies a[i] == b[i] by {
                if i >= 1 {
                    assert(a[i] == a.drop_first()[i - 1]);
                    assert(b[i] == b.drop_first()[i - 1]);
                }
            }
            assert(a =~= b);
        }
    }
}

/// The lexicographic order is transitive.
pub proof fn lemma_lex_trans(a: Seq<u8>, b: Seq<u8>, c: Seq<u8>)
    requires
        lex_lt(a, b),
        lex_lt(b, c),
    ensures
        lex_lt(a, c),
    decreases a.len(),
{
    if a.len() > 0 && b.len() > 0 && c.len() > 0 && a[0] == b[0] && b[0] == c[0] {
        lemma_lex_trans(a.drop_first(), b.drop_first(), c.drop_first());
    }
}

/// `bvals_of` maps the sequence element by element.
pub proof fn lemma_bvals_of_index(l: Seq<Value>)
    ensures
        bvals_of(l).len() == l.len(),
        forall|i: int| 0 <= i < l.len() ==> bvals_of(l)[i] == #[trigger] l[i].bval(),
    decreases l.len(),
{
    if l.len() > 0 {
        lemma_bvals_of_index(l.drop_first());
        assert forall|i: int| 0 <= i < l.len() implies bvals_of(l)[i] == #[trigger] l[i].bval() by {
            if i >= 1 {
                assert(bvals_of(l)[i] == bvals_of(l.drop_first())[i - 1]);
                assert(l.drop_first()[i - 1] == l[i]);
            }
        }
    }
}

/// Appending a value appends its model.
pub proof fn lemma_bvals_of_push(l: Seq<Value>, x: Value)
    ensures
        bvals_of(l.push(x)) == bvals_of(l).push(x.bval()),
{
    lemma_bvals_of_index(l);
    lemma_bvals_of_index(l.push(x));
    assert forall|i: int| 0 <= i < bvals_of(l.push(x)).len() implies bvals_of(l.push(x))[i]
        == bvals_of(l).push(x.bval())[i] by {
        assert(bvals_of(l.push(x))[i] == l.push(x)[i].bval());
        if i < l.len() {
            assert(l.push(x)[i] == l[i]);
            assert(bvals_of(l)[i] == l[i].bval());
        } else {
            assert(l.push(x)[i] == x);
        }
    }
    assert(bvals_of(l.push(x)) =~= bvals_of(l).push(x.bval()));
}

/// `entry_models_of` maps the sequence pair by pair.
pub proof fn lemma_entry_models_of_index(l: Seq<(Vec<u8>, Value)>)
    ensures
        entry_models_of(l).len() == l.len(),
        forall|i: int|
            0 <= i < l.len() ==> entry_models_of(l)[i] == (#[trigger] l[i].0@, l[i].1.bval()),
    decreases l.len(),
{
    if l.len() > 0 {
        lemma_entry_models_of_index(l.drop_first());
        assert forall|i: int| 0 <= i < l.len() implies entry_models_of(l)[i] == (
        #[trigger] l[i].0@,
        l[i].1.bval(),
        ) by {
            if i >= 1 {
                assert(entry_models_of(l)[i] == entry_models_of(l.drop_first())[i - 1]);
                assert(l.drop_first()[i - 1] == l[i]);
            }
        }
    }
}

/// Appending an entry appends its model.
pub proof fn lemma_entry_models_of_push(l: Seq<(Vec<u8>, Value)>, x: (Vec<u8>, Value))
    ensures
        entry_models_of(l.push(x)) == entry_models_of(l).push((x.0@, x.1.bval())),
{
    lemma_entry_models_of_index(l);
    lemma_entry_models_of_index(l.push(x));
    assert forall|i: int| 0 <= i < entry_models_of(l.push(x)).len() implies entry_models_of(
        l.push(x),
    )[i] == entry_models_of(l).push((x.0@, x.1.bval()))[i] by {
        assert(entry_models_of(l.push(x))[i] == (l.push(x)[i].0@, l.push(x)[i].1.bval()));
        if i < l.len() {
            assert(l.push(x)[i] == l[i]);
            assert(entry_models_of(l)[i] == (l[i].0@, l[i].1.bval()));
        } else {
            assert(l.push(x)[i] == x);
        }
    }
    assert(entry_models_of(l.push(x)) =~= entry_models_of(l).push((x.0@, x.1.bval())));
}

/// A sequence is element-wise well formed exactly when `elems_wf` holds.
pub proof fn lemma_elems_wf_index(elems: Seq<BValue>)
    ensures
        elems_wf(elems) <==> (forall|i: int|
            0 <= i < elems.len() ==> bval_wf(#[trigger] elems[i])),
    decreases elems.len(),
{
    if elems.len() > 0 {
        lemma_elems_wf_index(elems.drop_first());
        assert(forall|i: int|
            1 <= i < elems.len() ==> #[trigger] elems[i] == elems.drop_first()[i - 1]);
    }
}

/// Entries are pair-wise well formed exactly when `entries_wf` holds.
pub proof fn lemma_entries_wf_index(entries: Seq<(Seq<u8>, BValue)>)
    ensures
        entries_wf(entries) <==> (forall|i: int|
            0 <= i < entries.len() ==> (#[trigger] entries[i]).0.len() <= usize::MAX && bval_wf(
                entries[i].1,
            )),
    decreases entries.len(),
{
    if entries.len() > 0 {
        lemma_entries_wf_index(entries.drop_first());
        assert(forall|i: int|
            1 <= i < entries.len() ==> #[trigger] entries[i] == entries.drop_first()[i - 1]);
    }
}

/// Index of the first entry whose key is not below `key`: where an insert of
/// `key` lands.
pub open spec fn spec_insert_pos(entries: Seq<(Seq<u8>, BValue)>, key: Seq<u8>) -> int
    decreases entries.len(),
{
    if entries.len() == 0 {
        0
    } else if !lex_lt(entries[0].0, key) {
        0
    } else {
        1 + spec_insert_pos(entries.drop_first(), key)
    }
}

/// `spec_insert_pos` is the index of the first key not below `key`.
pub proof fn lemma_insert_pos_props(entries: Seq<(Seq<u8>, BValue)>, key: Seq<u8>)
    ensures
        0 <= spec_insert_pos(entries, key) <= entries.len(),
        forall|j: int|
            0 <= j < spec_insert_pos(entries, key) ==> lex_lt(#[trigger] entries[j].0, key),
        spec_insert_pos(entries, key) < entries.len() ==> !lex_lt(
            entries[spec_insert_pos(entries, key)].0,
            key,
        ),
    decreases entries.len(),
{
    if entries.len() > 0 && lex_lt(entries[0].0, key) {
        lemma_insert_pos_props(entries.drop_first(), key);
        assert(forall|j: int|
            1 <= j < entries.len() ==> #[trigger] entries[j] == entries.drop_first()[j - 1]);
    }
}

/// Where the scan for the insertion point stops determines the result of
/// `spec_dict_insert`: the pair replaces an equal key or is inserted there.
pub proof fn lemma_dict_insert_at(
    entries: Seq<(Seq<u8>, BValue)>,
    key: Seq<u8>,
    value: BValue,
    i: int,
)
    requires
        0 <= i <= entries.len(),
        forall|j: int| 0 <= j < i ==> lex_lt(#[trigger] entries[j].0, key),
        i < entries.len() ==> !lex_lt(entries[i].0, key),
    ensures
        spec_dict_insert(entries, key, value) == (if i < entries.len() && entries[i].0 == key {
            entries.update(i, (key, value))
        } else {
            entries.insert(i, (key, value))
        }),
    decreases i,
{
    if i == 0 {
        if entries.len() == 0 {
            assert(spec_dict_insert(entries, key, value) =~= entries.insert(0, (key, value)));
        } else if entries[0].0 == key {
            lemma_lex_irrefl(key);
            assert(spec_dict_insert(entries, key, value) =~= entries.update(0, (key, value)));
        } else {
            lemma_lex_trichotomy(key, entries[0].0);
            assert(spec_dict_insert(entries, key, value) =~= entries.insert(0, (key, value)));
        }
    } else {
        let rest = entries.drop_first();
        lemma_lex_asym(entries[0].0, key);
        lemma_lex_irrefl(key);
        assert(forall|j: int| 1 <= j < entries.len() ==> #[trigger] entries[j] == rest[j - 1]);
        lemma_dict_insert_at(rest, key, value, i - 1);
        if i < entries.len() && entries[i].0 == key {
            assert(entries.update(i, (key, value)) =~= seq![entries[0]] + rest.update(
                i - 1,
                (key, value),
            ));
        } else {
            assert(entries.insert(i, (key, value)) =~= seq![entries[0]] + rest.insert(
                i - 1,
                (key, value),
            ));
        }
    }
}

/// Where the scan for a key stops determines `spec_dict_get` and
/// `spec_dict_remove`.
pub proof fn lemma_dict_found_at(entries: Seq<(Seq<u8>, BValue)>, key: Seq<u8>, i: int)
    requires
        0 <= i <= entries.len(),
        forall|j: int| 0 <= j < i ==> (#[trigger] entries[j].0) != key,
        i < entries.len() ==> entries[i].0 == key,
    ensures
        spec_dict_get(entries, key) == (if i < entries.len() {
            Some(entries[i].1)
        } else {
            None::<BValue>
        }),
        spec_dict_remove(entries, key) == (if i < entries.len() {
            entries.remove(i)
        } else {
            entries
        }),
    decreases i,
{
    if i == 0 {
        if entries.len() > 0 {
            assert(entries.remove(0) =~= entries.drop_first());
        }
    } else {
        let rest = entries.drop_first();
        assert(forall|j: int| 1 <= j < entries.len() ==> #[trigger] entries[j] == rest[j - 1]);
        lemma_dict_found_at(rest, key, i - 1);
        if i < entries.len() {
            assert(entries.remove(i) =~= seq![entries[0]] + rest.remove(i - 1));
        } else {
            assert(entries =~= seq![entries[0]] + rest);
        }
    }
}

/// Inserting keeps the keys sorted and the entries well formed.
pub proof fn lemma_dict_insert_props(entries: Seq<(Seq<u8>, BValue)>, key: Seq<u8>, value: BValue)
    ensures
        entries_sorted(entries) ==> entries_sorted(spec_dict_insert(entries, key, value)),
        entries_wf(entries) && bval_wf(value) && key.len() <= usize::MAX ==> entries_wf(
            spec_dict_insert(entries, key, value),
        ),
{
    let pos = spec_insert_pos(entries, key);
    lemma_insert_pos_props(entries, key);
    lemma_dict_insert_at(entries, key, value, pos);
    let r = spec_dict_insert(entries, key, value);
    if pos < entries.len() && entries[pos].0 == key {
        if entries_sorted(entries) {
            assert(entries_sorted(r)) by {
                assert(forall|m: int| 0 <= m < r.len() && m != pos ==> r[m] == entries[m]);
            }
        }
        if entries_wf(entries) && bval_wf(value) && key.len() <= usize::MAX {
            lemma_entries_wf_index(entries);
            lemma_entries_wf_index(r);
        }
    } else {
        if pos < entries.len() {
            lemma_lex_trichotomy(key, entries[pos].0);
        }
        assert(forall|m: int| 0 <= m < pos ==> r[m] == entries[m]);
        assert(r[pos] == (key, value));
        assert(forall|m: int| pos < m < r.len() ==> r[m] == entries[m - 1]);
        if entries_sorted(entries) {
            assert forall|i: int, j: int|
                0 <= i < j < r.len() implies lex_lt(#[trigger] r[i].0, #[trigger] r[j].0) by {
                if i == pos && j > pos {
                    if j - 1 > pos {
                        lemma_lex_trans(key, entries[pos].0, entries[j - 1].0);
                    }
                }
            }
        }
        if entries_wf(entries) && bval_wf(value) && key.len() <= usize::MAX {
            lemma_entries_wf_index(entries);
            lemma_entries_wf_index(r);
        }
    }
}

/// A dictionary folded together from any pair sequence is sorted and well
/// formed.
pub proof fn lemma_dict_from_pairs_wf(pairs: Seq<(Seq<u8>, BValue)>)
    requires
        entries_wf(pairs),
    ensures
        entries_sorted(spec_dict_from_pairs(pairs)),
        entries_wf(spec_dict_from_pairs(pairs)),
    decreases pairs.len(),
{
    if pairs.len() > 0 {
        lemma_entries_wf_index(pairs);
        lemma_entries_wf_index(pairs.drop_last());
        assert(forall|i: int|
            0 <= i < pairs.len() - 1 ==> #[trigger] pairs.drop_last()[i] == pairs[i]);
        lemma_dict_from_pairs_wf(pairs.drop_last());
        lemma_dict_insert_props(
            spec_dict_from_pairs(pairs.drop_last()),
            pairs.last().0,
            pairs.last().1,
        );
    }
}

/// Strict lexicographic comparison of two byte vectors.
pub fn bytes_lt(a: &Vec<u8>, b: &Vec<u8>) -> (r: bool)
    ensures
        r == lex_lt(a@, b@),
{
    let mut i: usize = 0;
    proof {
        assert(a@.skip(0) =~= a@);
        assert(b@.skip(0) =~= b@);
    }
    loop
        invariant
            i <= a@.len(),
            i <= b@.len(),
            lex_lt(a@, b@) == lex_lt(a@.skip(i as int), b@.skip(i as int)),
        decreases a@.len() - i,
    {
        proof {
            assert(a@.skip(i as int).len() == a@.len() - i);
            assert(b@.skip(i as int).len() == b@.len() - i);
        }
        if i == b.len() {
            return false;
        }
        if i == a.len() {
            return true;
        }
        let x = a[i];
        let y = b[i];
        proof {
            assert(a@.skip(i as int)[0] == a@[i as int]);
            assert(b@.skip(i as int)[0] == b@[i as int]);
        }
        if x < y {
            return true;
        }
        if x > y {
            return false;
        }
        proof {
            assert(a@.skip(i as int).drop_first() =~= a@.skip(i as int + 1));
            assert(b@.skip(i as int).drop_first() =~= b@.skip(i as int + 1));
        }
        i = i + 1;
    }
}

/// Equality of two byte vectors.
pub fn bytes_eq(a: &Vec<u8>, b: &Vec<u8>) -> (r: bool)
    ensures
        r == (a@ == b@),
{
    if a.len() != b.len() {
        return false;
    }
    let mut i: usize = 0;
    while i < a.len()
        invariant
            i <= a@.len(),
            a@.len() == b@.len(),
            forall|j: int| 0 <= j < i ==> a@[j] == b@[j],
        decreases a@.len() - i,
    {
        if a[i] != b[i] {
            return false;
        }
        i = i + 1;
    }
    proof {
        assert(a@ =~= b@);
    }
    true
}

impl Dict {
    /// Creates an empty dictionary.
    pub fn new() -> (r: Dict)
        ensures
            r.model() == Seq::<(Seq<u8>, BValue)>::empty(),
    {
        Dict { entries: Vec::new() }
    }

    /// The number of entries.
    pub fn len(&self) -> (r: usize)
        ensures
            r == self.model().len(),
    {
        proof {
            lemma_entry_models_of_index(self.entries@);
        }
        self.entries.len()
    }

    /// Stores `value` under `key` at its canonical position: before the first
    /// key that is not below it, replacing an equal key, so a dictionary
    /// built by inserts keeps its keys in strictly ascending order.
    pub fn insert(&mut self, key: Vec<u8>, value: Value)
        ensures
            final(self).model() == spec_dict_insert(old(self).model(), key@, value.bval()),
    {
        let mut i: usize = 0;
        loop
            invariant
                i <= self.entries@.len(),
                *self == *old(self),
                forall|j: int| 0 <= j < i ==> lex_lt(#[trigger] self.entries@[j].0@, key@),
            ensures
                i <= self.entries@.len(),
                *self == *old(self),
                forall|j: int| 0 <= j < i ==> lex_lt(#[trigger] self.entries@[j].0@, key@),
                i < self.entries@.len() ==> !lex_lt(self.entries@[i as int].0@, key@),
            decreases self.entries@.len() - i,
        {
            if i == self.entries.len() {
                break ;
            }
            let e = &self.entries[i];
            if !bytes_lt(&e.0, &key) {
                break ;
            }
            i = i + 1;
        }
        let ghost m = old(self).model();
        proof {
            lemma_entry_models_of_index(old(self).entries@);
            assert forall|j: int| 0 <= j < i implies lex_lt(#[trigger] m[j].0, key@) by {
                assert(m[j] == (old(self).entries@[j].0@, old(self).entries@[j].1.bval()));
            }
            if i < self.entries@.len() {
                assert(m[i as int] == (old(self).entries@[i as int].0@, old(
                    self,
                ).entries@[i as int].1.bval()));
            }
            lemma_dict_insert_at(m, key@, value.bval(), i as int);
        }
        let mut replace = false;
        if i < self.entries.len() {
            let e = &self.entries[i];
            if bytes_eq(&e.0, &key) {
                replace = true;
            }
        }
        if replace {
            self.entries[i] = (key, value);
            proof {
                lemma_entry_models_of_index(self.entries@);
                let r = m.update(i as int, (key@, value.bval()));
                assert forall|j: int| 0 <= j < self.model().len() implies self.model()[j]
                    == r[j] by {
                    assert(self.model()[j] == (self.entries@[j].0@, self.entries@[j].1.bval()));
                    if j != i {
                        assert(self.entries@[j] == old(self).entries@[j]);
                        assert(m[j] == (old(self).entries@[j].0@, old(
                            self,
                        ).entries@[j].1.bval()));
                    }
                }
                assert(self.model() =~= r);
            }
        } else {
            self.entries.insert(i, (key, value));
            proof {
                lemma_entry_models_of_index(self.entries@);
                let r = m.insert(i as int, (key@, value.bval()));
                assert forall|j: int| 0 <= j < self.model().len() implies self.model()[j]
                    == r[j] by {
                    assert(self.model()[j] == (self.entries@[j].0@, self.entries@[j].1.bval()));
                    if j < i {
                        assert(self.entries@[j] == old(self).entries@[j]);
                        assert(m[j] == (old(self).entries@[j].0@, old(
                            self,
                        ).entries@[j].1.bval()));
                    } else if j > i {
                        assert(self.entries@[j] == old(self).entries@[j - 1]);
                        assert(m[j - 1] == (old(self).entries@[j - 1].0@, old(
                            self,
                        ).entries@[j - 1].1.bval()));
                    }
                }
                assert(self.model() =~= r);
            }
        }
    }

    /// Removes the entry stored under `key` and hands its value back, or
    /// `None` when the key is absent.
    pub fn remove(&mut self, key: &Vec<u8>) -> (r: Option<Value>)
        ensures
            final(self).model() == spec_dict_remove(old(self).model(), key@),
            match r {
                Some(v) => spec_dict_get(old(self).model(), key@) == Some(v.bval()),
                None => spec_dict_get(old(self).model(), key@) is None,
            },
    {
        let mut i: usize = 0;
        loop
            invariant
                i <= self.entries@.len(),
                *self == *old(self),
                forall|j: int| 0 <= j < i ==> (#[trigger] self.entries@[j].0@) != key@,
            ensures
                i <= self.entries@.len(),
                *self == *old(self),
                forall|j: int| 0 <= j < i ==> (#[trigger] self.entries@[j].0@) != key@,
                i < self.entries@.len() ==> self.entries@[i as int].0@ == key@,
            decreases self.entries@.len() - i,
        {
            if i == self.entries.len() {
                break ;
            }
            let e = &self.entries[i];
            if bytes_eq(&e.0, key) {
                break ;
            }
            i = i + 1;
        }
        let ghost m = old(self).model();
        proof {
            lemma_entry_models_of_index(old(self).entries@);
            assert forall|j: int| 0 <= j < i implies (#[trigger] m[j].0) != key@ by {
                assert(m[j] == (old(self).entries@[j].0@, old(self).entries@[j].1.bval()));
            }
            if i < self.entries@.len() {
                assert(m[i as int] == (old(self).entries@[i as int].0@, old(
                    self,
                ).entries@[i as int].1.bval()));
            }
            lemma_dict_found_at(m, key@, i as int);
        }
        if i < self.entries.len() {
            let pr = self.entries.remove(i);
            proof {
                lemma_entry_models_of_index(self.entries@);
                let r = m.remove(i as int);
                assert forall|j: int| 0 <= j < self.model().len() implies self.model()[j]
                    == r[j] by {
                    assert(self.model()[j] == (self.entries@[j].0@, self.entries@[j].1.bval()));
                    if j < i {
                        assert(self.entries@[j] == old(self).entries@[j]);
                        assert(m[j] == (old(self).entries@[j].0@, old(
                            self,
                        ).entries@[j].1.bval()));
                    } else {
                        assert(self.entries@[j] == old(self).entries@[j + 1]);
                        assert(m[j + 1] == (old(self).entries@[j + 1].0@, old(
                            self,
                        ).entries@[j + 1].1.bval()));
                    }
                }
                assert(self.model() =~= r);
                assert(pr.1.bval() == m[i as int].1);
            }
            Some(pr.1)
        } else {
            None
        }
    }
}

} // verus!
