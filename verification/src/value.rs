//! The JSON value tree and its mathematical model.

use vstd::prelude::*;

verus! {

/// A parsed JSON number: exactly one of a 64-bit signed integer or a
/// floating-point literal, chosen permanently at parse time by the presence
/// of a decimal point or exponent marker.
///
/// The verified core never computes with floating point, so a float is
/// carried as the text of its literal, already validated against the
/// numeric grammar; callers convert it with the native float parser
/// (`str::parse::<f64>` accepts every literal of this grammar).
#[derive(Debug, PartialEq, Eq)]
pub enum Number {
    /// A float, as the bytes of its validated literal.
    Float(Vec<u8>),
    /// A 64-bit signed integer.
    Int(i64),
}

/// The mathematical model of a [`Number`].
pub enum SpecNumber {
    /// A float literal, as its text.
    Float(Seq<u8>),
    /// A 64-bit signed integer.
    Int(i64),
}

impl Number {
    /// The model of this number.
    pub open spec fn view(self) -> SpecNumber {
        match self {
            Number::Float(t) => SpecNumber::Float(t@),
            Number::Int(v) => SpecNumber::Int(v),
        }
    }
}

/// The mathematical model of a JSON tree: what [`Value`] abstracts to in
/// specifications. Strings are byte sequences (UTF-8), arrays are sequences,
/// and objects are sequences of key/value pairs in insertion order with
/// unique keys.
pub enum SpecValue {
    Null,
    Boolean(bool),
    Number(SpecNumber),
    String(Seq<u8>),
    Array(Seq<SpecValue>),
    Object(Seq<(Seq<u8>, SpecValue)>),
}

/// The position of `key` among `entries`, or `-1` if it is absent.
pub open spec fn spec_obj_find(entries: Seq<(Seq<u8>, SpecValue)>, key: Seq<u8>) -> int
    decreases entries.len(),
{
    if entries.len() == 0 {
        -1
    } else if entries[0].0 == key {
        0
    } else {
        let r = spec_obj_find(entries.skip(1), key);
        if r < 0 {
            -1
        } else {
            r + 1
        }
    }
}

/// The value stored under `key`, if any.
pub open spec fn spec_obj_get(entries: Seq<(Seq<u8>, SpecValue)>, key: Seq<u8>) -> Option<
    SpecValue,
> {
    let i = spec_obj_find(entries, key);
    if i < 0 {
        None
    } else {
        Some(entries[i].1)
    }
}

/// Mapping insertion: a later insert of an existing key overwrites the value
/// in place (keeping the key's original position); a new key is appended.
pub open spec fn spec_obj_insert(
    entries: Seq<(Seq<u8>, SpecValue)>,
    key: Seq<u8>,
    v: SpecValue,
) -> Seq<(Seq<u8>, SpecValue)> {
    let i = spec_obj_find(entries, key);
    if i < 0 {
        entries.push((key, v))
    } else {
        entries.update(i, (key, v))
    }
}

/// `spec_obj_find` returns either `-1` or a position that really holds `key`,
/// and `-1` only when no position does.
pub proof fn lemma_obj_find(entries: Seq<(Seq<u8>, SpecValue)>, key: Seq<u8>)
    ensures
        spec_obj_find(entries, key) >= 0 ==> spec_obj_find(entries, key) < entries.len()
            && entries[spec_obj_find(entries, key)].0 == key,
        spec_obj_find(entries, key) < 0 ==> forall|k: int|
            0 <= k < entries.len() ==> (#[trigger] entries[k]).0 != key,
    decreases entries.len(),
{
    if entries.len() > 0 && entries[0].0 != key {
        lemma_obj_find(entries.skip(1), key);
        let rest = entries.skip(1);
        assert(forall|k: int| 1 <= k < entries.len() ==> entries[k] == rest[k - 1]);
    }
}

/// Whether the keys of an entry sequence are pairwise distinct.
pub open spec fn obj_keys_unique(entries: Seq<(Seq<u8>, SpecValue)>) -> bool {
    forall|i: int, j: int|
        0 <= i < j < entries.len() ==> (#[trigger] entries[i]).0 != (#[trigger] entries[j]).0
}

/// `spec_obj_find` finds the first occurrence: no earlier position holds the
/// key.
pub proof fn lemma_obj_find_is_first(entries: Seq<(Seq<u8>, SpecValue)>, key: Seq<u8>)
    ensures
        spec_obj_find(entries, key) >= 0 ==> forall|q: int|
            0 <= q < spec_obj_find(entries, key) ==> (#[trigger] entries[q]).0 != key,
    decreases entries.len(),
{
    if entries.len() > 0 && entries[0].0 != key {
        let rest = entries.skip(1);
        lemma_obj_find_is_first(rest, key);
        let f = spec_obj_find(entries, key);
        if f >= 0 {
            lemma_obj_find(entries, key);
            assert(spec_obj_find(rest, key) == f - 1);
            assert forall|q: int| 0 <= q < f implies (#[trigger] entries[q]).0 != key by {
                if q >= 1 {
                    assert(entries[q] == rest[q - 1]);
                }
            }
        }
    }
}

/// Appending an entry leaves every earlier key where it was, and makes a
/// fresh key findable at the end.
proof fn lemma_obj_find_push(entries: Seq<(Seq<u8>, SpecValue)>, p: (Seq<u8>, SpecValue), key: Seq<u8>)
    ensures
        spec_obj_find(entries.push(p), key) == if spec_obj_find(entries, key) >= 0 {
            spec_obj_find(entries, key)
        } else if p.0 == key {
            entries.len() as int
        } else {
            -1
        },
    decreases entries.len(),
{
    let w = entries.push(p);
    if entries.len() == 0 {
        assert(w.len() == 1 && w[0] == p);
        assert(w.skip(1) =~= Seq::<(Seq<u8>, SpecValue)>::empty());
        assert(spec_obj_find(w.skip(1), key) == -1);
        if p.0 == key {
            assert(spec_obj_find(w, key) == 0);
        } else {
            assert(spec_obj_find(w, key) == -1);
        }
    } else {
        assert(w[0] == entries[0]);
        lemma_obj_find_push(entries.skip(1), p, key);
        assert(w.skip(1) =~= entries.skip(1).push(p));
        assert(spec_obj_find(w.skip(1), key) == spec_obj_find(entries.skip(1).push(p), key));
    }
}

/// Replacing the entry at a position with one carrying the same key does
/// not change where any key is found.
proof fn lemma_obj_find_update(
    entries: Seq<(Seq<u8>, SpecValue)>,
    i: int,
    p: (Seq<u8>, SpecValue),
    key: Seq<u8>,
)
    requires
        0 <= i < entries.len(),
        entries[i].0 == p.0,
    ensures
        spec_obj_find(entries.update(i, p), key) == spec_obj_find(entries, key),
    decreases entries.len(),
{
    let w = entries.update(i, p);
    if i == 0 {
        assert(w[0].0 == entries[0].0);
        assert(w.skip(1) =~= entries.skip(1));
    } else {
        assert(w[0] == entries[0]);
        lemma_obj_find_update(entries.skip(1), i - 1, p, key);
        assert(w.skip(1) =~= entries.skip(1).update(i - 1, p));
    }
}

/// What mapping insertion does: the inserted key now holds the new value,
/// every other key is untouched, and pairwise-distinct keys stay pairwise
/// distinct — a later insert overwrites rather than duplicates.
pub proof fn lemma_obj_insert_properties(
    entries: Seq<(Seq<u8>, SpecValue)>,
    key: Seq<u8>,
    v: SpecValue,
)
    ensures
        spec_obj_get(spec_obj_insert(entries, key, v), key) == Some(v),
        forall|other: Seq<u8>|
            other != key ==> #[trigger] spec_obj_get(spec_obj_insert(entries, key, v), other)
                == spec_obj_get(entries, other),
        obj_keys_unique(entries) ==> obj_keys_unique(spec_obj_insert(entries, key, v)),
{
    let i = spec_obj_find(entries, key);
    let w = spec_obj_insert(entries, key, v);
    lemma_obj_find(entries, key);
    lemma_obj_find_is_first(entries, key);
    if i < 0 {
        lemma_obj_find_push(entries, (key, v), key);
        lemma_obj_find_first(w, key, entries.len() as int);
        assert(spec_obj_get(w, key) == Some(v));
        assert forall|other: Seq<u8>| other != key implies #[trigger] spec_obj_get(w, other)
            == spec_obj_get(entries, other) by {
            lemma_obj_find_push(entries, (key, v), other);
            lemma_obj_find(entries, other);
        }
    } else {
        lemma_obj_find_update(entries, i, (key, v), key);
        assert(spec_obj_get(w, key) == Some(v));
        assert forall|other: Seq<u8>| other != key implies #[trigger] spec_obj_get(w, other)
            == spec_obj_get(entries, other) by {
            lemma_obj_find_update(entries, i, (key, v), other);
            lemma_obj_find(entries, other);
        }
    }
    if obj_keys_unique(entries) {
        if i < 0 {
            assert(forall|q: int| 0 <= q < entries.len() ==> (#[trigger] w[q]) == entries[q]);
            assert(w[entries.len() as int].0 == key);
        } else {
            assert(forall|q: int|
                0 <= q < entries.len() ==> (#[trigger] w[q]).0 == entries[q].0);
        }
    }
}

/// A well-formed JSON tree: the keys of every object in it, at every
/// depth, are pairwise distinct.
pub open spec fn spec_value_wf(v: SpecValue) -> bool
    decreases v,
{
    match v {
        SpecValue::Array(a) => forall|i: int|
            0 <= i < a.len() ==> spec_value_wf(#[trigger] a[i]),
        SpecValue::Object(entries) => obj_keys_unique(entries) && forall|i: int|
            0 <= i < entries.len() ==> spec_value_wf((#[trigger] entries[i]).1),
        _ => true,
    }
}

/// A JSON value: the discriminated tree type produced by parsing or built by
/// the mutators. Strings (and object keys) are UTF-8 byte vectors.
#[derive(Debug, PartialEq)]
pub enum Value {
    /// The `null` keyword.
    Null,
    /// `true` or `false`.
    Boolean(bool),
    /// A numeric literal; see [`Number`].
    Number(Number),
    /// A quoted string, after escape decoding, as UTF-8 bytes.
    String(Vec<u8>),
    /// An array of values, in source order.
    Array(Vec<Value>),
    /// An object: a mapping from string keys to values.
    Object(ValueMap),
}

/// The mapping that [`Value::Object`] uses: key/value pairs in insertion
/// order, with unique keys (a later insert overwrites in place).
#[derive(Debug, PartialEq)]
pub struct ValueMap {
    /// The key/value pairs, in insertion order.
    pub entries: Vec<(Vec<u8>, Value)>,
}

impl Value {
    /// The mathematical JSON tree this value stands for.
    pub open spec fn view(self) -> SpecValue
        decreases self,
    {
        match self {
            Value::Null => SpecValue::Null,
            Value::Boolean(b) => SpecValue::Boolean(b),
            Value::Number(n) => SpecValue::Number(n.view()),
            Value::String(s) => SpecValue::String(s@),
            Value::Array(a) => SpecValue::Array(spec_values_view(a@)),
            Value::Object(m) => SpecValue::Object(m.view()),
        }
    }
}

/// The models of a sequence of values, element by element.
pub open spec fn spec_values_view(s: Seq<Value>) -> Seq<SpecValue>
    decreases s,
{
    if s.len() == 0 {
        seq![]
    } else {
        spec_values_view(s.drop_last()).push(s.last().view())
    }
}

/// The models of a sequence of map entries, entry by entry.
pub open spec fn spec_entries_view(s: Seq<(Vec<u8>, Value)>) -> Seq<(Seq<u8>, SpecValue)>
    decreases s,
{
    if s.len() == 0 {
        seq![]
    } else {
        spec_entries_view(s.drop_last()).push((s.last().0@, s.last().1.view()))
    }
}

impl ValueMap {
    /// The entry sequence this map stands for.
    pub open spec fn view(self) -> Seq<(Seq<u8>, SpecValue)>
        decreases self,
    {
        spec_entries_view(self.entries@)
    }
}

/// `spec_values_view` maps the model over the sequence pointwise.
pub broadcast proof fn lemma_values_view(s: Seq<Value>)
    ensures
        (#[trigger] spec_values_view(s)).len() == s.len(),
        forall|i: int| 0 <= i < s.len() ==> spec_values_view(s)[i] == s[i].view(),
    decreases s.len(),
{
    if s.len() > 0 {
        lemma_values_view(s.drop_last());
    }
}

/// `spec_entries_view` maps the model over the entries pointwise.
pub broadcast proof fn lemma_entries_view(s: Seq<(Vec<u8>, Value)>)
    ensures
        (#[trigger] spec_entries_view(s)).len() == s.len(),
        forall|i: int|
            0 <= i < s.len() ==> spec_entries_view(s)[i] == (s[i].0@, s[i].1.view()),
    decreases s.len(),
{
    if s.len() > 0 {
        lemma_entries_view(s.drop_last());
    }
}

/// `spec_obj_find` returns the first position that holds `key`.
pub proof fn lemma_obj_find_first(entries: Seq<(Seq<u8>, SpecValue)>, key: Seq<u8>, i: int)
    requires
        0 <= i < entries.len(),
        entries[i].0 == key,
        forall|q: int| 0 <= q < i ==> (#[trigger] entries[q]).0 != key,
    ensures
        spec_obj_find(entries, key) == i,
    decreases i,
{
    if i > 0 {
        let rest = entries.skip(1);
        assert(forall|k: int| 0 <= k < rest.len() ==> rest[k] == entries[k + 1]);
        lemma_obj_find_first(rest, key, i - 1);
    }
}

/// Copies a byte string.
fn clone_bytes(v: &Vec<u8>) -> (r: Vec<u8>)
    ensures
        r@ == v@,
{
    vstd::slice::slice_to_vec(v.as_slice())
}

impl Clone for Number {
    /// A copy with the same model.
    fn clone(&self) -> (res: Number)
        ensures
            res.view() == self.view(),
    {
        match self {
            Number::Int(v) => Number::Int(*v),
            Number::Float(t) => Number::Float(clone_bytes(t)),
        }
    }
}

impl Clone for Value {
    /// A deep copy with the same model.
    fn clone(&self) -> (res: Value)
        ensures
            res.view() == self.view(),
        decreases *self,
    {
        match self {
            Value::Null => Value::Null,
            Value::Boolean(b) => Value::Boolean(*b),
            Value::Number(n) => Value::Number(n.clone()),
            Value::String(sv) => Value::String(clone_bytes(sv)),
            Value::Array(a) => {
                let n = a.len();
                let mut out: Vec<Value> = Vec::new();
                let mut i: usize = 0;
                while i < n
                    invariant
                        decreases_to!(*self => a@),
                        i <= n,
                        n == a@.len(),
                        out@.len() == i,
                        forall|q: int|
                            0 <= q < i ==> (#[trigger] out@[q]).view() == a@[q].view(),
                    decreases n - i,
                {
                    proof {
                        assert(decreases_to!(a@ => a@[i as int]));
                    }
                    out.push(a[i].clone());
                    i = i + 1;
                }
                proof {
                    lemma_values_view(out@);
                    lemma_values_view(a@);
                    assert(spec_values_view(out@) =~= spec_values_view(a@));
                }
                Value::Array(out)
            },
            Value::Object(m) => Value::Object(m.clone()),
        }
    }
}

impl Clone for ValueMap {
    /// A deep copy with the same model.
    fn clone(&self) -> (res: ValueMap)
        ensures
            res.view() == self.view(),
        decreases *self,
    {
        let n = self.entries.len();
        let mut out: Vec<(Vec<u8>, Value)> = Vec::new();
        let mut i: usize = 0;
        while i < n
            invariant
                i <= n,
                n == self.entries@.len(),
                out@.len() == i,
                forall|q: int|
                    0 <= q < i ==> (#[trigger] out@[q]).0@ == self.entries@[q].0@ && out@[q].1.view()
                        == self.entries@[q].1.view(),
            decreases n - i,
        {
            let pair = &self.entries[i];
            out.push((clone_bytes(&pair.0), pair.1.clone()));
            i = i + 1;
        }
        let res = ValueMap { entries: out };
        proof {
            lemma_entries_view(res.entries@);
            lemma_entries_view(self.entries@);
            assert(res.view() =~= self.view());
        }
        res
    }
}

/// Compares two byte strings for equality.
pub fn bytes_eq(a: &[u8], b: &[u8]) -> (r: bool)
    ensures
        r == (a@ == b@),
{
    if a.len() != b.len() {
        proof {
            assert(a@.len() != b@.len());
        }
        return false;
    }
    let n = a.len();
    let mut k: usize = 0;
    while k < n
        invariant
            k <= n,
            n == a@.len() && n == b@.len(),
            forall|q: int| 0 <= q < k ==> a@[q] == b@[q],
        decreases n - k,
    {
        if a[k] != b[k] {
            return false;
        }
        k = k + 1;
    }
    proof {
        assert(a@ =~= b@);
    }
    true
}

impl ValueMap {
    /// Creates an empty mapping.
    pub fn new() -> (r: ValueMap)
        ensures
            r.view() == Seq::<(Seq<u8>, SpecValue)>::empty(),
    {
        let r = ValueMap { entries: Vec::new() };
        proof {
            assert(r.view() =~= Seq::<(Seq<u8>, SpecValue)>::empty());
        }
        r
    }

    /// The number of entries.
    pub fn len(&self) -> (r: usize)
        ensures
            r == self.view().len(),
    {
        proof {
            lemma_entries_view(self.entries@);
        }
        self.entries.len()
    }

    /// Whether the mapping has no entries.
    pub fn is_empty(&self) -> (r: bool)
        ensures
            r == (self.view().len() == 0),
    {
        proof {
            lemma_entries_view(self.entries@);
        }
        self.entries.len() == 0
    }

    /// Looks up the value stored under `key`.
    pub fn get(&self, key: &[u8]) -> (r: Option<&Value>)
        ensures
            match r {
                Some(v) => spec_obj_get(self.view(), key@) == Some(v.view()),
                None => spec_obj_get(self.view(), key@) is None,
            },
    {
        let ghost v0 = self.view();
        let n = self.entries.len();
        let mut k: usize = 0;
        while k < n
            invariant
                k <= n,
                n == self.entries@.len(),
                v0 == self.view(),
                forall|q: int| 0 <= q < k ==> (#[trigger] v0[q]).0 != key@,
            decreases n - k,
        {
            proof {
                lemma_entries_view(self.entries@);
            }
            let pair = &self.entries[k];
            if bytes_eq(pair.0.as_slice(), key) {
                proof {
                    assert(v0[k as int].0 == key@);
                    lemma_obj_find_first(v0, key@, k as int);
                }
                return Some(&self.entries[k].1);
            }
            k = k + 1;
        }
        proof {
            lemma_entries_view(self.entries@);
            lemma_obj_find(v0, key@);
        }
        None
    }

    /// Gets a mutable reference to the value stored under `key`, if any;
    /// writing through it changes that entry's value and nothing else.
    pub fn get_mut(&mut self, key: &[u8]) -> (r: Option<&mut Value>)
        ensures
            spec_obj_get(old(self).view(), key@) is None ==> r.is_none() && *final(self) == *old(
                self,
            ),
            spec_obj_get(old(self).view(), key@) is Some ==> r.is_some() && (*r.unwrap()).view()
                == spec_obj_get(old(self).view(), key@).unwrap() && final(self).view()
                == spec_obj_insert(old(self).view(), key@, (*final(r.unwrap())).view()),
    {
        let ghost v0 = self.view();
        let n = self.entries.len();
        let mut k: usize = 0;
        while k < n
            invariant
                k <= n,
                n == self.entries@.len(),
                self.entries@ == old(self).entries@,
                self == old(self),
                v0 == old(self).view(),
                forall|q: int| 0 <= q < k ==> (#[trigger] v0[q]).0 != key@,
            decreases n - k,
        {
            proof {
                lemma_entries_view(self.entries@);
            }
            let found = {
                let pair = &self.entries[k];
                bytes_eq(pair.0.as_slice(), key)
            };
            if found {
                let ghost e0 = self.entries@;
                proof {
                    assert(v0[k as int].0 == key@);
                    lemma_obj_find_first(v0, key@, k as int);
                }
                let pair = vstd::std_specs::vec::vec_index_mut(&mut self.entries, k);
                let r = &mut pair.1;
                proof {
                    lemma_entries_view(
                        e0.update(k as int, (e0[k as int].0, *final(r))),
                    );
                    assert(spec_entries_view(e0.update(k as int, (e0[k as int].0, *final(r))))
                        =~= v0.update(k as int, (key@, (*final(r)).view())));
                    assert(spec_obj_insert(v0, key@, (*final(r)).view()) =~= v0.update(
                        k as int,
                        (key@, (*final(r)).view()),
                    ));
                }
                return Some(r);
            }
            k = k + 1;
        }
        proof {
            lemma_entries_view(self.entries@);
            lemma_obj_find(v0, key@);
        }
        None
    }

    /// Gets a mutable reference to the value stored under `key`, first
    /// inserting a `Null` entry for an absent key; writing through the
    /// reference changes that entry's value and nothing else.
    pub fn get_or_insert(&mut self, key: &[u8]) -> (r: &mut Value)
        ensures
            (*r).view() == match spec_obj_get(old(self).view(), key@) {
                Some(x) => x,
                None => SpecValue::Null,
            },
            final(self).view() == spec_obj_insert(old(self).view(), key@, (*final(r)).view()),
    {
        let ghost v0 = self.view();
        let n = self.entries.len();
        let mut k: usize = 0;
        while k < n
            invariant
                k <= n,
                n == self.entries@.len(),
                self == old(self),
                v0 == old(self).view(),
                forall|q: int| 0 <= q < k ==> (#[trigger] v0[q]).0 != key@,
            decreases n - k,
        {
            proof {
                lemma_entries_view(self.entries@);
            }
            let found = {
                let pair = &self.entries[k];
                bytes_eq(pair.0.as_slice(), key)
            };
            if found {
                let ghost e0 = self.entries@;
                proof {
                    assert(v0[k as int].0 == key@);
                    lemma_obj_find_first(v0, key@, k as int);
                }
                let pair = vstd::std_specs::vec::vec_index_mut(&mut self.entries, k);
                let r = &mut pair.1;
                proof {
                    lemma_entries_view(e0.update(k as int, (e0[k as int].0, *final(r))));
                    assert(spec_entries_view(e0.update(k as int, (e0[k as int].0, *final(r))))
                        =~= v0.update(k as int, (key@, (*final(r)).view())));
                    assert(spec_obj_insert(v0, key@, (*final(r)).view()) =~= v0.update(
                        k as int,
                        (key@, (*final(r)).view()),
                    ));
                }
                return r;
            }
            k = k + 1;
        }
        proof {
            lemma_entries_view(self.entries@);
            lemma_obj_find(v0, key@);
        }
        let ghost e1 = self.entries@;
        self.entries.push((vstd::slice::slice_to_vec(key), Value::Null));
        let ghost e2 = self.entries@;
        let pair = vstd::std_specs::vec::vec_index_mut(&mut self.entries, n);
        let r = &mut pair.1;
        proof {
            lemma_entries_view(e2);
            lemma_entries_view(e2.update(n as int, (e2[n as int].0, *final(r))));
            assert(spec_entries_view(e2.update(n as int, (e2[n as int].0, *final(r))))
                =~= v0.push((key@, (*final(r)).view())));
            assert(spec_obj_insert(v0, key@, (*final(r)).view()) == v0.push(
                (key@, (*final(r)).view()),
            ));
        }
        r
    }

    /// Inserts `value` under `key`: an existing key keeps its position and
    /// has its value overwritten (returning the old value); a new key is
    /// appended.
    pub fn insert(&mut self, key: Vec<u8>, value: Value) -> (prev: Option<Value>)
        ensures
            final(self).view() == spec_obj_insert(old(self).view(), key@, value.view()),
            match prev {
                Some(o) => spec_obj_get(old(self).view(), key@) == Some(o.view()),
                None => spec_obj_get(old(self).view(), key@) is None,
            },
    {
        let ghost v0 = self.view();
        let ghost keyv = key@;
        let ghost valv = value.view();
        let n = self.entries.len();
        let mut k: usize = 0;
        while k < n
            invariant
                k <= n,
                n == self.entries@.len(),
                self.entries@ == old(self).entries@,
                v0 == old(self).view(),
                keyv == key@,
                valv == value.view(),
                forall|q: int| 0 <= q < k ==> (#[trigger] v0[q]).0 != keyv,
            decreases n - k,
        {
            proof {
                lemma_entries_view(self.entries@);
            }
            let pair = &self.entries[k];
            if bytes_eq(pair.0.as_slice(), key.as_slice()) {
                proof {
                    assert(v0[k as int].0 == keyv);
                    lemma_obj_find_first(v0, keyv, k as int);
                }
                let old_pair = self.entries.remove(k);
                self.entries.insert(k, (key, value));
                proof {
                    lemma_entries_view(self.entries@);
                    assert(self.entries@ =~= old(self).entries@.update(
                        k as int,
                        self.entries@[k as int],
                    ));
                    assert(self.view() =~= v0.update(k as int, (keyv, valv)));
                    assert(v0[k as int].1 == old_pair.1.view());
                }
                return Some(old_pair.1);
            }
            k = k + 1;
        }
        proof {
            lemma_entries_view(self.entries@);
            lemma_obj_find(v0, keyv);
        }
        self.entries.push((key, value));
        proof {
            lemma_entries_view(self.entries@);
            assert(self.view() =~= v0.push((keyv, valv)));
        }
        None
    }
}

/// A UTF-8 continuation byte (`10xxxxxx`): part of a character's encoding,
/// but not the start of one.
pub open spec fn is_utf8_continuation(b: u8) -> bool {
    0x80 <= b <= 0xbf
}

/// The number of characters (Unicode scalars) a UTF-8 byte string encodes:
/// every character's encoding starts with exactly one non-continuation byte.
pub open spec fn spec_char_count(s: Seq<u8>) -> int
    decreases s.len(),
{
    if s.len() == 0 {
        0
    } else {
        spec_char_count(s.drop_last()) + if is_utf8_continuation(s.last()) {
            0int
        } else {
            1int
        }
    }
}

/// The length that [`Value::len`] reports for a model value: character count
/// of a string, element count of an array, entry count of an object, and
/// zero for every other variant.
pub open spec fn spec_len(v: SpecValue) -> int {
    match v {
        SpecValue::String(s) => spec_char_count(s),
        SpecValue::Array(a) => a.len() as int,
        SpecValue::Object(o) => o.len() as int,
        _ => 0,
    }
}

/// `a` extended with `Null` elements until it has at least `n` of them.
pub open spec fn spec_extend_with_null(a: Seq<SpecValue>, n: int) -> Seq<SpecValue> {
    if a.len() >= n {
        a
    } else {
        a + Seq::new((n - a.len()) as nat, |q: int| SpecValue::Null)
    }
}

/// Indexing into a [`Value`] by array position or by object key.
pub trait IndexOrKey: Sized {
    /// What this index selects in the model: the element at a position of
    /// an array, or the value under a key of an object; `None` elsewhere.
    spec fn spec_lookup(self, v: SpecValue) -> Option<SpecValue>;

    /// The model after the selected slot is replaced by `nv`.
    spec fn spec_update(self, v: SpecValue, nv: SpecValue) -> SpecValue;

    /// Gets an immutable reference to the selected value, if any.
    fn get(self, value: &Value) -> (r: Option<&Value>)
        ensures
            match r {
                Some(x) => self.spec_lookup(value.view()) == Some(x.view()),
                None => self.spec_lookup(value.view()) is None,
            },
    ;

    /// Gets a mutable reference to the selected value, if any; writing
    /// through it changes that slot and nothing else.
    fn get_mut(self, value: &mut Value) -> (r: Option<&mut Value>)
        ensures
            self.spec_lookup(old(value).view()) is None ==> r.is_none() && *final(value) == *old(
                value,
            ),
            self.spec_lookup(old(value).view()) is Some ==> r.is_some() && (*r.unwrap()).view()
                == self.spec_lookup(old(value).view()).unwrap() && final(value).view()
                == self.spec_update(old(value).view(), (*final(r.unwrap())).view()),
    ;

    /// Whether `get_or_insert` accepts this value: a caller error
    /// otherwise, excluded by its precondition.
    spec fn gi_allowed(self, v: SpecValue) -> bool;

    /// The value the returned reference initially points at.
    spec fn gi_current(self, v: SpecValue) -> SpecValue;

    /// The model after the caller is done writing `nv` through the
    /// returned reference.
    spec fn gi_updated(self, v: SpecValue, nv: SpecValue) -> SpecValue;

    /// Gets a mutable reference to the selected slot, inserting where the
    /// policy allows it: a key turns `Null` into an empty object and a
    /// missing entry into `Null`; a position turns `Null` into an empty
    /// array and extends the array with `Null` elements up to the position.
    fn get_or_insert(self, value: &mut Value) -> (r: &mut Value)
        requires
            self.gi_allowed(old(value).view()),
        ensures
            (*r).view() == self.gi_current(old(value).view()),
            final(value).view() == self.gi_updated(old(value).view(), (*final(r)).view()),
    ;
}

impl IndexOrKey for usize {
    /// A position selects from arrays only.
    open spec fn spec_lookup(self, v: SpecValue) -> Option<SpecValue> {
        match v {
            SpecValue::Array(a) => if self < a.len() {
                Some(a[self as int])
            } else {
                None
            },
            _ => None,
        }
    }

    /// A position replaces that element of an array.
    open spec fn spec_update(self, v: SpecValue, nv: SpecValue) -> SpecValue {
        match v {
            SpecValue::Array(a) => SpecValue::Array(a.update(self as int, nv)),
            _ => v,
        }
    }

    fn get(self, value: &Value) -> (r: Option<&Value>) {
        match value {
            Value::Array(arr) => {
                proof {
                    lemma_values_view(arr@);
                }
                if self < arr.len() {
                    Some(&arr[self])
                } else {
                    None
                }
            },
            _ => None,
        }
    }

    fn get_mut(self, value: &mut Value) -> (r: Option<&mut Value>) {
        match value {
            Value::Array(arr) => {
                let ghost a0 = arr@;
                proof {
                    lemma_values_view(a0);
                }
                if self < arr.len() {
                    let elem = vstd::std_specs::vec::vec_index_mut(arr, self);
                    proof {
                        lemma_values_view(a0.update(self as int, *final(elem)));
                        assert(spec_values_view(a0.update(self as int, *final(elem)))
                            =~= spec_values_view(a0).update(self as int, (*final(elem)).view()));
                    }
                    Some(elem)
                } else {
                    None
                }
            },
            _ => None,
        }
    }

    /// A position vivifies `Null` into an empty array; any other
    /// non-array value is a caller error.
    open spec fn gi_allowed(self, v: SpecValue) -> bool {
        v is Null || v is Array
    }

    open spec fn gi_current(self, v: SpecValue) -> SpecValue {
        match v {
            SpecValue::Array(a) => if self < a.len() {
                a[self as int]
            } else {
                SpecValue::Null
            },
            _ => SpecValue::Null,
        }
    }

    open spec fn gi_updated(self, v: SpecValue, nv: SpecValue) -> SpecValue {
        match v {
            SpecValue::Array(a) => SpecValue::Array(
                spec_extend_with_null(a, self + 1).update(self as int, nv),
            ),
            _ => SpecValue::Array(
                spec_extend_with_null(Seq::empty(), self + 1).update(self as int, nv),
            ),
        }
    }

    fn get_or_insert(self, value: &mut Value) -> (r: &mut Value) {
        let is_null = match value {
            Value::Null => true,
            _ => false,
        };
        if is_null {
            *value = Value::Array(Vec::new());
        }
        match value {
            Value::Array(arr) => {
                let ghost a0 = arr@;
                while arr.len() <= self
                    invariant
                        a0.len() <= arr@.len(),
                        arr@.len() <= self + 1 || arr@.len() == a0.len(),
                        forall|q: int| 0 <= q < a0.len() ==> arr@[q] == a0[q],
                        forall|q: int|
                            a0.len() <= q < arr@.len() ==> #[trigger] arr@[q] == Value::Null,
                    decreases self + 1 - arr@.len(),
                {
                    arr.push(Value::Null);
                }
                let ghost a1 = arr@;
                proof {
                    lemma_values_view(a0);
                    lemma_values_view(a1);
                    assert(spec_values_view(a1) =~= spec_extend_with_null(
                        spec_values_view(a0),
                        self + 1,
                    ));
                }
                let elem = vstd::std_specs::vec::vec_index_mut(arr, self);
                proof {
                    lemma_values_view(a1.update(self as int, *final(elem)));
                    assert(spec_values_view(a1.update(self as int, *final(elem)))
                        =~= spec_values_view(a1).update(self as int, (*final(elem)).view()));
                }
                elem
            },
            _ => vstd::pervasive::unreached(),
        }
    }
}

impl IndexOrKey for &[u8] {
    /// A key selects from objects only.
    open spec fn spec_lookup(self, v: SpecValue) -> Option<SpecValue> {
        match v {
            SpecValue::Object(entries) => spec_obj_get(entries, self@),
            _ => None,
        }
    }

    /// A key replaces the value stored under it in an object.
    open spec fn spec_update(self, v: SpecValue, nv: SpecValue) -> SpecValue {
        match v {
            SpecValue::Object(entries) => SpecValue::Object(
                spec_obj_insert(entries, self@, nv),
            ),
            _ => v,
        }
    }

    fn get(self, value: &Value) -> (r: Option<&Value>) {
        match value {
            Value::Object(map) => map.get(self),
            _ => None,
        }
    }

    fn get_mut(self, value: &mut Value) -> (r: Option<&mut Value>) {
        match value {
            Value::Object(map) => map.get_mut(self),
            _ => None,
        }
    }

    /// A key vivifies `Null` into an empty object; any other non-object
    /// value is a caller error.
    open spec fn gi_allowed(self, v: SpecValue) -> bool {
        v is Null || v is Object
    }

    open spec fn gi_current(self, v: SpecValue) -> SpecValue {
        match v {
            SpecValue::Object(entries) => match spec_obj_get(entries, self@) {
                Some(x) => x,
                None => SpecValue::Null,
            },
            _ => SpecValue::Null,
        }
    }

    open spec fn gi_updated(self, v: SpecValue, nv: SpecValue) -> SpecValue {
        match v {
            SpecValue::Object(entries) => SpecValue::Object(spec_obj_insert(entries, self@, nv)),
            _ => SpecValue::Object(spec_obj_insert(Seq::empty(), self@, nv)),
        }
    }

    fn get_or_insert(self, value: &mut Value) -> (r: &mut Value) {
        let is_null = match value {
            Value::Null => true,
            _ => false,
        };
        if is_null {
            *value = Value::Object(ValueMap::new());
        }
        match value {
            Value::Object(map) => map.get_or_insert(self),
            _ => vstd::pervasive::unreached(),
        }
    }
}

impl IndexOrKey for Vec<u8> {
    /// An owned key selects exactly as the borrowed key does.
    open spec fn spec_lookup(self, v: SpecValue) -> Option<SpecValue> {
        match v {
            SpecValue::Object(entries) => spec_obj_get(entries, self@),
            _ => None,
        }
    }

    fn get(self, value: &Value) -> (r: Option<&Value>) {
        match value {
            Value::Object(map) => map.get(self.as_slice()),
            _ => None,
        }
    }

    fn get_mut(self, value: &mut Value) -> (r: Option<&mut Value>) {
        match value {
            Value::Object(map) => map.get_mut(self.as_slice()),
            _ => None,
        }
    }

    open spec fn gi_allowed(self, v: SpecValue) -> bool {
        v is Null || v is Object
    }

    open spec fn gi_current(self, v: SpecValue) -> SpecValue {
        match v {
            SpecValue::Object(entries) => match spec_obj_get(entries, self@) {
                Some(x) => x,
                None => SpecValue::Null,
            },
            _ => SpecValue::Null,
        }
    }

    open spec fn gi_updated(self, v: SpecValue, nv: SpecValue) -> SpecValue {
        match v {
            SpecValue::Object(entries) => SpecValue::Object(spec_obj_insert(entries, self@, nv)),
            _ => SpecValue::Object(spec_obj_insert(Seq::empty(), self@, nv)),
        }
    }

    /// The model after the selected slot is replaced by `nv`.
    open spec fn spec_update(self, v: SpecValue, nv: SpecValue) -> SpecValue {
        match v {
            SpecValue::Object(entries) => SpecValue::Object(
                spec_obj_insert(entries, self@, nv),
            ),
            _ => v,
        }
    }

    fn get_or_insert(self, value: &mut Value) -> (r: &mut Value) {
        let is_null = match value {
            Value::Null => true,
            _ => false,
        };
        if is_null {
            *value = Value::Object(ValueMap::new());
        }
        match value {
            Value::Object(map) => map.get_or_insert(self.as_slice()),
            _ => vstd::pervasive::unreached(),
        }
    }
}

/// A key type under which a value can be inserted into a [`ValueMap`].
pub trait InsertKey: Sized {
    /// The key, as bytes.
    spec fn spec_key(self) -> Seq<u8>;

    /// Inserts `value` under this key; see [`ValueMap::insert`].
    fn insert_into(self, map: &mut ValueMap, value: Value) -> (prev: Option<Value>)
        ensures
            final(map).view() == spec_obj_insert(old(map).view(), self.spec_key(), value.view()),
            match prev {
                Some(o) => spec_obj_get(old(map).view(), self.spec_key()) == Some(o.view()),
                None => spec_obj_get(old(map).view(), self.spec_key()) is None,
            },
    ;
}

impl InsertKey for Vec<u8> {
    open spec fn spec_key(self) -> Seq<u8> {
        self@
    }

    fn insert_into(self, map: &mut ValueMap, value: Value) -> (prev: Option<Value>) {
        map.insert(self, value)
    }
}

impl InsertKey for &[u8] {
    open spec fn spec_key(self) -> Seq<u8> {
        self@
    }

    fn insert_into(self, map: &mut ValueMap, value: Value) -> (prev: Option<Value>) {
        map.insert(vstd::slice::slice_to_vec(self), value)
    }
}

impl Value {
    /// Pushes `value` onto an array; a `Null` first becomes an empty array.
    /// Any other variant is a caller error, excluded by the precondition.
    pub fn push(&mut self, value: Value)
        requires
            (*old(self)) is Null || (*old(self)) is Array,
        ensures
            (*old(self)) is Null ==> final(self).view() == SpecValue::Array(seq![value.view()]),
            old(self).view() matches SpecValue::Array(a) ==> final(self).view()
                == SpecValue::Array(a.push(value.view())),
    {
        let is_null = match self {
            Value::Null => true,
            _ => false,
        };
        if is_null {
            *self = Value::Array(Vec::new());
            proof {
                lemma_values_view(Seq::<Value>::empty());
            }
        }
        match self {
            Value::Array(arr) => {
                let ghost prev = arr@;
                arr.push(value);
                proof {
                    assert(arr@.drop_last() =~= prev);
                    lemma_values_view(prev);
                    lemma_values_view(arr@);
                    assert(spec_values_view(arr@) =~= spec_values_view(prev).push(value.view()));
                    if prev.len() == 0 {
                        assert(spec_values_view(arr@) =~= seq![value.view()]);
                    }
                }
            },
            _ => {
                proof {
                    assert(false);
                }
            },
        }
    }

    /// Inserts `value` under `k` into an object; a `Null` first becomes an
    /// empty object. Any other variant is a caller error, excluded by the
    /// precondition. Returns the value previously stored under the key.
    pub fn insert<K: InsertKey>(&mut self, k: K, v: Value) -> (prev: Option<Value>)
        requires
            (*old(self)) is Null || (*old(self)) is Object,
        ensures
            (*old(self)) is Null ==> final(self).view() == SpecValue::Object(
                spec_obj_insert(Seq::empty(), k.spec_key(), v.view()),
            ) && prev is None,
            old(self).view() matches SpecValue::Object(entries) ==> final(self).view()
                == SpecValue::Object(spec_obj_insert(entries, k.spec_key(), v.view())) && (
            match prev {
                Some(o) => spec_obj_get(entries, k.spec_key()) == Some(o.view()),
                None => spec_obj_get(entries, k.spec_key()) is None,
            }),
    {
        let is_null = match self {
            Value::Null => true,
            _ => false,
        };
        if is_null {
            *self = Value::Object(ValueMap::new());
        }
        match self {
            Value::Object(map) => k.insert_into(map, v),
            _ => {
                proof {
                    assert(false);
                }
                None
            },
        }
    }

    /// Gets an immutable reference by array position or object key; total
    /// and non-panicking, `None` where the index kind does not match the
    /// variant or nothing is there.
    pub fn get<I: IndexOrKey>(&self, i_k: I) -> (r: Option<&Value>)
        ensures
            match r {
                Some(x) => i_k.spec_lookup(self.view()) == Some(x.view()),
                None => i_k.spec_lookup(self.view()) is None,
            },
    {
        i_k.get(self)
    }

    /// Gets a mutable reference by array position or object key; total and
    /// non-panicking, `None` where the index kind does not match the
    /// variant or nothing is there.
    pub fn get_mut<I: IndexOrKey>(&mut self, i_k: I) -> (r: Option<&mut Value>)
        ensures
            i_k.spec_lookup(old(self).view()) is None ==> r.is_none() && *final(self) == *old(
                self,
            ),
            i_k.spec_lookup(old(self).view()) is Some ==> r.is_some() && (*r.unwrap()).view()
                == i_k.spec_lookup(old(self).view()).unwrap() && final(self).view()
                == i_k.spec_update(old(self).view(), (*final(r.unwrap())).view()),
    {
        i_k.get_mut(self)
    }

    /// Gets a mutable reference to the selected slot, inserting where the
    /// index kind's policy allows it: a key vivifies `Null` into an object
    /// and a missing entry into `Null`; a position vivifies `Null` into an
    /// array and extends it with `Null` elements up to the position. Any
    /// other variant mismatch is a caller error, excluded by the
    /// precondition; see [`IndexOrKey::get_or_insert`].
    pub fn get_or_insert<I: IndexOrKey>(&mut self, i_k: I) -> (r: &mut Value)
        requires
            i_k.gi_allowed(old(self).view()),
        ensures
            (*r).view() == i_k.gi_current(old(self).view()),
            final(self).view() == i_k.gi_updated(old(self).view(), (*final(r)).view()),
    {
        i_k.get_or_insert(self)
    }

    /// The length of a string (in characters), array or object, and zero
    /// for every other variant.
    pub fn len(&self) -> (r: usize)
        ensures
            r == spec_len(self.view()),
    {
        match self {
            Value::String(s) => {
                let n = s.len();
                let mut count: usize = 0;
                let mut i: usize = 0;
                proof {
                    assert(s@.take(0) =~= Seq::<u8>::empty());
                }
                while i < n
                    invariant
                        i <= n,
                        n == s@.len(),
                        count <= i,
                        count == spec_char_count(s@.take(i as int)),
                    decreases n - i,
                {
                    let b = s[i];
                    if b < 0x80 || b > 0xbf {
                        count = count + 1;
                    }
                    i = i + 1;
                    proof {
                        assert(s@.take(i as int).drop_last() =~= s@.take(i - 1));
                        assert(s@.take(i as int).last() == b);
                    }
                }
                proof {
                    assert(s@.take(n as int) =~= s@);
                }
                count
            },
            Value::Array(a) => {
                proof {
                    lemma_values_view(a@);
                }
                a.len()
            },
            Value::Object(m) => m.len(),
            _ => 0,
        }
    }
}

impl From<bool> for Value {
    /// A boolean value.
    fn from(value: bool) -> (r: Value) {
        Value::Boolean(value)
    }
}

impl vstd::std_specs::convert::FromSpecImpl<bool> for Value {
    open spec fn obeys_from_spec() -> bool {
        true
    }

    open spec fn from_spec(value: bool) -> Value {
        Value::Boolean(value)
    }
}

impl From<i64> for Value {
    /// An integer number.
    fn from(value: i64) -> (r: Value) {
        Value::Number(Number::Int(value))
    }
}

impl vstd::std_specs::convert::FromSpecImpl<i64> for Value {
    open spec fn obeys_from_spec() -> bool {
        true
    }

    open spec fn from_spec(value: i64) -> Value {
        Value::Number(Number::Int(value))
    }
}

impl From<Vec<u8>> for Value {
    /// A string value, from its UTF-8 bytes.
    fn from(value: Vec<u8>) -> (r: Value) {
        Value::String(value)
    }
}

impl vstd::std_specs::convert::FromSpecImpl<Vec<u8>> for Value {
    open spec fn obeys_from_spec() -> bool {
        true
    }

    open spec fn from_spec(value: Vec<u8>) -> Value {
        Value::String(value)
    }
}

impl From<Vec<Value>> for Value {
    /// An array value.
    fn from(value: Vec<Value>) -> (r: Value) {
        Value::Array(value)
    }
}

impl vstd::std_specs::convert::FromSpecImpl<Vec<Value>> for Value {
    open spec fn obeys_from_spec() -> bool {
        true
    }

    open spec fn from_spec(value: Vec<Value>) -> Value {
        Value::Array(value)
    }
}

impl From<ValueMap> for Value {
    /// An object value.
    fn from(value: ValueMap) -> (r: Value) {
        Value::Object(value)
    }
}

impl vstd::std_specs::convert::FromSpecImpl<ValueMap> for Value {
    open spec fn obeys_from_spec() -> bool {
        true
    }

    open spec fn from_spec(value: ValueMap) -> Value {
        Value::Object(value)
    }
}

/// Array-building convenience on the underlying vector.
pub trait ArrayExt {
    /// Appends a value.
    fn push_value(&mut self, value: Value);
}

impl ArrayExt for Vec<Value> {
    fn push_value(&mut self, value: Value)
        ensures
            final(self)@ == old(self)@.push(value),
    {
        self.push(value);
    }
}

/// Object-building convenience on the underlying mapping.
pub trait ObjectExt {
    /// Inserts a value under a key, returning what it replaced.
    fn insert_value(&mut self, key: Vec<u8>, value: Value) -> Option<Value>;
}

impl ObjectExt for ValueMap {
    fn insert_value(&mut self, key: Vec<u8>, value: Value) -> (prev: Option<Value>)
        ensures
            final(self).view() == spec_obj_insert(old(self).view(), key@, value.view()),
            match prev {
                Some(o) => spec_obj_get(old(self).view(), key@) == Some(o.view()),
                None => spec_obj_get(old(self).view(), key@) is None,
            },
    {
        self.insert(key, value)
    }
}

} // verus!
