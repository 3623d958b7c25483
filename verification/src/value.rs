//! JSON values, JSON objects, and their accessors.

use vstd::prelude::*;
use crate::number::{JsonNumber, SpecNumber};
use crate::text::chars_of;

verus! {

/// A JSON value.
#[derive(Debug, PartialEq)]
pub enum JsonValue {
    Null,
    Boolean(bool),
    Number(JsonNumber),
    String(String),
    /// An ordered list of values.
    Array(Vec<JsonValue>),
    /// An unordered map from keys to values.
    Object(JsonObject),
}

/// A JSON object: a map from string keys to values, each key at most once.
///
/// The entries are kept sorted by key, so that two objects with the same
/// keys and values are equal whatever order they were built in.
#[derive(Debug, PartialEq)]
pub struct JsonObject {
    entries: Vec<(String, JsonValue)>,
}

/// What a JSON value holds, as plain values.
pub enum SpecValue {
    Null,
    Boolean(bool),
    Number(SpecNumber),
    String(Seq<char>),
    Array(Seq<SpecValue>),
    Object(Map<Seq<char>, SpecValue>),
}

/// The plain value of a JSON value.
pub open spec fn value_view(v: JsonValue) -> SpecValue
    decreases v,
{
    match v {
        JsonValue::Null => SpecValue::Null,
        JsonValue::Boolean(b) => SpecValue::Boolean(b),
        JsonValue::Number(n) => SpecValue::Number(n@),
        JsonValue::String(s) => SpecValue::String(s@),
        JsonValue::Array(a) => SpecValue::Array(values_view(a@)),
        JsonValue::Object(o) => SpecValue::Object(object_view(o)),
    }
}

/// The plain values of a sequence of JSON values.
pub open spec fn values_view(s: Seq<JsonValue>) -> Seq<SpecValue>
    decreases s,
{
    if s.len() == 0 {
        Seq::<SpecValue>::empty()
    } else {
        values_view(s.subrange(0, s.len() - 1)).push(value_view(s[s.len() - 1]))
    }
}

/// The map that a sequence of entries with distinct keys holds.
pub open spec fn entries_map(s: Seq<(String, JsonValue)>) -> Map<Seq<char>, SpecValue>
    decreases s,
{
    if s.len() == 0 {
        Map::<Seq<char>, SpecValue>::empty()
    } else {
        entries_map(s.subrange(0, s.len() - 1)).insert(
            s[s.len() - 1].0@,
            value_view(s[s.len() - 1].1),
        )
    }
}

/// The map that an object holds.
pub closed spec fn object_view(o: JsonObject) -> Map<Seq<char>, SpecValue>
    decreases o,
{
    entries_map(o.entries@)
}

impl View for JsonValue {
    type V = SpecValue;

    open spec fn view(&self) -> SpecValue {
        value_view(*self)
    }
}

impl View for JsonObject {
    type V = Map<Seq<char>, SpecValue>;

    open spec fn view(&self) -> Map<Seq<char>, SpecValue> {
        object_view(*self)
    }
}

// ---------------------------------------------------------------------------
// The order of keys.

/// `a` comes before `b` in the lexicographic order of their characters.
pub open spec fn key_less(a: Seq<char>, b: Seq<char>) -> bool
    decreases a.len(),
{
    if a.len() == 0 {
        b.len() > 0
    } else if b.len() == 0 {
        false
    } else if a[0] != b[0] {
        a[0] < b[0]
    } else {
        key_less(a.drop_first(), b.drop_first())
    }
}

proof fn lemma_key_less_irreflexive(a: Seq<char>)
    ensures
        !key_less(a, a),
    decreases a.len(),
{
    if a.len() > 0 {
        lemma_key_less_irreflexive(a.drop_first());
    }
}

proof fn lemma_key_less_total(a: Seq<char>, b: Seq<char>)
    ensures
        a == b || key_less(a, b) || key_less(b, a),
        !(key_less(a, b) && key_less(b, a)),
    decreases a.len(),
{
    if a.len() > 0 && b.len() > 0 {
        lemma_key_less_total(a.drop_first(), b.drop_first());
        if a[0] == b[0] && a.drop_first() == b.drop_first() {
            assert forall|i: int| 0 <= i < a.len() implies a[i] == b[i] by {
                if i > 0 {
                    assert(a[i] == a.drop_first()[i - 1]);
                    assert(b[i] == b.drop_first()[i - 1]);
                }
            }
            assert(a =~= b);
        }
    } else if a.len() == 0 && b.len() == 0 {
        assert(a == b);
    }
}

proof fn lemma_key_less_transitive(a: Seq<char>, b: Seq<char>, c: Seq<char>)
    requires
        key_less(a, b),
        key_less(b, c),
    ensures
        key_less(a, c),
    decreases a.len(),
{
    if a.len() > 0 && b.len() > 0 && c.len() > 0 && a[0] == b[0] && b[0] == c[0] {
        lemma_key_less_transitive(a.drop_first(), b.drop_first(), c.drop_first());
    }
}

/// `a` comes before `b` among keys.
fn key_is_less(a: &String, b: &String) -> (r: bool)
    ensures
        r == key_less(a@, b@),
{
    let x = chars_of(a.as_str());
    let y = chars_of(b.as_str());
    let mut j: usize = 0;
    assert(a@.skip(0) == a@ && b@.skip(0) == b@);
    while j < x.len() && j < y.len() && x[j] == y[j]
        invariant
            x@ == a@,
            y@ == b@,
            j <= x.len(),
            j <= y.len(),
            key_less(a@, b@) == key_less(a@.skip(j as int), b@.skip(j as int)),
        decreases x.len() - j,
    {
        assert(a@.skip(j as int).drop_first() == a@.skip(j + 1));
        assert(b@.skip(j as int).drop_first() == b@.skip(j + 1));
        assert(a@.skip(j as int)[0] == x@[j as int]);
        assert(b@.skip(j as int)[0] == y@[j as int]);
        j = j + 1;
    }
    if j == x.len() {
        j < y.len()
    } else if j == y.len() {
        false
    } else {
        assert(a@.skip(j as int)[0] == x@[j as int]);
        assert(b@.skip(j as int)[0] == y@[j as int]);
        x[j] < y[j]
    }
}

// ---------------------------------------------------------------------------
// What the entries of an object hold.

/// The keys of a sequence of entries come in strictly increasing order.
pub open spec fn sorted_keys(s: Seq<(String, JsonValue)>) -> bool {
    forall|i: int, j: int| 0 <= i < j < s.len() ==> key_less(#[trigger] s[i].0@, #[trigger] s[j].0@)
}

/// The map of entries holds the key of each entry, with its value, and no
/// other key.
proof fn lemma_entries_map(s: Seq<(String, JsonValue)>)
    requires
        sorted_keys(s),
    ensures
        forall|i: int| #![trigger s[i]] 0 <= i < s.len() ==> entries_map(s).contains_key(s[i].0@)
            && entries_map(s)[s[i].0@] == value_view(s[i].1),
        forall|k: Seq<char>| #[trigger] entries_map(s).contains_key(k) ==> exists|i: int|
            0 <= i < s.len() && s[i].0@ == k,
        entries_map(s).dom().finite(),
        entries_map(s).dom().len() == s.len(),
    decreases s.len(),
{
    if s.len() > 0 {
        let t = s.subrange(0, s.len() - 1);
        assert(sorted_keys(t));
        lemma_entries_map(t);
        let last = s[s.len() - 1];
        assert forall|i: int| 0 <= i < t.len() implies t[i].0@ != last.0@ by {
            assert(t[i] == s[i]);
            lemma_key_less_irreflexive(last.0@);
        }
        assert(!entries_map(t).contains_key(last.0@));
        assert forall|i: int| #![trigger s[i]] 0 <= i < s.len() implies entries_map(s).contains_key(
            s[i].0@,
        ) && entries_map(s)[s[i].0@] == value_view(s[i].1) by {
            if i < s.len() - 1 {
                assert(t[i] == s[i]);
            }
        }
        assert forall|k: Seq<char>| #[trigger] entries_map(s).contains_key(k) implies exists|i: int|
            0 <= i < s.len() && s[i].0@ == k by {
            if k != last.0@ {
                let i = choose|i: int| 0 <= i < t.len() && t[i].0@ == k;
                assert(s[i] == t[i]);
            }
        }
    }
}

impl JsonObject {
    #[verifier::type_invariant]
    closed spec fn wf(self) -> bool {
        sorted_keys(self.entries@)
    }

    /// An object with no entries.
    pub fn new() -> (r: JsonObject)
        ensures
            r@ == Map::<Seq<char>, SpecValue>::empty(),
    {
        let r = JsonObject { entries: Vec::new() };
        assert(object_view(r) == Map::<Seq<char>, SpecValue>::empty());
        r
    }

    /// The number of entries.
    pub fn len(&self) -> (r: usize)
        ensures
            self@.dom().finite(),
            r == self@.dom().len(),
    {
        proof {
            use_type_invariant(self);
            lemma_entries_map(self.entries@);
        }
        self.entries.len()
    }

    /// The object has no entries.
    pub fn is_empty(&self) -> (r: bool)
        ensures
            r == (self@.dom().len() == 0),
            self@.dom().finite(),
    {
        self.len() == 0
    }

    /// Whether the object holds `key`.
    pub fn contains_key(&self, key: &str) -> (r: bool)
        ensures
            r == self@.contains_key(key@),
    {
        self.get(key).is_some()
    }

    /// The value of `key`, or `None` where the object does not hold it.
    pub fn get(&self, key: &str) -> (r: Option<&JsonValue>)
        ensures
            match r {
                Some(v) => self@.contains_key(key@) && v@ == self@[key@],
                None => !self@.contains_key(key@),
            },
    {
        proof {
            use_type_invariant(self);
            lemma_entries_map(self.entries@);
        }
        let k = key.to_owned();
        let mut i: usize = 0;
        while i < self.entries.len()
            invariant
                k@ == key@,
                i <= self.entries.len(),
                forall|m: int| 0 <= m < i ==> self.entries@[m].0@ != key@,
            decreases self.entries.len() - i,
        {
            if self.entries[i].0 == k {
                proof {
                    use_type_invariant(self);
                    lemma_entries_map(self.entries@);
                }
                return Some(&self.entries[i].1);
            }
            i = i + 1;
        }
        proof {
            use_type_invariant(self);
            lemma_entries_map(self.entries@);
        }
        None
    }

    /// The entries, sorted by key.
    pub fn entries(&self) -> (r: &Vec<(String, JsonValue)>)
        ensures
            sorted_keys(r@),
            entries_map(r@) == self@,
    {
        proof {
            use_type_invariant(self);
        }
        &self.entries
    }

    /// Sets the value of `key` to `value`: a new entry where the object does
    /// not hold `key`, else a replacement of its value.
    #[verifier::rlimit(40)]
    pub fn insert(&mut self, key: String, value: JsonValue)
        ensures
            final(self)@ == old(self)@.insert(key@, value@),
    {
        proof {
            use_type_invariant(&*self);
        }
        let mut entries: Vec<(String, JsonValue)> = Vec::new();
        std::mem::swap(&mut entries, &mut self.entries);
        let ghost old_entries = entries@;
        proof {
            lemma_entries_map(old_entries);
        }
        let mut i: usize = 0;
        while i < entries.len() && key_is_less(&entries[i].0, &key)
            invariant
                entries@ == old_entries,
                sorted_keys(old_entries),
                i <= entries.len(),
                forall|m: int| 0 <= m < i ==> key_less(#[trigger] old_entries[m].0@, key@),
            decreases entries.len() - i,
        {
            i = i + 1;
        }
        if i < entries.len() && entries[i].0 == key {
            let ghost kk = key@;
            let ghost vv = value_view(value);
            entries.set(i, (key, value));
            proof {
                assert(sorted_keys(entries@)) by {
                    assert forall|a: int, b: int| 0 <= a < b < entries@.len() implies key_less(
                        #[trigger] entries@[a].0@,
                        #[trigger] entries@[b].0@,
                    ) by {
                        assert(old_entries[a].0@ == entries@[a].0@);
                        assert(old_entries[b].0@ == entries@[b].0@);
                    }
                }
                lemma_entries_map(entries@);
                assert(entries@[i as int].0@ == kk);
                assert(old_entries[i as int].0@ == kk);
                assert(entries_map(entries@) =~= entries_map(old_entries).insert(kk, vv)) by {
                    assert forall|k: Seq<char>| #[trigger] entries_map(entries@).contains_key(k)
                        implies entries_map(old_entries).insert(kk, vv).contains_key(k) by {
                        let m = choose|m: int| 0 <= m < entries@.len() && entries@[m].0@ == k;
                        if m != i {
                            assert(old_entries[m] == entries@[m]);
                        }
                    }
                    assert forall|k: Seq<char>| #[trigger] entries_map(old_entries).insert(kk, vv).contains_key(k)
                        implies entries_map(entries@).contains_key(k) by {
                        if k != kk {
                            let m = choose|m: int| 0 <= m < old_entries.len() && old_entries[m].0@ == k;
                            assert(old_entries[m] == entries@[m]);
                        }
                    }
                    assert forall|k: Seq<char>| #[trigger] entries_map(entries@).contains_key(k)
                        implies entries_map(entries@)[k] == entries_map(old_entries).insert(kk, vv)[k] by {
                        let m = choose|m: int| 0 <= m < entries@.len() && entries@[m].0@ == k;
                        if m != i {
                            assert(old_entries[m] == entries@[m]);
                        }
                    }
                }
            }
        } else {
            let ghost kk = key@;
            let ghost vv = value_view(value);
            entries.insert(i, (key, value));
            proof {
                assert(sorted_keys(entries@)) by {
                    assert forall|a: int, b: int| 0 <= a < b < entries@.len() implies key_less(
                        #[trigger] entries@[a].0@,
                        #[trigger] entries@[b].0@,
                    ) by {
                        if b < i {
                            assert(entries@[a] == old_entries[a] && entries@[b] == old_entries[b]);
                        } else if b == i {
                            assert(entries@[a] == old_entries[a]);
                        } else if a == i {
                            assert(entries@[b] == old_entries[b - 1]);
                            if i < old_entries.len() {
                                lemma_key_less_total(kk, old_entries[i as int].0@);
                                if b - 1 > i {
                                    lemma_key_less_transitive(
                                        kk,
                                        old_entries[i as int].0@,
                                        old_entries[b - 1].0@,
                                    );
                                }
                            }
                        } else if a < i {
                            assert(entries@[a] == old_entries[a]);
                            assert(entries@[b] == old_entries[b - 1]);
                        } else {
                            assert(entries@[a] == old_entries[a - 1]);
                            assert(entries@[b] == old_entries[b - 1]);
                        }
                    }
                }
                lemma_entries_map(entries@);
                assert(!entries_map(old_entries).contains_key(kk)) by {
                    if entries_map(old_entries).contains_key(kk) {
                        let m = choose|m: int| 0 <= m < old_entries.len() && old_entries[m].0@ == kk;
                        if m < i {
                            lemma_key_less_irreflexive(kk);
                        } else {
                            lemma_key_less_total(kk, old_entries[i as int].0@);
                            if m > i {
                                lemma_key_less_transitive(
                                    kk,
                                    old_entries[i as int].0@,
                                    old_entries[m].0@,
                                );
                                lemma_key_less_irreflexive(kk);
                            }
                        }
                    }
                }
                assert(entries_map(entries@) =~= entries_map(old_entries).insert(kk, vv)) by {
                    assert forall|k: Seq<char>| #[trigger] entries_map(entries@).contains_key(k)
                        <==> entries_map(old_entries).insert(kk, vv).contains_key(k) by {
                        if entries_map(entries@).contains_key(k) {
                            let m = choose|m: int| 0 <= m < entries@.len() && entries@[m].0@ == k;
                            if m < i {
                                assert(old_entries[m] == entries@[m]);
                            } else if m > i {
                                assert(old_entries[m - 1] == entries@[m]);
                            }
                        }
                        if entries_map(old_entries).contains_key(k) {
                            let m = choose|m: int| 0 <= m < old_entries.len() && old_entries[m].0@ == k;
                            if m < i {
                                assert(entries@[m] == old_entries[m]);
                            } else {
                                assert(entries@[m + 1] == old_entries[m]);
                            }
                        }
                    }
                    assert forall|k: Seq<char>| #[trigger] entries_map(entries@).contains_key(k)
                        implies entries_map(entries@)[k] == entries_map(old_entries).insert(kk, vv)[k] by {
                        let m = choose|m: int| 0 <= m < entries@.len() && entries@[m].0@ == k;
                        if m < i {
                            assert(old_entries[m] == entries@[m]);
                        } else if m > i {
                            assert(old_entries[m - 1] == entries@[m]);
                        }
                    }
                }
            }
        }
        self.entries = entries;
    }
}

// ---------------------------------------------------------------------------
// Copies.

impl JsonValue {
    /// A copy of this value.
    pub fn deep_copy(&self) -> (r: JsonValue)
        ensures
            r@ == self@,
        decreases self,
    {
        match self {
            JsonValue::Null => JsonValue::Null,
            JsonValue::Boolean(b) => JsonValue::Boolean(*b),
            JsonValue::Number(n) => JsonValue::Number(n.duplicate()),
            JsonValue::String(s) => JsonValue::String(s.clone()),
            JsonValue::Array(a) => {
                let mut c: Vec<JsonValue> = Vec::new();
                for i in 0..a.len()
                    invariant
                        *self == JsonValue::Array(*a),
                        c@.len() == i,
                        forall|m: int| 0 <= m < i ==> value_view(#[trigger] c@[m]) == value_view(
                            a@[m],
                        ),
                {
                    proof {
                        assert(self->Array_0 == *a);
                        assert(decreases_to!(*self => self->Array_0));
                        assert(decreases_to!(*a => a@));
                        assert(decreases_to!(a@ => a@[i as int]));
                    }
                    let x = a[i].deep_copy();
                    c.push(x);
                }
                proof {
                    lemma_values_view(a@);
                    lemma_values_view(c@);
                    assert(values_view(c@) =~= values_view(a@));
                }
                JsonValue::Array(c)
            },
            JsonValue::Object(o) => JsonValue::Object(o.deep_copy()),
        }
    }
}

impl JsonObject {
    /// A copy of this object.
    pub fn deep_copy(&self) -> (r: JsonObject)
        ensures
            r@ == self@,
        decreases self,
    {
        proof {
            use_type_invariant(self);
        }
        let mut c: Vec<(String, JsonValue)> = Vec::new();
        for i in 0..self.entries.len()
            invariant
                c@.len() == i,
                forall|m: int| 0 <= m < i ==> (#[trigger] c@[m]).0@ == self.entries@[m].0@
                    && value_view(c@[m].1) == value_view(self.entries@[m].1),
        {
            let k = self.entries[i].0.clone();
            let v = self.entries[i].1.deep_copy();
            c.push((k, v));
        }
        proof {
            assert(sorted_keys(c@)) by {
                assert forall|a: int, b: int| 0 <= a < b < c@.len() implies key_less(
                    #[trigger] c@[a].0@,
                    #[trigger] c@[b].0@,
                ) by {
                    assert(c@[a].0@ == self.entries@[a].0@);
                    assert(c@[b].0@ == self.entries@[b].0@);
                }
            }
            lemma_entries_map(c@);
            lemma_entries_map(self.entries@);
            assert(entries_map(c@) =~= entries_map(self.entries@)) by {
                assert forall|k: Seq<char>| #[trigger] entries_map(c@).contains_key(k)
                    <==> entries_map(self.entries@).contains_key(k) by {
                    if entries_map(c@).contains_key(k) {
                        let m = choose|m: int| 0 <= m < c@.len() && c@[m].0@ == k;
                        assert(self.entries@[m].0@ == k);
                    }
                    if entries_map(self.entries@).contains_key(k) {
                        let m = choose|m: int| 0 <= m < self.entries@.len() && self.entries@[m].0@ == k;
                        assert(c@[m].0@ == k);
                    }
                }
                assert forall|k: Seq<char>| #[trigger] entries_map(c@).contains_key(k)
                    implies entries_map(c@)[k] == entries_map(self.entries@)[k] by {
                    let m = choose|m: int| 0 <= m < c@.len() && c@[m].0@ == k;
                    assert(self.entries@[m].0@ == k);
                }
            }
        }
        JsonObject { entries: c }
    }
}

impl Clone for JsonValue {
    fn clone(&self) -> (r: JsonValue)
        ensures
            r@ == self@,
    {
        self.deep_copy()
    }
}

impl Clone for JsonObject {
    fn clone(&self) -> (r: JsonObject)
        ensures
            r@ == self@,
    {
        self.deep_copy()
    }
}

// ---------------------------------------------------------------------------
// Accessors.

impl JsonValue {
    /// The value is `null`.
    pub fn is_null(&self) -> (r: bool)
        ensures
            r == (self@ is Null),
    {
        match self {
            JsonValue::Null => true,
            _ => false,
        }
    }

    /// The text of a string value, or `None` for any other value.
    pub fn as_str(&self) -> (r: Option<&str>)
        ensures
            match self@ {
                SpecValue::String(s) => r matches Some(x) && x@ == s,
                _ => r is None,
            },
    {
        match self {
            JsonValue::String(s) => Some(s.as_str()),
            _ => None,
        }
    }

    /// The number of a number value, or `None` for any other value.
    pub fn as_number(&self) -> (r: Option<&JsonNumber>)
        ensures
            match self@ {
                SpecValue::Number(n) => r matches Some(x) && x@ == n,
                _ => r is None,
            },
    {
        match self {
            JsonValue::Number(n) => Some(n),
            _ => None,
        }
    }

    /// The boolean of a boolean value, or `None` for any other value.
    pub fn as_bool(&self) -> (r: Option<bool>)
        ensures
            r == (match self@ {
                SpecValue::Boolean(b) => Some(b),
                _ => None,
            }),
    {
        match self {
            JsonValue::Boolean(b) => Some(*b),
            _ => None,
        }
    }

    /// The elements of an array value, or `None` for any other value.
    pub fn as_array(&self) -> (r: Option<&Vec<JsonValue>>)
        ensures
            match self@ {
                SpecValue::Array(s) => r matches Some(a) && values_view(a@) == s,
                _ => r is None,
            },
    {
        match self {
            JsonValue::Array(a) => Some(a),
            _ => None,
        }
    }

    /// The object of an object value, or `None` for any other value.
    pub fn as_object(&self) -> (r: Option<&JsonObject>)
        ensures
            match self@ {
                SpecValue::Object(m) => r matches Some(o) && o@ == m,
                _ => r is None,
            },
    {
        match self {
            JsonValue::Object(o) => Some(o),
            _ => None,
        }
    }

    /// The element at `index` of an array value; `None` where the index is
    /// out of bounds or the value is not an array.
    pub fn get_index(&self, index: usize) -> (r: Option<&JsonValue>)
        ensures
            match self@ {
                SpecValue::Array(s) => if index < s.len() {
                    r matches Some(v) && v@ == s[index as int]
                } else {
                    r is None
                },
                _ => r is None,
            },
    {
        match self {
            JsonValue::Array(a) => {
                proof {
                    lemma_values_view(a@);
                }
                if index < a.len() {
                    Some(&a[index])
                } else {
                    None
                }
            },
            _ => None,
        }
    }

    /// The value of `key` in an object value; `None` where the object does
    /// not hold the key or the value is not an object.
    pub fn get(&self, key: &str) -> (r: Option<&JsonValue>)
        ensures
            match self@ {
                SpecValue::Object(m) => match r {
                    Some(v) => m.contains_key(key@) && v@ == m[key@],
                    None => !m.contains_key(key@),
                },
                _ => r is None,
            },
    {
        match self {
            JsonValue::Object(o) => o.get(key),
            _ => None,
        }
    }
}

// ---------------------------------------------------------------------------
// Laws of objects and values.

/// Law: after `insert(k, v)`, `get(k)` gives `v`; every other key keeps
/// what it had; the number of entries grows by one exactly when `k` was not
/// there.
pub proof fn law_object_insert_get(
    m: Map<Seq<char>, SpecValue>,
    k: Seq<char>,
    v: SpecValue,
    other: Seq<char>,
)
    requires
        m.dom().finite(),
    ensures
        m.insert(k, v).contains_key(k),
        m.insert(k, v)[k] == v,
        other != k ==> m.insert(k, v).contains_key(other) == m.contains_key(other),
        other != k && m.contains_key(other) ==> m.insert(k, v)[other] == m[other],
        m.insert(k, v).dom().finite(),
        m.insert(k, v).dom().len() == if m.contains_key(k) {
            m.dom().len()
        } else {
            m.dom().len() + 1
        },
{
    if m.contains_key(k) {
        assert(m.insert(k, v).dom() =~= m.dom());
    } else {
        assert(m.insert(k, v).dom() =~= m.dom().insert(k));
    }
}

/// Law: the entries of an object are determined by the map it holds: two
/// objects that hold the same map have the same keys in the same order,
/// with equal values. So objects compare equal whatever order their
/// entries were inserted in.
pub proof fn law_object_entries_canonical(s1: Seq<(String, JsonValue)>, s2: Seq<(String, JsonValue)>)
    requires
        sorted_keys(s1),
        sorted_keys(s2),
        entries_map(s1) == entries_map(s2),
    ensures
        s1.len() == s2.len(),
        forall|i: int| 0 <= i < s1.len() ==> (#[trigger] s1[i]).0@ == s2[i].0@ && value_view(s1[i].1)
            == value_view(s2[i].1),
{
    lemma_entries_map(s1);
    lemma_entries_map(s2);
    assert forall|i: int| 0 <= i < s1.len() implies (#[trigger] s1[i]).0@ == s2[i].0@ by {
        lemma_same_key_at(s1, s2, i);
    }
    assert forall|i: int| 0 <= i < s1.len() implies value_view((#[trigger] s1[i]).1) == value_view(
        s2[i].1,
    ) by {
        lemma_same_key_at(s1, s2, i);
        assert(entries_map(s1)[s1[i].0@] == value_view(s1[i].1));
        assert(entries_map(s2)[s2[i].0@] == value_view(s2[i].1));
    }
}

/// Two sorted entry sequences over the same map have the same key at `i`.
#[verifier::rlimit(40)]
proof fn lemma_same_key_at(s1: Seq<(String, JsonValue)>, s2: Seq<(String, JsonValue)>, i: int)
    requires
        sorted_keys(s1),
        sorted_keys(s2),
        entries_map(s1) == entries_map(s2),
        0 <= i < s1.len(),
    ensures
        i < s2.len(),
        s1[i].0@ == s2[i].0@,
    decreases i,
{
    lemma_entries_map(s1);
    lemma_entries_map(s2);
    if i > 0 {
        lemma_same_key_at(s1, s2, i - 1);
    }
    assert forall|j: int| 0 <= j < i implies s1[j].0@ == s2[j].0@ by {
        lemma_same_key_at(s1, s2, j);
    }
    let a = s1[i].0@;
    let b = s2[i].0@;
    // The key `a` stands somewhere in `s2`, and `b` somewhere in `s1`.
    assert(entries_map(s2).contains_key(a));
    let m = choose|m: int| 0 <= m < s2.len() && s2[m].0@ == a;
    assert(entries_map(s1).contains_key(b));
    let l = choose|l: int| 0 <= l < s1.len() && s1[l].0@ == b;
    if a != b {
        lemma_key_less_total(a, b);
        if key_less(a, b) {
            // `a` cannot stand before `i` in `s2` (those keys are those of
            // `s1`, all below `a`), nor after `i` (those keys are above `b`).
            if m < i {
                assert(s1[m].0@ == s2[m].0@);
                assert(key_less(s1[m].0@, s1[i].0@));
                lemma_key_less_irreflexive(a);
            } else if m > i {
                assert(key_less(s2[i].0@, s2[m].0@));
            } else {
            }
        } else {
            if l < i {
                assert(s1[l].0@ == s2[l].0@);
                assert(key_less(s2[l].0@, s2[i].0@));
                lemma_key_less_irreflexive(b);
            } else if l > i {
                assert(key_less(s1[i].0@, s1[l].0@));
            } else {
            }
        }
    }
}

/// Law: every value answers exactly one of the accessors `is_null`,
/// `as_bool`, `as_number`, `as_str`, `as_array`, `as_object`.
pub proof fn law_one_kind_per_value(v: SpecValue)
    ensures
        (v is Null) as int + (v is Boolean) as int + (v is Number) as int + (v is String) as int
            + (v is Array) as int + (v is Object) as int == 1,
{
}

/// The plain values of a sequence of values, element by element.
pub proof fn lemma_values_view(s: Seq<JsonValue>)
    ensures
        values_view(s).len() == s.len(),
        forall|i: int| 0 <= i < s.len() ==> #[trigger] values_view(s)[i] == value_view(s[i]),
    decreases s.len(),
{
    if s.len() > 0 {
        let t = s.subrange(0, s.len() - 1);
        lemma_values_view(t);
        assert forall|i: int| 0 <= i < s.len() implies #[trigger] values_view(s)[i] == value_view(
            s[i],
        ) by {
            if i < s.len() - 1 {
                assert(t[i] == s[i]);
            }
        }
    }
}

} // verus!
