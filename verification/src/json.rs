//! The value model: a closed tagged union, a number that keeps its text, and
//! an object whose entries are kept in the order of their keys.
use vstd::prelude::*;

use crate::order::{
    key_lt, key_order, lemma_key_lt_asymmetric, lemma_key_lt_total, lemma_key_lt_transitive,
    KeyOrder,
};

verus! {

/// A JSON value as contracts see it.
///
/// A number is its decimal text, a string its characters, an object the
/// sequence of its entries.
pub enum JsonModel {
    Null,
    Bool(bool),
    Number(Seq<char>),
    String(Seq<char>),
    Array(Seq<JsonModel>),
    Object(Seq<(Seq<char>, JsonModel)>),
}

/// Whether some entry of `entries` has the key `key`.
pub open spec fn has_key<V>(entries: Seq<(Seq<char>, V)>, key: Seq<char>) -> bool {
    exists|i: int| 0 <= i < entries.len() && (#[trigger] entries[i]).0 == key
}

/// The index of the entry with the key `key`, where there is one.
pub open spec fn index_of_key<V>(entries: Seq<(Seq<char>, V)>, key: Seq<char>) -> int {
    choose|i: int| 0 <= i < entries.len() && (#[trigger] entries[i]).0 == key
}

/// The keys grow strictly from each entry to every later one; so no key occurs twice.
pub open spec fn keys_sorted<V>(entries: Seq<(Seq<char>, V)>) -> bool {
    forall|i: int, j: int|
        0 <= i < j < entries.len() ==> key_lt((#[trigger] entries[i]).0, (#[trigger] entries[j]).0)
}

/// How many of the first `n` entries have a key that comes before `key`.
pub open spec fn rank_upto<V>(entries: Seq<(Seq<char>, V)>, key: Seq<char>, n: int) -> int
    decreases n,
{
    if n <= 0 {
        0
    } else {
        rank_upto(entries, key, n - 1) + if key_lt(entries[n - 1].0, key) {
            1int
        } else {
            0int
        }
    }
}

/// How many entries have a key that comes before `key`: the index at which
/// an entry with that key belongs.
pub open spec fn rank<V>(entries: Seq<(Seq<char>, V)>, key: Seq<char>) -> int {
    rank_upto(entries, key, entries.len() as int)
}

/// The entries after `key` has been given the value `value`: replaced where
/// the key was present, put in at its place in the order where it was not.
#[verifier::opaque]
pub open spec fn put<V>(entries: Seq<(Seq<char>, V)>, key: Seq<char>, value: V) -> Seq<
    (Seq<char>, V),
> {
    if has_key(entries, key) {
        entries.update(index_of_key(entries, key), (key, value))
    } else {
        entries.insert(rank(entries, key), (key, value))
    }
}

/// The entries after each of `items`, from index `k` on, has been given its
/// value, one after the other: of two items with one key the later stays.
pub open spec fn put_all<V>(base: Seq<(Seq<char>, V)>, items: Seq<(Seq<char>, V)>, k: int) -> Seq<
    (Seq<char>, V),
>
    decreases items.len() - k,
{
    if k < 0 || k >= items.len() {
        base
    } else {
        put_all(put(base, items[k].0, items[k].1), items, k + 1)
    }
}

/// Where the first `p` keys come before `key` and no later one does, `p` is the rank.
pub proof fn lemma_rank_is<V>(entries: Seq<(Seq<char>, V)>, key: Seq<char>, p: int, n: int)
    requires
        0 <= p <= entries.len(),
        0 <= n <= entries.len(),
        forall|i: int| 0 <= i < p ==> key_lt((#[trigger] entries[i]).0, key),
        forall|i: int| p <= i < entries.len() ==> !key_lt((#[trigger] entries[i]).0, key),
    ensures
        rank_upto(entries, key, n) == if n <= p {
            n
        } else {
            p
        },
    decreases n,
{
    if n > 0 {
        lemma_rank_is(entries, key, p, n - 1);
    }
}

impl JsonModel {
    /// Every number is the text of a JSON number, and the keys of every
    /// object, at any depth, are in order.
    pub open spec fn wf(self) -> bool
        decreases self,
    {
        match self {
            JsonModel::Number(n) => crate::grammar::is_number_text(n),
            JsonModel::Array(items) => forall|i: int|
                0 <= i < items.len() ==> (#[trigger] items[i]).wf(),
            JsonModel::Object(entries) => keys_sorted(entries) && forall|i: int|
                0 <= i < entries.len() ==> (#[trigger] entries[i]).1.wf(),
            _ => true,
        }
    }
}

/// The decimal text of a JSON number, kept as it was written.
#[derive(Debug)]
pub struct Number {
    value: String,
}

impl View for Number {
    type V = Seq<char>;

    closed spec fn view(&self) -> Seq<char> {
        self.value@
    }
}

impl Number {
    /// The number with the given text.
    pub fn new(value: String) -> (n: Self)
        ensures
            n@ == value@,
    {
        Self { value }
    }

    /// The number's text read as a value of the type `F`.
    ///
    /// Calls `str::parse`, which hands the text to `F`'s `FromStr`; what comes
    /// back is for that impl to say, and `None` stands for its error.
    #[verifier::external_body]
    pub fn parse<F: core::str::FromStr>(&self) -> Option<F> {
        match self.value.parse() {
            Ok(v) => Some(v),
            Err(_) => None,
        }
    }

    /// The number whose text is `val` as it is printed.
    pub fn from<T: core::fmt::Display>(val: T) -> (n: Self)
        ensures
            vstd::string::to_string_from_display_ensures::<T>(&val, n.text()),
    {
        Self { value: val.to_string() }
    }

    /// The string that holds the number's text.
    pub closed spec fn text(&self) -> String {
        self.value
    }

    /// The number's text.
    pub fn as_str(&self) -> (s: &str)
        ensures
            s@ == self@,
    {
        self.value.as_str()
    }

    /// A copy of the number's text.
    pub fn to_string(&self) -> (s: String)
        ensures
            s@ == self@,
    {
        self.value.clone()
    }
}

/// A JSON value.
#[derive(Debug)]
pub enum JsonValue {
    /// `null`.
    Null,
    /// `true` or `false`.
    Bool(bool),
    /// A number, as its text.
    Number(Number),
    /// A string, unescaped.
    String(String),
    /// An array.
    Array(Vec<JsonValue>),
    /// An object.
    Object(JsonMap),
}

impl JsonValue {
    /// The canonical text of the value, with characters beyond ASCII as they are.
    pub fn to_string(&self) -> (text: String)
        ensures
            text@ == crate::text::text_of(self@, false),
    {
        crate::dump::JsonDumper::new(false).dump(self)
    }
}

/// The entries of an object, each key once, in the order of the keys.
#[derive(Debug)]
pub struct JsonMap {
    entries: Vec<(String, JsonValue)>,
}

impl View for JsonValue {
    type V = JsonModel;

    open spec fn view(&self) -> JsonModel
        decreases self,
    {
        match self {
            JsonValue::Null => JsonModel::Null,
            JsonValue::Bool(b) => JsonModel::Bool(*b),
            JsonValue::Number(n) => JsonModel::Number(n@),
            JsonValue::String(s) => JsonModel::String(s@),
            JsonValue::Array(items) => JsonModel::Array(
                Seq::new(
                    items@.len(),
                    |i: int|
                        if 0 <= i < items@.len() {
                            items@[i]@
                        } else {
                            JsonModel::Null
                        },
                ),
            ),
            JsonValue::Object(map) => JsonModel::Object(map@),
        }
    }
}

impl View for JsonMap {
    type V = Seq<(Seq<char>, JsonModel)>;

    closed spec fn view(&self) -> Seq<(Seq<char>, JsonModel)>
        decreases self,
    {
        entries_model(self.entries@)
    }
}

/// The models of a sequence of entries, entry by entry.
pub closed spec fn entries_model(entries: Seq<(String, JsonValue)>) -> Seq<(Seq<char>, JsonModel)>
    decreases entries,
{
    Seq::new(
        entries.len(),
        |i: int|
            if 0 <= i < entries.len() {
                (entries[i].0@, entries[i].1@)
            } else {
                (Seq::empty(), JsonModel::Null)
            },
    )
}

/// The models of a sequence of values, item by item.
pub open spec fn models_of(items: Seq<JsonValue>) -> Seq<JsonModel> {
    Seq::new(items.len(), |i: int| items[i]@)
}

/// The model of an array is the sequence of its items' models.
pub proof fn lemma_array_view(items: Vec<JsonValue>)
    ensures
        JsonValue::Array(items)@ == JsonModel::Array(models_of(items@)),
{
    assert(JsonValue::Array(items)@->Array_0 =~= models_of(items@));
}

impl JsonMap {
    /// The keys grow strictly from each entry to every later one. This
    /// holds of every object at all times.
    #[verifier::type_invariant]
    pub closed spec fn ordered(&self) -> bool {
        forall|i: int, j: int|
            0 <= i < j < self.entries@.len() ==> key_lt(
                (#[trigger] self.entries@[i]).0@,
                (#[trigger] self.entries@[j]).0@,
            )
    }

    /// The entries of an object are in the order of their keys.
    pub proof fn lemma_sorted(self)
        requires
            self.ordered(),
        ensures
            keys_sorted(self@),
    {
        assert forall|i: int, j: int| 0 <= i < j < self@.len() implies key_lt(
            (#[trigger] self@[i]).0,
            (#[trigger] self@[j]).0,
        ) by {
            assert(self@[i].0 == self.entries@[i].0@);
            assert(self@[j].0 == self.entries@[j].0@);
        }
    }

    /// An object without entries.
    pub fn new() -> (m: Self)
        ensures
            m@ == Seq::<(Seq<char>, JsonModel)>::empty(),
    {
        let m = JsonMap { entries: Vec::new() };
        assert(m@ =~= Seq::<(Seq<char>, JsonModel)>::empty());
        m
    }

    /// The object that holds the given entries: each key once, with the
    /// value of the last entry that has it.
    pub fn from_entries(entries: Vec<(String, JsonValue)>) -> (m: Self)
        ensures
            m@ == put_all(Seq::empty(), entries_model(entries@), 0),
    {
        let ghost items = entries_model(entries@);
        let mut m = JsonMap::new();
        for entry in it: entries
            invariant
                it.seq() == entries@,
                items == entries_model(entries@),
                put_all(Seq::empty(), items, 0) == put_all(m@, items, it.index() as int),
        {
            assert(items[it.index() as int] == (entry.0@, entry.1@));
            m.insert(entry.0, entry.1);
        }
        m
    }

    /// The number of entries.
    pub fn len(&self) -> (n: usize)
        ensures
            n == self@.len(),
    {
        self.entries.len()
    }

    /// Whether the object has no entry.
    pub fn is_empty(&self) -> (r: bool)
        ensures
            r == (self@.len() == 0),
    {
        self.entries.len() == 0
    }

    /// The key of the entry at index `i`.
    pub fn key_at(&self, i: usize) -> (k: &str)
        requires
            i < self@.len(),
        ensures
            k@ == self@[i as int].0,
    {
        self.entries[i].0.as_str()
    }

    /// The value of the entry at index `i`.
    pub fn value_at(&self, i: usize) -> (v: &JsonValue)
        requires
            i < self@.len(),
        ensures
            v@ == self@[i as int].1,
    {
        &self.entries[i].1
    }

    /// The value under `key`, if an entry has that key.
    pub fn get(&self, key: &str) -> (r: Option<&JsonValue>)
        ensures
            keys_sorted(self@),
            match r {
                Some(v) => has_key(self@, key@) && v@ == self@[index_of_key(self@, key@)].1,
                None => !has_key(self@, key@),
            },
    {
        proof {
            use_type_invariant(self);
            self.lemma_sorted();
        }
        let mut i: usize = 0;
        while i < self.entries.len()
            invariant
                i <= self.entries@.len(),
                keys_sorted(self@),
                forall|j: int| 0 <= j < i ==> (#[trigger] self@[j]).0 != key@,
            decreases self.entries@.len() - i,
        {
            if key_order(self.entries[i].0.as_str(), key) == KeyOrder::Same {
                proof {
                    assert(self@[i as int] == (key@, self.entries@[i as int].1@));
                    lemma_sorted_key_index(self@, i as int);
                }
                return Some(&self.entries[i].1);
            }
            i += 1;
        }
        None
    }

    /// Whether an entry has the key `key`.
    pub fn contains_key(&self, key: &str) -> (r: bool)
        ensures
            r == has_key(self@, key@),
    {
        self.get(key).is_some()
    }

    /// Gives `key` the value `value`. Where the key was present its value is
    /// replaced and the old one returned; where it was not, the entry is put in
    /// at its place in the order of the keys.
    pub fn insert(&mut self, key: String, value: JsonValue) -> (old_value: Option<JsonValue>)
        ensures
            final(self)@ == put(old(self)@, key@, value@),
            keys_sorted(old(self)@),
            keys_sorted(final(self)@),
            old_value is Some == has_key(old(self)@, key@),
            old_value matches Some(v) ==> v@ == old(self)@[index_of_key(old(self)@, key@)].1,
    {
        proof {
            use_type_invariant(&*self);
            self.lemma_sorted();
        }
        let mut entries: Vec<(String, JsonValue)> = Vec::new();
        core::mem::swap(&mut self.entries, &mut entries);
        let old_value = put_entry(&mut entries, key, value);
        proof {
            lemma_ordered(entries@);
        }
        self.entries = entries;
        old_value
    }
}

/// Sorted models come from entries whose keys are in order.
proof fn lemma_ordered(entries: Seq<(String, JsonValue)>)
    requires
        keys_sorted(entries_model(entries)),
    ensures
        forall|i: int, j: int|
            0 <= i < j < entries.len() ==> key_lt(
                (#[trigger] entries[i]).0@,
                (#[trigger] entries[j]).0@,
            ),
{
    let m = entries_model(entries);
    assert forall|i: int, j: int| 0 <= i < j < entries.len() implies key_lt(
        (#[trigger] entries[i]).0@,
        (#[trigger] entries[j]).0@,
    ) by {
        assert(m[i].0 == entries[i].0@);
        assert(m[j].0 == entries[j].0@);
    }
}

/// Gives `key` the value `value` in entries that are in the order of their keys.
fn put_entry(entries: &mut Vec<(String, JsonValue)>, key: String, value: JsonValue) -> (old_value:
    Option<JsonValue>)
    requires
        keys_sorted(entries_model(old(entries)@)),
    ensures
        entries_model(final(entries)@) == put(entries_model(old(entries)@), key@, value@),
        keys_sorted(entries_model(final(entries)@)),
        old_value is Some == has_key(entries_model(old(entries)@), key@),
        old_value matches Some(v) ==> v@ == entries_model(old(entries)@)[index_of_key(
            entries_model(old(entries)@),
            key@,
        )].1,
{
    let ghost before = entries_model(entries@);
    proof {
        reveal(put);
    }
    let n = entries.len();
    let mut i: usize = 0;
    while i < n
        invariant
            n == entries@.len(),
            entries_model(entries@) == before,
            before == entries_model(old(entries)@),
            i <= n,
            keys_sorted(before),
            forall|j: int| 0 <= j < i ==> key_lt((#[trigger] before[j]).0, key@),
        ensures
            i < n ==> key_lt(key@, before[i as int].0),
        decreases n - i,
    {
        let o = key_order(entries[i].0.as_str(), key.as_str());
        if o == KeyOrder::Same {
            proof {
                reveal(put);
                assert(before[i as int].0 == key@);
                lemma_sorted_key_index(before, i as int);
            }
            let (_, old_value) = entries.remove(i);
            entries.insert(i, (key, value));
            let ghost after = entries_model(entries@);
            assert(after =~= before.update(i as int, (key@, value@)));
            proof {
                assert forall|a: int, b: int| 0 <= a < b < after.len() implies key_lt(
                    (#[trigger] after[a]).0,
                    (#[trigger] after[b]).0,
                ) by {
                    assert(after[a].0 == before[a].0);
                    assert(after[b].0 == before[b].0);
                }
            }
            return Some(old_value);
        }
        if o == KeyOrder::After {
            break ;
        }
        i += 1;
    }
    proof {
        assert forall|j: int| i <= j < before.len() implies !key_lt(
            (#[trigger] before[j]).0,
            key@,
        ) && before[j].0 != key@ by {
            if i < n {
                if j > i {
                    lemma_key_lt_transitive(key@, before[i as int].0, before[j].0);
                }
                lemma_key_lt_asymmetric(key@, before[j].0);
            }
        }
        assert(!has_key(before, key@)) by {
            if has_key(before, key@) {
                let k = index_of_key(before, key@);
                if k < i {
                    lemma_key_lt_asymmetric(before[k].0, key@);
                }
            }
        }
        lemma_rank_is(before, key@, i as int, before.len() as int);
    }
    entries.insert(i, (key, value));
    let ghost after = entries_model(entries@);
    assert(after =~= before.insert(i as int, (key@, value@)));
    proof {
        assert forall|a: int, b: int| 0 <= a < b < after.len() implies key_lt(
            (#[trigger] after[a]).0,
            (#[trigger] after[b]).0,
        ) by {
            let a0 = if a < i { a } else { a - 1 };
            let b0 = if b < i { b } else { b - 1 };
            if a == i {
                assert(after[b].0 == before[b0].0);
                lemma_key_lt_total(key@, before[b0].0);
            } else if b == i {
                assert(after[a].0 == before[a0].0);
            } else {
                assert(after[a].0 == before[a0].0);
                assert(after[b].0 == before[b0].0);
            }
        }
    }
    None
}

/// In sorted entries an entry's key is found at that entry's index and nowhere else.
pub proof fn lemma_sorted_key_index<V>(entries: Seq<(Seq<char>, V)>, i: int)
    requires
        keys_sorted(entries),
        0 <= i < entries.len(),
    ensures
        has_key(entries, entries[i].0),
        index_of_key(entries, entries[i].0) == i,
{
    let k = index_of_key(entries, entries[i].0);
    if k < i {
        lemma_key_lt_asymmetric(entries[k].0, entries[i].0);
    } else if k > i {
        lemma_key_lt_asymmetric(entries[i].0, entries[k].0);
    }
}

} // verus!
