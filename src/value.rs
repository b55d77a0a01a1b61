//! The in-memory model: values, keyed entries and tables.

use vstd::prelude::*;

verus! {

/// A value of the format: a scalar token, a keyed table or an unkeyed list.
#[derive(Debug)]
pub enum Eu4Value {
    String(String),
    Table(Eu4Table),
    Array(Vec<Eu4Value>),
}

/// One entry of a table; an empty key stands for "no key".
#[derive(Debug)]
pub struct Eu4KeyValue {
    pub key: String,
    pub value: Eu4Value,
}

/// An ordered sequence of entries; duplicate keys are kept.
#[derive(Debug)]
pub struct Eu4Table {
    pub values: Vec<Eu4KeyValue>,
}

/// The failures of parsing and of typed access.
#[derive(Debug, Clone, Copy, PartialEq, Eq)]
pub enum Eu4Error {
    /// Nothing of the grammar matches at `pos`.
    UnexpectedToken { pos: usize },
    /// The quoted string opened at `pos` reaches the end of input.
    UnterminatedString { pos: usize },
    /// The block opened at `pos` reaches the end of input without `}`.
    UnbalancedBlock { pos: usize },
    /// Scalar text was asked of a table or a list.
    TypeMismatch,
}

/// What a value means, independent of its representation.
pub enum ValueModel {
    Text(Seq<char>),
    Table(Seq<EntryModel>),
    List(Seq<ValueModel>),
}

pub struct EntryModel {
    pub key: Seq<char>,
    pub value: ValueModel,
}

impl Eu4Value {
    pub open spec fn view(&self) -> ValueModel
        decreases self,
    {
        match self {
            Eu4Value::String(s) => ValueModel::Text(s@),
            Eu4Value::Table(t) => ValueModel::Table(entries_view(t.values@)),
            Eu4Value::Array(a) => ValueModel::List(values_view(a@)),
        }
    }
}

impl Eu4KeyValue {
    pub open spec fn view(&self) -> EntryModel {
        EntryModel { key: self.key@, value: self.value@ }
    }
}

impl Eu4Table {
    pub open spec fn view(&self) -> Seq<EntryModel> {
        entries_view(self.values@)
    }
}

pub open spec fn entries_view(es: Seq<Eu4KeyValue>) -> Seq<EntryModel>
    decreases es,
{
    if es.len() == 0 {
        Seq::empty()
    } else {
        let last = es[es.len() - 1];
        entries_view(es.subrange(0, es.len() - 1)).push(
            EntryModel { key: last.key@, value: last.value.view() },
        )
    }
}

pub open spec fn values_view(vs: Seq<Eu4Value>) -> Seq<ValueModel>
    decreases vs,
{
    if vs.len() == 0 {
        Seq::empty()
    } else {
        values_view(vs.subrange(0, vs.len() - 1)).push(vs[vs.len() - 1].view())
    }
}

/// Position of the first entry with `key`; the length when there is none.
pub open spec fn key_index(es: Seq<EntryModel>, key: Seq<char>) -> int
    decreases es.len(),
{
    if es.len() == 0 {
        0
    } else if es[0].key == key {
        0
    } else {
        1 + key_index(es.subrange(1, es.len() as int), key)
    }
}

/// The value of the first entry with `key`.
pub open spec fn lookup(es: Seq<EntryModel>, key: Seq<char>) -> Option<ValueModel> {
    if key_index(es, key) < es.len() {
        Some(es[key_index(es, key)].value)
    } else {
        None
    }
}

/// Overwrites the value of the first entry with `key` in place, or appends
/// a new entry when there is none.
pub open spec fn upsert(es: Seq<EntryModel>, key: Seq<char>, v: ValueModel) -> Seq<EntryModel> {
    if key_index(es, key) < es.len() {
        es.update(key_index(es, key), EntryModel { key, value: v })
    } else {
        es.push(EntryModel { key, value: v })
    }
}

pub proof fn lemma_key_index(es: Seq<EntryModel>, key: Seq<char>)
    ensures
        0 <= key_index(es, key) <= es.len(),
        forall|m: int| 0 <= m < key_index(es, key) ==> (#[trigger] es[m]).key != key,
        key_index(es, key) < es.len() ==> es[key_index(es, key)].key == key,
    decreases es.len(),
{
    if es.len() > 0 && es[0].key != key {
        let rest = es.subrange(1, es.len() as int);
        lemma_key_index(rest, key);
        assert forall|m: int| 0 <= m < key_index(es, key) implies (#[trigger] es[m]).key != key by {
            if m > 0 {
                assert(es[m] == rest[m - 1]);
            }
        }
    }
}

/// The first index whose key is `key` is `key_index`.
pub proof fn lemma_key_index_unique(es: Seq<EntryModel>, key: Seq<char>, k: int)
    requires
        0 <= k <= es.len(),
        forall|m: int| 0 <= m < k ==> (#[trigger] es[m]).key != key,
        k < es.len() ==> es[k].key == key,
    ensures
        key_index(es, key) == k,
{
    lemma_key_index(es, key);
    let ki = key_index(es, key);
    if ki < k {
        assert(es[ki].key != key);
    } else if k < ki {
        assert(es[k].key != key);
    }
}

/// The decimal digits of `n`.
pub open spec fn decimal(n: nat) -> Seq<char>
    decreases n,
{
    if n < 10 {
        seq![digit(n)]
    } else {
        decimal(n / 10).push(digit(n % 10))
    }
}

pub open spec fn digit(d: nat) -> char {
    if d == 0 {
        '0'
    } else if d == 1 {
        '1'
    } else if d == 2 {
        '2'
    } else if d == 3 {
        '3'
    } else if d == 4 {
        '4'
    } else if d == 5 {
        '5'
    } else if d == 6 {
        '6'
    } else if d == 7 {
        '7'
    } else if d == 8 {
        '8'
    } else {
        '9'
    }
}

fn digit_char(d: u8) -> (r: char)
    requires
        d < 10,
    ensures
        r == digit(d as nat),
{
    if d == 0 {
        '0'
    } else if d == 1 {
        '1'
    } else if d == 2 {
        '2'
    } else if d == 3 {
        '3'
    } else if d == 4 {
        '4'
    } else if d == 5 {
        '5'
    } else if d == 6 {
        '6'
    } else if d == 7 {
        '7'
    } else if d == 8 {
        '8'
    } else {
        '9'
    }
}

/// The decimal rendering of a byte.
pub fn byte_decimal(n: u8) -> (r: String)
    ensures
        r@ == decimal(n as nat),
{
    let mut out = String::new();
    if n >= 100 {
        out.push(digit_char(n / 100));
    }
    if n >= 10 {
        out.push(digit_char((n / 10) % 10));
    }
    out.push(digit_char(n % 10));
    proof {
        let m = n as nat;
        if m >= 100 {
            assert(decimal(m / 100) == seq![digit(m / 100)]);
            assert(decimal(m / 10) == decimal(m / 100).push(digit((m / 10) % 10)));
        } else if m >= 10 {
            assert(decimal(m / 10) == seq![digit(m / 10)]);
        }
        assert(out@ =~= decimal(m));
    }
    out
}

impl Eu4Value {
    /// A colour: the list of the three components, each as decimal text.
    pub fn color(r: u8, g: u8, b: u8) -> (v: Self)
        ensures
            v@ == ValueModel::List(
                seq![
                    ValueModel::Text(decimal(r as nat)),
                    ValueModel::Text(decimal(g as nat)),
                    ValueModel::Text(decimal(b as nat)),
                ],
            ),
    {
        let mut parts: Vec<Eu4Value> = Vec::new();
        parts.push(Eu4Value::String(byte_decimal(r)));
        parts.push(Eu4Value::String(byte_decimal(g)));
        parts.push(Eu4Value::String(byte_decimal(b)));
        proof {
            lemma_values_view(parts@);
            assert(values_view(parts@) =~= seq![
                ValueModel::Text(decimal(r as nat)),
                ValueModel::Text(decimal(g as nat)),
                ValueModel::Text(decimal(b as nat)),
            ]);
        }
        Eu4Value::Array(parts)
    }

    /// The scalar text of a value; a table or a list is a type mismatch.
    pub fn as_str(&self) -> (r: Result<&str, Eu4Error>)
        ensures
            r is Ok <==> self@ is Text,
            r matches Ok(t) ==> self@ == ValueModel::Text(t@),
            r matches Err(e) ==> e == Eu4Error::TypeMismatch,
    {
        match self {
            Eu4Value::String(v) => Ok(v.as_str()),
            _ => Err(Eu4Error::TypeMismatch),
        }
    }
}

impl Eu4Table {
    /// An empty table.
    pub fn new() -> (t: Self)
        ensures
            t@ == Seq::<EntryModel>::empty(),
    {
        Eu4Table { values: Vec::new() }
    }

    fn find(&self, key: &str) -> (r: usize)
        ensures
            r == key_index(self@, key@),
    {
        proof {
            lemma_entries_view(self.values@);
        }
        let mut k: usize = 0;
        while k < self.values.len()
            invariant
                k <= self.values.len(),
                self@.len() == self.values.len(),
                forall|i: int| 0 <= i < self.values.len() ==> #[trigger] self@[i] == self.values@[i]@,
                forall|m: int| 0 <= m < k ==> (#[trigger] self@[m]).key != key@,
            decreases self.values.len() - k,
        {
            if self.values[k].key.as_str().eq(key) {
                proof {
                    lemma_key_index_unique(self@, key@, k as int);
                }
                return k;
            }
            k = k + 1;
        }
        proof {
            lemma_key_index_unique(self@, key@, k as int);
        }
        k
    }

    /// The value of the first entry with `key`, if any.
    pub fn get(&self, key: &str) -> (r: Option<&Eu4Value>)
        ensures
            match r {
                Some(v) => lookup(self@, key@) == Some(v@),
                None => lookup(self@, key@) is None,
            },
    {
        let k = self.find(key);
        proof {
            lemma_entries_view(self.values@);
        }
        if k < self.values.len() {
            Some(&self.values[k].value)
        } else {
            None
        }
    }

    /// Overwrites the value of the first entry with `key`, keeping its
    /// position, or appends a new entry at the end.
    pub fn set(&mut self, key: &str, value: Eu4Value)
        ensures
            final(self)@ == upsert(old(self)@, key@, value@),
    {
        let k = self.find(key);
        proof {
            lemma_entries_view(self.values@);
        }
        let ghost before = self.values@;
        let entry = Eu4KeyValue { key: key.to_owned(), value };
        if k < self.values.len() {
            self.values.set(k, entry);
            proof {
                lemma_entries_view(self.values@);
                assert(entries_view(self.values@) =~= entries_view(before).update(k as int, entry@));
            }
        } else {
            self.values.push(entry);
            proof {
                lemma_entries_view_push(before, entry);
            }
        }
    }
}

fn clone_value(v: &Eu4Value) -> (r: Eu4Value)
    ensures
        r@ == v@,
    decreases v,
{
    match v {
        Eu4Value::String(s) => Eu4Value::String(s.clone()),
        Eu4Value::Table(t) => Eu4Value::Table(Eu4Table { values: clone_entries(&t.values) }),
        Eu4Value::Array(a) => {
            let mut out: Vec<Eu4Value> = Vec::new();
            let mut k: usize = 0;
            proof {
                lemma_values_view(a@);
            }
            while k < a.len()
                invariant
                    k <= a.len(),
                    *v == Eu4Value::Array(*a),
                    out.len() == k,
                    values_view(a@).len() == a.len(),
                    forall|i: int| 0 <= i < a.len() ==> #[trigger] values_view(a@)[i] == a@[i]@,
                    forall|i: int| 0 <= i < k ==> #[trigger] out@[i]@ == a@[i]@,
                decreases a.len() - k,
            {
                proof {
                    assert(decreases_to!(*v => v->Array_0));
                    assert(decreases_to!(*a => a@[k as int]));
                }
                out.push(clone_value(&a[k]));
                k = k + 1;
            }
            proof {
                lemma_values_view(out@);
                assert(values_view(out@) =~= values_view(a@));
            }
            Eu4Value::Array(out)
        },
    }
}

fn clone_entries(es: &Vec<Eu4KeyValue>) -> (r: Vec<Eu4KeyValue>)
    ensures
        entries_view(r@) == entries_view(es@),
    decreases es,
{
    let mut out: Vec<Eu4KeyValue> = Vec::new();
    let mut k: usize = 0;
    proof {
        lemma_entries_view(es@);
    }
    while k < es.len()
        invariant
            k <= es.len(),
            out.len() == k,
            entries_view(es@).len() == es.len(),
            forall|i: int| 0 <= i < es.len() ==> #[trigger] entries_view(es@)[i] == es@[i]@,
            forall|i: int| 0 <= i < k ==> #[trigger] out@[i]@ == es@[i]@,
        decreases es.len() - k,
    {
        let value = clone_value(&es[k].value);
        out.push(Eu4KeyValue { key: es[k].key.clone(), value });
        k = k + 1;
    }
    proof {
        lemma_entries_view(out@);
        assert(entries_view(out@) =~= entries_view(es@));
    }
    out
}

impl Clone for Eu4Value {
    fn clone(&self) -> (r: Self)
        ensures
            r@ == self@,
    {
        clone_value(self)
    }
}

impl Clone for Eu4KeyValue {
    fn clone(&self) -> (r: Self)
        ensures
            r@ == self@,
    {
        Eu4KeyValue { key: self.key.clone(), value: clone_value(&self.value) }
    }
}

impl Clone for Eu4Table {
    fn clone(&self) -> (r: Self)
        ensures
            r@ == self@,
    {
        Eu4Table { values: clone_entries(&self.values) }
    }
}

pub proof fn lemma_entries_view(es: Seq<Eu4KeyValue>)
    ensures
        entries_view(es).len() == es.len(),
        forall|k: int| 0 <= k < es.len() ==> #[trigger] entries_view(es)[k] == es[k]@,
    decreases es.len(),
{
    if es.len() > 0 {
        lemma_entries_view(es.subrange(0, es.len() - 1));
    }
}

pub proof fn lemma_entries_view_push(es: Seq<Eu4KeyValue>, e: Eu4KeyValue)
    ensures
        entries_view(es.push(e)) == entries_view(es).push(e@),
{
    assert(es.push(e).subrange(0, es.len() as int) =~= es);
}

pub proof fn lemma_values_view(vs: Seq<Eu4Value>)
    ensures
        values_view(vs).len() == vs.len(),
        forall|k: int| 0 <= k < vs.len() ==> #[trigger] values_view(vs)[k] == vs[k]@,
    decreases vs.len(),
{
    if vs.len() > 0 {
        lemma_values_view(vs.subrange(0, vs.len() - 1));
    }
}

} // verus!
