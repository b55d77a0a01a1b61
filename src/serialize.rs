//! The serializer: writes a table back as text of the format.

use vstd::prelude::*;
use crate::text::chars_of;
use crate::value::{
    entries_view, lemma_entries_view, lemma_values_view, values_view, EntryModel, Eu4KeyValue,
    Eu4Table, Eu4Value, ValueModel,
};

verus! {

/// A token is quoted when it holds a backslash or a space.
pub open spec fn needs_quotes(t: Seq<char>) -> bool {
    exists|k: int| 0 <= k < t.len() && (t[k] == '\\' || t[k] == ' ')
}

/// Doubles each backslash; no other character is escaped. A double quote
/// in quoted text is therefore written as it is, and such text does not
/// read back as itself.
pub open spec fn escape_backslashes(t: Seq<char>) -> Seq<char>
    decreases t.len(),
{
    if t.len() == 0 {
        Seq::empty()
    } else {
        let c = t[t.len() - 1];
        escape_backslashes(t.subrange(0, t.len() - 1)) + if c == '\\' {
            seq!['\\', '\\']
        } else {
            seq![c]
        }
    }
}

pub open spec fn quoted_if_needed(t: Seq<char>) -> Seq<char> {
    if needs_quotes(t) {
        seq!['"'] + escape_backslashes(t) + seq!['"']
    } else {
        t
    }
}

/// The text of a value, ending in a line feed.
pub open spec fn value_text(v: ValueModel) -> Seq<char>
    decreases v,
{
    match v {
        ValueModel::Text(t) => quoted_if_needed(t).push('\n'),
        ValueModel::Table(es) => seq!['{', '\n'] + entries_text(es) + seq!['}', '\n'],
        ValueModel::List(vs) => seq!['{', '\n'] + list_text(vs) + seq!['}', '\n'],
    }
}

/// `key = value`, or the value alone for an entry without a key.
pub open spec fn entry_text(e: EntryModel) -> Seq<char>
    decreases e,
{
    if e.key.len() == 0 {
        value_text(e.value)
    } else {
        quoted_if_needed(e.key) + seq![' ', '=', ' '] + value_text(e.value)
    }
}

pub open spec fn entries_text(es: Seq<EntryModel>) -> Seq<char>
    decreases es,
{
    if es.len() == 0 {
        Seq::empty()
    } else {
        entries_text(es.subrange(0, es.len() - 1)) + entry_text(es[es.len() - 1])
    }
}

pub open spec fn list_text(vs: Seq<ValueModel>) -> Seq<char>
    decreases vs,
{
    if vs.len() == 0 {
        Seq::empty()
    } else {
        list_text(vs.subrange(0, vs.len() - 1)) + value_text(vs[vs.len() - 1])
    }
}

fn push_quoted_if_needed(target: &mut String, text: &String)
    ensures
        final(target)@ == old(target)@ + quoted_if_needed(text@),
{
    let t = chars_of(text.as_str());
    let mut quote = false;
    let mut k: usize = 0;
    while k < t.len()
        invariant
            k <= t.len(),
            quote == exists|m: int| 0 <= m < k && (t@[m] == '\\' || t@[m] == ' '),
        decreases t.len() - k,
    {
        if t[k] == '\\' || t[k] == ' ' {
            quote = true;
        }
        k = k + 1;
    }
    if !quote {
        proof {
            assert(!needs_quotes(text@));
        }
        let mut k: usize = 0;
        let ghost start = target@;
        while k < t.len()
            invariant
                k <= t.len(),
                t@ == text@,
                target@ == start + t@.subrange(0, k as int),
            decreases t.len() - k,
        {
            target.push(t[k]);
            k = k + 1;
            assert(target@ =~= start + t@.subrange(0, k as int));
        }
        assert(t@.subrange(0, t.len() as int) =~= t@);
        return;
    }
    let ghost start = target@;
    target.push('"');
    let mut k: usize = 0;
    while k < t.len()
        invariant
            k <= t.len(),
            t@ == text@,
            target@ == start + seq!['"'] + escape_backslashes(t@.subrange(0, k as int)),
        decreases t.len() - k,
    {
        if t[k] == '\\' {
            target.push('\\');
            target.push('\\');
        } else {
            target.push(t[k]);
        }
        proof {
            let sub = t@.subrange(0, k + 1);
            assert(sub.subrange(0, k as int) =~= t@.subrange(0, k as int));
            assert(target@ =~= start + seq!['"'] + escape_backslashes(sub));
        }
        k = k + 1;
    }
    assert(t@.subrange(0, t.len() as int) =~= t@);
    target.push('"');
}

impl Eu4Value {
    fn serialize_to(&self, target: &mut String)
        ensures
            final(target)@ == old(target)@ + value_text(self@),
        decreases self,
    {
        match self {
            Eu4Value::String(v) => {
                push_quoted_if_needed(target, v);
                target.push('\n');
            },
            Eu4Value::Table(t) => {
                target.push('{');
                target.push('\n');
                serialize_entries_to(&t.values, target);
                target.push('}');
                target.push('\n');
            },
            Eu4Value::Array(a) => {
                let ghost start = target@;
                let ghost m = values_view(a@);
                proof {
                    lemma_values_view(a@);
                }
                target.push('{');
                target.push('\n');
                let mut k: usize = 0;
                while k < a.len()
                    invariant
                        k <= a.len(),
                        m == values_view(a@),
                        *self == Eu4Value::Array(*a),
                        m.len() == a.len(),
                        forall|i: int| 0 <= i < a.len() ==> #[trigger] m[i] == a@[i]@,
                        target@ == start + seq!['{', '\n'] + list_text(m.subrange(0, k as int)),
                    decreases a.len() - k,
                {
                    proof {
                        assert(decreases_to!(*self => self->Array_0));
                        assert(decreases_to!(*a => a@[k as int]));
                        assert(decreases_to!(*self => a@[k as int]));
                    }
                    a[k].serialize_to(target);
                    proof {
                        let sub = m.subrange(0, k + 1);
                        assert(sub.subrange(0, k as int) =~= m.subrange(0, k as int));
                    }
                    k = k + 1;
                }
                assert(m.subrange(0, a.len() as int) =~= m);
                target.push('}');
                target.push('\n');
            },
        }
        proof {
            assert(final(target)@ =~= old(target)@ + value_text(self@));
        }
    }
}

fn serialize_entries_to(entries: &Vec<Eu4KeyValue>, target: &mut String)
    ensures
        final(target)@ == old(target)@ + entries_text(entries_view(entries@)),
    decreases entries,
{
    let ghost start = target@;
    let ghost m = entries_view(entries@);
    proof {
        lemma_entries_view(entries@);
    }
    let mut k: usize = 0;
    while k < entries.len()
        invariant
            k <= entries.len(),
            m == entries_view(entries@),
            m.len() == entries.len(),
            forall|i: int| 0 <= i < entries.len() ==> #[trigger] m[i] == entries@[i]@,
            target@ == start + entries_text(m.subrange(0, k as int)),
        decreases entries.len() - k,
    {
        let ghost before = target@;
        let entry = &entries[k];
        if !entry.key.as_str().is_empty() {
            push_quoted_if_needed(target, &entry.key);
            target.push(' ');
            target.push('=');
            target.push(' ');
        }
        entry.value.serialize_to(target);
        proof {
            let sub = m.subrange(0, k + 1);
            assert(sub.subrange(0, k as int) =~= m.subrange(0, k as int));
            assert(target@ =~= before + entry_text(m[k as int]));
        }
        k = k + 1;
    }
    assert(m.subrange(0, entries.len() as int) =~= m);
}

impl Eu4Table {
    /// The text of the table: each entry in order, keys quoted where needed.
    pub fn serialize(&self) -> (r: String)
        ensures
            r@ == entries_text(self@),
    {
        let mut target = String::new();
        serialize_entries_to(&self.values, &mut target);
        assert(target@ =~= entries_text(self@));
        target
    }
}

} // verus!
