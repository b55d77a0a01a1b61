//! The parser: recursive descent over the input characters, proved to
//! follow the grammar of [`crate::grammar`].

use vstd::prelude::*;
use crate::grammar::{
    body_at, comment_end, devolve, entries_at, entry_at, lemma_body_matches, lemma_word_end,
    parse_model, skip_layout, string_body, unescape, value_at, word_end, Parsed,
};
use crate::text::{chars_of, space_char, text_between, word_char};
use crate::value::{
    entries_view, lemma_entries_view, lemma_entries_view_push, lemma_values_view, values_view,
    EntryModel, Eu4Error, Eu4KeyValue, Eu4Table, Eu4Value, ValueModel,
};

verus! {

/// The executable counterpart of [`Parsed`].
enum Step<T> {
    Done(T, usize),
    NoMatch,
    Fail(Eu4Error),
}

fn skip_layout_from(s: &Vec<char>, i: usize) -> (r: usize)
    requires
        i <= s.len(),
    ensures
        r == skip_layout(s@, i as int),
        i <= r <= s.len(),
{
    let mut j = i;
    while j < s.len() && (space_char(s[j]) || s[j] == '#')
        invariant
            i <= j <= s.len(),
            skip_layout(s@, j as int) == skip_layout(s@, i as int),
        decreases s.len() - j,
    {
        if s[j] == '#' {
            j = j + 1;
            let ghost start = j as int;
            while j < s.len() && s[j] != '\n'
                invariant
                    start <= j <= s.len(),
                    comment_end(s@, j as int) == comment_end(s@, start),
                    skip_layout(s@, comment_end(s@, start)) == skip_layout(s@, i as int),
                decreases s.len() - j,
            {
                j = j + 1;
            }
        } else {
            j = j + 1;
        }
    }
    j
}

fn word_end_from(s: &Vec<char>, i: usize) -> (r: usize)
    requires
        i <= s.len(),
    ensures
        r == word_end(s@, i as int),
        i <= r <= s.len(),
{
    let mut j = i;
    while j < s.len() && word_char(s[j])
        invariant
            i <= j <= s.len(),
            word_end(s@, j as int) == word_end(s@, i as int),
        decreases s.len() - j,
    {
        j = j + 1;
    }
    j
}

fn unescape_char(c: char) -> (r: char)
    ensures
        r == unescape(c),
{
    if c == 'b' {
        '\u{8}'
    } else if c == 'f' {
        '\u{c}'
    } else if c == 'n' {
        '\n'
    } else if c == 'r' {
        '\r'
    } else if c == 't' {
        '\t'
    } else {
        c
    }
}

spec fn prefixed(acc: Seq<char>, r: Option<(Seq<char>, int)>) -> Option<(Seq<char>, int)> {
    match r {
        Some((t, j)) => Some((acc + t, j)),
        None => None,
    }
}

/// Reads the body of a quoted string whose opening quote precedes `i`.
fn string_body_from(s: &Vec<char>, i: usize) -> (r: Option<(String, usize)>)
    requires
        i <= s.len(),
    ensures
        match r {
            Some((t, j)) => string_body(s@, i as int) == Some((t@, j as int)) && i < j <= s.len(),
            None => string_body(s@, i as int) is None,
        },
{
    let mut acc = String::new();
    let mut j = i;
    loop
        invariant
            i <= j <= s.len(),
            prefixed(acc@, string_body(s@, j as int)) == string_body(s@, i as int),
        decreases s.len() - j,
    {
        if j >= s.len() {
            return None;
        }
        let c = s[j];
        if c == '"' {
            assert(acc@ + Seq::<char>::empty() =~= acc@);
            return Some((acc, j + 1));
        }
        if c == '\\' {
            if j + 1 >= s.len() {
                return None;
            }
            let d = unescape_char(s[j + 1]);
            proof {
                match string_body(s@, j + 2) {
                    Some((t, m)) => {
                        assert(acc@.push(d) + t =~= acc@ + (seq![d] + t));
                    },
                    None => {},
                }
            }
            acc.push(d);
            j = j + 2;
        } else {
            proof {
                match string_body(s@, j + 1) {
                    Some((t, m)) => {
                        assert(acc@.push(c) + t =~= acc@ + (seq![c] + t));
                    },
                    None => {},
                }
            }
            acc.push(c);
            j = j + 1;
        }
    }
}

spec fn value_step(r: Step<Eu4Value>, p: Parsed<ValueModel>) -> bool {
    match (r, p) {
        (Step::Done(v, j), Parsed::Done(m, k)) => v@ == m && j == k,
        (Step::NoMatch, Parsed::NoMatch) => true,
        (Step::Fail(e), Parsed::Fail(f)) => e == f,
        _ => false,
    }
}

spec fn entry_step(r: Step<Eu4KeyValue>, p: Parsed<EntryModel>) -> bool {
    match (r, p) {
        (Step::Done(v, j), Parsed::Done(m, k)) => v@ == m && j == k,
        (Step::NoMatch, Parsed::NoMatch) => true,
        (Step::Fail(e), Parsed::Fail(f)) => e == f,
        _ => false,
    }
}

spec fn entries_step(r: Step<Vec<Eu4KeyValue>>, p: Parsed<Seq<EntryModel>>) -> bool {
    match (r, p) {
        (Step::Done(v, j), Parsed::Done(m, k)) => entries_view(v@) == m && j == k,
        (Step::NoMatch, Parsed::NoMatch) => true,
        (Step::Fail(e), Parsed::Fail(f)) => e == f,
        _ => false,
    }
}

spec fn advances<T>(r: Step<T>, i: int, len: int) -> bool {
    r matches Step::Done(_, j) ==> i < j <= len
}

spec fn prefixed_entries(
    pre: Seq<EntryModel>,
    r: Parsed<Seq<EntryModel>>,
) -> Parsed<Seq<EntryModel>> {
    match r {
        Parsed::Done(es, m) => Parsed::Done(pre + es, m),
        other => other,
    }
}

/// Turns the entries of a block into a list when none has a key.
fn devolve_entries(entries: Vec<Eu4KeyValue>) -> (r: Eu4Value)
    ensures
        r@ == devolve(entries_view(entries@)),
{
    proof {
        lemma_entries_view(entries@);
    }
    let mut k: usize = 0;
    let mut keyless = true;
    while k < entries.len()
        invariant
            k <= entries.len(),
            keyless == (forall|m: int| 0 <= m < k ==> (#[trigger] entries@[m]).key@.len() == 0),
        decreases entries.len() - k,
    {
        keyless = keyless && entries[k].key.as_str().is_empty();
        k = k + 1;
    }
    if !keyless {
        proof {
            let m = choose|m: int| 0 <= m < k && (#[trigger] entries@[m]).key@.len() != 0;
            assert(entries_view(entries@)[m] == entries@[m]@);
        }
        return Eu4Value::Table(Eu4Table { values: entries });
    }
    let ghost orig = entries@;
    let n = entries.len();
    let mut entries = entries;
    let mut reversed: Vec<Eu4Value> = Vec::new();
    while entries.len() > 0
        invariant
            entries.len() + reversed.len() == n,
            n == orig.len(),
            forall|m: int| 0 <= m < entries.len() ==> #[trigger] entries@[m] == orig[m],
            forall|m: int| 0 <= m < reversed.len() ==> #[trigger] reversed@[m] == orig[n - 1 - m].value,
        decreases entries.len(),
    {
        let e = entries.pop().unwrap();
        reversed.push(e.value);
    }
    let mut values: Vec<Eu4Value> = Vec::new();
    while reversed.len() > 0
        invariant
            values.len() + reversed.len() == n,
            n == orig.len(),
            forall|m: int| 0 <= m < reversed.len() ==> #[trigger] reversed@[m] == orig[n - 1 - m].value,
            forall|m: int| 0 <= m < values.len() ==> #[trigger] values@[m] == orig[m].value,
        decreases reversed.len(),
    {
        let v = reversed.pop().unwrap();
        values.push(v);
    }
    proof {
        lemma_values_view(values@);
        let es = entries_view(orig);
        assert(values_view(values@) =~= es.map_values(|e: EntryModel| e.value));
    }
    Eu4Value::Array(values)
}

/// value := word | quoted_string | '{' table '}'
fn parse_value(s: &Vec<char>, i: usize) -> (r: Step<Eu4Value>)
    requires
        i <= s.len(),
    ensures
        value_step(r, value_at(s@, i as int)),
        advances(r, i as int, s.len() as int),
    decreases s.len() - i, 0int,
{
    if i >= s.len() {
        return Step::NoMatch;
    }
    let c = s[i];
    if word_char(c) {
        let j = word_end_from(s, i);
        proof {
            lemma_word_end(s@, i as int);
        }
        Step::Done(Eu4Value::String(text_between(s, i, j)), j)
    } else if c == '"' {
        match string_body_from(s, i + 1) {
            Some((t, j)) => Step::Done(Eu4Value::String(t), j),
            None => Step::Fail(Eu4Error::UnterminatedString { pos: i }),
        }
    } else if c == '{' {
        match parse_body(s, i + 1) {
            Step::Done(entries, j) => {
                if j >= s.len() {
                    Step::Fail(Eu4Error::UnbalancedBlock { pos: i })
                } else if s[j] == '}' {
                    Step::Done(devolve_entries(entries), j + 1)
                } else {
                    Step::Fail(Eu4Error::UnexpectedToken { pos: j })
                }
            },
            Step::NoMatch => Step::NoMatch,
            Step::Fail(e) => Step::Fail(e),
        }
    } else {
        Step::NoMatch
    }
}

/// entry := word layout* '=' layout* value | value
fn parse_entry(s: &Vec<char>, i: usize) -> (r: Step<Eu4KeyValue>)
    requires
        i <= s.len(),
    ensures
        entry_step(r, entry_at(s@, i as int)),
        advances(r, i as int, s.len() as int),
    decreases s.len() - i, 1int,
{
    if i < s.len() && word_char(s[i]) {
        let k = word_end_from(s, i);
        let e = skip_layout_from(s, k);
        if e < s.len() && s[e] == '=' {
            proof {
                lemma_word_end(s@, i as int);
            }
            let v = skip_layout_from(s, e + 1);
            return match parse_value(s, v) {
                Step::Done(value, j) => Step::Done(
                    Eu4KeyValue { key: text_between(s, i, k), value },
                    j,
                ),
                Step::NoMatch => Step::Fail(Eu4Error::UnexpectedToken { pos: v }),
                Step::Fail(f) => Step::Fail(f),
            };
        }
    }
    match parse_value(s, i) {
        Step::Done(value, j) => Step::Done(Eu4KeyValue { key: String::new(), value }, j),
        Step::NoMatch => Step::NoMatch,
        Step::Fail(f) => Step::Fail(f),
    }
}

/// (entry layout*)*, ending where no entry starts.
fn parse_entries(s: &Vec<char>, i: usize) -> (r: Step<Vec<Eu4KeyValue>>)
    requires
        i <= s.len(),
    ensures
        entries_step(r, entries_at(s@, i as int)),
        r matches Step::Done(_, j) ==> i <= j <= s.len(),
    decreases s.len() - i, 2int,
{
    let mut acc: Vec<Eu4KeyValue> = Vec::new();
    let mut j = i;
    loop
        invariant
            i <= j <= s.len(),
            prefixed_entries(entries_view(acc@), entries_at(s@, j as int)) == entries_at(s@, i as int),
        decreases s.len() - j,
    {
        match parse_entry(s, j) {
            Step::Done(e, k) => {
                let next = skip_layout_from(s, k);
                proof {
                    lemma_entries_view_push(acc@, e);
                    match entries_at(s@, next as int) {
                        Parsed::Done(es, m) => {
                            assert(entries_view(acc@).push(e@) + es =~= entries_view(acc@) + (seq![e@] + es));
                        },
                        _ => {},
                    }
                }
                acc.push(e);
                j = next;
            },
            Step::NoMatch => {
                assert(entries_view(acc@) + Seq::<EntryModel>::empty() =~= entries_view(acc@));
                return Step::Done(acc, j);
            },
            Step::Fail(f) => {
                return Step::Fail(f);
            },
        }
    }
}

/// table := layout* (entry layout*)*
fn parse_body(s: &Vec<char>, i: usize) -> (r: Step<Vec<Eu4KeyValue>>)
    requires
        i <= s.len(),
    ensures
        entries_step(r, body_at(s@, i as int)),
        r matches Step::Done(_, j) ==> i <= j <= s.len(),
    decreases s.len() - i, 3int,
{
    let k = skip_layout_from(s, i);
    parse_entries(s, k)
}

impl Eu4Table {
    /// Parses as many entries as the text holds and returns the table with
    /// the position (in characters) where reading stopped; the whole text
    /// was read when that is its length.
    pub fn parse_prefix(text: &str) -> (r: Result<(Eu4Table, usize), Eu4Error>)
        ensures
            match r {
                Ok((t, end)) => body_at(text@, 0) == Parsed::Done(t@, end as int),
                Err(e) => body_at(text@, 0) == Parsed::<Seq<EntryModel>>::Fail(e),
            },
    {
        let s = chars_of(text);
        proof {
            lemma_body_matches(s@, 0);
        }
        match parse_body(&s, 0) {
            Step::Done(values, end) => Ok((Eu4Table { values }, end)),
            Step::NoMatch => Ok((Eu4Table { values: Vec::new() }, 0)),
            Step::Fail(e) => Err(e),
        }
    }

    /// Parses a whole text into its top-level table. Input after the last
    /// entry that can be read is left unread.
    pub fn parse(text: &str) -> (r: Result<Eu4Table, Eu4Error>)
        ensures
            match r {
                Ok(t) => parse_model(text@) == Ok::<Seq<EntryModel>, Eu4Error>(t@),
                Err(e) => parse_model(text@) == Err::<Seq<EntryModel>, Eu4Error>(e),
            },
    {
        match Eu4Table::parse_prefix(text) {
            Ok((t, _)) => Ok(t),
            Err(e) => Err(e),
        }
    }
}

} // verus!
