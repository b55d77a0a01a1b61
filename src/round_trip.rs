//! Serializing a parsed table and parsing the text again gives the same
//! table back.

use vstd::prelude::*;
use crate::grammar::{
    all_keyless, body_at, entries_at, entry_at, lemma_skip_layout, lemma_word_end,
    parse_model, skip_layout, string_body, unescape, value_at, word_end, Parsed,
};
use crate::serialize::{
    entries_text, entry_text, escape_backslashes, list_text, needs_quotes, quoted_if_needed,
    value_text,
};
use crate::text::{is_space, is_word_char, white_space};
use crate::value::{EntryModel, Eu4Error, ValueModel};

verus! {

/// One or more word characters.
pub open spec fn is_word(t: Seq<char>) -> bool {
    t.len() > 0 && forall|k: int| 0 <= k < t.len() ==> is_word_char(#[trigger] t[k])
}

pub open spec fn has_quote(t: Seq<char>) -> bool {
    exists|k: int| 0 <= k < t.len() && t[k] == '"'
}

/// Text that the serializer writes so that it reads back as itself: a bare
/// word, or text that it quotes and that holds no double quote.
pub open spec fn text_round_trips(t: Seq<char>) -> bool {
    is_word(t) || (needs_quotes(t) && !has_quote(t))
}

/// Every scalar text in a value reads back after serializing.
pub open spec fn texts_round_trip(v: ValueModel) -> bool
    decreases v,
{
    match v {
        ValueModel::Text(t) => text_round_trips(t),
        ValueModel::Table(es) => forall|k: int|
            0 <= k < es.len() ==> texts_round_trip(#[trigger] es[k].value),
        ValueModel::List(vs) => forall|k: int|
            0 <= k < vs.len() ==> texts_round_trip(#[trigger] vs[k]),
    }
}

pub open spec fn entries_texts_round_trip(es: Seq<EntryModel>) -> bool {
    forall|k: int| 0 <= k < es.len() ==> texts_round_trip(#[trigger] es[k].value)
}

/// What every parsed value looks like: keys are words or absent, and a
/// table has at least one keyed entry (else it became a list).
pub open spec fn shaped_value(v: ValueModel) -> bool
    decreases v,
{
    match v {
        ValueModel::Text(_) => true,
        ValueModel::Table(es) => !all_keyless(es) && forall|k: int|
            0 <= k < es.len() ==> shaped_entry(#[trigger] es[k]),
        ValueModel::List(vs) => forall|k: int| 0 <= k < vs.len() ==> shaped_value(#[trigger] vs[k]),
    }
}

pub open spec fn shaped_entry(e: EntryModel) -> bool
    decreases e,
{
    (e.key.len() == 0 || is_word(e.key)) && shaped_value(e.value)
}

pub open spec fn shaped_entries(es: Seq<EntryModel>) -> bool {
    forall|k: int| 0 <= k < es.len() ==> shaped_entry(#[trigger] es[k])
}

proof fn lemma_value_shaped(s: Seq<char>, i: int)
    requires
        0 <= i <= s.len(),
    ensures
        value_at(s, i) matches Parsed::Done(v, _) ==> shaped_value(v),
    decreases s.len() - i, 0int,
{
    if i < s.len() && !is_word_char(s[i]) && s[i] == '{' {
        lemma_body_shaped(s, i + 1);
        if let Parsed::Done(es, j) = body_at(s, i + 1) {
            if all_keyless(es) {
                let vs = es.map_values(|e: EntryModel| e.value);
                assert forall|k: int| 0 <= k < vs.len() implies shaped_value(#[trigger] vs[k]) by {
                    assert(shaped_entry(es[k]));
                }
            }
        }
    }
}

proof fn lemma_entry_shaped(s: Seq<char>, i: int)
    requires
        0 <= i <= s.len(),
    ensures
        entry_at(s, i) matches Parsed::Done(e, _) ==> shaped_entry(e),
    decreases s.len() - i, 1int,
{
    if 0 <= i < s.len() && is_word_char(s[i]) && skip_layout(s, word_end(s, i)) < s.len()
        && s[skip_layout(s, word_end(s, i))] == '=' {
        let k = word_end(s, i);
        lemma_word_end(s, i);
        lemma_skip_layout(s, k);
        lemma_skip_layout(s, skip_layout(s, k) + 1);
        let v = skip_layout(s, skip_layout(s, k) + 1);
        lemma_value_shaped(s, v);
        let key = s.subrange(i, k);
        assert forall|m: int| 0 <= m < key.len() implies is_word_char(#[trigger] key[m]) by {
            assert(key[m] == s[i + m]);
        }
    } else {
        lemma_value_shaped(s, i);
    }
}

proof fn lemma_entries_shaped(s: Seq<char>, i: int)
    requires
        0 <= i <= s.len(),
    ensures
        entries_at(s, i) matches Parsed::Done(es, _) ==> shaped_entries(es),
    decreases s.len() - i, 2int,
{
    lemma_entry_shaped(s, i);
    if let Parsed::Done(e, j) = entry_at(s, i) {
        if 0 <= i < j <= s.len() {
            let k = skip_layout(s, j);
            lemma_skip_layout(s, j);
            lemma_entries_shaped(s, k);
            if let Parsed::Done(es, m) = entries_at(s, k) {
                let all = seq![e] + es;
                assert forall|n: int| 0 <= n < all.len() implies shaped_entry(#[trigger] all[n]) by {
                    if n > 0 {
                        assert(all[n] == es[n - 1]);
                    }
                }
            }
        }
    }
}

proof fn lemma_body_shaped(s: Seq<char>, i: int)
    requires
        0 <= i <= s.len(),
    ensures
        body_at(s, i) matches Parsed::Done(es, _) ==> shaped_entries(es),
    decreases s.len() - i, 3int,
{
    lemma_skip_layout(s, i);
    lemma_entries_shaped(s, skip_layout(s, i));
}

proof fn lemma_entries_text_append(a: Seq<EntryModel>, b: Seq<EntryModel>)
    ensures
        entries_text(a + b) == entries_text(a) + entries_text(b),
    decreases b.len(),
{
    if b.len() == 0 {
        assert(a + b =~= a);
        assert(entries_text(a) + entries_text(b) =~= entries_text(a));
    } else {
        let b0 = b.subrange(0, b.len() - 1);
        lemma_entries_text_append(a, b0);
        assert((a + b).subrange(0, (a + b).len() - 1) =~= a + b0);
        assert((a + b)[(a + b).len() - 1] == b[b.len() - 1]);
        assert(entries_text(a + b) =~= entries_text(a) + entries_text(b));
    }
}

proof fn lemma_entries_text_front(es: Seq<EntryModel>)
    requires
        es.len() > 0,
    ensures
        entries_text(es) == entry_text(es[0]) + entries_text(es.subrange(1, es.len() as int)),
{
    let one = seq![es[0]];
    let rest = es.subrange(1, es.len() as int);
    lemma_entries_text_append(one, rest);
    assert(one + rest =~= es);
    assert(one.subrange(0, 0) =~= Seq::<EntryModel>::empty());
    assert(entries_text(one.subrange(0, 0)) == Seq::<char>::empty());
    assert(entries_text(one) == entries_text(one.subrange(0, 0)) + entry_text(one[0]));
    assert(entries_text(one) =~= entry_text(es[0]));
}

proof fn lemma_list_text_append(a: Seq<ValueModel>, b: Seq<ValueModel>)
    ensures
        list_text(a + b) == list_text(a) + list_text(b),
    decreases b.len(),
{
    if b.len() == 0 {
        assert(a + b =~= a);
        assert(list_text(a) + list_text(b) =~= list_text(a));
    } else {
        let b0 = b.subrange(0, b.len() - 1);
        lemma_list_text_append(a, b0);
        assert((a + b).subrange(0, (a + b).len() - 1) =~= a + b0);
        assert((a + b)[(a + b).len() - 1] == b[b.len() - 1]);
        assert(list_text(a + b) =~= list_text(a) + list_text(b));
    }
}

proof fn lemma_list_text_front(vs: Seq<ValueModel>)
    requires
        vs.len() > 0,
    ensures
        list_text(vs) == value_text(vs[0]) + list_text(vs.subrange(1, vs.len() as int)),
{
    let one = seq![vs[0]];
    let rest = vs.subrange(1, vs.len() as int);
    lemma_list_text_append(one, rest);
    assert(one + rest =~= vs);
    assert(one.subrange(0, 0) =~= Seq::<ValueModel>::empty());
    assert(list_text(one.subrange(0, 0)) == Seq::<char>::empty());
    assert(list_text(one) == list_text(one.subrange(0, 0)) + value_text(one[0]));
    assert(list_text(one) =~= value_text(vs[0]));
}

proof fn lemma_escape_append(a: Seq<char>, b: Seq<char>)
    ensures
        escape_backslashes(a + b) == escape_backslashes(a) + escape_backslashes(b),
    decreases b.len(),
{
    if b.len() == 0 {
        assert(a + b =~= a);
        assert(escape_backslashes(a) + escape_backslashes(b) =~= escape_backslashes(a));
    } else {
        let b0 = b.subrange(0, b.len() - 1);
        lemma_escape_append(a, b0);
        assert((a + b).subrange(0, (a + b).len() - 1) =~= a + b0);
        assert((a + b)[(a + b).len() - 1] == b[b.len() - 1]);
        assert(escape_backslashes(a + b) =~= escape_backslashes(a) + escape_backslashes(b));
    }
}

/// The characters of `t` stand in `s` from `i` on.
pub open spec fn occurs_at(s: Seq<char>, i: int, t: Seq<char>) -> bool {
    0 <= i && i + t.len() <= s.len() && s.subrange(i, i + t.len()) == t
}

proof fn lemma_occurs_index(s: Seq<char>, i: int, t: Seq<char>, k: int)
    requires
        occurs_at(s, i, t),
        0 <= k < t.len(),
    ensures
        s[i + k] == t[k],
{
    assert(s.subrange(i, i + t.len())[k] == s[i + k]);
}

proof fn lemma_occurs_part(s: Seq<char>, i: int, t: Seq<char>, a: int, b: int)
    requires
        occurs_at(s, i, t),
        0 <= a <= b <= t.len(),
    ensures
        occurs_at(s, i + a, t.subrange(a, b)),
{
    assert(s.subrange(i + a, i + b) =~= t.subrange(a, b)) by {
        assert forall|k: int| 0 <= k < b - a implies s.subrange(i + a, i + b)[k] == t.subrange(
            a,
            b,
        )[k] by {
            lemma_occurs_index(s, i, t, a + k);
        }
    }
}

proof fn lemma_word_end_at(s: Seq<char>, i: int, e: int)
    requires
        0 <= i <= e <= s.len(),
        forall|k: int| i <= k < e ==> is_word_char(#[trigger] s[k]),
        e < s.len() ==> !is_word_char(s[e]),
    ensures
        word_end(s, i) == e,
    decreases e - i,
{
    if i < e {
        lemma_word_end_at(s, i + 1, e);
    }
}

proof fn lemma_string_body_at(s: Seq<char>, i: int, u: Seq<char>)
    requires
        !has_quote(u),
        occurs_at(s, i, escape_backslashes(u)),
        i + escape_backslashes(u).len() < s.len(),
        s[i + escape_backslashes(u).len()] == '"',
    ensures
        string_body(s, i) == Some((u, i + escape_backslashes(u).len() + 1)),
    decreases u.len(),
{
    if u.len() == 0 {
        assert(escape_backslashes(u).len() == 0);
    } else {
        let c = u[0];
        let rest = u.subrange(1, u.len() as int);
        assert(seq![c] + rest =~= u);
        lemma_escape_append(seq![c], rest);
        assert(seq![c].subrange(0, 0) =~= Seq::<char>::empty());
        let piece = escape_backslashes(seq![c]);
        assert(escape_backslashes(seq![c].subrange(0, 0)) == Seq::<char>::empty());
        assert(piece =~= if c == '\\' {
            seq!['\\', '\\']
        } else {
            seq![c]
        });
        let er = escape_backslashes(rest);
        assert(escape_backslashes(u) == piece + er);
        assert(!has_quote(rest)) by {
            if has_quote(rest) {
                let k = choose|k: int| 0 <= k < rest.len() && rest[k] == '"';
                assert(u[k + 1] == '"');
            }
        }
        assert(c != '"') by {
            assert(u[0] == c);
        }
        lemma_occurs_index(s, i, escape_backslashes(u), 0);
        lemma_occurs_part(s, i, escape_backslashes(u), piece.len() as int, escape_backslashes(u).len() as int);
        assert(escape_backslashes(u).subrange(piece.len() as int, escape_backslashes(u).len() as int) =~= er);
        lemma_string_body_at(s, i + piece.len(), rest);
        if c == '\\' {
            lemma_occurs_index(s, i, escape_backslashes(u), 1);
            assert(s[i] == '\\' && s[i + 1] == '\\');
            assert(unescape('\\') == '\\');
        } else {
            assert(s[i] == c);
        }
        assert(seq![c] + rest =~= u);
    }
}

/// The characters that can begin a value.
pub open spec fn starts_token(c: char) -> bool {
    is_word_char(c) || c == '"' || c == '{'
}

/// What may follow an entry's text: another entry, a closing brace, or
/// the end of input.
pub open spec fn follows_entry(s: Seq<char>, p: int) -> bool {
    p == s.len() || (0 <= p < s.len() && (starts_token(s[p]) || s[p] == '}'))
}

pub open spec fn keyless(vs: Seq<ValueModel>) -> Seq<EntryModel> {
    vs.map_values(|v: ValueModel| EntryModel { key: Seq::empty(), value: v })
}

proof fn lemma_word_unquoted(t: Seq<char>)
    requires
        is_word(t),
    ensures
        quoted_if_needed(t) == t,
{
    if needs_quotes(t) {
        let k = choose|k: int| 0 <= k < t.len() && (t[k] == '\\' || t[k] == ' ');
        assert(is_word_char(t[k]));
    }
}

proof fn lemma_value_text_ends(v: ValueModel)
    requires
        texts_round_trip(v),
    ensures
        value_text(v).len() >= 2,
        starts_token(value_text(v)[0]),
        value_text(v)[value_text(v).len() - 1] == '\n',
{
    match v {
        ValueModel::Text(t) => {
            if is_word(t) {
                lemma_word_unquoted(t);
                assert(is_word_char(t[0]));
            }
        },
        _ => {},
    }
}

proof fn lemma_entry_text_ends(e: EntryModel)
    requires
        shaped_entry(e),
        texts_round_trip(e.value),
    ensures
        entry_text(e).len() >= 2,
        starts_token(entry_text(e)[0]),
        entry_text(e)[entry_text(e).len() - 1] == '\n',
{
    lemma_value_text_ends(e.value);
    if e.key.len() > 0 {
        lemma_word_unquoted(e.key);
        assert(is_word_char(e.key[0]));
    }
}

/// Layout stops in front of whatever may follow an entry.
proof fn lemma_stops(s: Seq<char>, p: int)
    requires
        follows_entry(s, p),
    ensures
        skip_layout(s, p) == p,
        p < s.len() ==> s[p] != '=',
{
}

/// A line feed after an entry is skipped, and nothing after it.
proof fn lemma_skips_line_feed(s: Seq<char>, j: int)
    requires
        0 <= j < s.len(),
        s[j] == '\n',
        follows_entry(s, j + 1),
    ensures
        skip_layout(s, j) == j + 1,
{
    assert(white_space('\n'));
    assert(is_space('\n'));
    lemma_stops(s, j + 1);
}

proof fn lemma_value_round_trip(s: Seq<char>, i: int, v: ValueModel)
    requires
        shaped_value(v),
        texts_round_trip(v),
        occurs_at(s, i, value_text(v)),
    ensures
        value_at(s, i) == Parsed::Done(v, i + value_text(v).len() - 1),
    decreases v, 1int,
{
    let vt = value_text(v);
    lemma_value_text_ends(v);
    lemma_occurs_index(s, i, vt, 0);
    match v {
        ValueModel::Text(t) => {
            if is_word(t) {
                lemma_word_unquoted(t);
                assert forall|k: int| i <= k < i + t.len() implies is_word_char(#[trigger] s[k]) by {
                    lemma_occurs_index(s, i, vt, k - i);
                }
                lemma_occurs_index(s, i, vt, t.len() as int);
                lemma_word_end_at(s, i, i + t.len());
                lemma_occurs_part(s, i, vt, 0, t.len() as int);
                assert(vt.subrange(0, t.len() as int) =~= t);
            } else {
                let esc = escape_backslashes(t);
                assert(vt =~= seq!['"'] + esc + seq!['"', '\n']);
                lemma_occurs_part(s, i, vt, 1, 1 + esc.len() as int);
                assert(vt.subrange(1, 1 + esc.len() as int) =~= esc);
                lemma_occurs_index(s, i, vt, 1 + esc.len() as int);
                lemma_string_body_at(s, i + 1, t);
            }
        },
        ValueModel::Table(es) => {
            let et = entries_text(es);
            assert(vt =~= seq!['{', '\n'] + et + seq!['}', '\n']);
            lemma_occurs_index(s, i, vt, 1);
            lemma_occurs_part(s, i, vt, 2, 2 + et.len() as int);
            assert(vt.subrange(2, 2 + et.len() as int) =~= et);
            lemma_occurs_index(s, i, vt, 2 + et.len() as int);
            if es.len() > 0 {
                lemma_entries_text_front(es);
                lemma_entry_text_ends(es[0]);
                lemma_occurs_index(s, i, vt, 2);
            }
            lemma_skips_line_feed(s, i + 1);
            lemma_entries_round_trip(s, i + 2, es);
        },
        ValueModel::List(vs) => {
            let lt = list_text(vs);
            assert(vt =~= seq!['{', '\n'] + lt + seq!['}', '\n']);
            lemma_occurs_index(s, i, vt, 1);
            lemma_occurs_part(s, i, vt, 2, 2 + lt.len() as int);
            assert(vt.subrange(2, 2 + lt.len() as int) =~= lt);
            lemma_occurs_index(s, i, vt, 2 + lt.len() as int);
            if vs.len() > 0 {
                lemma_list_text_front(vs);
                lemma_value_text_ends(vs[0]);
                lemma_occurs_index(s, i, vt, 2);
            }
            lemma_skips_line_feed(s, i + 1);
            lemma_list_round_trip(s, i + 2, vs);
            let es = keyless(vs);
            assert(all_keyless(es));
            assert(es.map_values(|e: EntryModel| e.value) =~= vs);
        },
    }
}

proof fn lemma_entry_round_trip(s: Seq<char>, i: int, e: EntryModel)
    requires
        shaped_entry(e),
        texts_round_trip(e.value),
        occurs_at(s, i, entry_text(e)),
        follows_entry(s, i + entry_text(e).len()),
    ensures
        entry_at(s, i) == Parsed::Done(e, i + entry_text(e).len() - 1),
    decreases e.value, 2int,
{
    let et = entry_text(e);
    let vt = value_text(e.value);
    lemma_value_text_ends(e.value);
    if e.key.len() == 0 {
        lemma_value_round_trip(s, i, e.value);
        assert(e.key =~= Seq::<char>::empty());
        lemma_occurs_index(s, i, vt, 0);
        if is_word_char(s[i]) {
            let t = e.value->Text_0;
            assert(is_word(t)) by {
                match e.value {
                    ValueModel::Text(u) => {
                        if !is_word(u) {
                            assert(vt[0] == '"');
                        }
                    },
                    _ => {},
                }
            }
            lemma_word_unquoted(t);
            assert forall|k: int| i <= k < i + t.len() implies is_word_char(#[trigger] s[k]) by {
                lemma_occurs_index(s, i, vt, k - i);
            }
            lemma_occurs_index(s, i, vt, t.len() as int);
            lemma_word_end_at(s, i, i + t.len());
            lemma_skips_line_feed(s, i + t.len());
            lemma_stops(s, i + t.len() + 1);
        }
    } else {
        let key = e.key;
        let n = key.len() as int;
        lemma_word_unquoted(key);
        assert(et =~= key + seq![' ', '=', ' '] + vt);
        assert forall|k: int| i <= k < i + n implies is_word_char(#[trigger] s[k]) by {
            lemma_occurs_index(s, i, et, k - i);
        }
        lemma_occurs_index(s, i, et, n as int);
        lemma_occurs_index(s, i, et, n + 1);
        lemma_occurs_index(s, i, et, n + 2);
        lemma_occurs_index(s, i, et, n + 3);
        lemma_word_end_at(s, i, i + n);
        assert(is_space(' '));
        assert(skip_layout(s, i + n + 1) == i + n + 1);
        assert(skip_layout(s, i + n) == i + n + 1);
        assert(vt[0] == et[n + 3]);
        assert(skip_layout(s, i + n + 3) == i + n + 3);
        assert(skip_layout(s, i + n + 2) == i + n + 3);
        lemma_occurs_part(s, i, et, n + 3, et.len() as int);
        assert(et.subrange(n + 3, et.len() as int) =~= vt);
        lemma_value_round_trip(s, i + n + 3, e.value);
        lemma_occurs_part(s, i, et, 0, n as int);
        assert(et.subrange(0, n as int) =~= key);
    }
}

proof fn lemma_entries_round_trip(s: Seq<char>, i: int, es: Seq<EntryModel>)
    requires
        shaped_entries(es),
        entries_texts_round_trip(es),
        occurs_at(s, i, entries_text(es)),
        i + entries_text(es).len() == s.len() || s[i + entries_text(es).len()] == '}',
    ensures
        entries_at(s, i) == Parsed::Done(es, i + entries_text(es).len()),
    decreases es, 0int,
{
    let et = entries_text(es);
    if es.len() == 0 {
        assert(es =~= Seq::<EntryModel>::empty());
        assert(entry_at(s, i) is NoMatch);
    } else {
        let e0 = es[0];
        let rest = es.subrange(1, es.len() as int);
        lemma_entries_text_front(es);
        let e0t = entry_text(e0);
        let rt = entries_text(rest);
        assert(shaped_entry(e0) && texts_round_trip(e0.value));
        lemma_entry_text_ends(e0);
        lemma_occurs_part(s, i, et, 0, e0t.len() as int);
        assert(et.subrange(0, e0t.len() as int) =~= e0t);
        lemma_occurs_part(s, i, et, e0t.len() as int, et.len() as int);
        assert(et.subrange(e0t.len() as int, et.len() as int) =~= rt);
        assert(shaped_entries(rest) && entries_texts_round_trip(rest)) by {
            assert forall|k: int| 0 <= k < rest.len() implies shaped_entry(#[trigger] rest[k])
                && texts_round_trip(rest[k].value) by {
                assert(rest[k] == es[k + 1]);
            }
        }
        if rest.len() > 0 {
            lemma_entries_text_front(rest);
            lemma_entry_text_ends(rest[0]);
            lemma_occurs_index(s, i, et, e0t.len() as int);
        }
        lemma_entry_round_trip(s, i, e0);
        let j = i + e0t.len() - 1;
        lemma_occurs_index(s, i, et, e0t.len() - 1);
        lemma_skips_line_feed(s, j);
        lemma_entries_round_trip(s, j + 1, rest);
        assert(seq![e0] + rest =~= es);
    }
}

proof fn lemma_list_round_trip(s: Seq<char>, i: int, vs: Seq<ValueModel>)
    requires
        forall|k: int| 0 <= k < vs.len() ==> shaped_value(#[trigger] vs[k]) && texts_round_trip(vs[k]),
        occurs_at(s, i, list_text(vs)),
        i + list_text(vs).len() == s.len() || s[i + list_text(vs).len()] == '}',
    ensures
        entries_at(s, i) == Parsed::Done(keyless(vs), i + list_text(vs).len()),
    decreases vs, 0int,
{
    let lt = list_text(vs);
    if vs.len() == 0 {
        assert(keyless(vs) =~= Seq::<EntryModel>::empty());
        assert(entry_at(s, i) is NoMatch);
    } else {
        let v0 = vs[0];
        let rest = vs.subrange(1, vs.len() as int);
        let e0 = EntryModel { key: Seq::empty(), value: v0 };
        lemma_list_text_front(vs);
        let v0t = value_text(v0);
        let rt = list_text(rest);
        assert(entry_text(e0) == v0t);
        assert(shaped_entry(e0));
        lemma_value_text_ends(v0);
        lemma_occurs_part(s, i, lt, 0, v0t.len() as int);
        assert(lt.subrange(0, v0t.len() as int) =~= v0t);
        lemma_occurs_part(s, i, lt, v0t.len() as int, lt.len() as int);
        assert(lt.subrange(v0t.len() as int, lt.len() as int) =~= rt);
        assert forall|k: int| 0 <= k < rest.len() implies shaped_value(#[trigger] rest[k])
            && texts_round_trip(rest[k]) by {
            assert(rest[k] == vs[k + 1]);
        }
        if rest.len() > 0 {
            lemma_list_text_front(rest);
            lemma_value_text_ends(rest[0]);
            lemma_occurs_index(s, i, lt, v0t.len() as int);
        }
        lemma_entry_round_trip(s, i, e0);
        let j = i + v0t.len() - 1;
        lemma_occurs_index(s, i, lt, v0t.len() - 1);
        lemma_skips_line_feed(s, j);
        lemma_list_round_trip(s, j + 1, rest);
        assert(seq![e0] + keyless(rest) =~= keyless(vs));
    }
}

/// Serializing a table that parsing produced and parsing the text again
/// gives the same entries, field for field, provided every scalar text in
/// it is a bare word or is one that the serializer quotes and that holds
/// no double quote (the serializer escapes no quote, and writes other
/// texts bare).
pub proof fn lemma_serialize_round_trip(s: Seq<char>, es: Seq<EntryModel>)
    requires
        parse_model(s) == Ok::<Seq<EntryModel>, Eu4Error>(es),
        entries_texts_round_trip(es),
    ensures
        parse_model(entries_text(es)) == Ok::<Seq<EntryModel>, Eu4Error>(es),
{
    lemma_body_shaped(s, 0);
    let t = entries_text(es);
    if es.len() > 0 {
        lemma_entries_text_front(es);
        lemma_entry_text_ends(es[0]);
    }
    lemma_stops(t, 0);
    assert(t.subrange(0, t.len() as int) =~= t);
    lemma_entries_round_trip(t, 0, es);
}

} // verus!
