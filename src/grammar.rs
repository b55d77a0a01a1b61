//! The grammar as spec functions over the input characters.
//!
//! Each function reads `s` from position `i` and says what is recognised
//! there and where reading stops.

use vstd::prelude::*;
use crate::text::{is_space, is_word_char};
use crate::value::{EntryModel, Eu4Error, ValueModel};

verus! {

/// The outcome of recognising one construct at a position.
pub enum Parsed<T> {
    /// Recognised, with reading continuing at the position.
    Done(T, int),
    /// Nothing of the construct starts here; nothing was consumed.
    NoMatch,
    /// The construct started here but is malformed.
    Fail(Eu4Error),
}

/// End of a comment body: the next line feed, or the end of input.
pub open spec fn comment_end(s: Seq<char>, i: int) -> int
    decreases s.len() - i,
{
    if 0 <= i < s.len() && s[i] != '\n' {
        comment_end(s, i + 1)
    } else {
        i
    }
}

pub proof fn lemma_comment_end(s: Seq<char>, i: int)
    requires
        0 <= i <= s.len(),
    ensures
        i <= comment_end(s, i) <= s.len(),
    decreases s.len() - i,
{
    if i < s.len() && s[i] != '\n' {
        lemma_comment_end(s, i + 1);
    }
}

/// Skips layout: white space and `#` comments running to the line end.
pub open spec fn skip_layout(s: Seq<char>, i: int) -> int
    decreases s.len() - i,
{
    if 0 <= i < s.len() {
        if is_space(s[i]) {
            skip_layout(s, i + 1)
        } else if s[i] == '#' {
            let j = comment_end(s, i + 1);
            proof {
                lemma_comment_end(s, i + 1);
            }
            skip_layout(s, j)
        } else {
            i
        }
    } else {
        i
    }
}

pub proof fn lemma_skip_layout(s: Seq<char>, i: int)
    requires
        0 <= i <= s.len(),
    ensures
        i <= skip_layout(s, i) <= s.len(),
    decreases s.len() - i,
{
    if i < s.len() {
        if is_space(s[i]) {
            lemma_skip_layout(s, i + 1);
        } else if s[i] == '#' {
            lemma_comment_end(s, i + 1);
            lemma_skip_layout(s, comment_end(s, i + 1));
        }
    }
}

/// End of the bare word that starts at `i` (equal to `i` when none does).
pub open spec fn word_end(s: Seq<char>, i: int) -> int
    decreases s.len() - i,
{
    if 0 <= i < s.len() && is_word_char(s[i]) {
        word_end(s, i + 1)
    } else {
        i
    }
}

pub proof fn lemma_word_end(s: Seq<char>, i: int)
    requires
        0 <= i <= s.len(),
    ensures
        i <= word_end(s, i) <= s.len(),
        i < s.len() && is_word_char(s[i]) ==> i < word_end(s, i),
        forall|k: int| i <= k < word_end(s, i) ==> is_word_char(#[trigger] s[k]),
        word_end(s, i) < s.len() ==> !is_word_char(s[word_end(s, i)]),
    decreases s.len() - i,
{
    if i < s.len() && is_word_char(s[i]) {
        lemma_word_end(s, i + 1);
    }
}

/// The character that an escape letter after a backslash stands for.
pub open spec fn unescape(c: char) -> char {
    if c == 'b' {
        '\u{8}'
    } else if c == 'f' {
        '\u{c}'
    } else if c == 'n' {
        '\n'
    } else if c == 'r' {
        '\r'
    } else if c == 't' {
        '\t'
    } else {
        c
    }
}

/// The decoded body of a quoted string whose opening quote precedes `i`,
/// and the position after its closing quote; `None` when the input ends first.
pub open spec fn string_body(s: Seq<char>, i: int) -> Option<(Seq<char>, int)>
    decreases s.len() - i,
{
    if i < 0 || i >= s.len() {
        None
    } else if s[i] == '"' {
        Some((Seq::empty(), i + 1))
    } else {
        let (c, next) = if s[i] == '\\' {
            (unescape(s[i + 1]), i + 2)
        } else {
            (s[i], i + 1)
        };
        if s[i] == '\\' && i + 1 >= s.len() {
            None
        } else {
            match string_body(s, next) {
                Some((t, j)) => Some((seq![c] + t, j)),
                None => None,
            }
        }
    }
}

/// A table becomes a list when no entry carries a key, the empty one included.
pub open spec fn all_keyless(es: Seq<EntryModel>) -> bool {
    forall|k: int| 0 <= k < es.len() ==> (#[trigger] es[k]).key.len() == 0
}

pub open spec fn devolve(es: Seq<EntryModel>) -> ValueModel {
    if all_keyless(es) {
        ValueModel::List(es.map_values(|e: EntryModel| e.value))
    } else {
        ValueModel::Table(es)
    }
}

/// value := word | quoted_string | '{' table '}'
pub open spec fn value_at(s: Seq<char>, i: int) -> Parsed<ValueModel>
    decreases s.len() - i, 0int,
{
    if i < 0 || i >= s.len() {
        Parsed::NoMatch
    } else if is_word_char(s[i]) {
        let j = word_end(s, i);
        Parsed::Done(ValueModel::Text(s.subrange(i, j)), j)
    } else if s[i] == '"' {
        match string_body(s, i + 1) {
            Some((t, j)) => Parsed::Done(ValueModel::Text(t), j),
            None => Parsed::Fail(Eu4Error::UnterminatedString { pos: i as usize }),
        }
    } else if s[i] == '{' {
        match body_at(s, i + 1) {
            Parsed::Done(es, j) => {
                if j >= s.len() {
                    Parsed::Fail(Eu4Error::UnbalancedBlock { pos: i as usize })
                } else if s[j] == '}' {
                    Parsed::Done(devolve(es), j + 1)
                } else {
                    Parsed::Fail(Eu4Error::UnexpectedToken { pos: j as usize })
                }
            },
            Parsed::NoMatch => Parsed::NoMatch,
            Parsed::Fail(e) => Parsed::Fail(e),
        }
    } else {
        Parsed::NoMatch
    }
}

/// entry := word layout* '=' layout* value | value
///
/// A word followed by `=` commits to a keyed entry; otherwise the position
/// is read again as a keyless one.
pub open spec fn entry_at(s: Seq<char>, i: int) -> Parsed<EntryModel>
    decreases s.len() - i, 1int,
{
    if 0 <= i < s.len() && is_word_char(s[i]) && skip_layout(s, word_end(s, i)) < s.len()
        && s[skip_layout(s, word_end(s, i))] == '=' {
        let k = word_end(s, i);
        let v = skip_layout(s, skip_layout(s, k) + 1);
        proof {
            lemma_word_end(s, i);
            lemma_skip_layout(s, k);
            lemma_skip_layout(s, skip_layout(s, k) + 1);
        }
        match value_at(s, v) {
            Parsed::Done(val, j) => Parsed::Done(EntryModel { key: s.subrange(i, k), value: val }, j),
            Parsed::NoMatch => Parsed::Fail(Eu4Error::UnexpectedToken { pos: v as usize }),
            Parsed::Fail(e) => Parsed::Fail(e),
        }
    } else {
        match value_at(s, i) {
            Parsed::Done(val, j) => Parsed::Done(EntryModel { key: Seq::empty(), value: val }, j),
            Parsed::NoMatch => Parsed::NoMatch,
            Parsed::Fail(e) => Parsed::Fail(e),
        }
    }
}

/// (entry layout*)*, ending where no entry starts.
pub open spec fn entries_at(s: Seq<char>, i: int) -> Parsed<Seq<EntryModel>>
    decreases s.len() - i, 2int,
{
    match entry_at(s, i) {
        Parsed::Done(e, j) => {
            // An entry always consumes input; the guard only makes that visible here.
            if 0 <= i < j <= s.len() {
                let k = skip_layout(s, j);
                proof {
                    lemma_skip_layout(s, j);
                }
                match entries_at(s, k) {
                    Parsed::Done(es, m) => Parsed::Done(seq![e] + es, m),
                    Parsed::NoMatch => Parsed::NoMatch,
                    Parsed::Fail(f) => Parsed::Fail(f),
                }
            } else {
                Parsed::Done(Seq::empty(), i)
            }
        },
        Parsed::NoMatch => Parsed::Done(Seq::empty(), i),
        Parsed::Fail(f) => Parsed::Fail(f),
    }
}

/// table := layout* (entry layout*)*
pub open spec fn body_at(s: Seq<char>, i: int) -> Parsed<Seq<EntryModel>>
    decreases s.len() - i, 3int,
{
    if 0 <= i <= s.len() {
        let k = skip_layout(s, i);
        proof {
            lemma_skip_layout(s, i);
        }
        entries_at(s, k)
    } else {
        Parsed::NoMatch
    }
}

/// A table body always yields entries or an error, never "no match".
pub proof fn lemma_body_matches(s: Seq<char>, i: int)
    requires
        0 <= i <= s.len(),
    ensures
        !(body_at(s, i) is NoMatch),
{
    lemma_skip_layout(s, i);
    lemma_entries_match(s, skip_layout(s, i));
}

proof fn lemma_entries_match(s: Seq<char>, i: int)
    requires
        0 <= i <= s.len(),
    ensures
        !(entries_at(s, i) is NoMatch),
    decreases s.len() - i,
{
    if let Parsed::Done(_, j) = entry_at(s, i) {
        if 0 <= i < j <= s.len() {
            lemma_skip_layout(s, j);
            lemma_entries_match(s, skip_layout(s, j));
        }
    }
}

/// The entries of a whole text; input after the last entry is left unread.
pub open spec fn parse_model(s: Seq<char>) -> Result<Seq<EntryModel>, Eu4Error> {
    match body_at(s, 0) {
        Parsed::Done(es, _) => Ok(es),
        Parsed::Fail(e) => Err(e),
        Parsed::NoMatch => Ok(Seq::empty()),
    }
}

} // verus!
