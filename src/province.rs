//! Province file names: `<id> - <name>.txt`, split on spaces, dashes and
//! dots.

use vstd::prelude::*;
use crate::text::{chars_of, text_between};

verus! {

pub open spec fn is_separator(c: char) -> bool {
    c == ' ' || c == '-' || c == '.'
}

/// Skips separators from `i`.
pub open spec fn skip_separators(s: Seq<char>, i: int) -> int
    decreases s.len() - i,
{
    if 0 <= i < s.len() && is_separator(s[i]) {
        skip_separators(s, i + 1)
    } else {
        i
    }
}

/// End of the run of non-separators from `i`.
pub open spec fn segment_end(s: Seq<char>, i: int) -> int
    decreases s.len() - i,
{
    if 0 <= i < s.len() && !is_separator(s[i]) {
        segment_end(s, i + 1)
    } else {
        i
    }
}

/// The first two non-empty segments of a file name, if it has two.
pub open spec fn id_and_name(s: Seq<char>) -> Option<(Seq<char>, Seq<char>)> {
    let a = skip_separators(s, 0);
    let b = segment_end(s, a);
    let c = skip_separators(s, b);
    let d = segment_end(s, c);
    if a < b && c < d {
        Some((s.subrange(a, b), s.subrange(c, d)))
    } else {
        None
    }
}

proof fn lemma_bounds(s: Seq<char>, i: int)
    requires
        0 <= i <= s.len(),
    ensures
        i <= skip_separators(s, i) <= s.len(),
        i <= segment_end(s, i) <= s.len(),
    decreases s.len() - i,
{
    if i < s.len() {
        lemma_bounds(s, i + 1);
    }
}

fn skip_separators_from(s: &Vec<char>, i: usize) -> (r: usize)
    requires
        i <= s.len(),
    ensures
        r == skip_separators(s@, i as int),
{
    let mut j = i;
    while j < s.len() && (s[j] == ' ' || s[j] == '-' || s[j] == '.')
        invariant
            i <= j <= s.len(),
            skip_separators(s@, j as int) == skip_separators(s@, i as int),
        decreases s.len() - j,
    {
        j = j + 1;
    }
    j
}

fn segment_end_from(s: &Vec<char>, i: usize) -> (r: usize)
    requires
        i <= s.len(),
    ensures
        r == segment_end(s@, i as int),
{
    let mut j = i;
    while j < s.len() && !(s[j] == ' ' || s[j] == '-' || s[j] == '.')
        invariant
            i <= j <= s.len(),
            segment_end(s@, j as int) == segment_end(s@, i as int),
        decreases s.len() - j,
    {
        j = j + 1;
    }
    j
}

/// The id and the name of a province from its file name
/// (`"123 - Stockholm.txt"` gives `"123"` and `"Stockholm"`).
pub fn province_id_and_name(file_name: &str) -> (r: Option<(String, String)>)
    ensures
        match r {
            Some((id, name)) => id_and_name(file_name@) == Some((id@, name@)),
            None => id_and_name(file_name@) is None,
        },
{
    let s = chars_of(file_name);
    proof {
        lemma_bounds(s@, 0);
    }
    let a = skip_separators_from(&s, 0);
    proof {
        lemma_bounds(s@, a as int);
    }
    let b = segment_end_from(&s, a);
    proof {
        lemma_bounds(s@, b as int);
    }
    let c = skip_separators_from(&s, b);
    proof {
        lemma_bounds(s@, c as int);
    }
    let d = segment_end_from(&s, c);
    if a < b && c < d {
        Some((text_between(&s, a, b), text_between(&s, c, d)))
    } else {
        None
    }
}

} // verus!
