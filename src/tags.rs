//! Country tags: numbering them, picking the next free one, and clearing
//! dated events from a table.

use vstd::prelude::*;
use crate::value::{entries_view, lemma_entries_view, lookup, EntryModel, Eu4Table};

verus! {

/// Tag numbers whose first letter stays within ASCII.
pub const TAG_LIMIT: u32 = 42588;

/// The three letters of tag number `n`: base 26 from `AAA`.
pub open spec fn tag_for_num(n: nat) -> Seq<char> {
    seq![
        ((65 + n / 676) as u8) as char,
        ((65 + (n % 676) / 26) as u8) as char,
        ((65 + n % 26) as u8) as char,
    ]
}

/// Tags that the game reserves.
pub open spec fn reserved_tag(t: Seq<char>) -> bool {
    t == seq!['A', 'U', 'X'] || t == seq!['C', 'O', 'N'] || t == seq!['A', 'N', 'D']
}

/// A tag that is neither reserved nor a key of the table.
pub open spec fn tag_free(t: Seq<char>, es: Seq<EntryModel>) -> bool {
    !reserved_tag(t) && lookup(es, t) is None
}

fn tag_letters(num: u32) -> (r: (char, char, char))
    requires
        num < TAG_LIMIT,
    ensures
        seq![r.0, r.1, r.2] == tag_for_num(num as nat),
{
    let a = (65 + num / 676) as u8;
    let b = (65 + (num % 676) / 26) as u8;
    let c = (65 + num % 26) as u8;
    (a as char, b as char, c as char)
}

/// The tag of number `num`.
pub fn get_tag_for_num(num: u32) -> (r: String)
    requires
        num < TAG_LIMIT,
    ensures
        r@ == tag_for_num(num as nat),
{
    let (a, b, c) = tag_letters(num);
    let mut tag = String::new();
    tag.push(a);
    tag.push(b);
    tag.push(c);
    assert(tag@ =~= seq![a, b, c]);
    tag
}

/// Advances `tag_num` past the next free tag and returns that tag; `None`
/// once the numbers run out. Every number skipped gives a tag that is not
/// free.
pub fn get_next_valid_tag(tag_num: &mut u32, country_tags: &Eu4Table) -> (r: Option<String>)
    ensures
        *old(tag_num) <= *final(tag_num),
        match r {
            Some(t) => {
                &&& *old(tag_num) < *final(tag_num) <= TAG_LIMIT
                &&& t@ == tag_for_num((*final(tag_num) - 1) as nat)
                &&& tag_free(t@, country_tags@)
            },
            None => *final(tag_num) == if *old(tag_num) < TAG_LIMIT {
                TAG_LIMIT
            } else {
                *old(tag_num)
            },
        },
        forall|n: nat|
            *old(tag_num) <= n < *final(tag_num) && (r is None || n + 1 < *final(tag_num))
                ==> !tag_free(#[trigger] tag_for_num(n), country_tags@),
{
    let ghost start = *tag_num;
    loop
        invariant
            start == *old(tag_num),
            start <= *tag_num,
            start < TAG_LIMIT ==> *tag_num <= TAG_LIMIT,
            start >= TAG_LIMIT ==> *tag_num == start,
            forall|n: nat| start <= n < *tag_num ==> !tag_free(#[trigger] tag_for_num(n), country_tags@),
        decreases TAG_LIMIT - *tag_num,
    {
        if *tag_num >= TAG_LIMIT {
            return None;
        }
        let (a, b, c) = tag_letters(*tag_num);
        *tag_num = *tag_num + 1;
        if (a == 'A' && b == 'U' && c == 'X') || (a == 'C' && b == 'O' && c == 'N') || (a == 'A'
            && b == 'N' && c == 'D') {
            continue;
        }
        let mut tag = String::new();
        tag.push(a);
        tag.push(b);
        tag.push(c);
        assert(tag@ =~= seq![a, b, c]);
        if country_tags.get(tag.as_str()).is_some() {
            continue;
        }
        return Some(tag);
    }
}

/// Entries that are kept when clearing events: those without a key, and
/// those whose key does not start with a decimal digit (a date).
pub open spec fn keeps_entry(e: EntryModel) -> bool {
    e.key.len() == 0 || !('0' <= e.key[0] <= '9')
}

pub open spec fn keeps() -> spec_fn(EntryModel) -> bool {
    |e: EntryModel| keeps_entry(e)
}

/// Removes the dated entries of a table, keeping the order of the rest.
pub fn clear_events(table: &mut Eu4Table)
    ensures
        final(table)@ == old(table)@.filter(keeps()),
{
    let ghost orig = table@;
    proof {
        lemma_entries_view(table.values@);
    }
    let mut kept: Vec<crate::value::Eu4KeyValue> = Vec::new();
    let mut k: usize = 0;
    while k < table.values.len()
        invariant
            k <= table.values.len(),
            orig == table@,
            orig.len() == table.values.len(),
            forall|i: int| 0 <= i < table.values.len() ==> #[trigger] orig[i] == table.values@[i]@,
            entries_view(kept@) == orig.subrange(0, k as int).filter(keeps()),
        decreases table.values.len() - k,
    {
        let entry = &table.values[k];
        let keep = if entry.key.as_str().is_empty() {
            true
        } else {
            let c = entry.key.as_str().get_char(0);
            !('0' <= c && c <= '9')
        };
        proof {
            let sub = orig.subrange(0, k + 1);
            assert(sub.drop_last() =~= orig.subrange(0, k as int));
            assert(sub.last() == orig[k as int]);
            assert(keep == keeps_entry(orig[k as int]));
            reveal(Seq::filter);
        }
        if keep {
            let copy = entry.clone();
            proof {
                crate::value::lemma_entries_view_push(kept@, copy);
            }
            kept.push(copy);
        }
        k = k + 1;
    }
    assert(orig.subrange(0, orig.len() as int) =~= orig);
    table.values = kept;
}

} // verus!
