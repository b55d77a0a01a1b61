//! String building and character classes shared by the parser and the
//! serializer.

use vstd::prelude::*;

verus! {

/// Relies on `String::push`: the character is appended at the end.
pub assume_specification[ std::string::String::push ](s: &mut std::string::String, ch: char)
    ensures
        final(s)@ == old(s)@.push(ch),
;

/// Relies on `==` of string slices: equal exactly when the characters are.
pub assume_specification[ <str as core::cmp::PartialEq>::eq ](a: &str, b: &str) -> (r: bool)
    ensures
        r == (a@ == b@),
;

/// Whether `char::is_alphanumeric` holds of a character (the Unicode
/// Alphabetic or Numeric property); the parser asks it only beyond ASCII.
pub uninterp spec fn unicode_alphanumeric(c: char) -> bool;

/// Relies on `char::is_alphanumeric`, whose answer depends on the character alone.
#[verifier::external_body]
fn std_is_alphanumeric(c: char) -> (r: bool)
    ensures
        r == unicode_alphanumeric(c),
{
    c.is_alphanumeric()
}

/// The Unicode White_Space property, which `char::is_whitespace` tests.
pub open spec fn white_space(c: char) -> bool {
    let u = c as u32;
    ||| 0x09 <= u <= 0x0d
    ||| u == 0x20 || u == 0x85 || u == 0xa0 || u == 0x1680
    ||| 0x2000 <= u <= 0x200a
    ||| u == 0x2028 || u == 0x2029 || u == 0x202f || u == 0x205f || u == 0x3000
}

pub open spec fn is_ascii_alnum(c: char) -> bool {
    ||| 0x30 <= c as u32 <= 0x39
    ||| 0x41 <= c as u32 <= 0x5a
    ||| 0x61 <= c as u32 <= 0x7a
}

/// Alphanumeric characters and `.`, `_`, `-` make up bare words.
pub open spec fn is_word_char(c: char) -> bool {
    if (c as u32) < 0x80 {
        is_ascii_alnum(c) || c == '.' || c == '_' || c == '-'
    } else {
        unicode_alphanumeric(c)
    }
}

/// White space between tokens. No White_Space character is alphanumeric,
/// so a word character always starts a token and never counts as space.
pub open spec fn is_space(c: char) -> bool {
    white_space(c) && !is_word_char(c)
}

pub fn word_char(c: char) -> (r: bool)
    ensures
        r == is_word_char(c),
{
    if (c as u32) < 0x80 {
        let u = c as u32;
        (0x30 <= u && u <= 0x39) || (0x41 <= u && u <= 0x5a) || (0x61 <= u && u <= 0x7a)
            || c == '.' || c == '_' || c == '-'
    } else {
        std_is_alphanumeric(c)
    }
}

pub fn space_char(c: char) -> (r: bool)
    ensures
        r == is_space(c),
{
    let u = c as u32;
    let white = (0x09 <= u && u <= 0x0d) || u == 0x20 || u == 0x85 || u == 0xa0 || u == 0x1680
        || (0x2000 <= u && u <= 0x200a) || u == 0x2028 || u == 0x2029 || u == 0x202f
        || u == 0x205f || u == 0x3000;
    white && !word_char(c)
}

/// The characters of `text`, in order.
pub fn chars_of(text: &str) -> (r: Vec<char>)
    ensures
        r@ == text@,
{
    let mut out: Vec<char> = Vec::new();
    for c in it: text.chars()
        invariant
            out@ == it.seq().take(it.index() as int),
            it.seq() == text@,
    {
        out.push(c);
    }
    out
}

/// The characters of `s` from `i` up to `j`, as a string.
pub fn text_between(s: &Vec<char>, i: usize, j: usize) -> (r: String)
    requires
        i <= j <= s.len(),
    ensures
        r@ == s@.subrange(i as int, j as int),
{
    let mut out = String::new();
    let mut k = i;
    while k < j
        invariant
            i <= k <= j <= s.len(),
            out@ == s@.subrange(i as int, k as int),
        decreases j - k,
    {
        out.push(s[k]);
        k = k + 1;
        assert(out@ =~= s@.subrange(i as int, k as int));
    }
    out
}

/// `a` followed by `b`.
pub fn concat(a: &str, b: &str) -> (r: String)
    ensures
        r@ == a@ + b@,
{
    let mut out = String::new();
    let ca = chars_of(a);
    let cb = chars_of(b);
    let mut k: usize = 0;
    while k < ca.len()
        invariant
            k <= ca.len(),
            ca@ == a@,
            out@ == ca@.subrange(0, k as int),
        decreases ca.len() - k,
    {
        out.push(ca[k]);
        k = k + 1;
        assert(out@ =~= ca@.subrange(0, k as int));
    }
    let mut k: usize = 0;
    while k < cb.len()
        invariant
            k <= cb.len(),
            ca@ == a@,
            cb@ == b@,
            out@ == a@ + cb@.subrange(0, k as int),
        decreases cb.len() - k,
    {
        out.push(cb[k]);
        k = k + 1;
        assert(out@ =~= a@ + cb@.subrange(0, k as int));
    }
    assert(ca@.subrange(0, ca.len() as int) =~= ca@);
    assert(cb@.subrange(0, cb.len() as int) =~= cb@);
    out
}

/// Whether `s` begins with `prefix`.
pub fn starts_with(s: &str, prefix: &str) -> (r: bool)
    ensures
        r == (prefix@.len() <= s@.len() && s@.subrange(0, prefix@.len() as int) == prefix@),
{
    let cs = chars_of(s);
    let cp = chars_of(prefix);
    if cp.len() > cs.len() {
        return false;
    }
    let mut k: usize = 0;
    while k < cp.len()
        invariant
            k <= cp.len() <= cs.len(),
            cs@ == s@,
            cp@ == prefix@,
            forall|m: int| 0 <= m < k ==> cs@[m] == cp@[m],
        decreases cp.len() - k,
    {
        if cs[k] != cp[k] {
            assert(s@.subrange(0, prefix@.len() as int)[k as int] != prefix@[k as int]);
            return false;
        }
        k = k + 1;
    }
    assert(s@.subrange(0, prefix@.len() as int) =~= prefix@);
    true
}

} // verus!
