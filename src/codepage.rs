//! Game data files are stored in the Windows-1252 codepage; this decodes
//! their bytes before parsing.

use vstd::prelude::*;
use encoding::Encoding;
use crate::grammar::parse_model;
use crate::value::{EntryModel, Eu4Error, Eu4Table};

verus! {

/// The characters that bytes 0x80 to 0x9f stand for.
pub open spec fn high_controls() -> Seq<char> {
    seq![
        '\u{20ac}', '\u{81}', '\u{201a}', '\u{192}', '\u{201e}', '\u{2026}', '\u{2020}', '\u{2021}',
        '\u{2c6}', '\u{2030}', '\u{160}', '\u{2039}', '\u{152}', '\u{8d}', '\u{17d}', '\u{8f}',
        '\u{90}', '\u{2018}', '\u{2019}', '\u{201c}', '\u{201d}', '\u{2022}', '\u{2013}', '\u{2014}',
        '\u{2dc}', '\u{2122}', '\u{161}', '\u{203a}', '\u{153}', '\u{9d}', '\u{17e}', '\u{178}',
    ]
}

/// The character of one Windows-1252 byte: the byte's own code point but
/// for 0x80 to 0x9f.
pub open spec fn windows_1252_char(b: u8) -> char {
    if 0x80 <= b < 0xa0 {
        high_controls()[b - 0x80]
    } else {
        b as char
    }
}

/// The text of Windows-1252 bytes, one character per byte.
pub open spec fn windows_1252_text(bytes: Seq<u8>) -> Seq<char> {
    bytes.map_values(|b: u8| windows_1252_char(b))
}

/// Relies on `encoding::all::WINDOWS_1252.decode`: each byte up to 0x7f
/// gives itself, each other byte its entry of the codepage's index, which
/// defines all 128; so decoding never fails.
#[verifier::external_body]
fn decode_1252(bytes: &[u8]) -> (r: Option<String>)
    ensures
        r is Some,
        r.unwrap()@ == windows_1252_text(bytes@),
{
    encoding::all::WINDOWS_1252.decode(bytes, encoding::DecoderTrap::Strict).ok()
}

/// Decodes the bytes of a Windows-1252 file.
pub fn decode_windows_1252(bytes: &[u8]) -> (r: String)
    ensures
        r@ == windows_1252_text(bytes@),
{
    match decode_1252(bytes) {
        Some(t) => t,
        None => String::new(),
    }
}

impl Eu4Table {
    /// Parses the text of a Windows-1252 file.
    pub fn parse_windows_1252(bytes: &[u8]) -> (r: Result<Eu4Table, Eu4Error>)
        ensures
            match r {
                Ok(t) => parse_model(windows_1252_text(bytes@)) == Ok::<Seq<EntryModel>, Eu4Error>(
                    t@,
                ),
                Err(e) => parse_model(windows_1252_text(bytes@)) == Err::<Seq<EntryModel>, Eu4Error>(
                    e,
                ),
            },
    {
        let text = decode_windows_1252(bytes);
        Eu4Table::parse(text.as_str())
    }
}

} // verus!
