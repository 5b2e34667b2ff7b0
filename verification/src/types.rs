//! The input delimiter setting.
use vstd::prelude::*;
use vstd::string::*;
use crate::text::{ascii_lowercase, is_unicode_ws, str_eq, to_lowercase, trim, lowercase, trim_ws};

verus! {

broadcast use vstd::string::group_string_axioms;

/// How input records are split into fields.
#[derive(Debug, Clone, PartialEq, Eq, Structural)]
pub enum Delimiter {
    /// Fields are separated by this byte (CSV-style, with quoting).
    Character(u8),
    /// Fields are separated by runs of ASCII whitespace outside double quotes.
    Whitespace,
}

/// The word that selects whitespace splitting.
pub open spec fn whitespace_word() -> Seq<char> {
    seq!['w', 'h', 'i', 't', 'e', 's', 'p', 'a', 'c', 'e']
}

/// The delimiter that a trimmed setting `t` denotes, or the message that rejects it;
/// `l` is `t` lower-cased, which only decides whether `t` is the word `whitespace`.
pub open spec fn delimiter_model(t: Seq<char>, l: Seq<char>) -> Result<Delimiter, Seq<char>> {
    if t.len() == 0 {
        Err("Delimiter cannot be empty"@)
    } else if l == whitespace_word() {
        Ok(Delimiter::Whitespace)
    } else if vstd::utf8::encode_utf8(t).len() == 1 {
        Ok(Delimiter::Character(vstd::utf8::encode_utf8(t)[0]))
    } else {
        Err("Delimiter must be a single character or 'whitespace'"@)
    }
}

impl Delimiter {
    /// Reads a trimmed delimiter setting `t`, given also its lower-cased form `l`.
    pub fn from_trimmed(t: &str, l: &str) -> (r: Result<Delimiter, String>)
        ensures
            match delimiter_model(t@, l@) {
                Ok(d) => r == Ok::<Delimiter, String>(d),
                Err(m) => r matches Err(e) && e@ == m,
            },
    {
        if t.is_empty() {
            return Err("Delimiter cannot be empty".to_owned());
        }
        proof {
            reveal_strlit("whitespace");
            assert("whitespace"@ =~= whitespace_word());
        }
        if str_eq(l, "whitespace") {
            Ok(Delimiter::Whitespace)
        } else if t.len() == 1 {
            Ok(Delimiter::Character(t.as_bytes()[0]))
        } else {
            Err("Delimiter must be a single character or 'whitespace'".to_owned())
        }
    }

    /// Reads a delimiter setting: `whitespace` in any case, or a single byte-sized
    /// character, with surrounding whitespace ignored.
    pub fn parse(s: &str) -> (r: Result<Delimiter, String>)
        ensures
            match delimiter_model(trim_ws(s@), lowercase(trim_ws(s@))) {
                Ok(d) => r == Ok::<Delimiter, String>(d),
                Err(m) => r matches Err(e) && e@ == m,
            },
            vstd::utf8::is_ascii_chars(trim_ws(s@)) ==> match delimiter_model(
                trim_ws(s@),
                ascii_lowercase(trim_ws(s@)),
            ) {
                Ok(d) => r == Ok::<Delimiter, String>(d),
                Err(m) => r matches Err(e) && e@ == m,
            },
    {
        let trimmed = trim(s);
        let lowered = to_lowercase(trimmed);
        Delimiter::from_trimmed(trimmed, lowered.as_str())
    }
}

impl std::str::FromStr for Delimiter {
    type Err = String;

    fn from_str(s: &str) -> (r: Result<Delimiter, String>)
        ensures
            match delimiter_model(trim_ws(s@), lowercase(trim_ws(s@))) {
                Ok(d) => r == Ok::<Delimiter, String>(d),
                Err(m) => r matches Err(e) && e@ == m,
            },
            vstd::utf8::is_ascii_chars(trim_ws(s@)) ==> match delimiter_model(
                trim_ws(s@),
                ascii_lowercase(trim_ws(s@)),
            ) {
                Ok(d) => r == Ok::<Delimiter, String>(d),
                Err(m) => r matches Err(e) && e@ == m,
            },
    {
        Delimiter::parse(s)
    }
}

/// A single ASCII character that is not whitespace is a delimiter of its own, kept in its
/// case: only the word `whitespace` is read without regard to case.
pub proof fn law_single_ascii_character(c: char)
    requires
        c <= '\u{7f}',
        !is_unicode_ws(c),
    ensures
        vstd::utf8::is_ascii_chars(seq![c]),
        trim_ws(seq![c]) == seq![c],
        delimiter_model(seq![c], ascii_lowercase(seq![c])) == Ok::<Delimiter, Seq<char>>(
            Delimiter::Character(c as u8),
        ),
{
    let t = seq![c];
    assert(vstd::utf8::is_ascii_chars(t));
    vstd::utf8::is_ascii_chars_encode_utf8(t);
    crate::text::lemma_trim_unchanged(t);
    assert(ascii_lowercase(t).len() == 1);
}

} // verus!
