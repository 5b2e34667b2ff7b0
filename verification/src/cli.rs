//! The command-line settings, as plain values, and the writer buffer size setting.
use vstd::prelude::*;
use vstd::string::*;
use crate::text::{
    ascii_lower_char, ascii_lowercase, chars_of, decimal, is_ascii_digit, is_unicode_ws, lemma_decimal_digits,
    lemma_trim_unchanged, law_decimal_reads_back, lowercase, parse_usize, push_char, string_of_chars,
    to_lowercase, trim, trim_ws, usize_literal, usize_to_decimal,
};
use crate::types::Delimiter;

verus! {

broadcast use vstd::string::group_string_axioms;

#[verifier::external_type_specification]
#[verifier::external_body]
pub struct ExPathBuf(std::path::PathBuf);

/// The settings given on the command line, before they are checked.
#[derive(Debug)]
pub struct Cli {
    /// Input file to read from. If not provided, reads from standard input.
    pub file: Option<std::path::PathBuf>,
    /// Comma-separated list of field names corresponding to the input columns.
    pub mapping: String,
    /// Comma-separated list of field names to select from the mapping.
    pub select: Option<String>,
    /// Number of lines to skip from the input before processing.
    pub skip: Option<usize>,
    /// Number of lines to process after skipping.
    pub take: Option<usize>,
    /// Disables column count validation.
    pub loose: bool,
    /// Delimiter used to split the input fields.
    pub delimiter: Delimiter,
    /// Delimiter used to join the output fields.
    pub output_delimiter: String,
    /// Delimiter used to join fields of multi-column mappings.
    pub output_greedy_delimiter: String,
    /// Output results in JSON format instead of delimited text.
    pub json: bool,
    /// The buffer size for the output writer in bytes.
    pub buffer: WriterBufferSize,
}

/// The size in bytes of the output writer's buffer.
/// Written as a number with an optional unit: `b`, `k`, `m` or `g` (any case).
#[derive(Debug, Clone)]
pub struct WriterBufferSize(pub usize);

/// The factor a unit letter (or a final digit, which means bytes) stands for.
pub open spec fn unit_multiplier(c: char) -> Option<nat> {
    if c == 'b' {
        Some(1)
    } else if c == 'k' {
        Some(1024)
    } else if c == 'm' {
        Some(1048576)
    } else if c == 'g' {
        Some(1073741824)
    } else if is_ascii_digit(c) {
        Some(1)
    } else {
        None
    }
}

/// The size in bytes that a trimmed, lower-cased setting denotes, or the message
/// that rejects it.
pub open spec fn buffer_size_model(l: Seq<char>) -> Result<usize, Seq<char>> {
    if l.len() == 0 {
        Err("Buffer size cannot be empty"@)
    } else {
        let c = l.last();
        match unit_multiplier(c) {
            None => Err("Invalid suffix '"@ + seq![c] + "'. Use b, k, m, or g."@),
            Some(mult) => {
                let number = if is_ascii_digit(c) { l } else { l.drop_last() };
                match usize_literal(trim_ws(number)) {
                    None => Err("'"@ + number + "' is not a valid number"@),
                    Some(n) => if n * mult <= usize::MAX {
                        Ok((n * mult) as usize)
                    } else {
                        Err("'"@ + number + "' is too large"@)
                    },
                }
            },
        }
    }
}

/// How a size is shown: whole mebibytes, else whole kibibytes, else bytes.
pub open spec fn buffer_size_display(size: nat) -> Seq<char> {
    if size >= 1048576 {
        decimal(size / 1048576) + seq!['M']
    } else if size >= 1024 {
        decimal(size / 1024) + seq!['K']
    } else {
        decimal(size) + seq!['B']
    }
}

impl WriterBufferSize {
    /// The size in bytes.
    pub fn size(&self) -> (r: usize)
        ensures
            r == self.0,
    {
        self.0
    }

    /// Reads a setting that has already been trimmed and lower-cased.
    pub fn from_normalized(l: &str) -> (r: Result<WriterBufferSize, String>)
        ensures
            match buffer_size_model(l@) {
                Ok(n) => r matches Ok(w) && w.0 == n,
                Err(m) => r matches Err(e) && e@ == m,
            },
    {
        let chars = chars_of(l);
        let len = chars.len();
        if len == 0 {
            return Err("Buffer size cannot be empty".to_owned());
        }
        let c = chars[len - 1];
        let mult: usize = if c == 'b' {
            1
        } else if c == 'k' {
            1024
        } else if c == 'm' {
            1048576
        } else if c == 'g' {
            1073741824
        } else if '0' <= c && c <= '9' {
            1
        } else {
            let mut msg = "Invalid suffix '".to_owned();
            push_char(&mut msg, c);
            msg.append("'. Use b, k, m, or g.");
            return Err(msg);
        };
        let number = if '0' <= c && c <= '9' {
            string_of_chars(&chars, 0, len)
        } else {
            string_of_chars(&chars, 0, len - 1)
        };
        assert(l@.subrange(0, len as int) == l@);
        match parse_usize(trim(number.as_str())) {
            Ok(n) => match n.checked_mul(mult) {
                Some(v) => Ok(WriterBufferSize(v)),
                None => {
                    let mut msg = "'".to_owned();
                    msg.append(number.as_str());
                    msg.append("' is too large");
                    Err(msg)
                },
            },
            Err(_) => {
                let mut msg = "'".to_owned();
                msg.append(number.as_str());
                msg.append("' is not a valid number");
                Err(msg)
            },
        }
    }

    /// Reads a setting such as `512K`, `128b` or `1M`, with surrounding whitespace
    /// ignored; a number alone means bytes.
    pub fn parse(s: &str) -> (r: Result<WriterBufferSize, String>)
        ensures
            match buffer_size_model(lowercase(trim_ws(s@))) {
                Ok(n) => r matches Ok(w) && w.0 == n,
                Err(m) => r matches Err(e) && e@ == m,
            },
            vstd::utf8::is_ascii_chars(trim_ws(s@)) ==> match buffer_size_model(
                ascii_lowercase(trim_ws(s@)),
            ) {
                Ok(n) => r matches Ok(w) && w.0 == n,
                Err(m) => r matches Err(e) && e@ == m,
            },
    {
        let lowered = to_lowercase(trim(s));
        WriterBufferSize::from_normalized(lowered.as_str())
    }

    /// The size written with the largest unit (`M`, `K` or `B`) that it reaches,
    /// rounded down.
    pub fn to_display_string(&self) -> (r: String)
        ensures
            r@ == buffer_size_display(self.0 as nat),
    {
        let size = self.0;
        if size >= 1048576 {
            let mut r = usize_to_decimal(size / 1048576);
            push_char(&mut r, 'M');
            r
        } else if size >= 1024 {
            let mut r = usize_to_decimal(size / 1024);
            push_char(&mut r, 'K');
            r
        } else {
            let mut r = usize_to_decimal(size);
            push_char(&mut r, 'B');
            r
        }
    }
}

impl std::str::FromStr for WriterBufferSize {
    type Err = String;

    fn from_str(s: &str) -> (r: Result<WriterBufferSize, String>)
        ensures
            match buffer_size_model(lowercase(trim_ws(s@))) {
                Ok(n) => r matches Ok(w) && w.0 == n,
                Err(m) => r matches Err(e) && e@ == m,
            },
            vstd::utf8::is_ascii_chars(trim_ws(s@)) ==> match buffer_size_model(
                ascii_lowercase(trim_ws(s@)),
            ) {
                Ok(n) => r matches Ok(w) && w.0 == n,
                Err(m) => r matches Err(e) && e@ == m,
            },
    {
        WriterBufferSize::parse(s)
    }
}

proof fn lemma_display_reads_back_with(q: nat, unit: nat, upper: char, lower: char)
    requires
        q * unit <= usize::MAX,
        upper == 'M' && lower == 'm' && unit == 1048576 || upper == 'K' && lower == 'k' && unit
            == 1024 || upper == 'B' && lower == 'b' && unit == 1,
    ensures
        vstd::utf8::is_ascii_chars(trim_ws(decimal(q) + seq![upper])),
        buffer_size_model(ascii_lowercase(trim_ws(decimal(q) + seq![upper]))) == Ok::<
            usize,
            Seq<char>,
        >((q * unit) as usize),
{
    lemma_decimal_digits(q);
    let d = decimal(q) + seq![upper];
    assert(d[0] == decimal(q)[0]);
    assert(is_ascii_digit(decimal(q)[0]));
    assert(!is_unicode_ws(d[0]));
    assert(d.last() == upper);
    lemma_trim_unchanged(d);
    let l = ascii_lowercase(d);
    assert(ascii_lower_char(upper) == lower);
    assert forall|i: int| 0 <= i < decimal(q).len() implies ascii_lower_char(
        #[trigger] decimal(q)[i],
    ) == decimal(q)[i] by {
        assert(is_ascii_digit(decimal(q)[i]));
    }
    assert(l =~= decimal(q) + seq![lower]);
    assert(l.last() == lower);
    assert(l.drop_last() =~= decimal(q));
    assert(!is_ascii_digit(lower));
    assert(is_ascii_digit(decimal(q)[decimal(q).len() - 1]));
    lemma_trim_unchanged(decimal(q));
    law_decimal_reads_back(q);
    assert forall|i: int| 0 <= i < d.len() implies '\0' <= #[trigger] d[i] <= '\u{7f}' by {
        if i < decimal(q).len() {
            assert(d[i] == decimal(q)[i]);
            assert(is_ascii_digit(decimal(q)[i]));
        }
    }
}

/// A size whose display is exact (a whole number of its unit) reads back as the same size:
/// the display is ASCII, so `WriterBufferSize::parse` lower-cases it letter by letter, and
/// reading it gives the size again.
pub proof fn law_display_reads_back(x: usize)
    requires
        x >= 1048576 ==> x % 1048576 == 0,
        1024 <= x < 1048576 ==> x % 1024 == 0,
    ensures
        vstd::utf8::is_ascii_chars(trim_ws(buffer_size_display(x as nat))),
        buffer_size_model(ascii_lowercase(trim_ws(buffer_size_display(x as nat)))) == Ok::<
            usize,
            Seq<char>,
        >(x),
{
    if x >= 1048576 {
        assert(x == (x / 1048576) * 1048576);
        lemma_display_reads_back_with((x / 1048576) as nat, 1048576, 'M', 'm');
    } else if x >= 1024 {
        assert(x == (x / 1024) * 1024);
        lemma_display_reads_back_with((x / 1024) as nat, 1024, 'K', 'k');
    } else {
        lemma_display_reads_back_with(x as nat, 1, 'B', 'b');
    }
}

} // verus!
