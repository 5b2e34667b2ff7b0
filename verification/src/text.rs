//! Character-level text helpers shared by the option parsers, and the
//! small set of standard-library string operations the library relies on.
use vstd::prelude::*;
use vstd::string::*;
use crate::json::join_seqs;

verus! {

broadcast use vstd::string::group_string_axioms;

/// Characters that `char::is_whitespace` accepts: the Unicode `White_Space` property.
pub open spec fn is_unicode_ws(c: char) -> bool {
    let u = c as u32;
    ||| 0x09 <= u <= 0x0d
    ||| u == 0x20
    ||| u == 0x85
    ||| u == 0xa0
    ||| u == 0x1680
    ||| 0x2000 <= u <= 0x200a
    ||| u == 0x2028
    ||| u == 0x2029
    ||| u == 0x202f
    ||| u == 0x205f
    ||| u == 0x3000
}

/// `s` without its leading whitespace.
pub open spec fn trim_start_ws(s: Seq<char>) -> Seq<char>
    decreases s.len(),
{
    if s.len() > 0 && is_unicode_ws(s[0]) {
        trim_start_ws(s.drop_first())
    } else {
        s
    }
}

/// `s` without its trailing whitespace.
pub open spec fn trim_end_ws(s: Seq<char>) -> Seq<char>
    decreases s.len(),
{
    if s.len() > 0 && is_unicode_ws(s.last()) {
        trim_end_ws(s.drop_last())
    } else {
        s
    }
}

/// `s` without leading and trailing whitespace, as `str::trim` gives it.
pub open spec fn trim_ws(s: Seq<char>) -> Seq<char> {
    trim_end_ws(trim_start_ws(s))
}

/// `str::trim`: removes leading and trailing Unicode `White_Space` characters.
#[verifier::external_body]
pub(crate) fn trim(s: &str) -> (r: &str)
    ensures
        r@ == trim_ws(s@),
{
    s.trim()
}

/// What `str::to_lowercase` gives for a string (the Unicode `Lowercase` mapping).
pub uninterp spec fn lowercase(s: Seq<char>) -> Seq<char>;

/// A character with ASCII upper-case letters mapped to lower case.
pub open spec fn ascii_lower_char(c: char) -> char {
    if 'A' <= c && c <= 'Z' {
        ((c as u32) + 32) as char
    } else {
        c
    }
}

/// A string with its ASCII upper-case letters lower-cased.
pub open spec fn ascii_lowercase(s: Seq<char>) -> Seq<char> {
    s.map_values(|c: char| ascii_lower_char(c))
}

/// `str::to_lowercase`: the result is `lowercase` of the argument; on an all-ASCII string
/// each upper-case letter becomes its lower-case letter and nothing else changes.
#[verifier::external_body]
pub(crate) fn to_lowercase(s: &str) -> (r: String)
    ensures
        r@ == lowercase(s@),
        vstd::utf8::is_ascii_chars(s@) ==> r@ == ascii_lowercase(s@),
{
    s.to_lowercase()
}

/// `String::push`: appends one character.
#[verifier::external_body]
pub(crate) fn push_char(s: &mut String, c: char)
    ensures
        final(s)@ == old(s)@.push(c),
{
    s.push(c)
}

pub open spec fn is_ascii_digit(c: char) -> bool {
    '0' <= c && c <= '9'
}

/// The number that a sequence of decimal digits denotes.
pub open spec fn digits_value(d: Seq<char>) -> nat
    decreases d.len(),
{
    if d.len() == 0 {
        0
    } else {
        digits_value(d.drop_last()) * 10 + ((d.last() as u32) - ('0' as u32)) as nat
    }
}

/// The digits of `s` once an optional leading `+` is removed.
pub open spec fn unsigned_digits(s: Seq<char>) -> Seq<char> {
    if s.len() > 0 && s[0] == '+' {
        s.drop_first()
    } else {
        s
    }
}

/// The value `usize::from_str` accepts `s` as: an optional `+`, then one or more
/// ASCII digits whose value fits in a `usize`.
pub open spec fn usize_literal(s: Seq<char>) -> Option<nat> {
    let d = unsigned_digits(s);
    if d.len() > 0 && (forall|i: int| 0 <= i < d.len() ==> is_ascii_digit(#[trigger] d[i]))
        && digits_value(d) <= usize::MAX {
        Some(digits_value(d))
    } else {
        None
    }
}

#[verifier::external_type_specification]
#[verifier::external_body]
pub struct ExParseIntError(std::num::ParseIntError);

/// `<usize as FromStr>::from_str`: succeeds exactly on `usize_literal` strings,
/// with their value.
#[verifier::external_body]
pub(crate) fn parse_usize(s: &str) -> (r: Result<usize, std::num::ParseIntError>)
    ensures
        r is Ok <==> usize_literal(s@) is Some,
        r matches Ok(n) ==> usize_literal(s@) == Some(n as nat),
{
    s.parse::<usize>()
}

/// `std::str::from_utf8`: succeeds exactly on valid UTF-8, decoding it.
#[verifier::external_body]
pub(crate) fn utf8_str(b: &[u8]) -> (r: Option<&str>)
    ensures
        r is Some <==> vstd::utf8::valid_utf8(b@),
        r matches Some(s) ==> s@ == vstd::utf8::decode_utf8(b@),
{
    match std::str::from_utf8(b) {
        Ok(s) => Some(s),
        Err(_) => None,
    }
}

/// The characters of `s`, as a vector.
pub fn chars_of(s: &str) -> (v: Vec<char>)
    ensures
        v@ == s@,
{
    let n = s.unicode_len();
    let mut v: Vec<char> = Vec::new();
    let mut i: usize = 0;
    while i < n
        invariant
            n == s@.len(),
            i <= n,
            v@ == s@.take(i as int),
        decreases n - i,
    {
        v.push(s.get_char(i));
        i = i + 1;
    }
    v
}

/// The views of a sequence of strings.
pub open spec fn views_of(v: Seq<String>) -> Seq<Seq<char>> {
    v.map_values(|x: String| x@)
}

/// The pieces of `s` between occurrences of `sep`, as `str::split` with a
/// character pattern gives them: one more piece than there are separators.
pub open spec fn split_on(s: Seq<char>, sep: char) -> Seq<Seq<char>>
    decreases s.len(),
{
    if s.len() == 0 {
        seq![Seq::<char>::empty()]
    } else {
        let r = split_on(s.drop_last(), sep);
        if s.last() == sep {
            r.push(Seq::<char>::empty())
        } else {
            r.update(r.len() - 1, r.last().push(s.last()))
        }
    }
}

/// A split always has at least one piece.
pub proof fn lemma_split_on_len(s: Seq<char>, sep: char)
    ensures
        split_on(s, sep).len() >= 1,
    decreases s.len(),
{
    if s.len() > 0 {
        lemma_split_on_len(s.drop_last(), sep);
    }
}

/// Splits `s` at every occurrence of `sep`.
pub fn split_chars(s: &str, sep: char) -> (r: Vec<String>)
    ensures
        views_of(r@) == split_on(s@, sep),
{
    let chars = chars_of(s);
    let n = chars.len();
    let mut pieces: Vec<String> = Vec::new();
    let mut cur = String::new();
    let mut i: usize = 0;
    while i < n
        invariant
            n == chars@.len(),
            chars@ == s@,
            i <= n,
            views_of(pieces@).push(cur@) == split_on(s@.take(i as int), sep),
        decreases n - i,
    {
        let c = chars[i];
        proof {
            assert(s@.take(i + 1).drop_last() == s@.take(i as int));
            assert(s@.take(i + 1).last() == c);
            lemma_split_on_len(s@.take(i as int), sep);
        }
        if c == sep {
            let ghost old_views = views_of(pieces@);
            let piece = cur;
            pieces.push(piece);
            cur = String::new();
            assert(views_of(pieces@) == old_views.push(piece@));
        } else {
            push_char(&mut cur, c);
            assert(views_of(pieces@).push(cur@) == split_on(s@.take(i as int), sep).update(
                split_on(s@.take(i as int), sep).len() - 1,
                split_on(s@.take(i as int), sep).last().push(c),
            ));
        }
        i = i + 1;
    }
    assert(s@.take(n as int) == s@);
    pieces.push(cur);
    pieces
}

/// Whether two byte slices hold the same bytes.
pub fn bytes_eq(a: &[u8], b: &[u8]) -> (r: bool)
    ensures
        r == (a@ == b@),
{
    if a.len() != b.len() {
        return false;
    }
    let mut i: usize = 0;
    while i < a.len()
        invariant
            a@.len() == b@.len(),
            i <= a@.len(),
            forall|j: int| 0 <= j < i ==> a@[j] == b@[j],
        decreases a@.len() - i,
    {
        if a[i] != b[i] {
            return false;
        }
        i = i + 1;
    }
    assert(a@ =~= b@);
    true
}

/// Whether two strings hold the same characters.
pub fn str_eq(a: &str, b: &str) -> (r: bool)
    ensures
        r == (a@ == b@),
{
    let r = bytes_eq(a.as_bytes(), b.as_bytes());
    proof {
        vstd::utf8::encode_utf8_decode_utf8(a@);
        vstd::utf8::encode_utf8_decode_utf8(b@);
    }
    r
}

/// The decimal representation of a number is a non-empty run of digits denoting it.
pub proof fn lemma_decimal_digits(n: nat)
    ensures
        decimal(n).len() > 0,
        forall|i: int| 0 <= i < decimal(n).len() ==> is_ascii_digit(#[trigger] decimal(n)[i]),
        digits_value(decimal(n)) == n,
    decreases n,
{
    assert(('0' as u32) == 48);
    assert((digit_char(n % 10) as u32) == (n % 10) + 48);
    if n < 10 {
        assert(decimal(n).drop_last() =~= Seq::<char>::empty());
        assert(decimal(n).last() == digit_char(n));
        assert(digits_value(decimal(n)) == digits_value(decimal(n).drop_last()) * 10 + ((decimal(n).last() as u32) - ('0' as u32)) as nat);
        assert(digits_value(Seq::<char>::empty()) == 0);
    } else {
        lemma_decimal_digits(n / 10);
        let d = decimal(n);
        assert(d.drop_last() == decimal(n / 10));
        assert(d.last() == digit_char(n % 10));
        assert(forall|i: int| 0 <= i < d.len() - 1 ==> d[i] == decimal(n / 10)[i]);
        assert(digits_value(d) == digits_value(d.drop_last()) * 10 + ((d.last() as u32) - ('0' as u32)) as nat);
        assert(n == (n / 10) * 10 + n % 10);
    }
}

/// A number's decimal representation reads back as that number.
pub proof fn law_decimal_reads_back(n: nat)
    requires
        n <= usize::MAX,
    ensures
        usize_literal(decimal(n)) == Some(n),
{
    lemma_decimal_digits(n);
    assert(decimal(n)[0] != '+') by {
        assert(is_ascii_digit(decimal(n)[0]));
    }
}

/// Trimming leaves a string alone when it neither starts nor ends with whitespace.
pub proof fn lemma_trim_unchanged(s: Seq<char>)
    requires
        s.len() > 0,
        !is_unicode_ws(s[0]),
        !is_unicode_ws(s.last()),
    ensures
        trim_ws(s) == s,
{
}

/// The decimal digit for `d < 10`.
pub open spec fn digit_char(d: nat) -> char {
    ((d + ('0' as u32)) as u32) as char
}

/// The decimal representation of `n`, without leading zeros.
pub open spec fn decimal(n: nat) -> Seq<char>
    decreases n,
{
    if n < 10 {
        seq![digit_char(n)]
    } else {
        decimal(n / 10).push(digit_char(n % 10))
    }
}

/// The decimal representation of `n`, as `usize`'s `Display` writes it.
pub fn usize_to_decimal(n: usize) -> (r: String)
    ensures
        r@ == decimal(n as nat),
{
    // digits, least significant first
    let mut rev: Vec<char> = Vec::new();
    let mut m = n;
    let ghost mut rest: Seq<char> = Seq::empty();
    while m >= 10
        invariant
            decimal(n as nat) == decimal(m as nat) + rest,
            rev@.len() == rest.len(),
            forall|j: int| 0 <= j < rest.len() ==> #[trigger] rev@[j] == rest[rest.len() - 1 - j],
        decreases m,
    {
        let c = char_of_digit(m % 10);
        proof {
            assert(decimal(m as nat) == decimal((m / 10) as nat).push(c));
            assert(decimal((m / 10) as nat).push(c) + rest =~= decimal((m / 10) as nat) + (seq![c] + rest));
        }
        rev.push(c);
        proof {
            rest = seq![c] + rest;
        }
        m = m / 10;
    }
    let c = char_of_digit(m);
    assert(decimal(m as nat) == seq![c]);
    rev.push(c);
    proof {
        rest = seq![c] + rest;
    }
    assert(decimal(n as nat) == rest);
    let mut r = String::new();
    let mut i = rev.len();
    while i > 0
        invariant
            i <= rev@.len(),
            rev@.len() == rest.len(),
            forall|j: int| 0 <= j < rest.len() ==> #[trigger] rev@[j] == rest[rest.len() - 1 - j],
            r@ == rest.take(rest.len() - i),
        decreases i,
    {
        i = i - 1;
        proof {
            assert(rest.take(rest.len() - i) == rest.take(rest.len() - i - 1).push(rest[rest.len() - 1 - i]));
        }
        push_char(&mut r, rev[i]);
    }
    assert(rest.take(rest.len() as int) == rest);
    assert(decimal(0) == seq![digit_char(0)]);
    r
}

/// The character of a decimal digit.
fn char_of_digit(d: usize) -> (c: char)
    requires
        d < 10,
    ensures
        c == digit_char(d as nat),
{
    if d == 0 { '0' }
    else if d == 1 { '1' }
    else if d == 2 { '2' }
    else if d == 3 { '3' }
    else if d == 4 { '4' }
    else if d == 5 { '5' }
    else if d == 6 { '6' }
    else if d == 7 { '7' }
    else if d == 8 { '8' }
    else { '9' }
}

/// A string made of `v[lo..hi]`.
pub fn string_of_chars(v: &Vec<char>, lo: usize, hi: usize) -> (r: String)
    requires
        lo <= hi <= v@.len(),
    ensures
        r@ == v@.subrange(lo as int, hi as int),
{
    let mut r = String::new();
    let mut i = lo;
    while i < hi
        invariant
            lo <= i <= hi <= v@.len(),
            r@ == v@.subrange(lo as int, i as int),
        decreases hi - i,
    {
        push_char(&mut r, v[i]);
        i = i + 1;
    }
    r
}

proof fn lemma_trim_start(s: Seq<char>) -> (a: int)
    ensures
        0 <= a <= s.len(),
        trim_start_ws(s) == s.subrange(a, s.len() as int),
        forall|i: int| 0 <= i < a ==> is_unicode_ws(#[trigger] s[i]),
        a < s.len() ==> !is_unicode_ws(s[a]),
    decreases s.len(),
{
    if s.len() > 0 && is_unicode_ws(s[0]) {
        let t = s.drop_first();
        let a1 = lemma_trim_start(t);
        assert(t.subrange(a1, t.len() as int) =~= s.subrange(a1 + 1, s.len() as int));
        assert forall|i: int| 0 <= i < a1 + 1 implies is_unicode_ws(#[trigger] s[i]) by {
            if i > 0 {
                assert(s[i] == t[i - 1]);
            }
        }
        if a1 + 1 < s.len() {
            assert(s[a1 + 1] == t[a1]);
        }
        a1 + 1
    } else {
        assert(s.subrange(0, s.len() as int) =~= s);
        0
    }
}

proof fn lemma_trim_end(s: Seq<char>) -> (b: int)
    ensures
        0 <= b <= s.len(),
        trim_end_ws(s) == s.subrange(0, b),
        forall|i: int| b <= i < s.len() ==> is_unicode_ws(#[trigger] s[i]),
        b > 0 ==> !is_unicode_ws(s[b - 1]),
    decreases s.len(),
{
    if s.len() > 0 && is_unicode_ws(s.last()) {
        let t = s.drop_last();
        let b1 = lemma_trim_end(t);
        assert(t.subrange(0, b1) =~= s.subrange(0, b1));
        assert forall|i: int| b1 <= i < s.len() implies is_unicode_ws(#[trigger] s[i]) by {
            if i < s.len() - 1 {
                assert(s[i] == t[i]);
            }
        }
        if b1 > 0 {
            assert(s[b1 - 1] == t[b1 - 1]);
        }
        b1
    } else {
        assert(s.subrange(0, s.len() as int) =~= s);
        s.len() as int
    }
}

/// Whether `t` is `s[a..b]` with only whitespace before `a` and from `b` on, and (when it
/// is not empty) no whitespace at either end.
pub open spec fn trimmed_slice(s: Seq<char>, t: Seq<char>, a: int, b: int) -> bool {
    &&& 0 <= a <= b <= s.len()
    &&& t == s.subrange(a, b)
    &&& forall|i: int| 0 <= i < a ==> is_unicode_ws(#[trigger] s[i])
    &&& forall|i: int| b <= i < s.len() ==> is_unicode_ws(#[trigger] s[i])
    &&& a < b ==> !is_unicode_ws(s[a]) && !is_unicode_ws(s[b - 1])
}

/// Trimming removes exactly the whitespace at both ends: the result is the part of the
/// string between its leading and its trailing whitespace, and it neither starts nor ends
/// with whitespace.
pub proof fn law_trim_removes_outer_whitespace(s: Seq<char>)
    ensures
        exists|a: int, b: int| #[trigger] trimmed_slice(s, trim_ws(s), a, b),
{
    let a = lemma_trim_start(s);
    let t = s.subrange(a, s.len() as int);
    let b1 = lemma_trim_end(t);
    assert(t.subrange(0, b1) =~= s.subrange(a, a + b1));
    assert forall|i: int| a + b1 <= i < s.len() implies is_unicode_ws(#[trigger] s[i]) by {
        assert(s[i] == t[i - a]);
    }
    if b1 > 0 {
        assert(s[a + b1 - 1] == t[b1 - 1]);
    }
    assert(trimmed_slice(s, trim_ws(s), a, a + b1));
}

proof fn lemma_join_extend_last(parts: Seq<Seq<char>>, sep: Seq<char>, x: char)
    requires
        parts.len() >= 1,
    ensures
        join_seqs(parts.update(parts.len() - 1, parts.last().push(x)), sep) == join_seqs(
            parts,
            sep,
        ).push(x),
{
    let u = parts.update(parts.len() - 1, parts.last().push(x));
    if parts.len() >= 2 {
        assert(u.drop_last() =~= parts.drop_last());
        assert(u.last() == parts.last().push(x));
        assert(join_seqs(parts, sep) == join_seqs(parts.drop_last(), sep) + sep + parts.last());
        assert(join_seqs(u, sep) =~= join_seqs(parts, sep).push(x));
    } else {
        assert(u[0] == parts[0].push(x));
    }
}

/// Splitting loses nothing: the pieces joined again by the separator are the string, and
/// no piece holds the separator.
pub proof fn law_split_on_rejoins(s: Seq<char>, sep: char)
    ensures
        join_seqs(split_on(s, sep), seq![sep]) == s,
        forall|i: int, j: int|
            0 <= i < split_on(s, sep).len() && 0 <= j < split_on(s, sep)[i].len() ==> #[trigger] split_on(
                s,
                sep,
            )[i][j] != sep,
    decreases s.len(),
{
    if s.len() == 0 {
        assert(split_on(s, sep)[0] == Seq::<char>::empty());
        assert(s =~= Seq::<char>::empty());
    } else {
        let r = split_on(s.drop_last(), sep);
        law_split_on_rejoins(s.drop_last(), sep);
        lemma_split_on_len(s.drop_last(), sep);
        let x = s.last();
        if x == sep {
            let p = r.push(Seq::<char>::empty());
            assert(p.drop_last() =~= r);
            assert(join_seqs(p, seq![sep]) == join_seqs(r, seq![sep]) + seq![sep] + Seq::<char>::empty());
            assert(s =~= s.drop_last() + seq![sep] + Seq::<char>::empty());
            assert forall|i: int, j: int| 0 <= i < p.len() && 0 <= j < p[i].len() implies #[trigger] p[i][j]
                != sep by {
                assert(i < r.len());
                assert(p[i] == r[i]);
            }
        } else {
            lemma_join_extend_last(r, seq![sep], x);
            let p = r.update(r.len() - 1, r.last().push(x));
            assert(s =~= s.drop_last().push(x));
            assert forall|i: int, j: int| 0 <= i < p.len() && 0 <= j < p[i].len() implies #[trigger] p[i][j]
                != sep by {
                if i < r.len() - 1 {
                    assert(p[i] == r[i]);
                } else {
                    assert(p[i] == r.last().push(x));
                    if j < r.last().len() {
                        assert(p[i][j] == r[r.len() - 1][j]);
                    }
                }
            }
        }
    }
}

} // verus!
