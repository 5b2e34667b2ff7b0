//! Reading back what the JSON writers write: a string literal, an array of string literals
//! and a `"name":"value"` member, read as RFC 8259 reads them, and the laws that each reads
//! back as the values it was written from.
use vstd::prelude::*;
use vstd::utf8::{decode_utf8, encode_utf8, is_ascii_chars, valid_utf8};
use crate::json::{
    hex_digit, join_seqs, json_array, json_escape, json_escape_char, json_member, json_string,
    json_strings,
};

verus! {

broadcast use {vstd::utf8::is_ascii_chars_encode_utf8, vstd::utf8::char_u32_cast};

/// The lower-case hexadecimal digit character for `d < 16`.
pub open spec fn hex_char(d: u32) -> char {
    if d < 10 {
        ((0x30 + d) as u32) as char
    } else {
        ((0x61 + d - 10) as u32) as char
    }
}

/// The characters a JSON writer puts in a string literal for `c` (see `json_escape_char`).
pub open spec fn escape_char(c: char) -> Seq<char> {
    let u = c as u32;
    if u == 0x22 {
        seq!['\\', '"']
    } else if u == 0x5c {
        seq!['\\', '\\']
    } else if u == 0x08 {
        seq!['\\', 'b']
    } else if u == 0x09 {
        seq!['\\', 't']
    } else if u == 0x0a {
        seq!['\\', 'n']
    } else if u == 0x0c {
        seq!['\\', 'f']
    } else if u == 0x0d {
        seq!['\\', 'r']
    } else if u < 0x20 {
        seq!['\\', 'u', '0', '0', hex_char(u / 16), hex_char(u % 16)]
    } else {
        seq![c]
    }
}

/// The escaped characters of a string, in order.
pub open spec fn escape_chars(s: Seq<char>) -> Seq<char>
    decreases s.len(),
{
    if s.len() == 0 {
        Seq::empty()
    } else {
        escape_chars(s.drop_last()) + escape_char(s.last())
    }
}

/// The characters of the string literal for `s`.
pub open spec fn string_chars(s: Seq<char>) -> Seq<char> {
    seq!['"'] + escape_chars(s) + seq!['"']
}

proof fn lemma_encode_concat(a: Seq<char>, b: Seq<char>)
    ensures
        encode_utf8(a + b) == encode_utf8(a) + encode_utf8(b),
    decreases a.len(),
{
    if a.len() == 0 {
        assert(a + b =~= b);
    } else {
        lemma_encode_concat(a.drop_first(), b);
        assert((a + b).drop_first() =~= a.drop_first() + b);
        assert((a + b)[0] == a[0]);
    }
}

proof fn lemma_escape_char_bytes(c: char)
    ensures
        json_escape_char(c) == encode_utf8(escape_char(c)),
{
    let u = c as u32;
    if u < 0x20 || u == 0x22 || u == 0x5c {
        let e = escape_char(c);
        assert(is_ascii_chars(e));
        assert(encode_utf8(e).len() == e.len());
        if u < 0x20 && u != 0x08 && u != 0x09 && u != 0x0a && u != 0x0c && u != 0x0d {
            assert((hex_char(u / 16) as u32) as u8 == hex_digit(u / 16));
            assert((hex_char(u % 16) as u32) as u8 == hex_digit(u % 16));
            assert(e[4] as u8 == hex_digit(u / 16));
            assert(e[5] as u8 == hex_digit(u % 16));
        }
        assert(json_escape_char(c) =~= encode_utf8(e));
    }
}

proof fn lemma_escape_bytes(s: Seq<char>)
    ensures
        json_escape(s) == encode_utf8(escape_chars(s)),
    decreases s.len(),
{
    if s.len() > 0 {
        lemma_escape_bytes(s.drop_last());
        lemma_escape_char_bytes(s.last());
        lemma_encode_concat(escape_chars(s.drop_last()), escape_char(s.last()));
    }
}

/// The bytes of a string literal are the UTF-8 encoding of its characters.
proof fn lemma_string_bytes(s: Seq<char>)
    ensures
        json_string(s) == encode_utf8(string_chars(s)),
{
    lemma_escape_bytes(s);
    lemma_encode_concat(seq!['"'], escape_chars(s));
    lemma_encode_concat(seq!['"'] + escape_chars(s), seq!['"']);
    assert(is_ascii_chars(seq!['"']));
    assert(encode_utf8(seq!['"']).len() == 1);
    assert(encode_utf8(seq!['"']) =~= seq![0x22u8]);
}

proof fn lemma_escape_concat(a: Seq<char>, b: Seq<char>)
    ensures
        escape_chars(a + b) == escape_chars(a) + escape_chars(b),
    decreases b.len(),
{
    if b.len() == 0 {
        assert(a + b =~= a);
        assert(escape_chars(a) + escape_chars(b) =~= escape_chars(a));
    } else {
        lemma_escape_concat(a, b.drop_last());
        assert((a + b).drop_last() =~= a + b.drop_last());
        assert((a + b).last() == b.last());
    }
}

proof fn lemma_escape_front(s: Seq<char>)
    requires
        s.len() > 0,
    ensures
        escape_chars(s) == escape_char(s[0]) + escape_chars(s.drop_first()),
{
    assert(s =~= seq![s[0]] + s.drop_first());
    lemma_escape_concat(seq![s[0]], s.drop_first());
    assert(seq![s[0]].drop_last() =~= Seq::<char>::empty());
    assert(seq![s[0]].last() == s[0]);
    assert(escape_chars(Seq::<char>::empty()) =~= Seq::<char>::empty());
    assert(escape_chars(seq![s[0]]) =~= escape_chars(Seq::<char>::empty()) + escape_char(s[0]));
    assert(escape_chars(seq![s[0]]) =~= escape_char(s[0]));
}

/// The value of a hexadecimal digit character, either case.
pub open spec fn hex_value(c: char) -> Option<u32> {
    if '0' <= c && c <= '9' {
        Some((c as u32 - 0x30) as u32)
    } else if 'a' <= c && c <= 'f' {
        Some((c as u32 - 0x61 + 10) as u32)
    } else if 'A' <= c && c <= 'F' {
        Some((c as u32 - 0x41 + 10) as u32)
    } else {
        None
    }
}

/// The number that the four hexadecimal digits at `cs[i..i + 4]` write.
pub open spec fn hex4(cs: Seq<char>, i: int) -> Option<u32> {
    if 0 <= i && i + 4 <= cs.len() && hex_value(cs[i]) is Some && hex_value(cs[i + 1]) is Some
        && hex_value(cs[i + 2]) is Some && hex_value(cs[i + 3]) is Some {
        Some(
            (hex_value(cs[i]).unwrap() * 4096 + hex_value(cs[i + 1]).unwrap() * 256 + hex_value(
                cs[i + 2],
            ).unwrap() * 16 + hex_value(cs[i + 3]).unwrap()) as u32,
        )
    } else {
        None
    }
}

/// The character that a two-character escape `\e` stands for.
pub open spec fn short_escape(e: char) -> Option<char> {
    if e == '"' {
        Some('"')
    } else if e == '\\' {
        Some('\\')
    } else if e == '/' {
        Some('/')
    } else if e == 'b' {
        Some('\u{8}')
    } else if e == 'f' {
        Some('\u{c}')
    } else if e == 'n' {
        Some('\n')
    } else if e == 'r' {
        Some('\r')
    } else if e == 't' {
        Some('\t')
    } else {
        None
    }
}

/// The character that a `\u` escape at the start of `cs` stands for, and how many characters
/// it takes: one escape of a character outside the surrogate range, or two escapes that
/// write a high and a low surrogate.
pub open spec fn unicode_escape(cs: Seq<char>) -> Option<(char, int)> {
    match hex4(cs, 2) {
        None => None,
        Some(h) => if h < 0xD800 || h > 0xDFFF {
            Some((h as char, 6))
        } else if h <= 0xDBFF && cs.len() >= 12 && cs[6] == '\\' && cs[7] == 'u' {
            match hex4(cs, 8) {
                Some(l) => if 0xDC00 <= l && l <= 0xDFFF {
                    Some((((0x10000 + (h - 0xD800) * 0x400 + (l - 0xDC00)) as u32) as char, 12))
                } else {
                    None
                },
                None => None,
            }
        } else {
            None
        },
    }
}

/// Reads the body of a string literal, after its opening quote: the value up to the
/// closing quote, and what follows that quote. A raw control character, a bad escape or
/// a missing closing quote make it fail.
pub open spec fn read_string_body(cs: Seq<char>) -> Option<(Seq<char>, Seq<char>)>
    decreases cs.len(),
{
    if cs.len() == 0 {
        None
    } else if cs[0] == '"' {
        Some((Seq::empty(), cs.drop_first()))
    } else if cs[0] == '\\' {
        if cs.len() < 2 {
            None
        } else {
            let step: Option<(char, int)> = match short_escape(cs[1]) {
                Some(c) => Some((c, 2int)),
                None => if cs[1] == 'u' {
                    unicode_escape(cs)
                } else {
                    None
                },
            };
            match step {
                None => None,
                Some((c, n)) => if 2 <= n <= cs.len() {
                    match read_string_body(cs.skip(n)) {
                        Some((v, r)) => Some((seq![c] + v, r)),
                        None => None,
                    }
                } else {
                    None
                },
            }
        }
    } else if (cs[0] as u32) < 0x20 {
        None
    } else {
        match read_string_body(cs.drop_first()) {
            Some((v, r)) => Some((seq![cs[0]] + v, r)),
            None => None,
        }
    }
}

/// Reads a string literal at the start of `cs`: its value and what follows it.
pub open spec fn read_string(cs: Seq<char>) -> Option<(Seq<char>, Seq<char>)> {
    if cs.len() > 0 && cs[0] == '"' {
        read_string_body(cs.drop_first())
    } else {
        None
    }
}

proof fn lemma_hex_char_value(d: u32)
    requires
        d < 16,
    ensures
        hex_value(hex_char(d)) == Some(d),
{
}

proof fn lemma_read_escape_char(c: char, t: Seq<char>)
    ensures
        read_string_body(escape_char(c) + t) == match read_string_body(t) {
            Some((v, r)) => Some((seq![c] + v, r)),
            None => None,
        },
{
    let u = c as u32;
    let cs = escape_char(c) + t;
    if u < 0x20 || u == 0x22 || u == 0x5c {
        let e = escape_char(c);
        assert(cs[0] == '\\');
        if u == 0x22 || u == 0x5c || u == 0x08 || u == 0x09 || u == 0x0a || u == 0x0c || u == 0x0d {
            assert(cs.skip(2) =~= t);
            assert(cs[1] == e[1]);
        } else {
            lemma_hex_char_value(u / 16);
            lemma_hex_char_value(u % 16);
            assert(cs[1] == 'u');
            assert(cs[2] == '0' && cs[3] == '0');
            assert(cs[4] == hex_char(u / 16) && cs[5] == hex_char(u % 16));
            assert(hex4(cs, 2) == Some(u));
            assert(unicode_escape(cs) == Some((c, 6int)));
            assert(cs.skip(6) =~= t);
        }
    } else {
        assert(cs[0] == c);
        assert(cs.drop_first() =~= t);
    }
}

/// The body of a string literal reads back as the string, and reading stops right after
/// its closing quote.
proof fn lemma_read_body(s: Seq<char>, rest: Seq<char>)
    ensures
        read_string_body(escape_chars(s) + seq!['"'] + rest) == Some((s, rest)),
    decreases s.len(),
{
    if s.len() == 0 {
        let cs = escape_chars(s) + seq!['"'] + rest;
        assert(cs =~= seq!['"'] + rest);
        assert(cs.drop_first() =~= rest);
    } else {
        lemma_escape_front(s);
        let t = escape_chars(s.drop_first()) + seq!['"'] + rest;
        assert(escape_chars(s) + seq!['"'] + rest =~= escape_char(s[0]) + t);
        lemma_read_body(s.drop_first(), rest);
        lemma_read_escape_char(s[0], t);
        assert(seq![s[0]] + s.drop_first() =~= s);
    }
}

/// A string literal reads back as its string, whatever follows it.
proof fn lemma_read_string(s: Seq<char>, rest: Seq<char>)
    ensures
        read_string(string_chars(s) + rest) == Some((s, rest)),
{
    let cs = string_chars(s) + rest;
    assert(cs.drop_first() =~= escape_chars(s) + seq!['"'] + rest);
    lemma_read_body(s, rest);
}

/// The string literals of a sequence of strings, as characters.
pub open spec fn strings_chars(vs: Seq<Seq<char>>) -> Seq<Seq<char>> {
    vs.map_values(|v: Seq<char>| string_chars(v))
}

/// The characters of the JSON array of the given strings.
pub open spec fn array_chars(vs: Seq<Seq<char>>) -> Seq<char> {
    seq!['['] + join_seqs(strings_chars(vs), seq![',']) + seq![']']
}

proof fn lemma_ascii_char_bytes(c: char, b: u8)
    requires
        c as u32 == b as u32,
        b < 0x80,
    ensures
        encode_utf8(seq![c]) == seq![b],
{
    assert(is_ascii_chars(seq![c]));
    assert(encode_utf8(seq![c]).len() == 1);
    assert(encode_utf8(seq![c]) =~= seq![b]);
}

proof fn lemma_join_bytes(vs: Seq<Seq<char>>)
    ensures
        join_seqs(json_strings(vs), seq![0x2cu8]) == encode_utf8(
            join_seqs(strings_chars(vs), seq![',']),
        ),
    decreases vs.len(),
{
    lemma_ascii_char_bytes(',', 0x2cu8);
    if vs.len() == 1 {
        lemma_string_bytes(vs[0]);
        assert(json_strings(vs)[0] == json_string(vs[0]));
        assert(strings_chars(vs)[0] == string_chars(vs[0]));
    } else if vs.len() > 1 {
        let init = vs.drop_last();
        lemma_join_bytes(init);
        lemma_string_bytes(vs.last());
        assert(json_strings(vs).drop_last() =~= json_strings(init));
        assert(strings_chars(vs).drop_last() =~= strings_chars(init));
        assert(json_strings(vs).last() == json_string(vs.last()));
        assert(strings_chars(vs).last() == string_chars(vs.last()));
        let jc = join_seqs(strings_chars(init), seq![',']);
        lemma_encode_concat(jc, seq![',']);
        lemma_encode_concat(jc + seq![','], string_chars(vs.last()));
    } else {
        assert(encode_utf8(Seq::<char>::empty()) =~= Seq::<u8>::empty());
    }
}

proof fn lemma_array_bytes(vs: Seq<Seq<char>>)
    ensures
        json_array(vs) == encode_utf8(array_chars(vs)),
{
    lemma_join_bytes(vs);
    lemma_ascii_char_bytes('[', 0x5bu8);
    lemma_ascii_char_bytes(']', 0x5du8);
    let j = join_seqs(strings_chars(vs), seq![',']);
    lemma_encode_concat(seq!['['], j);
    lemma_encode_concat(seq!['['] + j, seq![']']);
}

proof fn lemma_member_bytes(name: Seq<char>, value: Seq<char>)
    ensures
        json_member(name, value) == encode_utf8(
            string_chars(name) + seq![':'] + string_chars(value),
        ),
{
    lemma_string_bytes(name);
    lemma_string_bytes(value);
    lemma_ascii_char_bytes(':', 0x3au8);
    lemma_encode_concat(string_chars(name), seq![':']);
    lemma_encode_concat(string_chars(name) + seq![':'], string_chars(value));
}

pub proof fn lemma_join_front<T>(p: Seq<T>, ps: Seq<Seq<T>>, sep: Seq<T>)
    ensures
        join_seqs(seq![p] + ps, sep) == if ps.len() == 0 {
            p
        } else {
            p + sep + join_seqs(ps, sep)
        },
    decreases ps.len(),
{
    let all = seq![p] + ps;
    if ps.len() == 0 {
        assert(all =~= seq![p]);
    } else {
        assert(all.drop_last() =~= seq![p] + ps.drop_last());
        assert(all.last() == ps.last());
        lemma_join_front(p, ps.drop_last(), sep);
        if ps.len() == 1 {
            assert(ps.drop_last() =~= Seq::<Seq<T>>::empty());
            assert(join_seqs(ps, sep) == ps[0]);
        }
    }
}

/// Reads the items of an array after its `[` (or after a `,`): string literals separated
/// by `,` up to the closing `]`; gives the strings and what follows the `]`.
pub open spec fn read_array_items(cs: Seq<char>) -> Option<(Seq<Seq<char>>, Seq<char>)>
    decreases cs.len(),
{
    match read_string(cs) {
        None => None,
        Some((v, r)) => if r.len() > 0 && r[0] == ']' {
            Some((seq![v], r.drop_first()))
        } else if r.len() > 0 && r[0] == ',' && r.len() <= cs.len() {
            match read_array_items(r.drop_first()) {
                Some((vs, r2)) => Some((seq![v] + vs, r2)),
                None => None,
            }
        } else {
            None
        },
    }
}

/// Reads an array of string literals at the start of `cs`: the strings and what follows.
pub open spec fn read_array(cs: Seq<char>) -> Option<(Seq<Seq<char>>, Seq<char>)> {
    if cs.len() > 0 && cs[0] == '[' {
        if cs.len() > 1 && cs[1] == ']' {
            Some((Seq::empty(), cs.skip(2)))
        } else {
            read_array_items(cs.drop_first())
        }
    } else {
        None
    }
}

proof fn lemma_read_items(vs: Seq<Seq<char>>, rest: Seq<char>)
    requires
        vs.len() > 0,
    ensures
        read_array_items(join_seqs(strings_chars(vs), seq![',']) + seq![']'] + rest) == Some(
            (vs, rest),
        ),
    decreases vs.len(),
{
    let v0 = vs[0];
    let tail = vs.drop_first();
    assert(strings_chars(vs) =~= seq![string_chars(v0)] + strings_chars(tail));
    lemma_join_front(string_chars(v0), strings_chars(tail), seq![',']);
    if tail.len() == 0 {
        let cs = string_chars(v0) + (seq![']'] + rest);
        assert(join_seqs(strings_chars(vs), seq![',']) + seq![']'] + rest =~= cs);
        lemma_read_string(v0, seq![']'] + rest);
        assert((seq![']'] + rest).drop_first() =~= rest);
        assert(vs =~= seq![v0]);
    } else {
        let jt = join_seqs(strings_chars(tail), seq![',']);
        let r = seq![','] + jt + seq![']'] + rest;
        let cs = string_chars(v0) + r;
        assert(join_seqs(strings_chars(vs), seq![',']) + seq![']'] + rest =~= cs);
        lemma_read_string(v0, r);
        assert(r.drop_first() =~= jt + seq![']'] + rest);
        lemma_read_items(tail, rest);
        assert(seq![v0] + tail =~= vs);
    }
}

/// An array of string literals reads back as its strings, whatever follows it.
proof fn lemma_read_array(vs: Seq<Seq<char>>, rest: Seq<char>)
    ensures
        read_array(array_chars(vs) + rest) == Some((vs, rest)),
{
    let cs = array_chars(vs) + rest;
    if vs.len() == 0 {
        assert(strings_chars(vs) =~= Seq::<Seq<char>>::empty());
        assert(cs =~= seq!['[', ']'] + rest);
        assert(cs.skip(2) =~= rest);
        assert(vs =~= Seq::<Seq<char>>::empty());
    } else {
        lemma_read_items(vs, rest);
        assert(cs.drop_first() =~= join_seqs(strings_chars(vs), seq![',']) + seq![']'] + rest);
        let s0 = string_chars(vs[0]);
        lemma_join_front(s0, strings_chars(vs.drop_first()), seq![',']);
        assert(strings_chars(vs) =~= seq![s0] + strings_chars(vs.drop_first()));
        assert(cs[1] == s0[0]);
    }
}

/// The string that a JSON text (UTF-8 bytes) holds when the text is one string literal.
pub open spec fn decode_json_string(b: Seq<u8>) -> Option<Seq<char>> {
    if valid_utf8(b) {
        match read_string(decode_utf8(b)) {
            Some((v, r)) => if r.len() == 0 {
                Some(v)
            } else {
                None
            },
            None => None,
        }
    } else {
        None
    }
}

/// The strings that a JSON text holds when the text is one array of string literals.
pub open spec fn decode_json_array(b: Seq<u8>) -> Option<Seq<Seq<char>>> {
    if valid_utf8(b) {
        match read_array(decode_utf8(b)) {
            Some((vs, r)) => if r.len() == 0 {
                Some(vs)
            } else {
                None
            },
            None => None,
        }
    } else {
        None
    }
}

/// The name and value that an object member `"name":"value"` holds, when the text is one
/// such member.
pub open spec fn decode_json_member(b: Seq<u8>) -> Option<(Seq<char>, Seq<char>)> {
    if valid_utf8(b) {
        match read_string(decode_utf8(b)) {
            Some((n, r)) => if r.len() > 0 && r[0] == ':' {
                match read_string(r.drop_first()) {
                    Some((v, r2)) => if r2.len() == 0 {
                        Some((n, v))
                    } else {
                        None
                    },
                    None => None,
                }
            } else {
                None
            },
            None => None,
        }
    } else {
        None
    }
}

/// What `serialize_json_value` writes for a string reads back, as JSON, as that string.
pub proof fn law_json_string_reads_back(s: Seq<char>)
    ensures
        decode_json_string(json_string(s)) == Some(s),
{
    broadcast use {vstd::utf8::encode_utf8_valid_utf8, vstd::utf8::encode_utf8_decode_utf8};

    lemma_string_bytes(s);
    lemma_read_string(s, Seq::empty());
    assert(string_chars(s) + Seq::<char>::empty() =~= string_chars(s));
}

/// What `serialize_json_array` writes for strings reads back, as JSON, as those strings in
/// order.
pub proof fn law_json_array_reads_back(vs: Seq<Seq<char>>)
    ensures
        decode_json_array(json_array(vs)) == Some(vs),
{
    broadcast use {vstd::utf8::encode_utf8_valid_utf8, vstd::utf8::encode_utf8_decode_utf8};

    lemma_array_bytes(vs);
    lemma_read_array(vs, Seq::empty());
    assert(array_chars(vs) + Seq::<char>::empty() =~= array_chars(vs));
}

/// What `serialize_json_field` writes reads back, as a JSON object member, as the name and
/// the value it was given.
pub proof fn law_json_member_reads_back(name: Seq<char>, value: Seq<char>)
    ensures
        decode_json_member(json_member(name, value)) == Some((name, value)),
{
    broadcast use {vstd::utf8::encode_utf8_valid_utf8, vstd::utf8::encode_utf8_decode_utf8};

    lemma_member_bytes(name, value);
    let r = seq![':'] + string_chars(value);
    lemma_read_string(name, r);
    assert(string_chars(name) + seq![':'] + string_chars(value) =~= string_chars(name) + r);
    assert(r.drop_first() =~= string_chars(value) + Seq::<char>::empty());
    lemma_read_string(value, Seq::empty());
}

} // verus!
