//! JSON output pieces: strings, arrays of strings, and `"name":value` members.
use vstd::prelude::*;
use vstd::string::*;

verus! {

broadcast use vstd::string::group_string_axioms;

#[verifier::external_type_specification]
#[verifier::external_body]
pub struct ExJsonError(serde_json::Error);

/// The lower-case hexadecimal digit for `d < 16`.
pub open spec fn hex_digit(d: u32) -> u8 {
    if d < 10 {
        (0x30 + d) as u8
    } else {
        (0x61 + d - 10) as u8
    }
}

/// How `serde_json` writes one character inside a string literal: `"` and `\` behind a
/// backslash, the short escapes `\b \t \n \f \r`, `\u00XX` for the other characters
/// below 0x20, and every other character as its UTF-8 bytes.
pub open spec fn json_escape_char(c: char) -> Seq<u8> {
    let u = c as u32;
    if u == 0x22 {
        seq![0x5cu8, 0x22u8]
    } else if u == 0x5c {
        seq![0x5cu8, 0x5cu8]
    } else if u == 0x08 {
        seq![0x5cu8, 0x62u8]
    } else if u == 0x09 {
        seq![0x5cu8, 0x74u8]
    } else if u == 0x0a {
        seq![0x5cu8, 0x6eu8]
    } else if u == 0x0c {
        seq![0x5cu8, 0x66u8]
    } else if u == 0x0d {
        seq![0x5cu8, 0x72u8]
    } else if u < 0x20 {
        seq![0x5cu8, 0x75u8, 0x30u8, 0x30u8, hex_digit(u / 16), hex_digit(u % 16)]
    } else {
        vstd::utf8::encode_utf8(seq![c])
    }
}

/// The escaped characters of a string, in order.
pub open spec fn json_escape(s: Seq<char>) -> Seq<u8>
    decreases s.len(),
{
    if s.len() == 0 {
        Seq::empty()
    } else {
        json_escape(s.drop_last()) + json_escape_char(s.last())
    }
}

/// The bytes of the JSON string literal that `serde_json` writes for `s`: the escaped
/// characters between double quotes.
pub open spec fn json_string(s: Seq<char>) -> Seq<u8> {
    seq![0x22u8] + json_escape(s) + seq![0x22u8]
}

/// `serde_json::to_vec` on a string: it succeeds (its documentation names only a failing
/// `Serialize` impl or a map with non-string keys as causes of failure, and a string is
/// serialized by writing its escaped form into the vector), and the bytes are the string
/// literal `json_string` describes (the escape table `ESCAPE` and `write_char_escape` of
/// `serde_json::ser`).
#[verifier::external_body]
fn json_encode_str(value: &str) -> (r: Result<Vec<u8>, serde_json::Error>)
    ensures
        r is Ok,
        r matches Ok(b) ==> b@ == json_string(value@),
{
    serde_json::to_vec(value)
}

/// `parts` with `sep` between each two consecutive parts.
pub open spec fn join_seqs<T>(parts: Seq<Seq<T>>, sep: Seq<T>) -> Seq<T>
    decreases parts.len(),
{
    if parts.len() == 0 {
        Seq::empty()
    } else if parts.len() == 1 {
        parts[0]
    } else {
        join_seqs(parts.drop_last(), sep) + sep + parts.last()
    }
}

/// Joining one more part appends the separator (if there were parts) and the part.
pub proof fn lemma_join_seqs_push<T>(parts: Seq<Seq<T>>, sep: Seq<T>, p: Seq<T>)
    ensures
        join_seqs(parts.push(p), sep) == if parts.len() == 0 {
            p
        } else {
            join_seqs(parts, sep) + sep + p
        },
{
    assert(parts.push(p).drop_last() == parts);
    if parts.len() == 0 {
        assert(parts.push(p)[0] == p);
    }
}

/// The JSON string literals of a sequence of strings.
pub open spec fn json_strings(vs: Seq<Seq<char>>) -> Seq<Seq<u8>> {
    vs.map_values(|v: Seq<char>| json_string(v))
}

/// The JSON array of the given strings, as `[` + literals separated by `,` + `]`.
pub open spec fn json_array(vs: Seq<Seq<char>>) -> Seq<u8> {
    seq![0x5bu8] + join_seqs(json_strings(vs), seq![0x2cu8]) + seq![0x5du8]
}

/// The JSON object member `"name":"value"`.
pub open spec fn json_member(name: Seq<char>, value: Seq<char>) -> Seq<u8> {
    json_string(name) + seq![0x3au8] + json_string(value)
}

/// The views of a sequence of string slices.
pub open spec fn str_views(v: Seq<&str>) -> Seq<Seq<char>> {
    v.map_values(|s: &str| s@)
}

/// Appends `b` to `out`.
pub fn append_bytes(out: &mut Vec<u8>, b: &[u8])
    ensures
        final(out)@ == old(out)@ + b@,
{
    let mut i: usize = 0;
    while i < b.len()
        invariant
            i <= b@.len(),
            out@ == old(out)@ + b@.take(i as int),
        decreases b@.len() - i,
    {
        out.push(b[i]);
        i = i + 1;
        assert(b@.take(i as int) == b@.take(i - 1).push(b@[i - 1]));
    }
    assert(b@.take(b@.len() as int) == b@);
}

/// Writes `value` as a JSON string literal.
pub fn serialize_json_value(out: &mut Vec<u8>, value: &str) -> (r: Result<(), serde_json::Error>)
    ensures
        r is Ok,
        final(out)@ == old(out)@ + json_string(value@),
{
    match json_encode_str(value) {
        Ok(b) => {
            append_bytes(out, b.as_slice());
            Ok(())
        },
        Err(e) => Err(e),
    }
}

/// Writes the member `"name":"value"` of a JSON object.
pub fn serialize_json_field(out: &mut Vec<u8>, name: &str, value: &str) -> (r: Result<
    (),
    serde_json::Error,
>)
    ensures
        r is Ok,
        final(out)@ == old(out)@ + json_member(name@, value@),
{
    serialize_json_value(out, name)?;
    out.push(0x3au8);
    serialize_json_value(out, value)?;
    Ok(())
}

/// Writes the values as a JSON array of strings.
pub fn serialize_json_array(out: &mut Vec<u8>, values: &[&str]) -> (r: Result<
    (),
    serde_json::Error,
>)
    ensures
        r is Ok,
        final(out)@ == old(out)@ + json_array(str_views(values@)),
{
    let ghost vs = str_views(values@);
    out.push(0x5bu8);
    let mut i: usize = 0;
    while i < values.len()
        invariant
            vs == str_views(values@),
            i <= values@.len(),
            out@ == old(out)@ + seq![0x5bu8] + join_seqs(
                json_strings(vs.take(i as int)),
                seq![0x2cu8],
            ),
        decreases values@.len() - i,
    {
        if i > 0 {
            out.push(0x2cu8);
        }
        serialize_json_value(out, values[i])?;
        proof {
            assert(json_strings(vs.take(i + 1)) == json_strings(vs.take(i as int)).push(
                json_string(values@[i as int]@),
            ));
            lemma_join_seqs_push(
                json_strings(vs.take(i as int)),
                seq![0x2cu8],
                json_string(values@[i as int]@),
            );
        }
        i = i + 1;
    }
    out.push(0x5du8);
    assert(vs.take(values@.len() as int) == vs);
    Ok(())
}

} // verus!
