use grab::tokenizer::{fields_from_bytes, split_whitespace_line, LineReader};

/// Reads the first logical line of `input` the way the whitespace reader does: physical
/// lines are added until the line is not inside double quotes.
fn first_record(input: &[u8]) -> Option<Vec<String>> {
    let mut reader = LineReader::new();
    let mut rest = input;
    while !rest.is_empty() {
        let end = rest.iter().position(|&b| b == b'\n').map(|i| i + 1).unwrap_or(rest.len());
        let complete = reader.accept_chunk(&rest[..end]);
        rest = &rest[end..];
        if complete {
            break;
        }
    }
    let line = reader.line()?;
    let raw = split_whitespace_line(line);
    Some(fields_from_bytes(&raw).expect("valid UTF-8"))
}

#[test]
fn one_line() {
    let fields = first_record(r#"field1 field2 "field 3 with spaces" field4"#.as_bytes()).unwrap();
    assert_eq!(fields, ["field1", "field2", "field 3 with spaces", "field4"]);
}

#[test]
fn quoted_newline_continues_the_line() {
    let fields = first_record(b"a \"b\nc\" d\nnext line\n").unwrap();
    assert_eq!(fields, ["a", "b\nc", "d"]);
}

#[test]
fn runs_of_whitespace_make_no_empty_fields() {
    let fields = first_record(b"  a\t\tb  \r\n").unwrap();
    assert_eq!(fields, ["a", "b"]);
    assert_eq!(first_record(b""), None);
    assert_eq!(first_record(b"   \n").unwrap(), Vec::<String>::new());
}

#[test]
fn vertical_tab_is_not_a_separator() {
    let fields = first_record(b"a\x0bb c").unwrap();
    assert_eq!(fields, ["a\x0bb", "c"]);
}

#[test]
fn inner_quotes_are_kept() {
    let fields = first_record(b"x\"y z\"w v").unwrap();
    assert_eq!(fields, ["x\"y z\"w", "v"]);
    let fields = first_record(b"\"\" q").unwrap();
    assert_eq!(fields, ["", "q"]);
}

#[test]
fn lone_quote_is_kept_as_a_field() {
    let fields = first_record(b"x \"").unwrap();
    assert_eq!(fields, ["x", "\""]);
}

#[test]
fn line_reader_tracks_quotes() {
    let mut r = LineReader::new();
    assert!(!r.accept_chunk(b"one \"two\n"));
    assert!(r.accept_chunk(b"three\" four\n"));
    assert_eq!(r.line().unwrap(), b"one \"two\nthree\" four\n");
    r.clear();
    assert_eq!(r.line(), None);
}

#[test]
fn invalid_utf8_field_is_reported() {
    let raw = vec![b"ok".to_vec(), vec![0xff, 0x61], vec![0xc3]];
    assert_eq!(fields_from_bytes(&raw), Err(1));
    let raw = vec!["é".as_bytes().to_vec(), b"".to_vec()];
    assert_eq!(fields_from_bytes(&raw), Ok(vec!["é".to_string(), String::new()]));
}

/// Reads every logical line of `input` the way the whitespace reader does.
fn all_lines(input: &[u8]) -> Vec<Vec<u8>> {
    let mut lines = Vec::new();
    let mut reader = LineReader::new();
    let mut rest = input;
    loop {
        reader.clear();
        while !rest.is_empty() {
            let end = rest.iter().position(|&b| b == b'\n').map(|i| i + 1).unwrap_or(rest.len());
            let complete = reader.accept_chunk(&rest[..end]);
            rest = &rest[end..];
            if complete {
                break;
            }
        }
        match reader.line() {
            Some(line) => lines.push(line.to_vec()),
            None => break,
        }
    }
    lines
}

#[test]
fn lines_put_back_together_are_the_input() {
    let input: &[u8] = b"a \"b\nc\" d\n\"x\"\n\nlast \"open\nquote";
    let lines = all_lines(input);
    assert_eq!(
        lines,
        vec![b"a \"b\nc\" d\n".to_vec(), b"\"x\"\n".to_vec(), b"\n".to_vec(), b"last \"open\nquote".to_vec()]
    );
    assert_eq!(lines.concat(), input);
}
