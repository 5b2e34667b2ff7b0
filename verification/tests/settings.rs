use grab::cli::WriterBufferSize;
use grab::types::Delimiter;
use std::str::FromStr;

#[test]
fn delimiter_settings() {
    assert_eq!(Delimiter::parse(","), Ok(Delimiter::Character(b',')));
    assert_eq!(Delimiter::parse(" ; "), Ok(Delimiter::Character(b';')));
    assert_eq!(Delimiter::parse("WhiteSpace"), Ok(Delimiter::Whitespace));
    assert_eq!(Delimiter::parse("T"), Ok(Delimiter::Character(b'T')));
    assert_eq!(Delimiter::parse("\t"), Err("Delimiter cannot be empty".to_string()));
    assert_eq!(Delimiter::parse("   "), Err("Delimiter cannot be empty".to_string()));
    assert_eq!(
        Delimiter::parse("ab"),
        Err("Delimiter must be a single character or 'whitespace'".to_string())
    );
    assert_eq!(
        Delimiter::parse("é"),
        Err("Delimiter must be a single character or 'whitespace'".to_string())
    );
    assert_eq!(Delimiter::from_str("|"), Ok(Delimiter::Character(b'|')));
}

#[test]
fn buffer_size_settings() {
    assert_eq!(WriterBufferSize::parse("512K").unwrap().size(), 512 * 1024);
    assert_eq!(WriterBufferSize::parse("128b").unwrap().size(), 128);
    assert_eq!(WriterBufferSize::parse(" 1M ").unwrap().size(), 1024 * 1024);
    assert_eq!(WriterBufferSize::parse("2g").unwrap().size(), 2 * 1024 * 1024 * 1024);
    assert_eq!(WriterBufferSize::parse("4096").unwrap().size(), 4096);
    assert_eq!(WriterBufferSize::parse("+7 k").unwrap().size(), 7 * 1024);
    assert_eq!(WriterBufferSize::from_str("64K").unwrap().size(), 65536);
}

#[test]
fn buffer_size_errors() {
    assert_eq!(
        WriterBufferSize::parse("  ").unwrap_err(),
        "Buffer size cannot be empty"
    );
    assert_eq!(
        WriterBufferSize::parse("12x").unwrap_err(),
        "Invalid suffix 'x'. Use b, k, m, or g."
    );
    assert_eq!(
        WriterBufferSize::parse("k").unwrap_err(),
        "'' is not a valid number"
    );
    assert_eq!(
        WriterBufferSize::parse("1.5m").unwrap_err(),
        "'1.5' is not a valid number"
    );
    assert_eq!(
        WriterBufferSize::parse("18446744073709551615k").unwrap_err(),
        "'18446744073709551615' is too large"
    );
}

#[test]
fn buffer_size_display() {
    assert_eq!(WriterBufferSize(64 * 1024).to_display_string(), "64K");
    assert_eq!(WriterBufferSize(3 * 1024 * 1024 + 5).to_display_string(), "3M");
    assert_eq!(WriterBufferSize(1023).to_display_string(), "1023B");
    assert_eq!(WriterBufferSize(0).to_display_string(), "0B");
    assert_eq!(WriterBufferSize(1500).to_display_string(), "1K");
}

#[test]
fn buffer_size_display_reads_back() {
    for size in [0usize, 1, 1023, 1024, 65536, 1048576, 5 * 1048576] {
        let shown = WriterBufferSize(size).to_display_string();
        assert_eq!(WriterBufferSize::parse(&shown).unwrap().size(), size);
    }
}
