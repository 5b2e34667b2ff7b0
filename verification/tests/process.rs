use grab::cli::{Cli, WriterBufferSize};
use grab::options::{AppOptions, FieldMap};
use grab::process::{
    calculate_expected_columns_count, check_columns_count, process_record,
    CalculateExpectedColumnsCountError, CheckColumnsCountError, ExpectedColumnsCount,
    LoopStep, ReadEvent, RecordAction, RecordCounter, RecordError, RecordOutcome,
};
use grab::types::Delimiter;

const USIZE_MAX_HALF: usize = usize::MAX / 2;

#[test]
fn exact() -> Result<(), CalculateExpectedColumnsCountError> {
    let mappings = vec![
        FieldMap::One { name: "field1".to_string() },
        FieldMap::Array { name: "field2".to_string(), colspan: 2, join: false },
    ];
    let expected = calculate_expected_columns_count(&mappings)?;
    assert_eq!(expected, ExpectedColumnsCount::Exact(3));
    Ok(())
}

#[test]
fn greedy() -> Result<(), CalculateExpectedColumnsCountError> {
    let mappings = vec![
        FieldMap::One { name: "field1".to_string() },
        FieldMap::Array { name: "field2".to_string(), colspan: 2, join: false },
        FieldMap::Greedy { name: "field3".to_string(), join: false },
    ];
    let expected = calculate_expected_columns_count(&mappings)?;
    assert_eq!(expected, ExpectedColumnsCount::AtLeast(3));
    Ok(())
}

#[test]
fn overflow() {
    let mappings = vec![
        FieldMap::Array { name: "field1".to_string(), colspan: USIZE_MAX_HALF + 1, join: false },
        FieldMap::Array { name: "field2".to_string(), colspan: USIZE_MAX_HALF + 1, join: false },
    ];
    let result = calculate_expected_columns_count(&mappings);
    assert_eq!(result, Err(CalculateExpectedColumnsCountError::ColspanBiggerThanUsizeMax));
}

#[test]
fn exact_match() {
    let expected = ExpectedColumnsCount::Exact(3);
    assert!(check_columns_count(&expected, 3).is_ok());
}

#[test]
fn exact_mismatch() {
    let expected = ExpectedColumnsCount::Exact(3);
    let result = check_columns_count(&expected, 4);
    assert_eq!(result, Err(CheckColumnsCountError::NotExact { expected: 3, actual: 4 }));
}

#[test]
fn at_least_match() {
    let expected = ExpectedColumnsCount::AtLeast(3);
    assert!(check_columns_count(&expected, 3).is_ok());
    assert!(check_columns_count(&expected, 4).is_ok());
}

#[test]
fn at_least_mismatch() {
    let expected = ExpectedColumnsCount::AtLeast(3);
    let result = check_columns_count(&expected, 2);
    assert_eq!(result, Err(CheckColumnsCountError::NotAtLeast { min: 3, actual: 2 }));
}

#[test]
fn overflow_with_greedy_is_still_an_error() {
    let mappings = vec![
        FieldMap::Greedy { name: "g".to_string(), join: false },
        FieldMap::Array { name: "a".to_string(), colspan: usize::MAX, join: false },
        FieldMap::One { name: "b".to_string() },
    ];
    assert_eq!(
        calculate_expected_columns_count(&mappings),
        Err(CalculateExpectedColumnsCountError::ColspanBiggerThanUsizeMax)
    );
}

#[test]
fn count_of_empty_and_greedy_only() {
    assert_eq!(calculate_expected_columns_count(&[]), Ok(ExpectedColumnsCount::Exact(0)));
    let mappings = vec![FieldMap::Greedy { name: "g".to_string(), join: true }];
    assert_eq!(calculate_expected_columns_count(&mappings), Ok(ExpectedColumnsCount::AtLeast(0)));
}

fn options(mapping: &str, select: Option<&str>, json: bool, loose: bool) -> AppOptions {
    let cli = Cli {
        file: None,
        mapping: mapping.to_string(),
        select: select.map(|s| s.to_string()),
        skip: None,
        take: None,
        loose,
        delimiter: Delimiter::Character(b','),
        output_delimiter: ",".to_string(),
        output_greedy_delimiter: ";".to_string(),
        json,
        buffer: WriterBufferSize(64 * 1024),
    };
    let options = AppOptions::try_from(cli).unwrap();
    options.validate().unwrap();
    options
}

fn run(settings: &AppOptions, fields: &[&str]) -> Result<String, RecordError> {
    let fields: Vec<String> = fields.iter().map(|s| s.to_string()).collect();
    let mappings = settings.selected_mappings();
    let expected = calculate_expected_columns_count(&settings.mapping).unwrap();
    process_record(&fields, settings, &mappings, &expected).map(|b| String::from_utf8(b).unwrap())
}

#[test]
fn json_record() {
    let o = options("name,age,email", None, true, false);
    assert_eq!(
        run(&o, &["John", "30", "j@x.org"]).unwrap(),
        "{\"name\":\"John\",\"age\":\"30\",\"email\":\"j@x.org\"}\n"
    );
}

#[test]
fn plain_record_with_select_and_placeholders() {
    let o = options("a:2,first_name,last_name,b:8", Some("first_name,last_name"), false, false);
    let fields = ["1", "2", "Jane", "Smith", "a", "b", "c", "d", "e", "f", "g", "h"];
    assert_eq!(run(&o, &fields).unwrap(), "Jane,Smith\n");
}

#[test]
fn json_arrays_and_joins() {
    let o = options("id,phones:2,rest:gj", None, true, false);
    assert_eq!(
        run(&o, &["1", "555-1", "555-2", "New", "York"]).unwrap(),
        "{\"id\":\"1\",\"phones\":[\"555-1\",\"555-2\"],\"rest\":\"New York\"}\n"
    );
    // a two-column array that joins its values (built directly: the mapping syntax only
    // offers joining for the greedy form)
    let mut o = options("id,pair:2,rest:g", None, true, false);
    o.mapping[1] = FieldMap::Array { name: "pair".to_string(), colspan: 2, join: true };
    assert_eq!(
        run(&o, &["1", "a", "b", "x\"y"]).unwrap(),
        "{\"id\":\"1\",\"pair\":\"a b\",\"rest\":[\"x\\\"y\"]}\n"
    );
}

#[test]
fn plain_arrays_use_the_greedy_delimiter() {
    let o = options("name,age,rest:g", None, false, false);
    assert_eq!(
        run(&o, &["John", "30", "Extra1", "Extra2", "Extra3"]).unwrap(),
        "John,30,Extra1;Extra2;Extra3\n"
    );
}

#[test]
fn plain_arrays_use_the_whole_greedy_delimiter() {
    let mut o = options("name,rest:g", None, false, false);
    o.output_greedy_delimiter = "::".to_string();
    assert_eq!(run(&o, &["x", "a", "b"]).unwrap(), "x,a::b\n");
    o.output_greedy_delimiter = "→".to_string();
    assert_eq!(run(&o, &["x", "a", "b", "c"]).unwrap(), "x,a→b→c\n");
}

#[test]
fn json_escapes_control_bytes() {
    let o = options("v", None, true, false);
    assert_eq!(run(&o, &["a\u{1}\tb"]).unwrap(), "{\"v\":\"a\\u0001\\tb\"}\n");
}

#[test]
fn strict_mode_rejects_wrong_counts() {
    let o = options("name,age,email", None, true, false);
    match run(&o, &["John", "30"]) {
        Err(RecordError::ColumnsCount(e)) => {
            assert_eq!(e, CheckColumnsCountError::NotExact { expected: 3, actual: 2 })
        }
        _ => panic!("expected a column count error"),
    }
    let o = options("name,rest:g", None, false, false);
    match run(&o, &[]) {
        Err(RecordError::ColumnsCount(e)) => {
            assert_eq!(e, CheckColumnsCountError::NotAtLeast { min: 1, actual: 0 })
        }
        _ => panic!("expected a column count error"),
    }
}

#[test]
fn loose_mode_fills_missing_and_ignores_extra() {
    let o = options("name", None, false, true);
    assert_eq!(run(&o, &["John", "30", "x"]).unwrap(), "John\n");
    let o = options("name,age,email,extra,extra_colspan:2,extra_greedy:g", None, true, true);
    assert_eq!(
        run(&o, &["John", "30", "j@x.org"]).unwrap(),
        "{\"name\":\"John\",\"age\":\"30\",\"email\":\"j@x.org\",\"extra\":\"\",\"extra_colspan\":[\"\",\"\"],\"extra_greedy\":[]}\n"
    );
}

#[test]
fn strict_record_uses_every_field() {
    // law: with a valid mapping and a record that passes the count check, each field is written once
    let o = options("a,b:2,c:g", None, false, false);
    assert_eq!(run(&o, &["1", "2", "3", "4", "5"]).unwrap(), "1,2;3,4;5\n");
}

#[test]
fn record_counter_skips_then_takes() {
    let mut c = RecordCounter::new();
    let skip = Some(1);
    let take = Some(2);
    let mut actions = Vec::new();
    // the second processed record fails: it still counts as a line
    for _ in 0..5 {
        let a = c.next_action(skip, take);
        if a == RecordAction::Process {
            c.record_done();
        }
        let stop = a == RecordAction::Stop;
        actions.push(a);
        if stop {
            break;
        }
    }
    assert_eq!(
        actions,
        vec![
            RecordAction::Skip,
            RecordAction::Process,
            RecordAction::Process,
            RecordAction::Stop
        ]
    );
    assert_eq!(c.line_number(), 4);
}

#[test]
fn record_counter_without_take_never_stops() {
    let mut c = RecordCounter::new();
    for _ in 0..10 {
        assert_eq!(c.next_action(None, None), RecordAction::Process);
        c.record_done();
    }
    assert_eq!(c.line_number(), 11);
}

#[test]
fn loop_steps_report_failures_on_their_own_line() {
    let mut c = RecordCounter::new();
    assert_eq!(c.after_read(ReadEvent::Record, Some(1), Some(2)), LoopStep::Skip);
    assert_eq!(c.after_read(ReadEvent::Record, Some(1), Some(2)), LoopStep::Process);
    assert_eq!(c.after_record(RecordOutcome::RecordFailed), Some(2));
    assert_eq!(c.after_read(ReadEvent::Record, Some(1), Some(2)), LoopStep::Process);
    assert_eq!(c.after_record(RecordOutcome::WriteFailed), Some(3));
    assert_eq!(c.after_read(ReadEvent::Record, Some(1), Some(2)), LoopStep::Finish);
    assert_eq!(c.line_number(), 4);
}

#[test]
fn loop_steps_at_end_and_on_read_errors() {
    let mut c = RecordCounter::new();
    assert_eq!(c.after_read(ReadEvent::Record, None, None), LoopStep::Process);
    assert_eq!(c.after_record(RecordOutcome::Written), None);
    assert_eq!(c.after_read(ReadEvent::ReadFailed, None, None), LoopStep::ReportAndFinish(2));
    assert_eq!(c.after_read(ReadEvent::EndOfInput, None, None), LoopStep::Finish);
    assert_eq!(c.line_number(), 2);
}
