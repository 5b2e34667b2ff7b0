use grab::cli::{Cli, WriterBufferSize};
use grab::options::{AppOptions, AppOptionsValidationError, FieldMap, FieldMapParseError};
use grab::types::Delimiter;

/// The settings that `grab --mapping <mapping> [--select <select>]` gives.
fn cli_with(mapping: &str, select: Option<&str>) -> Cli {
    Cli {
        file: None,
        mapping: mapping.to_string(),
        select: select.map(|s| s.to_string()),
        skip: None,
        take: None,
        loose: false,
        delimiter: Delimiter::Character(b','),
        output_delimiter: ",".to_string(),
        output_greedy_delimiter: ";".to_string(),
        json: false,
        buffer: WriterBufferSize(64 * 1024),
    }
}

fn from_args(mapping: &str, select: Option<&str>) -> Result<(), AppOptionsValidationError> {
    AppOptions::try_from(cli_with(mapping, select))
        .expect("Failed to parse options")
        .validate()
}

#[test]
fn empty_mapping_name() {
    assert_eq!(
        from_args("name,,email", None),
        Err(AppOptionsValidationError::EmptyMappingName { position: 2 })
    )
}

#[test]
fn duplicate_mapping_field() {
    assert_eq!(
        from_args("name,age,name", None),
        Err(AppOptionsValidationError::DuplicateMappingField(
            "name".to_string()
        ))
    )
}

#[test]
fn non_positive_colspan() {
    assert_eq!(
        from_args("name:0,age,email", None),
        Err(AppOptionsValidationError::ColspanBelowOne("name".to_string()))
    )
}

#[test]
fn greedy_not_last() {
    assert_eq!(
        from_args("name,age:g,email", None),
        Err(AppOptionsValidationError::GreedyNotLast("age".to_string()))
    )
}

#[test]
fn empty_select_name() {
    assert_eq!(
        from_args("name,age,email", Some("name,,email")),
        Err(AppOptionsValidationError::EmptySelectName { position: 2 })
    )
}

#[test]
fn select_contains_placeholder() {
    assert_eq!(
        from_args("name,age,_", Some("name,_")),
        Err(AppOptionsValidationError::SelectContainsPlaceholder { position: 2 })
    )
}

#[test]
fn select_field_not_in_mapping() {
    assert_eq!(
        from_args("name,age,email", Some("name,email,gender")),
        Err(AppOptionsValidationError::SelectFieldNotInMapping {
            field: "gender".to_string()
        })
    )
}

#[test]
fn duplicate_select_field() {
    assert_eq!(
        from_args("name,age,email", Some("name,email,name")),
        Err(AppOptionsValidationError::DuplicateSelectField(
            "name".to_string()
        ))
    )
}

#[test]
fn valid_options_pass() {
    assert_eq!(from_args("name,age,email", None), Ok(()));
    assert_eq!(from_args("_:2,first,last,_:g", Some("last, first")), Ok(()));
}

#[test]
fn empty_mapping_is_rejected() {
    let mut options = AppOptions::try_from(cli_with("a", None)).unwrap();
    options.mapping.clear();
    assert_eq!(options.validate(), Err(AppOptionsValidationError::EmptyMapping));
}

#[test]
fn empty_select_is_rejected() {
    let mut options = AppOptions::try_from(cli_with("a,b", Some("a"))).unwrap();
    options.select = Some(Vec::new());
    assert_eq!(options.validate(), Err(AppOptionsValidationError::EmptySelect));
}

#[test]
fn placeholder_may_repeat_in_mapping() {
    assert_eq!(from_args("_,name,_,_:3,_:g", None), Ok(()));
}

#[test]
fn mapping_errors_come_before_select_errors() {
    assert_eq!(
        from_args("a,a", Some("zzz")),
        Err(AppOptionsValidationError::DuplicateMappingField("a".to_string()))
    );
}

#[test]
fn select_blank_is_found_before_unknown_names() {
    assert_eq!(
        from_args("a,b", Some("zzz, ")),
        Err(AppOptionsValidationError::EmptySelectName { position: 2 })
    );
}

#[test]
fn parse_mapping_syntax() {
    assert_eq!(
        FieldMap::parse("name"),
        Ok(FieldMap::One { name: "name".to_string() })
    );
    assert_eq!(
        FieldMap::parse(" phones : 2 "),
        Ok(FieldMap::Array { name: "phones".to_string(), colspan: 2, join: false })
    );
    assert_eq!(
        FieldMap::parse("data:g"),
        Ok(FieldMap::Greedy { name: "data".to_string(), join: false })
    );
    assert_eq!(
        FieldMap::parse("command:gj"),
        Ok(FieldMap::Greedy { name: "command".to_string(), join: true })
    );
    assert_eq!(
        FieldMap::parse("_:+7"),
        Ok(FieldMap::Array { name: "_".to_string(), colspan: 7, join: false })
    );
}

#[test]
fn parse_mapping_errors() {
    assert_eq!(
        FieldMap::parse("a:b:c"),
        Err(FieldMapParseError::InvalidFormat("a:b:c".to_string()))
    );
    match FieldMap::parse("a: x ") {
        Err(FieldMapParseError::InvalidColspan { mapping, source }) => {
            assert_eq!(mapping, "x");
            assert_eq!(source, "x".parse::<usize>().unwrap_err());
        }
        other => panic!("unexpected {:?}", other),
    }
    match FieldMap::parse("a:99999999999999999999999") {
        Err(FieldMapParseError::InvalidColspan { mapping, .. }) => {
            assert_eq!(mapping, "99999999999999999999999")
        }
        other => panic!("unexpected {:?}", other),
    }
    assert!(matches!(
        FieldMap::parse("a:"),
        Err(FieldMapParseError::InvalidColspan { .. })
    ));
    match FieldMap::parse("pair:2j") {
        Err(FieldMapParseError::InvalidColspan { mapping, source }) => {
            assert_eq!(mapping, "2j");
            assert_eq!(source, "2j".parse::<usize>().unwrap_err());
        }
        other => panic!("unexpected {:?}", other),
    }
    assert!(matches!(
        FieldMap::parse("a:-1"),
        Err(FieldMapParseError::InvalidColspan { .. })
    ));
}

#[test]
fn try_from_reports_the_first_bad_entry() {
    match AppOptions::try_from(cli_with("a,b:x,c:d:e", None)) {
        Err(AppOptionsValidationError::ColspanParseError(FieldMapParseError::InvalidColspan {
            mapping,
            ..
        })) => assert_eq!(mapping, "x"),
        other => panic!("unexpected {:?}", other),
    }
    match AppOptions::try_from(cli_with("a,c:d:e,b:x", None)) {
        Err(AppOptionsValidationError::ColspanParseError(FieldMapParseError::InvalidFormat(s))) => {
            assert_eq!(s, "c:d:e")
        }
        other => panic!("unexpected {:?}", other),
    }
}

#[test]
fn try_from_splits_and_trims_select() {
    let options = AppOptions::try_from(cli_with("a, b ,c:3", Some(" c , a"))).unwrap();
    assert_eq!(
        options.mapping,
        vec![
            FieldMap::One { name: "a".to_string() },
            FieldMap::One { name: "b".to_string() },
            FieldMap::Array { name: "c".to_string(), colspan: 3, join: false },
        ]
    );
    assert_eq!(options.select, Some(vec!["c".to_string(), "a".to_string()]));
}

#[test]
fn name_and_placeholder() {
    let m = FieldMap::Array { name: "_".to_string(), colspan: 2, join: false };
    assert_eq!(m.name(), "_");
    assert!(m.is_placeholder());
    let m = FieldMap::Greedy { name: "rest".to_string(), join: true };
    assert_eq!(m.name(), "rest");
    assert!(!m.is_placeholder());
}

#[test]
fn selected_mappings_follow_select() {
    let options = AppOptions::try_from(cli_with("_:2,first,last,b:g", Some("last,b"))).unwrap();
    let selected: Vec<(String, bool)> = options
        .selected_mappings()
        .into_iter()
        .map(|(m, s)| (m.name().to_string(), s))
        .collect();
    assert_eq!(
        selected,
        vec![
            ("_".to_string(), false),
            ("first".to_string(), false),
            ("last".to_string(), true),
            ("b".to_string(), true),
        ]
    );
    let options = AppOptions::try_from(cli_with("_,x", None)).unwrap();
    let flags: Vec<bool> = options.selected_mappings().iter().map(|(_, s)| *s).collect();
    assert_eq!(flags, vec![false, true]);
}

#[test]
fn select_law_each_name_written_once() {
    let options = AppOptions::try_from(cli_with("a,_,b,c:2,_:g", Some("c,a"))).unwrap();
    assert_eq!(options.validate(), Ok(()));
    let written: Vec<&str> = options
        .selected_mappings()
        .into_iter()
        .filter(|(_, s)| *s)
        .map(|(m, _)| m.name())
        .collect();
    assert_eq!(written, vec!["a", "c"]);
}

#[test]
fn field_map_from_str() {
    let m: FieldMap = "phones:3".parse().unwrap();
    assert_eq!(m, FieldMap::Array { name: "phones".to_string(), colspan: 3, join: false });
}

#[test]
fn mapping_and_selection_are_checked_separately() {
    // the mapping check does not look at the selection, and the reverse
    let o = AppOptions::try_from(cli_with("a,b:0", Some("zz"))).unwrap();
    assert_eq!(o.validate_mapping(), Err(AppOptionsValidationError::ColspanBelowOne("b".to_string())));
    assert_eq!(
        o.validate_select(),
        Err(AppOptionsValidationError::SelectFieldNotInMapping { field: "zz".to_string() })
    );
    let o = AppOptions::try_from(cli_with("a,_,_,b", Some("b,a"))).unwrap();
    assert_eq!(o.validate_mapping(), Ok(()));
    assert_eq!(o.validate_select(), Ok(()));
}
