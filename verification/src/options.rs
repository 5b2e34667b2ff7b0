//! The mapping language (`name`, `name:N`, `name:g`, `name:gj`, `_`)
//! and the validation of the options built from the command line.
use vstd::prelude::*;
use vstd::string::*;
use crate::cli::Cli;
use crate::types::Delimiter;
use crate::text::{
    views_of, chars_of, is_unicode_ws, law_trim_removes_outer_whitespace, lemma_split_on_len, parse_usize,
    push_char, split_chars, split_on, str_eq, trim, trim_ws, trimmed_slice, usize_literal,
};

verus! {

broadcast use vstd::string::group_string_axioms;

/// The name reserved for columns that are read but never written.
pub open spec fn placeholder() -> Seq<char> {
    seq!['_']
}

/// Defines the user's intent for how to map input fields to output fields,
/// including support for greedy and multi-field mappings.
#[derive(Debug, PartialEq)]
pub enum FieldMap {
    /// Maps all remaining input fields to a single output field; with `join` they are
    /// written as one value joined by spaces. Can only be the last mapping.
    Greedy { name: String, join: bool },
    /// Maps `colspan` input fields to a single output field; with `join` they are
    /// written as one value joined by spaces.
    Array { name: String, colspan: usize, join: bool },
    /// Maps a single input field to an output field.
    One { name: String },
}

/// The mathematical content of a `FieldMap`.
pub enum FieldMapView {
    Greedy { name: Seq<char>, join: bool },
    Array { name: Seq<char>, colspan: usize, join: bool },
    One { name: Seq<char> },
}

impl FieldMapView {
    pub open spec fn name(self) -> Seq<char> {
        match self {
            FieldMapView::Greedy { name, .. } => name,
            FieldMapView::Array { name, .. } => name,
            FieldMapView::One { name } => name,
        }
    }
}

impl View for FieldMap {
    type V = FieldMapView;

    open spec fn view(&self) -> FieldMapView {
        match self {
            FieldMap::Greedy { name, join } => FieldMapView::Greedy { name: name@, join: *join },
            FieldMap::Array { name, colspan, join } => FieldMapView::Array {
                name: name@,
                colspan: *colspan,
                join: *join,
            },
            FieldMap::One { name } => FieldMapView::One { name: name@ },
        }
    }
}

/// The views of a sequence of mappings.
pub open spec fn field_map_views(ms: Seq<FieldMap>) -> Seq<FieldMapView> {
    ms.map_values(|m: FieldMap| m@)
}

/// Why one entry of the mapping could not be read.
#[derive(Debug, PartialEq)]
pub enum FieldMapParseError {
    /// More than one `:` in the entry.
    InvalidFormat(String),
    /// The part after `:` is neither `g`, `gj`, nor a count.
    InvalidColspan { mapping: String, source: std::num::ParseIntError },
}

/// The mathematical content of a `FieldMapParseError` (the integer error is left out).
pub enum FieldMapParseFailure {
    InvalidFormat(Seq<char>),
    InvalidColspan(Seq<char>),
}

impl View for FieldMapParseError {
    type V = FieldMapParseFailure;

    open spec fn view(&self) -> FieldMapParseFailure {
        match self {
            FieldMapParseError::InvalidFormat(s) => FieldMapParseFailure::InvalidFormat(s@),
            FieldMapParseError::InvalidColspan { mapping, .. } => FieldMapParseFailure::InvalidColspan(
                mapping@,
            ),
        }
    }
}

/// How one entry of the mapping is read: `name`, `name:g`, `name:gj` or `name:N`, with
/// whitespace around the name and around the part after `:` ignored.
pub open spec fn field_map_model(value: Seq<char>) -> Result<FieldMapView, FieldMapParseFailure> {
    let parts = split_on(value, ':');
    if parts.len() == 1 {
        Ok(FieldMapView::One { name: trim_ws(parts[0]) })
    } else if parts.len() == 2 {
        let name = trim_ws(parts[0]);
        let span = trim_ws(parts[1]);
        if span == seq!['g'] {
            Ok(FieldMapView::Greedy { name, join: false })
        } else if span == seq!['g', 'j'] {
            Ok(FieldMapView::Greedy { name, join: true })
        } else {
            match usize_literal(span) {
                Some(n) => Ok(FieldMapView::Array { name, colspan: n as usize, join: false }),
                None => Err(FieldMapParseFailure::InvalidColspan(span)),
            }
        }
    } else {
        Err(FieldMapParseFailure::InvalidFormat(value))
    }
}

impl FieldMap {
    /// The output field name.
    pub fn name(&self) -> (r: &str)
        ensures
            r@ == self@.name(),
    {
        match self {
            FieldMap::Greedy { name, .. } => name.as_str(),
            FieldMap::Array { name, .. } => name.as_str(),
            FieldMap::One { name } => name.as_str(),
        }
    }

    /// Whether this mapping only skips columns (its name is `_`).
    pub fn is_placeholder(&self) -> (r: bool)
        ensures
            r == (self@.name() == placeholder()),
    {
        proof {
            reveal_strlit("_");
            assert("_"@ =~= placeholder());
        }
        str_eq(self.name(), "_")
    }

    /// Reads one entry of the mapping.
    pub fn parse(value: &str) -> (r: Result<FieldMap, FieldMapParseError>)
        ensures
            match field_map_model(value@) {
                Ok(m) => r matches Ok(fm) && fm@ == m,
                Err(e) => r matches Err(pe) && pe@ == e,
            },
    {
        let parts = split_chars(value, ':');
        if parts.len() == 1 {
            let name = trim(parts[0].as_str()).to_owned();
            return Ok(FieldMap::One { name });
        }
        if parts.len() != 2 {
            return Err(FieldMapParseError::InvalidFormat(value.to_owned()));
        }
        let name = trim(parts[0].as_str()).to_owned();
        let span = trim(parts[1].as_str());
        let span_chars = chars_of(span);
        let n = span_chars.len();
        if n == 1 && span_chars[0] == 'g' {
            assert(span@ == seq!['g']);
            return Ok(FieldMap::Greedy { name, join: false });
        }
        if n == 2 && span_chars[0] == 'g' && span_chars[1] == 'j' {
            assert(span@ == seq!['g', 'j']);
            return Ok(FieldMap::Greedy { name, join: true });
        }
        match parse_usize(span) {
            Ok(colspan) => Ok(FieldMap::Array { name, colspan, join: false }),
            Err(source) => Err(FieldMapParseError::InvalidColspan { mapping: span.to_owned(), source }),
        }
    }
}


impl std::str::FromStr for FieldMap {
    type Err = FieldMapParseError;

    fn from_str(value: &str) -> (r: Result<FieldMap, FieldMapParseError>)
        ensures
            match field_map_model(value@) {
                Ok(m) => r matches Ok(fm) && fm@ == m,
                Err(e) => r matches Err(pe) && pe@ == e,
            },
    {
        FieldMap::parse(value)
    }
}

/// Why the options were rejected.
#[derive(Debug, PartialEq)]
pub enum AppOptionsValidationError {
    EmptyMapping,
    EmptyMappingName { position: usize },
    DuplicateMappingField(String),
    ColspanBelowOne(String),
    ColspanParseError(FieldMapParseError),
    GreedyNotLast(String),
    EmptySelect,
    EmptySelectName { position: usize },
    SelectContainsPlaceholder { position: usize },
    SelectFieldNotInMapping { field: String },
    DuplicateSelectField(String),
}

/// The mathematical content of an `AppOptionsValidationError`.
pub enum ValidationFailure {
    EmptyMapping,
    EmptyMappingName { position: usize },
    DuplicateMappingField(Seq<char>),
    ColspanBelowOne(Seq<char>),
    ColspanParseError(FieldMapParseFailure),
    GreedyNotLast(Seq<char>),
    EmptySelect,
    EmptySelectName { position: usize },
    SelectContainsPlaceholder { position: usize },
    SelectFieldNotInMapping { field: Seq<char> },
    DuplicateSelectField(Seq<char>),
}

impl View for AppOptionsValidationError {
    type V = ValidationFailure;

    open spec fn view(&self) -> ValidationFailure {
        match self {
            AppOptionsValidationError::EmptyMapping => ValidationFailure::EmptyMapping,
            AppOptionsValidationError::EmptyMappingName { position } => ValidationFailure::EmptyMappingName {
                position: *position,
            },
            AppOptionsValidationError::DuplicateMappingField(s) => ValidationFailure::DuplicateMappingField(s@),
            AppOptionsValidationError::ColspanBelowOne(s) => ValidationFailure::ColspanBelowOne(s@),
            AppOptionsValidationError::ColspanParseError(e) => ValidationFailure::ColspanParseError(e@),
            AppOptionsValidationError::GreedyNotLast(s) => ValidationFailure::GreedyNotLast(s@),
            AppOptionsValidationError::EmptySelect => ValidationFailure::EmptySelect,
            AppOptionsValidationError::EmptySelectName { position } => ValidationFailure::EmptySelectName {
                position: *position,
            },
            AppOptionsValidationError::SelectContainsPlaceholder { position } => ValidationFailure::SelectContainsPlaceholder {
                position: *position,
            },
            AppOptionsValidationError::SelectFieldNotInMapping { field } => ValidationFailure::SelectFieldNotInMapping {
                field: field@,
            },
            AppOptionsValidationError::DuplicateSelectField(s) => ValidationFailure::DuplicateSelectField(s@),
        }
    }
}

/// Parsed application options derived from command-line arguments.
#[derive(Debug)]
pub struct AppOptions {
    pub mapping: Vec<FieldMap>,
    pub select: Option<Vec<String>>,
    pub skip: Option<usize>,
    pub take: Option<usize>,
    pub loose: bool,
    pub delimiter: Delimiter,
    pub output_delimiter: String,
    pub output_greedy_delimiter: String,
    pub json: bool,
}

/// The failure of entry `i` of the mapping, given the entries before it.
pub open spec fn mapping_entry_failure(ms: Seq<FieldMapView>, i: int) -> Option<ValidationFailure> {
    let name = ms[i].name();
    if name.len() == 0 {
        Some(ValidationFailure::EmptyMappingName { position: (i + 1) as usize })
    } else if name != placeholder() && exists|j: int| 0 <= j < i && #[trigger] ms[j].name() == name {
        Some(ValidationFailure::DuplicateMappingField(name))
    } else {
        match ms[i] {
            FieldMapView::Array { colspan, .. } => if colspan == 0 {
                Some(ValidationFailure::ColspanBelowOne(name))
            } else {
                None
            },
            FieldMapView::Greedy { .. } => if i != ms.len() - 1 {
                Some(ValidationFailure::GreedyNotLast(name))
            } else {
                None
            },
            FieldMapView::One { .. } => None,
        }
    }
}

/// The first failing entry of the mapping at index `k` or later.
pub open spec fn first_mapping_failure(ms: Seq<FieldMapView>, k: int) -> Option<ValidationFailure>
    decreases ms.len() - k,
{
    if k < 0 || k >= ms.len() {
        None
    } else {
        match mapping_entry_failure(ms, k) {
            Some(f) => Some(f),
            None => first_mapping_failure(ms, k + 1),
        }
    }
}

/// Why a mapping is rejected: it is empty, or its first failing entry.
pub open spec fn mapping_failure(ms: Seq<FieldMapView>) -> Option<ValidationFailure> {
    if ms.len() == 0 {
        Some(ValidationFailure::EmptyMapping)
    } else {
        first_mapping_failure(ms, 0)
    }
}

/// Whether `s` names a (non-placeholder) field of the mapping.
pub open spec fn is_mapped(ms: Seq<FieldMapView>, s: Seq<char>) -> bool {
    exists|j: int| 0 <= j < ms.len() && #[trigger] ms[j].name() == s && ms[j].name() != placeholder()
}

/// The first selected name at index `k` or later that is blank.
pub open spec fn first_blank_select(sel: Seq<Seq<char>>, k: int) -> Option<ValidationFailure>
    decreases sel.len() - k,
{
    if k < 0 || k >= sel.len() {
        None
    } else if trim_ws(sel[k]).len() == 0 {
        Some(ValidationFailure::EmptySelectName { position: (k + 1) as usize })
    } else {
        first_blank_select(sel, k + 1)
    }
}

/// The first selected name at index `k` or later that is `_` or names no field.
pub open spec fn first_unmapped_select(ms: Seq<FieldMapView>, sel: Seq<Seq<char>>, k: int) -> Option<
    ValidationFailure,
>
    decreases sel.len() - k,
{
    if k < 0 || k >= sel.len() {
        None
    } else if sel[k] == placeholder() {
        Some(ValidationFailure::SelectContainsPlaceholder { position: (k + 1) as usize })
    } else if !is_mapped(ms, sel[k]) {
        Some(ValidationFailure::SelectFieldNotInMapping { field: sel[k] })
    } else {
        first_unmapped_select(ms, sel, k + 1)
    }
}

/// The first selected name at index `k` or later that repeats an earlier one.
pub open spec fn first_repeated_select(sel: Seq<Seq<char>>, k: int) -> Option<ValidationFailure>
    decreases sel.len() - k,
{
    if k < 0 || k >= sel.len() {
        None
    } else if exists|j: int| 0 <= j < k && #[trigger] sel[j] == sel[k] {
        Some(ValidationFailure::DuplicateSelectField(sel[k]))
    } else {
        first_repeated_select(sel, k + 1)
    }
}

/// Why a selection is rejected, if it is.
pub open spec fn select_failure(ms: Seq<FieldMapView>, sel: Option<Seq<Seq<char>>>) -> Option<
    ValidationFailure,
> {
    match sel {
        None => None,
        Some(sel) => if sel.len() == 0 {
            Some(ValidationFailure::EmptySelect)
        } else if first_blank_select(sel, 0) is Some {
            first_blank_select(sel, 0)
        } else if first_unmapped_select(ms, sel, 0) is Some {
            first_unmapped_select(ms, sel, 0)
        } else {
            first_repeated_select(sel, 0)
        },
    }
}

/// Why a pair of mapping and selection is rejected: the mapping's failure first.
pub open spec fn options_failure(ms: Seq<FieldMapView>, sel: Option<Seq<Seq<char>>>) -> Option<
    ValidationFailure,
> {
    match mapping_failure(ms) {
        Some(f) => Some(f),
        None => select_failure(ms, sel),
    }
}

/// The views of an optional list of names.
pub open spec fn select_views(sel: Option<Vec<String>>) -> Option<Seq<Seq<char>>> {
    match sel {
        Some(v) => Some(views_of(v@)),
        None => None,
    }
}

/// Whether mapping `m` is written, given the selection.
pub open spec fn is_selected(m: FieldMapView, sel: Option<Seq<Seq<char>>>) -> bool {
    m.name() != placeholder() && match sel {
        None => true,
        Some(s) => s.contains(m.name()),
    }
}

/// Whether some mapping among `ms[0..i]` has the name `name`.
fn name_before(ms: &Vec<FieldMap>, i: usize, name: &str) -> (r: bool)
    requires
        i <= ms@.len(),
    ensures
        r == exists|j: int| 0 <= j < i && #[trigger] field_map_views(ms@)[j].name() == name@,
{
    let mut j: usize = 0;
    while j < i
        invariant
            i <= ms@.len(),
            j <= i,
            forall|k: int| 0 <= k < j ==> #[trigger] field_map_views(ms@)[k].name() != name@,
        decreases i - j,
    {
        if str_eq(ms[j].name(), name) {
            assert(field_map_views(ms@)[j as int].name() == name@);
            return true;
        }
        j = j + 1;
    }
    false
}

/// Whether `names` holds `name`.
fn contains_name(names: &Vec<String>, name: &str) -> (r: bool)
    ensures
        r == views_of(names@).contains(name@),
{
    let mut j: usize = 0;
    while j < names.len()
        invariant
            j <= names@.len(),
            forall|k: int| 0 <= k < j ==> #[trigger] views_of(names@)[k] != name@,
        decreases names@.len() - j,
    {
        if str_eq(names[j].as_str(), name) {
            assert(views_of(names@)[j as int] == name@);
            return true;
        }
        j = j + 1;
    }
    false
}

/// Whether `names[0..i]` holds `name`.
fn contains_name_before(names: &Vec<String>, i: usize, name: &str) -> (r: bool)
    requires
        i <= names@.len(),
    ensures
        r == exists|j: int| 0 <= j < i && #[trigger] views_of(names@)[j] == name@,
{
    let mut j: usize = 0;
    while j < i
        invariant
            i <= names@.len(),
            j <= i,
            forall|k: int| 0 <= k < j ==> #[trigger] views_of(names@)[k] != name@,
        decreases i - j,
    {
        if str_eq(names[j].as_str(), name) {
            assert(views_of(names@)[j as int] == name@);
            return true;
        }
        j = j + 1;
    }
    false
}

/// Whether `ms` has a non-placeholder mapping named `name`.
fn mapping_has_field(ms: &Vec<FieldMap>, name: &str) -> (r: bool)
    ensures
        r == is_mapped(field_map_views(ms@), name@),
{
    let mut j: usize = 0;
    while j < ms.len()
        invariant
            j <= ms@.len(),
            forall|k: int|
                0 <= k < j ==> !(#[trigger] field_map_views(ms@)[k].name() == name@
                    && field_map_views(ms@)[k].name() != placeholder()),
        decreases ms@.len() - j,
    {
        let m = &ms[j];
        if !m.is_placeholder() && str_eq(m.name(), name) {
            assert(field_map_views(ms@)[j as int].name() == name@);
            return true;
        }
        j = j + 1;
    }
    false
}

impl AppOptions {
    /// Validates the mapping options.
    pub fn validate_mapping(&self) -> (r: Result<(), AppOptionsValidationError>)
        ensures
            match mapping_failure(field_map_views(self.mapping@)) {
                None => r is Ok,
                Some(f) => r matches Err(e) && e@ == f,
            },
    {
        let ghost ms = field_map_views(self.mapping@);
        if self.mapping.len() == 0 {
            return Err(AppOptionsValidationError::EmptyMapping);
        }
        let n = self.mapping.len();
        let mut i: usize = 0;
        while i < n
            invariant
                n == self.mapping@.len(),
                ms == field_map_views(self.mapping@),
                i <= n,
                first_mapping_failure(ms, 0) == first_mapping_failure(ms, i as int),
            decreases n - i,
        {
            let m = &self.mapping[i];
            let name = m.name();
            assert(ms[i as int] == m@);
            if name.is_empty() {
                return Err(AppOptionsValidationError::EmptyMappingName { position: i + 1 });
            }
            if !m.is_placeholder() && name_before(&self.mapping, i, name) {
                return Err(AppOptionsValidationError::DuplicateMappingField(name.to_owned()));
            }
            match m {
                FieldMap::Array { colspan, .. } => {
                    if *colspan == 0 {
                        return Err(AppOptionsValidationError::ColspanBelowOne(name.to_owned()));
                    }
                },
                FieldMap::Greedy { .. } => {
                    if i != n - 1 {
                        return Err(AppOptionsValidationError::GreedyNotLast(name.to_owned()));
                    }
                },
                FieldMap::One { .. } => {},
            }
            assert(mapping_entry_failure(ms, i as int) is None);
            i = i + 1;
        }
        Ok(())
    }

    /// Validates the select options.
    pub fn validate_select(&self) -> (r: Result<(), AppOptionsValidationError>)
        ensures
            match select_failure(field_map_views(self.mapping@), select_views(self.select)) {
                None => r is Ok,
                Some(f) => r matches Err(e) && e@ == f,
            },
    {
        let ghost ms = field_map_views(self.mapping@);
        match &self.select {
            None => Ok(()),
            Some(select) => {
                let ghost sel = views_of(select@);
                assert(select_views(self.select) == Some(sel));
                let n = select.len();
                if n == 0 {
                    return Err(AppOptionsValidationError::EmptySelect);
                }
                let mut i: usize = 0;
                while i < n
                    invariant
                        n == select@.len(),
                        sel == views_of(select@),
                        select_views(self.select) == Some(sel),
                        n > 0,
                        i <= n,
                        first_blank_select(sel, 0) == first_blank_select(sel, i as int),
                    decreases n - i,
                {
                    assert(sel[i as int] == select@[i as int]@);
                    if trim(select[i].as_str()).is_empty() {
                        return Err(AppOptionsValidationError::EmptySelectName { position: i + 1 });
                    }
                    i = i + 1;
                }
                proof {
                    reveal_strlit("_");
                    assert("_"@ =~= placeholder());
                }
                let mut i: usize = 0;
                while i < n
                    invariant
                        n == select@.len(),
                        sel == views_of(select@),
                        select_views(self.select) == Some(sel),
                        n > 0,
                        ms == field_map_views(self.mapping@),
                        i <= n,
                        first_blank_select(sel, 0) is None,
                        first_unmapped_select(ms, sel, 0) == first_unmapped_select(ms, sel, i as int),
                        "_"@ == placeholder(),
                    decreases n - i,
                {
                    let s = select[i].as_str();
                    assert(sel[i as int] == s@);
                    if str_eq(s, "_") {
                        return Err(
                            AppOptionsValidationError::SelectContainsPlaceholder { position: i + 1 },
                        );
                    }
                    if !mapping_has_field(&self.mapping, s) {
                        return Err(
                            AppOptionsValidationError::SelectFieldNotInMapping { field: s.to_owned() },
                        );
                    }
                    i = i + 1;
                }
                let mut i: usize = 0;
                while i < n
                    invariant
                        n == select@.len(),
                        sel == views_of(select@),
                        select_views(self.select) == Some(sel),
                        n > 0,
                        ms == field_map_views(self.mapping@),
                        i <= n,
                        first_blank_select(sel, 0) is None,
                        first_unmapped_select(ms, sel, 0) is None,
                        first_repeated_select(sel, 0) == first_repeated_select(sel, i as int),
                    decreases n - i,
                {
                    let s = select[i].as_str();
                    assert(sel[i as int] == s@);
                    if contains_name_before(select, i, s) {
                        return Err(AppOptionsValidationError::DuplicateSelectField(s.to_owned()));
                    }
                    i = i + 1;
                }
                Ok(())
            },
        }
    }

    /// Runs all validation checks on the options: the mapping first, then the selection.
    pub fn validate(&self) -> (r: Result<(), AppOptionsValidationError>)
        ensures
            match options_failure(field_map_views(self.mapping@), select_views(self.select)) {
                None => r is Ok,
                Some(f) => r matches Err(e) && e@ == f,
            },
    {
        self.validate_mapping()?;
        self.validate_select()?;
        Ok(())
    }

    /// Each mapping, in order, with whether it is written to the output: placeholders never
    /// are, and other mappings are when there is no selection or the selection names them.
    pub fn selected_mappings(&self) -> (r: Vec<(&FieldMap, bool)>)
        ensures
            r@.len() == self.mapping@.len(),
            forall|i: int|
                0 <= i < r@.len() ==> *(#[trigger] r@[i]).0 == self.mapping@[i] && r@[i].1
                    == is_selected(self.mapping@[i]@, select_views(self.select)),
    {
        let mut r: Vec<(&FieldMap, bool)> = Vec::new();
        let n = self.mapping.len();
        let mut i: usize = 0;
        while i < n
            invariant
                n == self.mapping@.len(),
                i <= n,
                r@.len() == i,
                forall|k: int|
                    0 <= k < i ==> *(#[trigger] r@[k]).0 == self.mapping@[k] && r@[k].1
                        == is_selected(self.mapping@[k]@, select_views(self.select)),
            decreases n - i,
        {
            let m = &self.mapping[i];
            let selected = if m.is_placeholder() {
                false
            } else {
                match &self.select {
                    None => true,
                    Some(s) => contains_name(s, m.name()),
                }
            };
            r.push((m, selected));
            i = i + 1;
        }
        r
    }
}

/// How the entries of a mapping are read, in order: the first entry that fails decides.
pub open spec fn parse_mapping_list(pieces: Seq<Seq<char>>) -> Result<Seq<FieldMapView>, FieldMapParseFailure>
    decreases pieces.len(),
{
    if pieces.len() == 0 {
        Ok(Seq::empty())
    } else {
        match parse_mapping_list(pieces.drop_last()) {
            Err(e) => Err(e),
            Ok(ms) => match field_map_model(pieces.last()) {
                Ok(m) => Ok(ms.push(m)),
                Err(e) => Err(e),
            },
        }
    }
}

/// A failure among the first `k` entries is the failure of any longer prefix.
proof fn lemma_parse_mapping_list_err(pieces: Seq<Seq<char>>, k: int, m: int)
    requires
        0 <= k <= m <= pieces.len(),
        parse_mapping_list(pieces.take(k)) is Err,
    ensures
        parse_mapping_list(pieces.take(m)) == parse_mapping_list(pieces.take(k)),
    decreases m - k,
{
    if m > k {
        lemma_parse_mapping_list_err(pieces, k, m - 1);
        assert(pieces.take(m).drop_last() == pieces.take(m - 1));
    }
}

/// The names of a selection: the comma-separated pieces, trimmed.
pub open spec fn select_model(s: Seq<char>) -> Seq<Seq<char>> {
    split_on(s, ',').map_values(|p: Seq<char>| trim_ws(p))
}

/// The selection that an optional selection setting gives.
pub open spec fn select_setting_model(s: Option<String>) -> Option<Seq<Seq<char>>> {
    match s {
        None => None,
        Some(s) => Some(select_model(s@)),
    }
}

impl AppOptions {
    /// Builds the options from the command-line settings, reading each mapping entry.
    pub fn try_from(cli: Cli) -> (r: Result<AppOptions, AppOptionsValidationError>)
        ensures
            match parse_mapping_list(split_on(cli.mapping@, ',')) {
                Ok(ms) => r matches Ok(o) && field_map_views(o.mapping@) == ms
                    && select_views(o.select) == select_setting_model(cli.select)
                    && o.skip == cli.skip && o.take == cli.take && o.loose == cli.loose
                    && o.delimiter == cli.delimiter && o.json == cli.json
                    && o.output_delimiter == cli.output_delimiter
                    && o.output_greedy_delimiter == cli.output_greedy_delimiter,
                Err(e) => r matches Err(AppOptionsValidationError::ColspanParseError(pe)) && pe@ == e,
            },
    {
        let pieces = split_chars(cli.mapping.as_str(), ',');
        let ghost p = views_of(pieces@);
        let n = pieces.len();
        let mut mapping: Vec<FieldMap> = Vec::new();
        let mut i: usize = 0;
        assert(p.take(0) =~= Seq::<Seq<char>>::empty());
        assert(field_map_views(mapping@) =~= Seq::<FieldMapView>::empty());
        while i < n
            invariant
                n == pieces@.len(),
                p == views_of(pieces@),
                p == split_on(cli.mapping@, ','),
                i <= n,
                parse_mapping_list(p.take(i as int)) == Ok::<Seq<FieldMapView>, FieldMapParseFailure>(
                    field_map_views(mapping@),
                ),
            decreases n - i,
        {
            assert(p.take(i + 1).drop_last() == p.take(i as int));
            assert(p.take(i + 1).last() == pieces@[i as int]@);
            match FieldMap::parse(pieces[i].as_str()) {
                Ok(m) => {
                    let ghost old_views = field_map_views(mapping@);
                    let ghost mv = m@;
                    mapping.push(m);
                    assert(field_map_views(mapping@) =~= old_views.push(mv));
                },
                Err(e) => {
                    proof {
                        lemma_parse_mapping_list_err(p, i + 1, n as int);
                        assert(p.take(n as int) == p);
                    }
                    return Err(AppOptionsValidationError::ColspanParseError(e));
                },
            }
            i = i + 1;
        }
        assert(p.take(n as int) == p);
        let select = match cli.select {
            None => None,
            Some(s) => {
                let parts = split_chars(s.as_str(), ',');
                let mut names: Vec<String> = Vec::new();
                let mut j: usize = 0;
                while j < parts.len()
                    invariant
                        j <= parts@.len(),
                        views_of(parts@) == split_on(s@, ','),
                        views_of(names@) == views_of(parts@).take(j as int).map_values(
                            |q: Seq<char>| trim_ws(q),
                        ),
                    decreases parts@.len() - j,
                {
                    let ghost old_names = views_of(names@);
                    let t = trim(parts[j].as_str()).to_owned();
                    names.push(t);
                    assert(views_of(names@) =~= old_names.push(t@));
                    assert(views_of(parts@).take(j + 1) =~= views_of(parts@).take(j as int).push(parts@[j as int]@));
                    j = j + 1;
                }
                assert(views_of(parts@).take(parts@.len() as int) == views_of(parts@));
                Some(names)
            },
        };
        Ok(AppOptions {
            mapping,
            select,
            skip: cli.skip,
            take: cli.take,
            loose: cli.loose,
            delimiter: cli.delimiter,
            output_delimiter: cli.output_delimiter,
            output_greedy_delimiter: cli.output_greedy_delimiter,
            json: cli.json,
        })
    }
}
/// When no entry from `k` on fails, no single entry from `k` on fails.
pub proof fn lemma_no_failure_from(ms: Seq<FieldMapView>, k: int, i: int)
    requires
        0 <= k <= i < ms.len(),
        first_mapping_failure(ms, k) is None,
    ensures
        mapping_entry_failure(ms, i) is None,
    decreases i - k,
{
    if k < i {
        lemma_no_failure_from(ms, k + 1, i);
    }
}


proof fn lemma_no_unmapped_from(ms: Seq<FieldMapView>, sel: Seq<Seq<char>>, k: int, i: int)
    requires
        0 <= k <= i < sel.len(),
        first_unmapped_select(ms, sel, k) is None,
    ensures
        sel[i] != placeholder() && is_mapped(ms, sel[i]),
    decreases i - k,
{
    if k < i {
        lemma_no_unmapped_from(ms, sel, k + 1, i);
    }
}

/// Once the options are valid, a selection writes each name it lists from exactly one
/// mapping, and no two written mappings share a name.
pub proof fn law_select_picks_each_name_once(ms: Seq<FieldMapView>, sel: Seq<Seq<char>>)
    requires
        options_failure(ms, Some(sel)) is None,
    ensures
        forall|i: int|
            0 <= i < sel.len() ==> exists|k: int|
                0 <= k < ms.len() && is_selected(ms[k], Some(sel)) && #[trigger] ms[k].name()
                    == #[trigger] sel[i],
        forall|k1: int, k2: int|
            0 <= k1 < ms.len() && 0 <= k2 < ms.len() && is_selected(#[trigger] ms[k1], Some(sel))
                && is_selected(#[trigger] ms[k2], Some(sel)) && ms[k1].name() == ms[k2].name()
                ==> k1 == k2,
{
    assert forall|i: int| 0 <= i < sel.len() implies exists|k: int|
        0 <= k < ms.len() && is_selected(ms[k], Some(sel)) && #[trigger] ms[k].name()
            == #[trigger] sel[i] by {
        lemma_no_unmapped_from(ms, sel, 0, i);
        let k = choose|j: int|
            0 <= j < ms.len() && #[trigger] ms[j].name() == sel[i] && ms[j].name() != placeholder();
        assert(sel.contains(sel[i]));
        assert(is_selected(ms[k], Some(sel)));
    }
    assert forall|k1: int, k2: int|
        0 <= k1 < ms.len() && 0 <= k2 < ms.len() && is_selected(#[trigger] ms[k1], Some(sel))
            && is_selected(#[trigger] ms[k2], Some(sel)) && ms[k1].name() == ms[k2].name()
        implies k1 == k2 by {
        if k1 < k2 {
            lemma_no_failure_from(ms, 0, k2);
            assert(ms[k1].name() == ms[k2].name());
        } else if k2 < k1 {
            lemma_no_failure_from(ms, 0, k1);
            assert(ms[k2].name() == ms[k1].name());
        }
    }
}

/// A mapping that validation accepts, said directly: it is not empty, no name is empty, no
/// name but `_` appears twice, every multi-column entry reads at least one column, and a
/// greedy entry can only be the last.
pub open spec fn mapping_is_valid(ms: Seq<FieldMapView>) -> bool {
    &&& ms.len() >= 1
    &&& forall|i: int| 0 <= i < ms.len() ==> (#[trigger] ms[i]).name().len() > 0
    &&& forall|i: int, j: int|
        0 <= i < j < ms.len() && (#[trigger] ms[i]).name() == (#[trigger] ms[j]).name() ==> ms[i].name()
            == placeholder()
    &&& forall|i: int| 0 <= i < ms.len() && (#[trigger] ms[i]) is Array ==> ms[i]->colspan >= 1
    &&& forall|i: int| 0 <= i < ms.len() && (#[trigger] ms[i]) is Greedy ==> i == ms.len() - 1
}

/// A selection that validation accepts, said directly: absent, or a non-empty list of
/// names that are not blank, not `_`, each the name of a mapping, and all different.
pub open spec fn selection_is_valid(ms: Seq<FieldMapView>, sel: Option<Seq<Seq<char>>>) -> bool {
    match sel {
        None => true,
        Some(sel) => {
            &&& sel.len() >= 1
            &&& forall|i: int| 0 <= i < sel.len() ==> trim_ws(#[trigger] sel[i]).len() > 0
            &&& forall|i: int| 0 <= i < sel.len() ==> #[trigger] sel[i] != placeholder()
            &&& forall|i: int| 0 <= i < sel.len() ==> is_mapped(ms, #[trigger] sel[i])
            &&& forall|i: int, k: int| 0 <= i < k < sel.len() ==> #[trigger] sel[i] != #[trigger] sel[k]
        },
    }
}

proof fn lemma_first_mapping_failure_none(ms: Seq<FieldMapView>, k: int)
    requires
        0 <= k <= ms.len(),
    ensures
        first_mapping_failure(ms, k) is None <==> forall|i: int|
            k <= i < ms.len() ==> (#[trigger] mapping_entry_failure(ms, i)) is None,
    decreases ms.len() - k,
{
    if k < ms.len() {
        lemma_first_mapping_failure_none(ms, k + 1);
    }
}

proof fn lemma_first_blank_none(sel: Seq<Seq<char>>, k: int)
    requires
        0 <= k <= sel.len(),
    ensures
        first_blank_select(sel, k) is None <==> forall|i: int|
            k <= i < sel.len() ==> trim_ws(#[trigger] sel[i]).len() > 0,
    decreases sel.len() - k,
{
    if k < sel.len() {
        lemma_first_blank_none(sel, k + 1);
    }
}

proof fn lemma_first_unmapped_none(ms: Seq<FieldMapView>, sel: Seq<Seq<char>>, k: int)
    requires
        0 <= k <= sel.len(),
    ensures
        first_unmapped_select(ms, sel, k) is None <==> forall|i: int|
            k <= i < sel.len() ==> #[trigger] sel[i] != placeholder() && is_mapped(ms, sel[i]),
    decreases sel.len() - k,
{
    if k < sel.len() {
        lemma_first_unmapped_none(ms, sel, k + 1);
    }
}

proof fn lemma_first_repeated_none(sel: Seq<Seq<char>>, k: int)
    requires
        0 <= k <= sel.len(),
    ensures
        first_repeated_select(sel, k) is None <==> forall|i: int, j: int|
            0 <= j < i && k <= i < sel.len() ==> #[trigger] sel[j] != #[trigger] sel[i],
    decreases sel.len() - k,
{
    if k < sel.len() {
        lemma_first_repeated_none(sel, k + 1);
    }
}

/// Validation accepts a mapping exactly when `mapping_is_valid` holds of it.
pub proof fn law_mapping_validation(ms: Seq<FieldMapView>)
    ensures
        mapping_failure(ms) is None <==> mapping_is_valid(ms),
{
    if ms.len() >= 1 {
        lemma_first_mapping_failure_none(ms, 0);
        if mapping_failure(ms) is None {
            assert forall|i: int, j: int|
                0 <= i < j < ms.len() && (#[trigger] ms[i]).name() == (#[trigger] ms[j]).name()
                implies ms[i].name() == placeholder() by {
                assert(mapping_entry_failure(ms, j) is None);
            }
            assert forall|i: int| 0 <= i < ms.len() implies (#[trigger] ms[i]).name().len() > 0 by {
                assert(mapping_entry_failure(ms, i) is None);
            }
            assert forall|i: int| 0 <= i < ms.len() && (#[trigger] ms[i]) is Array implies ms[i]->colspan
                >= 1 by {
                assert(mapping_entry_failure(ms, i) is None);
            }
            assert forall|i: int| 0 <= i < ms.len() && (#[trigger] ms[i]) is Greedy implies i == ms.len()
                - 1 by {
                assert(mapping_entry_failure(ms, i) is None);
            }
        }
        if mapping_is_valid(ms) {
            assert forall|i: int| 0 <= i < ms.len() implies (#[trigger] mapping_entry_failure(
                ms,
                i,
            )) is None by {
                assert(ms[i].name().len() > 0);
                if ms[i].name() != placeholder() {
                    assert forall|j: int| 0 <= j < i implies #[trigger] ms[j].name() != ms[i].name() by {
                        if ms[j].name() == ms[i].name() {
                            assert(ms[j].name() == placeholder());
                        }
                    }
                }
                if ms[i] is Array {
                    assert(ms[i]->colspan >= 1);
                }
                if ms[i] is Greedy {
                    assert(i == ms.len() - 1);
                }
            }
        }
    }
}

/// Validation accepts a selection (after an accepted mapping) exactly when
/// `selection_is_valid` holds of it.
pub proof fn law_selection_validation(ms: Seq<FieldMapView>, sel: Option<Seq<Seq<char>>>)
    ensures
        select_failure(ms, sel) is None <==> selection_is_valid(ms, sel),
{
    if let Some(sel) = sel {
        if sel.len() >= 1 {
            lemma_first_blank_none(sel, 0);
            lemma_first_unmapped_none(ms, sel, 0);
            lemma_first_repeated_none(sel, 0);
            if selection_is_valid(ms, Some(sel)) {
                assert forall|i: int, j: int| 0 <= j < i && 0 <= i < sel.len() implies #[trigger] sel[j]
                    != #[trigger] sel[i] by {
                    assert(sel[j] != sel[i]);
                }
            }
        }
    }
}

/// `validate` accepts the options exactly when the mapping and the selection are valid.
pub proof fn law_validation(ms: Seq<FieldMapView>, sel: Option<Seq<Seq<char>>>)
    ensures
        options_failure(ms, sel) is None <==> mapping_is_valid(ms) && selection_is_valid(ms, sel),
{
    law_mapping_validation(ms);
    law_selection_validation(ms, sel);
}

/// Every entry that parses is named by the part before `:` trimmed of whitespace, whether
/// it maps one column, several, or all the rest.
pub proof fn law_parsed_name_is_trimmed(value: Seq<char>)
    ensures
        field_map_model(value) matches Ok(m) ==> m.name() == trim_ws(split_on(value, ':')[0]),
        field_map_model(value) matches Ok(m) ==> (m.name().len() > 0 ==> !is_unicode_ws(m.name()[0])
            && !is_unicode_ws(m.name().last())),
{
    let p0 = split_on(value, ':')[0];
    law_trim_removes_outer_whitespace(p0);
    let (a, b) = choose|a: int, b: int| #[trigger] trimmed_slice(p0, trim_ws(p0), a, b);
    if a < b {
        assert(trim_ws(p0)[0] == p0[a]);
        assert(trim_ws(p0).last() == p0[b - 1]);
    }
}

/// What kind of entry parses from what: a bare name is a single column; after one `:`,
/// `g` or `gj` is greedy (joining with `gj` only), a decimal count is that many columns
/// (never joined), and anything else is a bad count; more than one `:` is a bad entry.
pub proof fn law_parsed_entry_kinds(value: Seq<char>)
    ensures
        ({
            let parts = split_on(value, ':');
            let span = trim_ws(parts[1]);
            match field_map_model(value) {
                Ok(FieldMapView::One { .. }) => parts.len() == 1,
                Ok(FieldMapView::Greedy { join, .. }) => parts.len() == 2 && ((span == seq!['g']
                    && !join) || (span == seq!['g', 'j'] && join)),
                Ok(FieldMapView::Array { colspan, join, .. }) => parts.len() == 2 && !join
                    && usize_literal(span) == Some(colspan as nat),
                Err(FieldMapParseFailure::InvalidFormat(v)) => parts.len() >= 3 && v == value,
                Err(FieldMapParseFailure::InvalidColspan(m)) => parts.len() == 2 && m == span
                    && span != seq!['g'] && span != seq!['g', 'j'] && usize_literal(span) is None,
            }
        }),
{
    lemma_split_on_len(value, ':');
}

/// The mapping list reads every entry, in order: it is accepted exactly when every entry
/// parses, and then it holds one mapping per entry; otherwise the first entry that fails
/// gives the error.
pub proof fn law_mapping_list_reads_each_entry(pieces: Seq<Seq<char>>)
    ensures
        parse_mapping_list(pieces) is Ok <==> forall|i: int|
            0 <= i < pieces.len() ==> (#[trigger] field_map_model(pieces[i])) is Ok,
        parse_mapping_list(pieces) matches Ok(ms) ==> ms.len() == pieces.len() && forall|i: int|
            0 <= i < pieces.len() ==> Ok::<FieldMapView, FieldMapParseFailure>(#[trigger] ms[i])
                == field_map_model(pieces[i]),
        parse_mapping_list(pieces) matches Err(e) ==> exists|k: int|
            0 <= k < pieces.len() && #[trigger] field_map_model(pieces[k]) == Err::<
                FieldMapView,
                FieldMapParseFailure,
            >(e) && forall|i: int| 0 <= i < k ==> (#[trigger] field_map_model(pieces[i])) is Ok,
    decreases pieces.len(),
{
    if pieces.len() > 0 {
        let init = pieces.drop_last();
        let n = pieces.len() - 1;
        law_mapping_list_reads_each_entry(init);
        assert forall|i: int| 0 <= i < n implies #[trigger] pieces[i] == init[i] by {}
        match parse_mapping_list(init) {
            Ok(ms) => {
                match field_map_model(pieces.last()) {
                    Ok(m) => {
                        let all = ms.push(m);
                        assert forall|i: int| 0 <= i < pieces.len() implies Ok::<
                            FieldMapView,
                            FieldMapParseFailure,
                        >(#[trigger] all[i]) == field_map_model(pieces[i]) by {
                            if i < n {
                                assert(all[i] == ms[i]);
                                assert(pieces[i] == init[i]);
                            }
                        }
                        assert forall|i: int| 0 <= i < pieces.len() implies (#[trigger] field_map_model(
                            pieces[i],
                        )) is Ok by {
                            if i < n {
                                assert(pieces[i] == init[i]);
                                assert(field_map_model(init[i]) is Ok);
                            }
                        }
                    },
                    Err(e) => {
                        assert(field_map_model(pieces[n]) == Err::<FieldMapView, FieldMapParseFailure>(e));
                        assert forall|i: int| 0 <= i < n implies (#[trigger] field_map_model(pieces[i])) is Ok by {
                            assert(pieces[i] == init[i]);
                            assert(field_map_model(init[i]) is Ok);
                        }
                    },
                }
            },
            Err(e) => {
                let k = choose|k: int|
                    0 <= k < init.len() && #[trigger] field_map_model(init[k]) == Err::<
                        FieldMapView,
                        FieldMapParseFailure,
                    >(e) && forall|i: int| 0 <= i < k ==> (#[trigger] field_map_model(init[i])) is Ok;
                assert(pieces[k] == init[k]);
                assert forall|i: int| 0 <= i < k implies (#[trigger] field_map_model(pieces[i])) is Ok by {
                    assert(pieces[i] == init[i]);
                }
                assert(!(field_map_model(pieces[k]) is Ok));
            },
        }
    }
}

/// Once the mapping is valid, any of its names but `_` (that is not blank) can be selected
/// on its own, whatever kind of mapping carries it: one column, several, or a greedy one.
pub proof fn law_any_mapped_name_can_be_selected(ms: Seq<FieldMapView>, k: int)
    requires
        mapping_failure(ms) is None,
        0 <= k < ms.len(),
        ms[k].name() != placeholder(),
        trim_ws(ms[k].name()).len() > 0,
    ensures
        options_failure(ms, Some(seq![ms[k].name()])) is None,
{
    let sel = seq![ms[k].name()];
    assert(exists|j: int| 0 <= j < ms.len() && #[trigger] ms[j].name() == sel[0] && ms[j].name()
        != placeholder()) by {
        assert(ms[k].name() == sel[0]);
    }
    law_selection_validation(ms, Some(sel));
    assert forall|i: int, q: int| 0 <= i < q < sel.len() implies #[trigger] sel[i] != #[trigger] sel[q] by {
    }
    assert(selection_is_valid(ms, Some(sel)));
}

} // verus!
