//! Turning one record's fields into one line of output, and the column-count rules.
use vstd::prelude::*;
use vstd::string::*;
use crate::json_read::lemma_join_front;
use crate::json::{
    append_bytes, json_array, json_member, json_string, join_seqs, lemma_join_seqs_push,
    serialize_json_array, serialize_json_field, serialize_json_value, str_views,
};
use crate::options::{
    field_map_views, lemma_no_failure_from, mapping_failure, AppOptions, FieldMap, FieldMapView,
};
use crate::text::{push_char, views_of};
use vstd::utf8::encode_utf8;

verus! {

broadcast use vstd::string::group_string_axioms;

/// The mapping asks for more columns than a `usize` can count.
#[derive(Debug, PartialEq, Eq, Structural)]
pub enum CalculateExpectedColumnsCountError {
    ColspanBiggerThanUsizeMax,
}

/// How many fields a record must have under a mapping.
#[derive(Debug, PartialEq, Eq, Structural)]
pub enum ExpectedColumnsCount {
    Exact(usize),
    AtLeast(usize),
}

/// A record does not have the number of fields the mapping expects.
#[derive(Debug, PartialEq, Eq, Structural)]
pub enum CheckColumnsCountError {
    NotExact { expected: usize, actual: usize },
    NotAtLeast { min: usize, actual: usize },
}

/// Why a record produced no output.
#[derive(Debug)]
pub enum RecordError {
    /// Strict mode, and the record has the wrong number of fields.
    ColumnsCount(CheckColumnsCountError),
    /// A value could not be written as JSON.
    Json(serde_json::Error),
}

/// The number of columns a mapping reads (a greedy mapping reads what is left).
pub open spec fn columns_of(m: FieldMapView) -> nat {
    match m {
        FieldMapView::One { .. } => 1,
        FieldMapView::Array { colspan, .. } => colspan as nat,
        FieldMapView::Greedy { .. } => 0,
    }
}

/// The columns read by the non-greedy mappings.
pub open spec fn fixed_columns(ms: Seq<FieldMapView>) -> nat
    decreases ms.len(),
{
    if ms.len() == 0 {
        0
    } else {
        fixed_columns(ms.drop_last()) + columns_of(ms.last())
    }
}

/// Whether some mapping is greedy.
pub open spec fn has_greedy(ms: Seq<FieldMapView>) -> bool {
    exists|i: int| 0 <= i < ms.len() && #[trigger] ms[i] is Greedy
}

/// The field count a mapping expects: exactly its fixed columns, or at least them when a
/// mapping is greedy.
pub open spec fn expected_columns_model(ms: Seq<FieldMapView>) -> Result<
    ExpectedColumnsCount,
    CalculateExpectedColumnsCountError,
> {
    if fixed_columns(ms) > usize::MAX {
        Err(CalculateExpectedColumnsCountError::ColspanBiggerThanUsizeMax)
    } else if has_greedy(ms) {
        Ok(ExpectedColumnsCount::AtLeast(fixed_columns(ms) as usize))
    } else {
        Ok(ExpectedColumnsCount::Exact(fixed_columns(ms) as usize))
    }
}

/// Whether `n` fields satisfy the expectation, and the error when they do not.
pub open spec fn columns_check_model(expected: ExpectedColumnsCount, n: usize) -> Result<
    (),
    CheckColumnsCountError,
> {
    match expected {
        ExpectedColumnsCount::Exact(e) => if e == n {
            Ok(())
        } else {
            Err(CheckColumnsCountError::NotExact { expected: e, actual: n })
        },
        ExpectedColumnsCount::AtLeast(m) => if m <= n {
            Ok(())
        } else {
            Err(CheckColumnsCountError::NotAtLeast { min: m, actual: n })
        },
    }
}

proof fn lemma_fixed_columns_monotone(ms: Seq<FieldMapView>, i: int, j: int)
    requires
        0 <= i <= j <= ms.len(),
    ensures
        fixed_columns(ms.take(i)) <= fixed_columns(ms.take(j)),
    decreases j - i,
{
    if i < j {
        lemma_fixed_columns_monotone(ms, i, j - 1);
        assert(ms.take(j).drop_last() == ms.take(j - 1));
    }
}

/// The field count that records must have under `mappings`.
pub fn calculate_expected_columns_count(mappings: &[FieldMap]) -> (r: Result<
    ExpectedColumnsCount,
    CalculateExpectedColumnsCountError,
>)
    ensures
        r == expected_columns_model(field_map_views(mappings@)),
{
    let ghost ms = field_map_views(mappings@);
    let mut is_greedy = false;
    let mut count: usize = 0;
    let mut i: usize = 0;
    while i < mappings.len()
        invariant
            ms == field_map_views(mappings@),
            i <= mappings@.len(),
            count == fixed_columns(ms.take(i as int)),
            is_greedy == exists|j: int| 0 <= j < i && #[trigger] ms[j] is Greedy,
        decreases mappings@.len() - i,
    {
        assert(ms.take(i + 1).drop_last() == ms.take(i as int));
        assert(ms[i as int] == mappings@[i as int]@);
        match &mappings[i] {
            FieldMap::One { .. } => {
                match count.checked_add(1) {
                    Some(c) => count = c,
                    None => {
                        proof {
                            lemma_fixed_columns_monotone(ms, i + 1, ms.len() as int);
                            assert(ms.take(ms.len() as int) == ms);
                        }
                        return Err(CalculateExpectedColumnsCountError::ColspanBiggerThanUsizeMax);
                    },
                }
            },
            FieldMap::Array { colspan, .. } => {
                match count.checked_add(*colspan) {
                    Some(c) => count = c,
                    None => {
                        proof {
                            lemma_fixed_columns_monotone(ms, i + 1, ms.len() as int);
                            assert(ms.take(ms.len() as int) == ms);
                        }
                        return Err(CalculateExpectedColumnsCountError::ColspanBiggerThanUsizeMax);
                    },
                }
            },
            FieldMap::Greedy { .. } => {
                is_greedy = true;
            },
        }
        i = i + 1;
    }
    assert(ms.take(mappings@.len() as int) == ms);
    if is_greedy {
        Ok(ExpectedColumnsCount::AtLeast(count))
    } else {
        Ok(ExpectedColumnsCount::Exact(count))
    }
}

/// Whether a record of `input` fields satisfies the expectation.
pub fn check_columns_count(expected: &ExpectedColumnsCount, input: usize) -> (r: Result<
    (),
    CheckColumnsCountError,
>)
    ensures
        r == columns_check_model(*expected, input),
{
    match *expected {
        ExpectedColumnsCount::Exact(e) => if e == input {
            Ok(())
        } else {
            Err(CheckColumnsCountError::NotExact { expected: e, actual: input })
        },
        ExpectedColumnsCount::AtLeast(m) => if m <= input {
            Ok(())
        } else {
            Err(CheckColumnsCountError::NotAtLeast { min: m, actual: input })
        },
    }
}

/// The field at position `p`, or the empty string past the end of the record.
pub open spec fn value_at(fields: Seq<Seq<char>>, p: int) -> Seq<char> {
    if 0 <= p < fields.len() {
        fields[p]
    } else {
        Seq::empty()
    }
}

/// The position after mapping `m` has read its columns from position `pos` of `n` fields.
pub open spec fn advance(m: FieldMapView, pos: int, n: int) -> int {
    match m {
        FieldMapView::One { .. } => if pos < n {
            pos + 1
        } else {
            pos
        },
        FieldMapView::Array { colspan, .. } => if pos + colspan < n {
            pos + colspan
        } else {
            n
        },
        FieldMapView::Greedy { .. } => n,
    }
}

/// The values an array-like mapping gets from position `pos`: `colspan` of them for an
/// array (empty past the end), all the rest for a greedy mapping.
pub open spec fn mapping_values(m: FieldMapView, fields: Seq<Seq<char>>, pos: int) -> Seq<Seq<char>> {
    match m {
        FieldMapView::One { .. } => seq![value_at(fields, pos)],
        FieldMapView::Array { colspan, .. } => Seq::new(
            colspan as nat,
            |j: int| value_at(fields, pos + j),
        ),
        FieldMapView::Greedy { .. } => fields.subrange(pos, fields.len() as int),
    }
}

/// Whether an array-like mapping asks for its values to be joined by spaces.
pub open spec fn joins(m: FieldMapView) -> bool {
    match m {
        FieldMapView::Array { join, .. } => join,
        FieldMapView::Greedy { join, .. } => join,
        FieldMapView::One { .. } => false,
    }
}

/// The UTF-8 encodings of a sequence of strings.
pub open spec fn utf8_bytes(vs: Seq<Seq<char>>) -> Seq<Seq<u8>> {
    vs.map_values(|v: Seq<char>| encode_utf8(v))
}

/// The output delimiter's bytes.
pub open spec fn delimiter_bytes(o: AppOptions) -> Seq<u8> {
    encode_utf8(o.output_delimiter@)
}

/// The bytes that join the values of an array-like mapping outside JSON: the greedy output
/// delimiter.
pub open spec fn greedy_delimiter_bytes(o: AppOptions) -> Seq<u8> {
    encode_utf8(o.output_greedy_delimiter@)
}

/// How the values of an array-like mapping are written: in JSON, one string of the values
/// joined by spaces, or an array of strings; otherwise the values joined by `gsep`.
pub open spec fn array_like(vs: Seq<Seq<char>>, join: bool, json: bool, gsep: Seq<u8>) -> Seq<u8> {
    if json {
        if join {
            json_string(join_seqs(vs, seq![' ']))
        } else {
            json_array(vs)
        }
    } else {
        join_seqs(utf8_bytes(vs), gsep)
    }
}

/// What a selected mapping writes when it reads from position `pos`.
pub open spec fn render_field(m: FieldMapView, fields: Seq<Seq<char>>, pos: int, json: bool, gsep: Seq<u8>) -> Seq<
    u8,
> {
    match m {
        FieldMapView::One { name } => if json {
            json_member(name, value_at(fields, pos))
        } else {
            encode_utf8(value_at(fields, pos))
        },
        _ => (if json {
            json_string(m.name()) + seq![0x3au8]
        } else {
            Seq::empty()
        }) + array_like(mapping_values(m, fields, pos), joins(m), json, gsep),
    }
}

/// The bytes that mappings `ms[k..]` write, reading from position `pos`; `first` tells
/// whether nothing has been written before them.
pub open spec fn render_from(
    fields: Seq<Seq<char>>,
    ms: Seq<(FieldMapView, bool)>,
    k: int,
    pos: int,
    first: bool,
    json: bool,
    sep: Seq<u8>,
    gsep: Seq<u8>,
) -> Seq<u8>
    decreases ms.len() - k,
{
    if k < 0 || k >= ms.len() {
        Seq::empty()
    } else {
        let m = ms[k].0;
        let next = advance(m, pos, fields.len() as int);
        if ms[k].1 {
            (if first {
                Seq::empty()
            } else if json {
                seq![0x2cu8]
            } else {
                sep
            }) + render_field(m, fields, pos, json, gsep) + render_from(
                fields,
                ms,
                k + 1,
                next,
                false,
                json,
                sep,
                gsep,
            )
        } else {
            render_from(fields, ms, k + 1, next, first, json, sep, gsep)
        }
    }
}

/// The output line of a record: the selected mappings' output separated by `sep` (`,` in
/// JSON, inside `{` and `}`), then a newline.
pub open spec fn render_record(
    fields: Seq<Seq<char>>,
    ms: Seq<(FieldMapView, bool)>,
    json: bool,
    sep: Seq<u8>,
    gsep: Seq<u8>,
) -> Seq<u8> {
    (if json {
        seq![0x7bu8]
    } else {
        Seq::empty()
    }) + render_from(fields, ms, 0, 0, true, json, sep, gsep) + (if json {
        seq![0x7du8]
    } else {
        Seq::empty()
    }) + seq![0x0au8]
}

/// The views of the mappings paired with whether they are written.
pub open spec fn selection_views(ms: Seq<(&FieldMap, bool)>) -> Seq<(FieldMapView, bool)> {
    ms.map_values(|p: (&FieldMap, bool)| (p.0@, p.1))
}

/// Writes the values of an array-like mapping: in JSON, as one string joined by spaces
/// (with `join`) or as an array; otherwise separated by the greedy output delimiter.
pub fn serialize_array_like_field_map(
    out: &mut Vec<u8>,
    app_options: &AppOptions,
    values: &[&str],
    join: bool,
) -> (r: Result<(), serde_json::Error>)
    ensures
        r is Ok,
        final(out)@ == old(out)@ + array_like(
            str_views(values@),
            join,
            app_options.json,
            greedy_delimiter_bytes(*app_options),
        ),
{
    let ghost vs = str_views(values@);
    if app_options.json {
        if join {
            let mut joined = String::new();
            let mut i: usize = 0;
            while i < values.len()
                invariant
                    vs == str_views(values@),
                    i <= values@.len(),
                    joined@ == join_seqs(vs.take(i as int), seq![' ']),
                decreases values@.len() - i,
            {
                if i > 0 {
                    push_char(&mut joined, ' ');
                }
                joined.append(values[i]);
                proof {
                    assert(vs.take(i + 1) == vs.take(i as int).push(values@[i as int]@));
                    lemma_join_seqs_push(vs.take(i as int), seq![' '], values@[i as int]@);
                }
                i = i + 1;
            }
            assert(vs.take(values@.len() as int) == vs);
            serialize_json_value(out, joined.as_str())
        } else {
            serialize_json_array(out, values)
        }
    } else {
        let ghost base = out@;
        let ghost gsep = greedy_delimiter_bytes(*app_options);
        let mut i: usize = 0;
        while i < values.len()
            invariant
                vs == str_views(values@),
                i <= values@.len(),
                !app_options.json,
                gsep == greedy_delimiter_bytes(*app_options),
                out@ == base + join_seqs(utf8_bytes(vs.take(i as int)), gsep),
            decreases values@.len() - i,
        {
            if i > 0 {
                append_bytes(out, app_options.output_greedy_delimiter.as_str().as_bytes());
            }
            append_bytes(out, values[i].as_bytes());
            proof {
                assert(utf8_bytes(vs.take(i + 1)) == utf8_bytes(vs.take(i as int)).push(
                    encode_utf8(values@[i as int]@),
                ));
                lemma_join_seqs_push(
                    utf8_bytes(vs.take(i as int)),
                    gsep,
                    encode_utf8(values@[i as int]@),
                );
            }
            i = i + 1;
        }
        assert(vs.take(values@.len() as int) == vs);
        Ok(())
    }
}

impl FieldMap {
    /// The position after this mapping reads its columns from `pos` of `n` fields.
    pub fn consume_fields(&self, n: usize, pos: usize) -> (r: usize)
        requires
            pos <= n,
        ensures
            r == advance(self@, pos as int, n as int),
            pos <= r <= n,
    {
        match self {
            FieldMap::One { .. } => if pos < n {
                pos + 1
            } else {
                pos
            },
            FieldMap::Array { colspan, .. } => if *colspan < n - pos {
                pos + *colspan
            } else {
                n
            },
            FieldMap::Greedy { .. } => n,
        }
    }

    /// Writes this (selected) mapping's output, reading from position `pos` of the record.
    pub fn write_field(
        &self,
        out: &mut Vec<u8>,
        app_options: &AppOptions,
        fields: &[String],
        pos: usize,
    ) -> (r: Result<(), serde_json::Error>)
        requires
            pos <= fields@.len(),
        ensures
            r is Ok,
            final(out)@ == old(out)@ + render_field(
                self@,
                views_of(fields@),
                pos as int,
                app_options.json,
                greedy_delimiter_bytes(*app_options),
            ),
    {
        let ghost fv = views_of(fields@);
        let n = fields.len();
        proof {
            reveal_strlit("");
            assert(""@ =~= Seq::<char>::empty());
        }
        match self {
            FieldMap::One { name } => {
                let value: &str = if pos < n {
                    fields[pos].as_str()
                } else {
                    ""
                };
                assert(value@ == crate::process::value_at(fv, pos as int));
                if app_options.json {
                    serialize_json_field(out, name.as_str(), value)
                } else {
                    append_bytes(out, value.as_bytes());
                    Ok(())
                }
            },
            FieldMap::Array { name, colspan, join } => {
                if app_options.json {
                    serialize_json_value(out, name.as_str())?;
                    out.push(0x3au8);
                }
                let mut values: Vec<&str> = Vec::new();
                let mut j: usize = 0;
                while j < *colspan
                    invariant
                        n == fields@.len(),
                        fv == views_of(fields@),
                        pos <= n,
                        j <= *colspan,
                        values@.len() == j,
                        forall|q: int| 0 <= q < j ==> (#[trigger] values@[q])@ == value_at(fv, pos + q),
                        ""@ == Seq::<char>::empty(),
                    decreases *colspan - j,
                {
                    if j < n - pos {
                        values.push(fields[pos + j].as_str());
                    } else {
                        values.push("");
                    }
                    j = j + 1;
                }
                assert(str_views(values@) =~= mapping_values(self@, fv, pos as int));
                serialize_array_like_field_map(out, app_options, values.as_slice(), *join)
            },
            FieldMap::Greedy { name, join } => {
                if app_options.json {
                    serialize_json_value(out, name.as_str())?;
                    out.push(0x3au8);
                }
                let mut values: Vec<&str> = Vec::new();
                let mut p: usize = pos;
                while p < n
                    invariant
                        n == fields@.len(),
                        fv == views_of(fields@),
                        pos <= p <= n,
                        values@.len() == p - pos,
                        forall|q: int| 0 <= q < p - pos ==> (#[trigger] values@[q])@ == fv[pos + q],
                    decreases n - p,
                {
                    values.push(fields[p].as_str());
                    p = p + 1;
                }
                assert(str_views(values@) =~= mapping_values(self@, fv, pos as int));
                serialize_array_like_field_map(out, app_options, values.as_slice(), *join)
            },
        }
    }
}

/// Turns one record into its output line.
///
/// In strict mode (not `loose`) a record with the wrong number of fields is rejected
/// before anything is written. Otherwise each selected mapping writes its values, reading
/// the record's fields from left to right; fields past the end of the record read as empty.
pub fn process_record(
    fields: &[String],
    settings: &AppOptions,
    mappings: &[(&FieldMap, bool)],
    expected_columns_count: &ExpectedColumnsCount,
) -> (r: Result<Vec<u8>, RecordError>)
    ensures
        !settings.loose && columns_check_model(*expected_columns_count, fields@.len() as usize) is Err
            ==> (r matches Err(RecordError::ColumnsCount(e)) && columns_check_model(
            *expected_columns_count,
            fields@.len() as usize,
        ) == Err::<(), CheckColumnsCountError>(e)),
        settings.loose || columns_check_model(*expected_columns_count, fields@.len() as usize) is Ok
            ==> r is Ok,
        r matches Ok(out) ==> out@ == render_record(
            views_of(fields@),
            selection_views(mappings@),
            settings.json,
            delimiter_bytes(*settings),
            greedy_delimiter_bytes(*settings),
        ),
{
    let ghost fv = views_of(fields@);
    let ghost ms = selection_views(mappings@);
    let ghost json = settings.json;
    let ghost sep = delimiter_bytes(*settings);
    let ghost gsep = greedy_delimiter_bytes(*settings);
    let n = fields.len();
    if !settings.loose {
        match check_columns_count(expected_columns_count, n) {
            Err(e) => {
                return Err(RecordError::ColumnsCount(e));
            },
            Ok(()) => {},
        }
    }
    let mut out: Vec<u8> = Vec::new();
    if settings.json {
        out.push(0x7bu8);
    }
    let ghost open = out@;
    let mut pos: usize = 0;
    let mut is_first = true;
    let mut k: usize = 0;
    while k < mappings.len()
        invariant
            fv == views_of(fields@),
            ms == selection_views(mappings@),
            n == fields@.len(),
            json == settings.json,
            sep == delimiter_bytes(*settings),
            gsep == greedy_delimiter_bytes(*settings),
            k <= mappings@.len(),
            pos <= n,
            settings.loose || columns_check_model(*expected_columns_count, n) is Ok,
            open + render_from(fv, ms, 0, 0, true, json, sep, gsep) == out@ + render_from(
                fv,
                ms,
                k as int,
                pos as int,
                is_first,
                json,
                sep,
                gsep,
            ),
        decreases mappings@.len() - k,
    {
        let (m, selected) = mappings[k];
        assert(ms[k as int] == (m@, selected));
        if selected {
            if !is_first {
                if settings.json {
                    out.push(0x2cu8);
                } else {
                    append_bytes(&mut out, settings.output_delimiter.as_str().as_bytes());
                }
            }
            is_first = false;
            match m.write_field(&mut out, settings, fields, pos) {
                Err(e) => {
                    return Err(RecordError::Json(e));
                },
                Ok(()) => {},
            }
        }
        pos = m.consume_fields(n, pos);
        k = k + 1;
    }
    if settings.json {
        out.push(0x7du8);
    }
    out.push(0x0au8);
    Ok(out)
}

/// What the reading loop does with the record it has just read.
#[derive(Debug, PartialEq, Eq, Structural)]
pub enum RecordAction {
    /// The record is one of the first `skip` lines.
    Skip,
    /// The record is turned into output.
    Process,
    /// `take` lines have been processed: reading ends.
    Stop,
}

/// The number of lines to skip.
pub open spec fn skip_count(skip: Option<usize>) -> int {
    match skip {
        Some(s) => s as int,
        None => 0,
    }
}

/// What happens to a record read at line number `line`.
pub open spec fn record_action_model(line: int, skip: Option<usize>, take: Option<usize>) -> RecordAction {
    let s = skip_count(skip);
    if line < s + 1 {
        RecordAction::Skip
    } else {
        match take {
            Some(t) => if line > s + t {
                RecordAction::Stop
            } else {
                RecordAction::Process
            },
            None => RecordAction::Process,
        }
    }
}

/// The line number of the reading loop: every record read counts as a line, whether it is
/// skipped, written, or fails.
pub struct RecordCounter {
    line_number: usize,
}

impl RecordCounter {
    /// The current line number.
    pub closed spec fn line(&self) -> nat {
        self.line_number as nat
    }

    pub fn new() -> (r: RecordCounter)
        ensures
            r.line() == 1,
    {
        RecordCounter { line_number: 1 }
    }

    /// The current line number.
    pub fn line_number(&self) -> (r: usize)
        ensures
            r == self.line(),
    {
        self.line_number
    }

    /// Decides what happens to the record just read; a skipped record counts as a line.
    pub fn next_action(&mut self, skip: Option<usize>, take: Option<usize>) -> (a: RecordAction)
        requires
            skip_count(skip) < usize::MAX,
            old(self).line() < usize::MAX,
            old(self).line() >= skip_count(skip) + 1 && take is Some ==> skip_count(skip)
                + take.unwrap() <= usize::MAX,
        ensures
            a == record_action_model(old(self).line() as int, skip, take),
            a == RecordAction::Skip ==> final(self).line() == old(self).line() + 1,
            a != RecordAction::Skip ==> final(self).line() == old(self).line(),
    {
        let s: usize = match skip {
            Some(s) => s,
            None => 0,
        };
        if self.line_number < s + 1 {
            self.line_number = self.line_number + 1;
            return RecordAction::Skip;
        }
        match take {
            Some(t) => if self.line_number > s + t {
                RecordAction::Stop
            } else {
                RecordAction::Process
            },
            None => RecordAction::Process,
        }
    }

    /// Counts a processed record as a line, whether it was written or failed.
    pub fn record_done(&mut self)
        requires
            old(self).line() < usize::MAX,
        ensures
            final(self).line() == old(self).line() + 1,
    {
        self.line_number = self.line_number + 1;
    }

    /// One step of the reading loop after a read: the end of input stops reading; a read
    /// error is reported on the current line and stops reading; a record is skipped,
    /// processed or ends the `--take` window, as `next_action` decides.
    pub fn after_read(&mut self, event: ReadEvent, skip: Option<usize>, take: Option<usize>) -> (s:
        LoopStep)
        requires
            event == ReadEvent::Record ==> {
                &&& skip_count(skip) < usize::MAX
                &&& old(self).line() < usize::MAX
                &&& old(self).line() >= skip_count(skip) + 1 && take is Some ==> skip_count(skip)
                    + take.unwrap() <= usize::MAX
            },
        ensures
            s == read_step_model(event, old(self).line() as int, skip, take),
            s == LoopStep::Skip ==> final(self).line() == old(self).line() + 1,
            s != LoopStep::Skip ==> final(self).line() == old(self).line(),
    {
        match event {
            ReadEvent::EndOfInput => LoopStep::Finish,
            ReadEvent::ReadFailed => LoopStep::ReportAndFinish(self.line_number),
            ReadEvent::Record => match self.next_action(skip, take) {
                RecordAction::Skip => LoopStep::Skip,
                RecordAction::Process => LoopStep::Process,
                RecordAction::Stop => LoopStep::Finish,
            },
        }
    }

    /// One step of the reading loop after a processed record: the record counts as a line
    /// whatever its outcome, and a failed record or a failed write is reported on the line
    /// the record was read at (the result); reading goes on in every case.
    pub fn after_record(&mut self, outcome: RecordOutcome) -> (report: Option<usize>)
        requires
            old(self).line() < usize::MAX,
        ensures
            final(self).line() == old(self).line() + 1,
            report == (if outcome == RecordOutcome::Written {
                None::<usize>
            } else {
                Some(old(self).line() as usize)
            }),
    {
        let line = self.line_number;
        self.record_done();
        match outcome {
            RecordOutcome::Written => None,
            _ => Some(line),
        }
    }
}

/// What reading the next record gave.
#[derive(Debug, PartialEq, Eq, Structural)]
pub enum ReadEvent {
    /// A record was read.
    Record,
    /// The input is exhausted.
    EndOfInput,
    /// Reading failed.
    ReadFailed,
}

/// What the reading loop does after a read.
#[derive(Debug, PartialEq, Eq, Structural)]
pub enum LoopStep {
    /// Leave the record out and read the next one.
    Skip,
    /// Turn the record into output.
    Process,
    /// Stop reading.
    Finish,
    /// Report a read error on this line, then stop reading.
    ReportAndFinish(usize),
}

/// How a processed record ended.
#[derive(Debug, PartialEq, Eq, Structural)]
pub enum RecordOutcome {
    /// Its output line was written.
    Written,
    /// `process_record` rejected it.
    RecordFailed,
    /// Writing its output line failed.
    WriteFailed,
}

/// The loop step after a read at line `line`.
pub open spec fn read_step_model(event: ReadEvent, line: int, skip: Option<usize>, take: Option<
    usize,
>) -> LoopStep {
    match event {
        ReadEvent::EndOfInput => LoopStep::Finish,
        ReadEvent::ReadFailed => LoopStep::ReportAndFinish(line as usize),
        ReadEvent::Record => match record_action_model(line, skip, take) {
            RecordAction::Skip => LoopStep::Skip,
            RecordAction::Process => LoopStep::Process,
            RecordAction::Stop => LoopStep::Finish,
        },
    }
}

/// The actions the reading loop takes on a stream of `n` records, the first read at line
/// `line`: every record counts as a line, and reading ends at the first `Stop`.
pub open spec fn run_actions(line: int, skip: Option<usize>, take: Option<usize>, n: nat) -> Seq<
    RecordAction,
>
    decreases n,
{
    if n == 0 {
        Seq::empty()
    } else if record_action_model(line, skip, take) == RecordAction::Stop {
        seq![RecordAction::Stop]
    } else {
        seq![record_action_model(line, skip, take)] + run_actions(line + 1, skip, take, (n - 1) as nat)
    }
}

/// The number of records the reading loop writes, the first read at line `line`;
/// `outcomes[i]` tells whether record `i` is written when it is processed.
pub open spec fn written_count(line: int, skip: Option<usize>, take: Option<usize>, outcomes: Seq<bool>) -> nat
    decreases outcomes.len(),
{
    if outcomes.len() == 0 {
        0
    } else {
        match record_action_model(line, skip, take) {
            RecordAction::Stop => 0,
            RecordAction::Skip => written_count(line + 1, skip, take, outcomes.drop_first()),
            RecordAction::Process => (if outcomes[0] {
                1nat
            } else {
                0nat
            }) + written_count(line + 1, skip, take, outcomes.drop_first()),
        }
    }
}

/// The line at which reading stops, if it can stop at all.
pub open spec fn stop_line(skip: Option<usize>, take: Option<usize>) -> Option<int> {
    match take {
        Some(t) => Some(skip_count(skip) + t + 1),
        None => None,
    }
}

proof fn lemma_run_actions(line: int, skip: Option<usize>, take: Option<usize>, n: nat)
    requires
        line >= 1,
    ensures
        forall|i: int|
            0 <= i < run_actions(line, skip, take, n).len() ==> #[trigger] run_actions(
                line,
                skip,
                take,
                n,
            )[i] == record_action_model(line + i, skip, take),
        run_actions(line, skip, take, n).len() == match stop_line(skip, take) {
            Some(sl) => if line + n <= sl {
                n as int
            } else if line <= sl {
                sl - line + 1
            } else {
                if n > 0 { 1int } else { 0int }
            },
            None => n as int,
        },
    decreases n,
{
    if n > 0 && record_action_model(line, skip, take) != RecordAction::Stop {
        lemma_run_actions(line + 1, skip, take, (n - 1) as nat);
        let rest = run_actions(line + 1, skip, take, (n - 1) as nat);
        assert(run_actions(line, skip, take, n) == seq![record_action_model(line, skip, take)] + rest);
        assert forall|i: int| 0 < i < run_actions(line, skip, take, n).len() implies #[trigger] run_actions(
            line,
            skip,
            take,
            n,
        )[i] == record_action_model(line + i, skip, take) by {
            assert(run_actions(line, skip, take, n)[i] == rest[i - 1]);
        }
    }
}

/// With `--skip s`, the first `s` records are skipped, whatever they hold.
pub proof fn law_skip_skips_first_lines(skip: Option<usize>, take: Option<usize>, n: nat, i: int)
    requires
        0 <= i < n,
        i < skip_count(skip),
    ensures
        i < run_actions(1, skip, take, n).len(),
        run_actions(1, skip, take, n)[i] == RecordAction::Skip,
{
    lemma_run_actions(1, skip, take, n);
}

/// With `--skip s --take t`, the records read are exactly: `s` skipped ones, then up to `t`
/// processed ones in input order (failed records count among them), then a `Stop` if more
/// input follows; nothing after it is read.
pub proof fn law_take_window(skip: Option<usize>, t: usize, n: nat)
    ensures
        run_actions(1, skip, Some(t), n).len() == if n <= skip_count(skip) + t {
            n as int
        } else {
            skip_count(skip) + t + 1
        },
        forall|i: int|
            0 <= i < run_actions(1, skip, Some(t), n).len() ==> (#[trigger] run_actions(
                1,
                skip,
                Some(t),
                n,
            )[i] == if i < skip_count(skip) {
                RecordAction::Skip
            } else if i < skip_count(skip) + t {
                RecordAction::Process
            } else {
                RecordAction::Stop
            }),
{
    lemma_run_actions(1, skip, Some(t), n);
}

/// Without `--take`, every record after the skipped ones is processed: reading never stops
/// early.
pub proof fn law_no_take_processes_every_later_line(skip: Option<usize>, n: nat, i: int)
    requires
        0 <= i < n,
        i >= skip_count(skip),
    ensures
        run_actions(1, skip, None, n).len() == n,
        run_actions(1, skip, None, n)[i] == RecordAction::Process,
{
    lemma_run_actions(1, skip, None, n);
}

proof fn lemma_written_bound(line: int, skip: Option<usize>, t: usize, outcomes: Seq<bool>)
    requires
        line >= 1,
    ensures
        written_count(line, skip, Some(t), outcomes) <= if line > skip_count(skip) + t {
            0
        } else if line <= skip_count(skip) {
            t as int
        } else {
            skip_count(skip) + t + 1 - line
        },
    decreases outcomes.len(),
{
    if outcomes.len() > 0 {
        lemma_written_bound(line + 1, skip, t, outcomes.drop_first());
    }
}

/// With `--take t`, at most `t` records are written, whatever the input and whichever
/// records fail.
pub proof fn law_take_bounds_output(skip: Option<usize>, t: usize, outcomes: Seq<bool>)
    ensures
        written_count(1, skip, Some(t), outcomes) <= t,
{
    lemma_written_bound(1, skip, t, outcomes);
}

/// The number of lines in `[line, line + n)` that lie in `[lo, hi]`.
pub open spec fn lines_in_window(line: int, n: int, lo: int, hi: int) -> int {
    let a = if line > lo { line } else { lo };
    let b = if line + n - 1 < hi { line + n - 1 } else { hi };
    if b >= a { b - a + 1 } else { 0 }
}

proof fn lemma_written_all(line: int, skip: Option<usize>, t: usize, outcomes: Seq<bool>)
    requires
        line >= 1,
        forall|i: int| 0 <= i < outcomes.len() ==> #[trigger] outcomes[i],
    ensures
        written_count(line, skip, Some(t), outcomes) == lines_in_window(
            line,
            outcomes.len() as int,
            skip_count(skip) + 1,
            skip_count(skip) + t,
        ),
    decreases outcomes.len(),
{
    if outcomes.len() > 0 {
        let rest = outcomes.drop_first();
        assert forall|i: int| 0 <= i < rest.len() implies #[trigger] rest[i] by {
            assert(rest[i] == outcomes[i + 1]);
        }
        assert(outcomes[0]);
        lemma_written_all(line + 1, skip, t, rest);
    }
}

/// When every record can be written, `--skip s --take t` writes exactly the records
/// numbered `s + 1` to `s + t` that the input has.
pub proof fn law_take_window_written(skip: Option<usize>, t: usize, outcomes: Seq<bool>)
    requires
        forall|i: int| 0 <= i < outcomes.len() ==> #[trigger] outcomes[i],
    ensures
        written_count(1, skip, Some(t), outcomes) == lines_in_window(
            1,
            outcomes.len() as int,
            skip_count(skip) + 1,
            skip_count(skip) + t,
        ),
{
    lemma_written_all(1, skip, t, outcomes);
}

/// The position in a record of `n` fields after the first `k` mappings have read.
pub open spec fn position_after(ms: Seq<FieldMapView>, k: int, n: int) -> int
    decreases k,
{
    if k <= 0 {
        0
    } else {
        advance(ms[k - 1], position_after(ms, k - 1, n), n)
    }
}

proof fn lemma_positions_fixed(ms: Seq<FieldMapView>, k: int, n: int)
    requires
        0 <= k <= ms.len(),
        forall|j: int| 0 <= j < k ==> !(#[trigger] ms[j] is Greedy),
        fixed_columns(ms) <= n,
    ensures
        position_after(ms, k, n) == fixed_columns(ms.take(k)),
    decreases k,
{
    if k > 0 {
        lemma_positions_fixed(ms, k - 1, n);
        lemma_fixed_columns_monotone(ms, k, ms.len() as int);
        assert(ms.take(ms.len() as int) == ms);
        assert(ms.take(k).drop_last() == ms.take(k - 1));
        assert(ms.take(k).last() == ms[k - 1]);
    }
}

/// In strict mode, a valid mapping and a record that passes the column check fit exactly:
/// each single or multi-column mapping reads only fields that exist (no value is filled in
/// as empty), and the mappings together read every field of the record.
pub proof fn law_strict_record_fits_mapping(ms: Seq<FieldMapView>, n: usize)
    requires
        mapping_failure(ms) is None,
        expected_columns_model(ms) is Ok,
        columns_check_model(expected_columns_model(ms)->Ok_0, n) is Ok,
    ensures
        forall|k: int|
            0 <= k < ms.len() && !(ms[k] is Greedy) ==> position_after(ms, k, n as int)
                + columns_of(#[trigger] ms[k]) <= n,
        position_after(ms, ms.len() as int, n as int) == n,
{
    let len = ms.len() as int;
    assert(ms.take(len) == ms);
    // a greedy mapping can only be the last one
    assert forall|j: int| 0 <= j < len - 1 implies !(#[trigger] ms[j] is Greedy) by {
        lemma_no_failure_from(ms, 0, j);
    }
    assert forall|k: int| 0 <= k < len && !(ms[k] is Greedy) implies position_after(
        ms,
        k,
        n as int,
    ) + columns_of(#[trigger] ms[k]) <= n by {
        lemma_positions_fixed(ms, k, n as int);
        lemma_fixed_columns_monotone(ms, k + 1, len);
        assert(ms.take(k + 1).drop_last() == ms.take(k));
        assert(ms.take(k + 1).last() == ms[k]);
    }
    if ms[len - 1] is Greedy {
        assert(has_greedy(ms));
    } else {
        assert(!has_greedy(ms));
        lemma_positions_fixed(ms, len, n as int);
    }
}

/// What single-column entries write, one item per entry.
spec fn one_items(
    fields: Seq<Seq<char>>,
    ms: Seq<(FieldMapView, bool)>,
    m: int,
    json: bool,
    gsep: Seq<u8>,
) -> Seq<Seq<u8>> {
    Seq::new(m as nat, |i: int| render_field(ms[i].0, fields, i, json, gsep))
}

proof fn lemma_ones_prefix(
    fields: Seq<Seq<char>>,
    ms: Seq<(FieldMapView, bool)>,
    m: int,
    k: int,
    first: bool,
    json: bool,
    sep: Seq<u8>,
    gsep: Seq<u8>,
)
    requires
        0 <= k <= m <= ms.len(),
        m <= fields.len(),
        forall|i: int| 0 <= i < m ==> (#[trigger] ms[i]).0 is One && ms[i].1,
    ensures
        render_from(fields, ms, k, k, first, json, sep, gsep) == if k == m {
            render_from(fields, ms, m, m, first, json, sep, gsep)
        } else {
            (if first {
                Seq::<u8>::empty()
            } else if json {
                seq![0x2cu8]
            } else {
                sep
            }) + join_seqs(
                one_items(fields, ms, m, json, gsep).subrange(k, m),
                if json {
                    seq![0x2cu8]
                } else {
                    sep
                },
            ) + render_from(fields, ms, m, m, false, json, sep, gsep)
        },
    decreases m - k,
{
    if k < m {
        let e = one_items(fields, ms, m, json, gsep);
        let s = if json {
            seq![0x2cu8]
        } else {
            sep
        };
        assert(ms[k].0 is One && ms[k].1);
        assert(advance(ms[k].0, k, fields.len() as int) == k + 1);
        assert(e[k] == render_field(ms[k].0, fields, k, json, gsep));
        lemma_ones_prefix(fields, ms, m, k + 1, false, json, sep, gsep);
        lemma_join_front(e[k], e.subrange(k + 1, m), s);
        assert(e.subrange(k, m) =~= seq![e[k]] + e.subrange(k + 1, m));
        if k + 1 == m {
            assert(e.subrange(k + 1, m).len() == 0);
        }
    }
}

/// Outside JSON, a record whose every column is mapped by a single-column entry and
/// selected is written as its fields, each in UTF-8, with exactly the bytes of the
/// `--output-delimiter` setting between two neighbours, then a newline.
pub proof fn law_plain_line_joins_fields_by_output_delimiter(
    fields: Seq<Seq<char>>,
    ms: Seq<(FieldMapView, bool)>,
    o: AppOptions,
    gsep: Seq<u8>,
)
    requires
        ms.len() == fields.len(),
        forall|i: int| 0 <= i < ms.len() ==> (#[trigger] ms[i]).0 is One && ms[i].1,
    ensures
        render_record(fields, ms, false, delimiter_bytes(o), gsep) == join_seqs(
            fields.map_values(|f: Seq<char>| encode_utf8(f)),
            encode_utf8(o.output_delimiter@),
        ) + seq![0x0au8],
{
    let sep = delimiter_bytes(o);
    let n = ms.len() as int;
    let e = fields.map_values(|f: Seq<char>| encode_utf8(f));
    lemma_ones_prefix(fields, ms, n, 0, true, false, sep, gsep);
    assert(one_items(fields, ms, n, false, gsep).subrange(0, n) =~= e);
}

/// In JSON, a record whose every column is mapped by a single-column entry and selected is
/// written as one object: the members `"name":"value"` in mapping order, separated by `,`
/// between `{` and `}`, then a newline.
pub proof fn law_json_line_is_object_of_members(
    fields: Seq<Seq<char>>,
    ms: Seq<(FieldMapView, bool)>,
    sep: Seq<u8>,
    gsep: Seq<u8>,
)
    requires
        ms.len() == fields.len(),
        forall|i: int| 0 <= i < ms.len() ==> (#[trigger] ms[i]).0 is One && ms[i].1,
    ensures
        render_record(fields, ms, true, sep, gsep) == seq![0x7bu8] + join_seqs(
            Seq::new(ms.len(), |i: int| json_member(ms[i].0.name(), fields[i])),
            seq![0x2cu8],
        ) + seq![0x7du8, 0x0au8],
{
    let n = ms.len() as int;
    lemma_ones_prefix(fields, ms, n, 0, true, true, sep, gsep);
    assert(one_items(fields, ms, n, true, gsep).subrange(0, n) =~= Seq::new(
        ms.len(),
        |i: int| json_member(ms[i].0.name(), fields[i]),
    ));
    assert(seq![0x7du8] + seq![0x0au8] =~= seq![0x7du8, 0x0au8]);
}

/// Outside JSON, when single-column entries are followed by a greedy one and all are
/// selected, the line is the single columns joined by the `--output-delimiter` bytes, then
/// (after one more output delimiter, if there were single columns) all the remaining
/// fields joined by the `--output-greedy-delimiter` bytes, then a newline.
pub proof fn law_plain_greedy_tail_uses_greedy_delimiter(
    fields: Seq<Seq<char>>,
    ms: Seq<(FieldMapView, bool)>,
    o: AppOptions,
)
    requires
        ms.len() >= 1,
        fields.len() >= ms.len() - 1,
        forall|i: int| 0 <= i < ms.len() - 1 ==> (#[trigger] ms[i]).0 is One && ms[i].1,
        ms[ms.len() - 1].0 is Greedy,
        ms[ms.len() - 1].1,
    ensures
        ({
            let e = fields.map_values(|f: Seq<char>| encode_utf8(f));
            let k = ms.len() - 1;
            render_record(fields, ms, false, delimiter_bytes(o), greedy_delimiter_bytes(o)) == (if k
                == 0 {
                Seq::<u8>::empty()
            } else {
                join_seqs(e.subrange(0, k), encode_utf8(o.output_delimiter@)) + encode_utf8(
                    o.output_delimiter@,
                )
            }) + join_seqs(e.subrange(k, fields.len() as int), encode_utf8(o.output_greedy_delimiter@))
                + seq![0x0au8]
        }),
{
    let sep = delimiter_bytes(o);
    let gsep = greedy_delimiter_bytes(o);
    let e = fields.map_values(|f: Seq<char>| encode_utf8(f));
    let k = ms.len() - 1;
    let n = fields.len() as int;
    lemma_ones_prefix(fields, ms, k, 0, true, false, sep, gsep);
    assert(one_items(fields, ms, k, false, gsep).subrange(0, k) =~= e.subrange(0, k));
    let g = ms[k].0;
    assert(mapping_values(g, fields, k) == fields.subrange(k, n));
    assert(utf8_bytes(fields.subrange(k, n)) =~= e.subrange(k, n));
    let tail = render_from(fields, ms, k + 1, advance(g, k, n), false, false, sep, gsep);
    assert(tail == Seq::<u8>::empty());
    let tail0 = render_from(fields, ms, k + 1, advance(g, k, n), true, false, sep, gsep);
    assert(tail0 == Seq::<u8>::empty());
    assert(render_field(g, fields, k, false, gsep) == join_seqs(e.subrange(k, n), gsep));
    if k == 0 {
        assert(Seq::<u8>::empty() + join_seqs(e.subrange(k, n), gsep) + Seq::<u8>::empty()
            =~= join_seqs(e.subrange(k, n), gsep));
    }
}

/// The positions `k..n` in order.
spec fn positions_from(k: int, n: int) -> Seq<int> {
    Seq::new((n - k) as nat, |i: int| k + i)
}

proof fn lemma_selected_ones_from(
    fields: Seq<Seq<char>>,
    ms: Seq<(FieldMapView, bool)>,
    k: int,
    first: bool,
    sep: Seq<u8>,
    gsep: Seq<u8>,
)
    requires
        ms.len() == fields.len(),
        forall|i: int| 0 <= i < ms.len() ==> (#[trigger] ms[i]).0 is One,
        0 <= k <= ms.len(),
    ensures
        ({
            let w = positions_from(k, ms.len() as int).filter(|i: int| ms[i].1).map_values(
                |i: int| encode_utf8(fields[i]),
            );
            render_from(fields, ms, k, k, first, false, sep, gsep) == if w.len() == 0 {
                Seq::<u8>::empty()
            } else {
                (if first {
                    Seq::<u8>::empty()
                } else {
                    sep
                }) + join_seqs(w, sep)
            }
        }),
    decreases ms.len() - k,
{
    let n = ms.len() as int;
    let p = |i: int| ms[i].1;
    let f = |i: int| encode_utf8(fields[i]);
    if k == n {
        assert(positions_from(k, n) =~= Seq::<int>::empty());
        reveal(Seq::filter);
        assert(positions_from(k, n).filter(p) =~= Seq::<int>::empty());
    } else {
        assert(positions_from(k, n) =~= seq![k] + positions_from(k + 1, n));
        positions_from(k + 1, n).lemma_filter_prepend(k, p);
        let rest = positions_from(k + 1, n).filter(p);
        let w1 = rest.map_values(f);
        assert(ms[k].0 is One);
        assert(advance(ms[k].0, k, fields.len() as int) == k + 1);
        if ms[k].1 {
            lemma_selected_ones_from(fields, ms, k + 1, false, sep, gsep);
            assert((seq![k] + rest).map_values(f) =~= seq![f(k)] + w1);
            lemma_join_front(f(k), w1, sep);
            assert(render_field(ms[k].0, fields, k, false, gsep) == f(k));
        } else {
            lemma_selected_ones_from(fields, ms, k + 1, first, sep, gsep);
            assert(Seq::<int>::empty() + rest =~= rest);
        }
    }
}

/// Outside JSON, with single-column entries only, a record is written as the fields of the
/// selected entries, in mapping order, each in UTF-8, with exactly the `--output-delimiter`
/// bytes between two neighbours and nothing for the entries left out, then a newline.
pub proof fn law_plain_line_writes_selected_fields(
    fields: Seq<Seq<char>>,
    ms: Seq<(FieldMapView, bool)>,
    o: AppOptions,
    gsep: Seq<u8>,
)
    requires
        ms.len() == fields.len(),
        forall|i: int| 0 <= i < ms.len() ==> (#[trigger] ms[i]).0 is One,
    ensures
        render_record(fields, ms, false, delimiter_bytes(o), gsep) == join_seqs(
            Seq::new(ms.len(), |i: int| i).filter(|i: int| ms[i].1).map_values(
                |i: int| encode_utf8(fields[i]),
            ),
            encode_utf8(o.output_delimiter@),
        ) + seq![0x0au8],
{
    lemma_selected_ones_from(fields, ms, 0, true, delimiter_bytes(o), gsep);
    assert(positions_from(0, ms.len() as int) =~= Seq::new(ms.len(), |i: int| i));
}

/// The columns the non-greedy mappings read add up over a split of the mapping, and a
/// single entry reads one column, `colspan` columns, or (greedy) none counted in advance.
pub proof fn law_fixed_columns_add_up(a: Seq<FieldMapView>, b: Seq<FieldMapView>, m: FieldMapView)
    ensures
        fixed_columns(a + b) == fixed_columns(a) + fixed_columns(b),
        fixed_columns(seq![m]) == match m {
            FieldMapView::One { .. } => 1nat,
            FieldMapView::Array { colspan, .. } => colspan as nat,
            FieldMapView::Greedy { .. } => 0nat,
        },
    decreases b.len(),
{
    assert(seq![m].drop_last() =~= Seq::<FieldMapView>::empty());
    assert(seq![m].last() == m);
    assert(fixed_columns(Seq::<FieldMapView>::empty()) == 0);
    assert(fixed_columns(seq![m]) == fixed_columns(Seq::<FieldMapView>::empty()) + columns_of(m));
    if b.len() == 0 {
        assert(a + b =~= a);
    } else {
        law_fixed_columns_add_up(a, b.drop_last(), m);
        assert((a + b).drop_last() =~= a + b.drop_last());
        assert((a + b).last() == b.last());
    }
}

/// Outside JSON, when single-column entries are followed by one multi-column entry of
/// `c` columns (not joined) and all are selected, a record of exactly those columns is
/// written as the single columns joined by the `--output-delimiter` bytes, then (after one
/// more output delimiter, if there were single columns) the last `c` fields joined by the
/// `--output-greedy-delimiter` bytes, then a newline.
pub proof fn law_plain_array_tail_uses_greedy_delimiter(
    fields: Seq<Seq<char>>,
    ms: Seq<(FieldMapView, bool)>,
    o: AppOptions,
)
    requires
        ms.len() >= 1,
        forall|i: int| 0 <= i < ms.len() - 1 ==> (#[trigger] ms[i]).0 is One && ms[i].1,
        ms[ms.len() - 1].0 is Array,
        !ms[ms.len() - 1].0->Array_join,
        ms[ms.len() - 1].1,
        fields.len() == ms.len() - 1 + ms[ms.len() - 1].0->Array_colspan,
    ensures
        ({
            let e = fields.map_values(|f: Seq<char>| encode_utf8(f));
            let k = ms.len() - 1;
            render_record(fields, ms, false, delimiter_bytes(o), greedy_delimiter_bytes(o)) == (if k
                == 0 {
                Seq::<u8>::empty()
            } else {
                join_seqs(e.subrange(0, k), encode_utf8(o.output_delimiter@)) + encode_utf8(
                    o.output_delimiter@,
                )
            }) + join_seqs(e.subrange(k, fields.len() as int), encode_utf8(o.output_greedy_delimiter@))
                + seq![0x0au8]
        }),
{
    let sep = delimiter_bytes(o);
    let gsep = greedy_delimiter_bytes(o);
    let e = fields.map_values(|f: Seq<char>| encode_utf8(f));
    let k = ms.len() - 1;
    let n = fields.len() as int;
    lemma_ones_prefix(fields, ms, k, 0, true, false, sep, gsep);
    assert(one_items(fields, ms, k, false, gsep).subrange(0, k) =~= e.subrange(0, k));
    let a = ms[k].0;
    assert(mapping_values(a, fields, k) =~= fields.subrange(k, n));
    assert(utf8_bytes(fields.subrange(k, n)) =~= e.subrange(k, n));
    assert(render_field(a, fields, k, false, gsep) == join_seqs(e.subrange(k, n), gsep));
    assert(render_from(fields, ms, k + 1, advance(a, k, n), false, false, sep, gsep)
        == Seq::<u8>::empty());
    assert(render_from(fields, ms, k + 1, advance(a, k, n), true, false, sep, gsep)
        == Seq::<u8>::empty());
    if k == 0 {
        assert(Seq::<u8>::empty() + join_seqs(e.subrange(k, n), gsep) + Seq::<u8>::empty()
            =~= join_seqs(e.subrange(k, n), gsep));
    }
}

/// In JSON, when single-column entries are followed by a greedy entry and all are
/// selected, the object holds the single columns' members, then the greedy entry's name
/// with the remaining fields: one string of them joined by spaces (`gj`) or an array of
/// them (`g`).
pub proof fn law_json_greedy_tail(fields: Seq<Seq<char>>, ms: Seq<(FieldMapView, bool)>, sep: Seq<u8>, gsep: Seq<u8>)
    requires
        ms.len() >= 1,
        fields.len() >= ms.len() - 1,
        forall|i: int| 0 <= i < ms.len() - 1 ==> (#[trigger] ms[i]).0 is One && ms[i].1,
        ms[ms.len() - 1].0 is Greedy,
        ms[ms.len() - 1].1,
    ensures
        ({
            let k = ms.len() - 1;
            let g = ms[k].0;
            let rest = fields.subrange(k, fields.len() as int);
            let members = Seq::new(k as nat, |i: int| json_member(ms[i].0.name(), fields[i]));
            render_record(fields, ms, true, sep, gsep) == seq![0x7bu8] + (if k == 0 {
                Seq::<u8>::empty()
            } else {
                join_seqs(members, seq![0x2cu8]) + seq![0x2cu8]
            }) + json_string(g.name()) + seq![0x3au8] + (if g->Greedy_join {
                json_string(join_seqs(rest, seq![' ']))
            } else {
                json_array(rest)
            }) + seq![0x7du8, 0x0au8]
        }),
{
    let k = ms.len() - 1;
    let n = fields.len() as int;
    let g = ms[k].0;
    lemma_ones_prefix(fields, ms, k, 0, true, true, sep, gsep);
    assert(one_items(fields, ms, k, true, gsep).subrange(0, k) =~= Seq::new(
        k as nat,
        |i: int| json_member(ms[i].0.name(), fields[i]),
    ));
    assert(mapping_values(g, fields, k) == fields.subrange(k, n));
    assert(render_from(fields, ms, k + 1, advance(g, k, n), false, true, sep, gsep)
        == Seq::<u8>::empty());
    assert(render_from(fields, ms, k + 1, advance(g, k, n), true, true, sep, gsep)
        == Seq::<u8>::empty());
    let v = if g->Greedy_join {
        json_string(join_seqs(fields.subrange(k, n), seq![' ']))
    } else {
        json_array(fields.subrange(k, n))
    };
    assert(render_field(g, fields, k, true, gsep) == json_string(g.name()) + seq![0x3au8] + v);
    assert(seq![0x7du8] + seq![0x0au8] =~= seq![0x7du8, 0x0au8]);
    if k == 0 {
        assert(seq![0x7bu8] + Seq::<u8>::empty() + json_string(g.name()) + seq![0x3au8] + v
            =~= seq![0x7bu8] + (json_string(g.name()) + seq![0x3au8] + v));
    } else {
        let j = join_seqs(Seq::new(k as nat, |i: int| json_member(ms[i].0.name(), fields[i])), seq![0x2cu8]);
        assert(seq![0x7bu8] + (j + seq![0x2cu8] + (json_string(g.name()) + seq![0x3au8] + v))
            =~= seq![0x7bu8] + (j + seq![0x2cu8]) + json_string(g.name()) + seq![0x3au8] + v);
    }
}

/// Once the mapping is valid and its counts fit in `usize`, a record of `n` fields passes
/// the strict column check exactly when `n` equals the columns the non-greedy entries read,
/// or, when some entry is greedy, is at least that many.
pub proof fn law_column_check(ms: Seq<FieldMapView>, n: usize)
    requires
        fixed_columns(ms) <= usize::MAX,
    ensures
        expected_columns_model(ms) is Ok,
        columns_check_model(expected_columns_model(ms)->Ok_0, n) is Ok <==> if exists|i: int|
            0 <= i < ms.len() && #[trigger] ms[i] is Greedy {
            fixed_columns(ms) <= n
        } else {
            fixed_columns(ms) == n
        },
{
}

} // verus!
