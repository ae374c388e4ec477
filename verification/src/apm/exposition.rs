//! Reading an exposition: from its lines to what each one sets.

use vstd::prelude::*;

use crate::apm::number::{is_number, number_text};
use crate::apm::schema::{identifier, is_identifier, Schema};
use crate::text::{
    begins_with, chars_of, cut_prefix, debug_quoted, debug_text, decimal, find_char, find_last_space,
    first_at, is_space, last_space, list_holds, pieces, push_decimal, same_text,
    split_at_each, starts_with_text, string_of, texts, trim_back, trim_text, trimmed, trimmed_back,
};

verus! {

/// Most endpoints taken from one exposition. The server's endpoints are a
/// closed set; this bounds one that misbehaves.
pub const MAX_ENDPOINTS: usize = 32;

/// Longest endpoint that is not configured.
pub const MAX_LABEL_LEN: usize = 40;

/// White space between labels.
pub open spec fn separates(c: char) -> bool {
    c == ',' || c == ' ' || c == '\t' || c == '\n' || c == '\u{c}' || c == '\r'
}

/// The bytes that a character has in UTF-8, each as the character of that
/// number.
pub open spec fn bytewise(c: char) -> Seq<char> {
    let n = c as nat;
    if n < 0x80 {
        seq![c]
    } else if n < 0x800 {
        seq![(0xc0 + n / 64) as char, (0x80 + n % 64) as char]
    } else if n < 0x10000 {
        seq![
            (0xe0 + n / 4096) as char,
            (0x80 + (n / 64) % 64) as char,
            (0x80 + n % 64) as char,
        ]
    } else {
        seq![
            (0xf0 + n / 262144) as char,
            (0x80 + (n / 4096) % 64) as char,
            (0x80 + (n / 64) % 64) as char,
            (0x80 + n % 64) as char,
        ]
    }
}

fn push_bytewise(out: &mut String, c: char)
    ensures
        final(out)@ == old(out)@ + bytewise(c),
{
    let n: u32 = c as u32;
    if n < 0x80 {
        out.push(c);
    } else if n < 0x800 {
        out.push((0xc0 + n / 64) as u8 as char);
        out.push((0x80 + n % 64) as u8 as char);
    } else if n < 0x10000 {
        out.push((0xe0 + n / 4096) as u8 as char);
        out.push((0x80 + (n / 64) % 64) as u8 as char);
        out.push((0x80 + n % 64) as u8 as char);
    } else {
        out.push((0xf0 + n / 262144) as u8 as char);
        out.push((0x80 + (n / 4096) % 64) as u8 as char);
        out.push((0x80 + (n / 64) % 64) as u8 as char);
        out.push((0x80 + n % 64) as u8 as char);
    }
    assert(out@ =~= old(out)@ + bytewise(c));
}

/// What a character behind a backslash stands for.
pub open spec fn unescaped(c: char) -> Seq<char> {
    if c == 'n' {
        seq!['\n']
    } else {
        bytewise(c)
    }
}

/// A quoted value from a place behind its opening quote: the value, and the
/// place behind its closing quote.
pub open spec fn quoted(text: Seq<char>, at: int) -> Result<(Seq<char>, int), Seq<char>>
    decreases text.len() - at,
{
    if at < 0 || at >= text.len() {
        Err("unterminated quoted label value"@)
    } else if text[at] == '"' {
        Ok((Seq::empty(), at + 1))
    } else if text[at] == '\\' {
        if at + 1 >= text.len() {
            Err("unterminated label escape"@)
        } else {
            match quoted(text, at + 2) {
                Ok((rest, end)) => Ok((unescaped(text[at + 1]) + rest, end)),
                Err(error) => Err(error),
            }
        }
    } else {
        match quoted(text, at + 1) {
            Ok((rest, end)) => Ok((bytewise(text[at]) + rest, end)),
            Err(error) => Err(error),
        }
    }
}

proof fn lemma_quoted(text: Seq<char>, at: int)
    ensures
        quoted(text, at) matches Ok((_, end)) ==> at < end <= text.len(),
    decreases text.len() - at,
{
    if 0 <= at < text.len() && text[at] != '"' {
        if text[at] != '\\' {
            lemma_quoted(text, at + 1);
        } else if at + 1 < text.len() {
            lemma_quoted(text, at + 2);
        }
    }
}

/// Place behind the separators that stand from a place on.
pub open spec fn separators_end(text: Seq<char>, at: int) -> int
    decreases text.len() - at,
{
    if 0 <= at < text.len() && separates(text[at]) {
        separators_end(text, at + 1)
    } else {
        at
    }
}

/// Labels from a place on: separators, then a name, an equals sign and a
/// quoted value, and so on to the end.
pub open spec fn labels_from(text: Seq<char>, at: int) -> Result<
    Seq<(Seq<char>, Seq<char>)>,
    Seq<char>,
>
    decreases text.len() - at,
{
    let start = separators_end(text, at);
    if start >= text.len() {
        Ok(Seq::empty())
    } else {
        match first_at(text, '=', start) {
            None => Err("label missing '='"@),
            Some(equals) => if equals + 1 >= text.len() || text[equals + 1] != '"' {
                Err("label value must be quoted"@)
            } else {
                match quoted(text, equals + 2) {
                    Err(error) => Err(error),
                    Ok((value, end)) => if end <= at || end > text.len() {
                        Ok(Seq::empty())
                    } else {
                        match labels_from(text, end) {
                            Err(error) => Err(error),
                            Ok(rest) => Ok(
                                seq![(trimmed(text.subrange(start, equals)), value)] + rest,
                            ),
                        }
                    },
                }
            },
        }
    }
}

/// Labels as values.
pub open spec fn label_views(labels: Seq<(String, String)>) -> Seq<(Seq<char>, Seq<char>)> {
    labels.map_values(|label: (String, String)| (label.0@, label.1@))
}

fn skip_separators(text: &Vec<char>, from: usize) -> (end: usize)
    requires
        from <= text.len(),
    ensures
        from <= end <= text.len(),
        end == separators_end(text@, from as int),
{
    let mut i: usize = from;
    while i < text.len() && (text[i] == ',' || text[i] == ' ' || text[i] == '\t' || text[i] == '\n'
        || text[i] == '\u{c}' || text[i] == '\r')
        invariant
            from <= i <= text.len(),
            separators_end(text@, from as int) == separators_end(text@, i as int),
        decreases text.len() - i,
    {
        i = i + 1;
    }
    i
}

fn read_quoted(text: &Vec<char>, from: usize) -> (read: Result<(String, usize), String>)
    ensures
        match read {
            Ok((value, end)) => quoted(text@, from as int) == Ok::<
                (Seq<char>, int),
                Seq<char>,
            >((value@, end as int)) && from < end <= text@.len(),
            Err(error) => quoted(text@, from as int) == Err::<(Seq<char>, int), Seq<char>>(error@),
        },
{
    let mut value = String::new();
    let mut i: usize = from;
    proof {
        lemma_quoted(text@, from as int);
        assert(value@ =~= Seq::<char>::empty());
        if quoted(text@, from as int) is Ok {
            let rest = (quoted(text@, from as int)->Ok_0).0;
            assert(value@ + rest =~= rest);
        }
    }
    while i < text.len()
        invariant
            from <= i,
            quoted(text@, from as int) matches Ok((all, end)) ==> from < end <= text@.len()
                && quoted(text@, i as int) is Ok && (quoted(text@, i as int)->Ok_0).1 == end
                && value@ + (quoted(text@, i as int)->Ok_0).0 == all,
            quoted(text@, from as int) is Err ==> quoted(text@, i as int) == quoted(
                text@,
                from as int,
            ),
        decreases text.len() - i,
    {
        let c: char = text[i];
        if c == '"' {
            assert(value@ + Seq::<char>::empty() =~= value@);
            return Ok((value, i + 1));
        }
        let ghost before = value@;
        if c == '\\' {
            if i + 1 >= text.len() {
                return Err(String::from_str("unterminated label escape"));
            }
            let escaped: char = text[i + 1];
            if escaped == 'n' {
                value.push('\n');
                assert(value@ =~= before + unescaped(escaped));
            } else {
                push_bytewise(&mut value, escaped);
            }
            proof {
                if quoted(text@, i + 2) is Ok {
                    let rest = (quoted(text@, i + 2)->Ok_0).0;
                    assert(value@ + rest =~= before + (unescaped(escaped) + rest));
                }
            }
            i = i + 2;
        } else {
            push_bytewise(&mut value, c);
            proof {
                if quoted(text@, i + 1) is Ok {
                    let rest = (quoted(text@, i + 1)->Ok_0).0;
                    assert(value@ + rest =~= before + (bytewise(c) + rest));
                }
            }
            i = i + 1;
        }
    }
    Err(String::from_str("unterminated quoted label value"))
}

/// Reads the labels between the braces of a sample.
pub fn parse_labels(input: &str) -> (labels: Result<Vec<(String, String)>, String>)
    ensures
        match labels {
            Ok(labels) => labels_from(input@, 0) == Ok::<
                Seq<(Seq<char>, Seq<char>)>,
                Seq<char>,
            >(label_views(labels@)),
            Err(error) => labels_from(input@, 0) == Err::<
                Seq<(Seq<char>, Seq<char>)>,
                Seq<char>,
            >(error@),
        },
{
    let text = chars_of(input);
    let mut labels: Vec<(String, String)> = Vec::new();
    let mut at: usize = 0;
    proof {
        assert(label_views(labels@) =~= Seq::empty());
        if labels_from(input@, 0) is Ok {
            let all = labels_from(input@, 0)->Ok_0;
            assert(label_views(labels@) + all =~= all);
        }
    }
    loop
        invariant
            at <= text.len(),
            text@ == input@,
            labels_from(input@, 0) matches Ok(all) ==> labels_from(input@, at as int) is Ok
                && label_views(labels@) + labels_from(input@, at as int)->Ok_0 == all,
            labels_from(input@, 0) is Err ==> labels_from(input@, at as int) == labels_from(
                input@,
                0,
            ),
        decreases text.len() - at,
    {
        let start: usize = skip_separators(&text, at);
        if start == text.len() {
            assert(label_views(labels@) + Seq::<(Seq<char>, Seq<char>)>::empty() =~= label_views(
                labels@,
            ));
            return Ok(labels);
        }
        let equals: usize = match find_char(&text, '=', start) {
            Some(equals) => equals,
            None => {
                return Err(String::from_str("label missing '='"));
            },
        };
        if equals + 1 >= text.len() || text[equals + 1] != '"' {
            return Err(String::from_str("label value must be quoted"));
        }
        let (value, end) = match read_quoted(&text, equals + 2) {
            Ok(read) => read,
            Err(error) => {
                return Err(error);
            },
        };
        let key_text = string_of(vstd::slice::slice_subrange(text.as_slice(), start, equals));
        let key = trim_text(key_text.as_str());
        let ghost before = label_views(labels@);
        let ghost pair = (key@, value@);
        labels.push((key, value));
        proof {
            assert(label_views(labels@) =~= before.push(pair));
            if labels_from(input@, end as int) is Ok {
                let rest = labels_from(input@, end as int)->Ok_0;
                assert(before.push(pair) + rest =~= before + (seq![pair] + rest));
            }
        }
        at = end;
    }
}

/// A sample: the name of a metric, its labels, and the text of its number.
#[derive(Debug)]
pub struct ParsedSample {
    pub name: String,
    pub labels: Vec<(String, String)>,
    pub value: String,
}

/// A sample as a value.
pub type SampleView = (Seq<char>, Seq<(Seq<char>, Seq<char>)>, Seq<char>);

impl ParsedSample {
    pub open spec fn seen(&self) -> SampleView {
        (self.name@, label_views(self.labels@), self.value@)
    }
}

/// What a line holds: a descriptor and, behind the last white space, a number.
pub open spec fn line_sample(line: Seq<char>) -> Result<SampleView, Seq<char>> {
    match last_space(line, line.len() as int) {
        None => Err("missing metric value"@),
        Some(split) => {
            let descriptor = trimmed_back(line.take(split));
            let value = trimmed(line.skip(split));
            if !is_number(value) {
                Err("invalid metric value "@ + debug_text(value))
            } else {
                described(descriptor, value)
            }
        },
    }
}

/// What a descriptor says: a name, or a name with labels in braces.
pub open spec fn described(descriptor: Seq<char>, value: Seq<char>) -> Result<
    SampleView,
    Seq<char>,
> {
    match first_at(descriptor, '{', 0) {
        Some(open) => if descriptor.last() != '}' {
            Err("unterminated label set"@)
        } else {
            match labels_from(descriptor.subrange(open + 1, descriptor.len() - 1), 0) {
                Err(error) => Err(error),
                Ok(labels) => if open == 0 {
                    Err("empty metric name"@)
                } else {
                    Ok((descriptor.take(open), labels, value))
                },
            }
        },
        None => if descriptor.len() == 0 {
            Err("empty metric name"@)
        } else {
            Ok((descriptor, Seq::empty(), value))
        },
    }
}

/// Reads one sample line.
pub fn parse_line(line: &str) -> (sample: Result<ParsedSample, String>)
    ensures
        match sample {
            Ok(sample) => line_sample(line@) == Ok::<SampleView, Seq<char>>(sample.seen()),
            Err(error) => line_sample(line@) == Err::<SampleView, Seq<char>>(error@),
        },
{
    let text = chars_of(line);
    let split: usize = match find_last_space(&text) {
        Some(split) => split,
        None => {
            return Err(String::from_str("missing metric value"));
        },
    };
    let head = string_of(vstd::slice::slice_subrange(text.as_slice(), 0, split));
    let tail = string_of(vstd::slice::slice_subrange(text.as_slice(), split, text.len()));
    assert(head@ =~= line@.take(split as int));
    assert(tail@ =~= line@.skip(split as int));
    let descriptor = trim_back(head.as_str());
    let value = trim_text(tail.as_str());
    if !number_text(value.as_str()) {
        let mut error = String::from_str("invalid metric value ");
        error.append(debug_quoted(value.as_str()).as_str());
        return Err(error);
    }
    let chars = chars_of(descriptor.as_str());
    match find_char(&chars, '{', 0) {
        Some(open) => {
            if chars[chars.len() - 1] != '}' {
                return Err(String::from_str("unterminated label set"));
            }
            assert(open < chars.len() - 1);
            let inner = string_of(
                vstd::slice::slice_subrange(chars.as_slice(), open + 1, chars.len() - 1),
            );
            let labels = match parse_labels(inner.as_str()) {
                Ok(labels) => labels,
                Err(error) => {
                    return Err(error);
                },
            };
            if open == 0 {
                return Err(String::from_str("empty metric name"));
            }
            let name = string_of(vstd::slice::slice_subrange(chars.as_slice(), 0, open));
            assert(name@ =~= descriptor@.take(open as int));
            Ok(ParsedSample { name, labels, value })
        },
        None => {
            if chars.len() == 0 {
                return Err(String::from_str("empty metric name"));
            }
            let sample = ParsedSample { name: descriptor, labels: Vec::new(), value };
            assert(label_views(sample.labels@) =~= Seq::empty());
            Ok(sample)
        },
    }
}

/// The value of a label; the last one where it stands twice.
pub open spec fn label_value(labels: Seq<(Seq<char>, Seq<char>)>, key: Seq<char>) -> Option<
    Seq<char>,
>
    decreases labels.len(),
{
    if labels.len() == 0 {
        None
    } else if labels.last().0 == key {
        Some(labels.last().1)
    } else {
        label_value(labels.drop_last(), key)
    }
}

/// The value of a label, if it is there.
pub fn find_label(labels: &Vec<(String, String)>, key: &str) -> (value: Option<String>)
    ensures
        match value {
            Some(value) => label_value(label_views(labels@), key@) == Some(value@),
            None => label_value(label_views(labels@), key@) is None,
        },
{
    let ghost all = label_views(labels@);
    let mut n: usize = labels.len();
    assert(all.take(n as int) =~= all);
    while n > 0
        invariant
            n <= labels.len(),
            all == label_views(labels@),
            label_value(all, key@) == label_value(all.take(n as int), key@),
        decreases n,
    {
        assert(all.take(n as int).drop_last() =~= all.take(n - 1));
        assert(all.take(n as int).last() == (labels@[n - 1].0@, labels@[n - 1].1@));
        if same_text(labels[n - 1].0.as_str(), key) {
            return Some(labels[n - 1].1.clone());
        }
        n = n - 1;
    }
    None
}

/// What a family tells.
#[derive(Clone, Copy, Debug, PartialEq, Eq, Structural)]
pub enum Family {
    Requests,
    ObservedBucket,
    ObservedSum,
    ObservedCount,
    ProcessingBucket,
    ProcessingSum,
    ProcessingCount,
    InFlight,
    ProcessingInFlight,
    ResidentMemory,
    StartTime,
    SnapshotGauge,
    WorkerGroup,
    WorkerTable,
    Table,
    Worker,
    Layout,
    Other,
}

/// The family of a metric, by its name.
pub open spec fn family_of(schema: Schema, name: Seq<char>) -> Family {
    if name == schema.requests_total@ {
        Family::Requests
    } else if name == schema.duration_bucket@ {
        Family::ObservedBucket
    } else if name == schema.duration_sum@ {
        Family::ObservedSum
    } else if name == schema.duration_count@ {
        Family::ObservedCount
    } else if name == schema.processing_bucket@ {
        Family::ProcessingBucket
    } else if name == schema.processing_sum@ {
        Family::ProcessingSum
    } else if name == schema.processing_count@ {
        Family::ProcessingCount
    } else if name == schema.in_flight@ {
        Family::InFlight
    } else if name == schema.processing_in_flight@ {
        Family::ProcessingInFlight
    } else if name == "process_resident_memory_bytes"@ {
        Family::ResidentMemory
    } else if name == "process_start_time_seconds"@ {
        Family::StartTime
    } else if begins_with(name, schema.gauge_prefix@) {
        Family::SnapshotGauge
    } else if begins_with(name, schema.worker_group_prefix@) {
        Family::WorkerGroup
    } else if begins_with(name, schema.worker_table_prefix@) {
        Family::WorkerTable
    } else if begins_with(name, schema.table_prefix@) {
        Family::Table
    } else if begins_with(name, schema.worker_prefix@) {
        Family::Worker
    } else if begins_with(name, schema.layout_prefix@) {
        Family::Layout
    } else {
        Family::Other
    }
}

fn classify(schema: &Schema, name: &str) -> (family: Family)
    ensures
        family == family_of(*schema, name@),
{
    if same_text(name, schema.requests_total.as_str()) {
        Family::Requests
    } else if same_text(name, schema.duration_bucket.as_str()) {
        Family::ObservedBucket
    } else if same_text(name, schema.duration_sum.as_str()) {
        Family::ObservedSum
    } else if same_text(name, schema.duration_count.as_str()) {
        Family::ObservedCount
    } else if same_text(name, schema.processing_bucket.as_str()) {
        Family::ProcessingBucket
    } else if same_text(name, schema.processing_sum.as_str()) {
        Family::ProcessingSum
    } else if same_text(name, schema.processing_count.as_str()) {
        Family::ProcessingCount
    } else if same_text(name, schema.in_flight.as_str()) {
        Family::InFlight
    } else if same_text(name, schema.processing_in_flight.as_str()) {
        Family::ProcessingInFlight
    } else if same_text(name, "process_resident_memory_bytes") {
        Family::ResidentMemory
    } else if same_text(name, "process_start_time_seconds") {
        Family::StartTime
    } else if starts_with_text(name, schema.gauge_prefix.as_str()) {
        Family::SnapshotGauge
    } else if starts_with_text(name, schema.worker_group_prefix.as_str()) {
        Family::WorkerGroup
    } else if starts_with_text(name, schema.worker_table_prefix.as_str()) {
        Family::WorkerTable
    } else if starts_with_text(name, schema.table_prefix.as_str()) {
        Family::Table
    } else if starts_with_text(name, schema.worker_prefix.as_str()) {
        Family::Worker
    } else if starts_with_text(name, schema.layout_prefix.as_str()) {
        Family::Layout
    } else {
        Family::Other
    }
}

/// One thing that a line sets.
#[derive(Debug)]
pub struct Update {
    pub family: Family,
    /// Endpoint, table or worker.
    pub subject: String,
    /// Group of a table, or table of a worker.
    pub part: String,
    /// Name of the gauge without its prefix, whole name of a snapshot gauge,
    /// or upper bound of a bucket.
    pub stem: String,
    /// Whether the requests that are counted failed in the server.
    pub server_error: bool,
    /// Text of the number.
    pub value: String,
}

/// An update as a value.
pub type UpdateView = (Family, Seq<char>, Seq<char>, Seq<char>, bool, Seq<char>);

impl Update {
    pub open spec fn seen(&self) -> UpdateView {
        (
            self.family,
            self.subject@,
            self.part@,
            self.stem@,
            self.server_error,
            self.value@,
        )
    }
}

pub open spec fn update_views(updates: Seq<Update>) -> Seq<UpdateView> {
    updates.map_values(|update: Update| update.seen())
}

/// Whether a text can be an endpoint that is not configured.
pub open spec fn endpoint_label(label: Seq<char>) -> bool {
    identifier(label) && label.len() <= MAX_LABEL_LEN
}

pub fn is_endpoint_label(label: &str) -> (yes: bool)
    ensures
        yes == endpoint_label(label@),
{
    is_identifier(label) && label.unicode_len() <= MAX_LABEL_LEN
}

/// The endpoints after a sample with an endpoint label: one that is new is
/// taken in if it is well formed and there is room. Nothing where the sample
/// is not taken.
pub open spec fn admitted(
    endpoints: Seq<Seq<char>>,
    labels: Seq<(Seq<char>, Seq<char>)>,
) -> Option<(Seq<Seq<char>>, Seq<char>)> {
    match label_value(labels, "endpoint"@) {
        None => None,
        Some(endpoint) => if endpoints.contains(endpoint) {
            Some((endpoints, endpoint))
        } else if endpoint_label(endpoint) && endpoints.len() < MAX_ENDPOINTS {
            Some((endpoints.push(endpoint), endpoint))
        } else {
            None
        },
    }
}

/// Finds the endpoint of a sample, taking it in where it is new.
pub fn endpoint_entry(endpoints: &mut Vec<String>, sample: &ParsedSample) -> (endpoint: Option<
    String,
>)
    ensures
        match endpoint {
            Some(endpoint) => admitted(
                texts(old(endpoints)@),
                label_views(sample.labels@),
            ) == Some((texts(final(endpoints)@), endpoint@)),
            None => {
                &&& admitted(texts(old(endpoints)@), label_views(sample.labels@)) is None
                &&& final(endpoints)@ == old(endpoints)@
            },
        },
{
    let endpoint = match find_label(&sample.labels, "endpoint") {
        Some(endpoint) => endpoint,
        None => {
            return None;
        },
    };
    if list_holds(endpoints, endpoint.as_str()) {
        return Some(endpoint);
    }
    if !is_endpoint_label(endpoint.as_str()) || endpoints.len() >= MAX_ENDPOINTS {
        return None;
    }
    let ghost before = texts(endpoints@);
    endpoints.push(endpoint.clone());
    assert(texts(endpoints@) =~= before.push(endpoint@));
    Some(endpoint)
}

/// What has been read so far: the updates, and the endpoints.
pub type ScanView = (Seq<UpdateView>, Seq<Seq<char>>);

/// The state after an update about an endpoint, or the state where the
/// sample's endpoint is not taken.
pub open spec fn endpoint_update(
    state: ScanView,
    family: Family,
    sample: SampleView,
    stem: Seq<char>,
    server_error: bool,
) -> ScanView {
    match admitted(state.1, sample.1) {
        None => state,
        Some((endpoints, endpoint)) => (
            state.0.push((family, endpoint, Seq::empty(), stem, server_error, sample.2)),
            endpoints,
        ),
    }
}

/// The state after one update.
pub open spec fn with_update(
    state: ScanView,
    family: Family,
    subject: Seq<char>,
    part: Seq<char>,
    stem: Seq<char>,
    sample: SampleView,
) -> ScanView {
    (state.0.push((family, subject, part, stem, false, sample.2)), state.1)
}

/// Whether the status label is that of a server error.
pub open spec fn status_fails(sample: SampleView) -> bool {
    label_value(sample.1, "status"@) is Some && begins_with(
        label_value(sample.1, "status"@)->0,
        "5"@,
    )
}

/// Whether a bucket's bound is one.
pub open spec fn is_bound(le: Seq<char>) -> bool {
    le == "+Inf"@ || is_number(le)
}

/// What a sample does to the state.
pub open spec fn after_sample(schema: Schema, state: ScanView, sample: SampleView) -> Result<
    ScanView,
    Seq<char>,
> {
    let none: Seq<char> = Seq::empty();
    let family = family_of(schema, sample.0);
    let table = label_value(sample.1, "table"@);
    let worker = label_value(sample.1, "worker"@);
    let group = label_value(sample.1, "group"@);
    match family {
        Family::Requests => Ok(
            endpoint_update(state, family, sample, none, status_fails(sample)),
        ),
        Family::ObservedBucket | Family::ProcessingBucket => match label_value(sample.1, "le"@) {
            None => Ok(state),
            Some(le) => if admitted(state.1, sample.1) is None {
                Ok(state)
            } else if !is_bound(le) {
                Err("invalid histogram bound "@ + debug_text(le))
            } else {
                Ok(endpoint_update(state, family, sample, le, false))
            },
        },
        Family::ObservedSum
        | Family::ObservedCount
        | Family::ProcessingSum
        | Family::ProcessingCount
        | Family::InFlight
        | Family::ProcessingInFlight => Ok(
            endpoint_update(state, family, sample, none, false),
        ),
        Family::ResidentMemory | Family::StartTime => Ok(
            with_update(state, family, none, none, none, sample),
        ),
        Family::SnapshotGauge => Ok(with_update(state, family, none, none, sample.0, sample)),
        Family::WorkerGroup => if table is Some && group is Some {
            Ok(
                with_update(
                    state,
                    family,
                    table->0,
                    group->0,
                    sample.0.skip(schema.worker_group_prefix@.len() as int),
                    sample,
                ),
            )
        } else {
            Ok(state)
        },
        Family::WorkerTable => if worker is Some && table is Some {
            Ok(
                with_update(
                    state,
                    family,
                    worker->0,
                    table->0,
                    sample.0.skip(schema.worker_table_prefix@.len() as int),
                    sample,
                ),
            )
        } else {
            Ok(state)
        },
        Family::Table => if table is Some {
            Ok(
                with_update(
                    state,
                    family,
                    table->0,
                    none,
                    sample.0.skip(schema.table_prefix@.len() as int),
                    sample,
                ),
            )
        } else {
            Ok(state)
        },
        Family::Worker => if worker is Some {
            Ok(
                with_update(
                    state,
                    family,
                    worker->0,
                    none,
                    sample.0.skip(schema.worker_prefix@.len() as int),
                    sample,
                ),
            )
        } else {
            Ok(state)
        },
        Family::Layout => Ok(
            with_update(
                state,
                family,
                none,
                none,
                sample.0.skip(schema.layout_prefix@.len() as int),
                sample,
            ),
        ),
        Family::Other => Ok(state),
    }
}

/// What an exposition sets, line by line.
#[derive(Debug)]
pub struct Scrape {
    pub updates: Vec<Update>,
    /// Configured endpoints, then those taken in.
    pub endpoints: Vec<String>,
}

impl Scrape {
    pub open spec fn seen(&self) -> ScanView {
        (update_views(self.updates@), texts(self.endpoints@))
    }

    fn push_update(
        &mut self,
        family: Family,
        subject: String,
        part: String,
        stem: String,
        server_error: bool,
        value: &String,
    )
        ensures
            final(self).endpoints == old(self).endpoints,
            update_views(final(self).updates@) == update_views(old(self).updates@).push(
                (family, subject@, part@, stem@, server_error, value@),
            ),
    {
        let update = Update { family, subject, part, stem, server_error, value: value.clone() };
        let ghost view = update.seen();
        self.updates.push(update);
        assert(update_views(self.updates@) =~= update_views(old(self).updates@).push(view));
    }

    fn push_endpoint_update(
        &mut self,
        family: Family,
        sample: &ParsedSample,
        stem: String,
        server_error: bool,
    )
        ensures
            final(self).seen() == endpoint_update(
                old(self).seen(),
                family,
                sample.seen(),
                stem@,
                server_error,
            ),
    {
        match endpoint_entry(&mut self.endpoints, sample) {
            Some(endpoint) => {
                self.push_update(
                    family,
                    endpoint,
                    String::new(),
                    stem,
                    server_error,
                    &sample.value,
                );
            },
            None => {},
        }
    }

    fn push_named(
        &mut self,
        family: Family,
        subject: String,
        part: String,
        name: &str,
        prefix: &str,
        value: &String,
    )
        requires
            begins_with(name@, prefix@),
        ensures
            final(self).endpoints == old(self).endpoints,
            update_views(final(self).updates@) == update_views(old(self).updates@).push(
                (family, subject@, part@, name@.skip(prefix@.len() as int), false, value@),
            ),
    {
        if let Some(stem) = cut_prefix(name, prefix) {
            self.push_update(family, subject, part, stem, false, value);
        }
    }

    /// Takes in a sample.
    pub fn take_sample(&mut self, schema: &Schema, sample: &ParsedSample) -> (taken: Result<
        (),
        String,
    >)
        ensures
            match taken {
                Ok(()) => after_sample(*schema, old(self).seen(), sample.seen()) == Ok::<
                    ScanView,
                    Seq<char>,
                >(final(self).seen()),
                Err(error) => after_sample(*schema, old(self).seen(), sample.seen()) == Err::<
                    ScanView,
                    Seq<char>,
                >(error@),
            },
    {
        let name = sample.name.as_str();
        let family = classify(schema, name);
        match family {
            Family::Requests => {
                let fails: bool = match find_label(&sample.labels, "status") {
                    Some(status) => starts_with_text(status.as_str(), "5"),
                    None => false,
                };
                self.push_endpoint_update(family, sample, String::new(), fails);
            },
            Family::ObservedBucket | Family::ProcessingBucket => {
                let le = match find_label(&sample.labels, "le") {
                    Some(le) => le,
                    None => {
                        return Ok(());
                    },
                };
                match endpoint_entry(&mut self.endpoints, sample) {
                    None => {},
                    Some(endpoint) => {
                        if !same_text(le.as_str(), "+Inf") && !number_text(le.as_str()) {
                            let mut error = String::from_str("invalid histogram bound ");
                            error.append(debug_quoted(le.as_str()).as_str());
                            return Err(error);
                        }
                        self.push_update(
                            family,
                            endpoint,
                            String::new(),
                            le,
                            false,
                            &sample.value,
                        );
                    },
                }
            },
            Family::ObservedSum
            | Family::ObservedCount
            | Family::ProcessingSum
            | Family::ProcessingCount
            | Family::InFlight
            | Family::ProcessingInFlight => {
                self.push_endpoint_update(family, sample, String::new(), false);
            },
            Family::ResidentMemory | Family::StartTime => {
                self.push_update(
                    family,
                    String::new(),
                    String::new(),
                    String::new(),
                    false,
                    &sample.value,
                );
            },
            Family::SnapshotGauge => {
                self.push_update(
                    family,
                    String::new(),
                    String::new(),
                    sample.name.clone(),
                    false,
                    &sample.value,
                );
            },
            Family::WorkerGroup => {
                let table = find_label(&sample.labels, "table");
                let group = find_label(&sample.labels, "group");
                if let (Some(table), Some(group)) = (table, group) {
                    self.push_named(
                        family,
                        table,
                        group,
                        name,
                        schema.worker_group_prefix.as_str(),
                        &sample.value,
                    );
                }
            },
            Family::WorkerTable => {
                let worker = find_label(&sample.labels, "worker");
                let table = find_label(&sample.labels, "table");
                if let (Some(worker), Some(table)) = (worker, table) {
                    self.push_named(
                        family,
                        worker,
                        table,
                        name,
                        schema.worker_table_prefix.as_str(),
                        &sample.value,
                    );
                }
            },
            Family::Table => {
                if let Some(table) = find_label(&sample.labels, "table") {
                    self.push_named(
                        family,
                        table,
                        String::new(),
                        name,
                        schema.table_prefix.as_str(),
                        &sample.value,
                    );
                }
            },
            Family::Worker => {
                if let Some(worker) = find_label(&sample.labels, "worker") {
                    self.push_named(
                        family,
                        worker,
                        String::new(),
                        name,
                        schema.worker_prefix.as_str(),
                        &sample.value,
                    );
                }
            },
            Family::Layout => {
                self.push_named(
                    family,
                    String::new(),
                    String::new(),
                    name,
                    schema.layout_prefix.as_str(),
                    &sample.value,
                );
            },
            Family::Other => {},
        }
        Ok(())
    }
}

/// What a line does to the state. Empty lines and comments do nothing.
pub open spec fn after_line(schema: Schema, state: ScanView, line: Seq<char>, number: nat) -> Result<
    ScanView,
    Seq<char>,
> {
    let text = trimmed(line);
    if text.len() == 0 || begins_with(text, "#"@) {
        Ok(state)
    } else {
        match line_sample(text) {
            Err(error) => Err("line "@ + decimal(number) + ": "@ + error),
            Ok(sample) => after_sample(schema, state, sample),
        }
    }
}

/// Names without repetitions, each at its first place.
pub open spec fn once_each(names: Seq<Seq<char>>) -> Seq<Seq<char>>
    decreases names.len(),
{
    if names.len() == 0 {
        Seq::empty()
    } else {
        let head = once_each(names.drop_last());
        if head.contains(names.last()) {
            head
        } else {
            head.push(names.last())
        }
    }
}

proof fn lemma_once_each(names: Seq<Seq<char>>)
    ensures
        once_each(names).no_duplicates(),
        once_each(names).len() <= names.len(),
    decreases names.len(),
{
    if names.len() > 0 {
        lemma_once_each(names.drop_last());
    }
}

/// Endpoints that are known before the first line: the configured ones.
pub open spec fn configured_endpoints(schema: Schema) -> Seq<Seq<char>> {
    once_each(texts(schema.endpoints@))
}

/// What the first `n` lines make of the state.
pub open spec fn scan(schema: Schema, lines: Seq<Seq<char>>, n: int) -> Result<ScanView, Seq<char>>
    decreases n,
{
    if n <= 0 {
        Ok((Seq::empty(), configured_endpoints(schema)))
    } else {
        match scan(schema, lines, n - 1) {
            Err(error) => Err(error),
            Ok(state) => after_line(schema, state, lines[n - 1], n as nat),
        }
    }
}

proof fn lemma_scan_stops(schema: Schema, lines: Seq<Seq<char>>, k: int, n: int)
    requires
        0 <= k <= n,
        scan(schema, lines, k) is Err,
    ensures
        scan(schema, lines, n) == scan(schema, lines, k),
    decreases n - k,
{
    if k < n {
        lemma_scan_stops(schema, lines, k, n - 1);
    }
}

/// Reads an exposition. The error names the line that is no sample.
pub fn parse_prometheus(schema: &Schema, text: &str) -> (scrape: Result<Scrape, String>)
    ensures
        ({
            let lines = pieces(text@, '\n');
            let result = scan(*schema, lines, lines.len() as int);
            match scrape {
                Ok(scrape) => result == Ok::<ScanView, Seq<char>>(scrape.seen()),
                Err(error) => result == Err::<ScanView, Seq<char>>(error@),
            }
        }),
{
    let lines = split_at_each(text, '\n');
    let ghost all = pieces(text@, '\n');
    let mut endpoints: Vec<String> = Vec::new();
    let mut k: usize = 0;
    while k < schema.endpoints.len()
        invariant
            k <= schema.endpoints.len(),
            texts(endpoints@) == once_each(texts(schema.endpoints@.take(k as int))),
        decreases schema.endpoints.len() - k,
    {
        let ghost before = texts(endpoints@);
        let held: bool = list_holds(&endpoints, schema.endpoints[k].as_str());
        if !held {
            endpoints.push(schema.endpoints[k].clone());
        }
        proof {
            let name = schema.endpoints@[k as int]@;
            let taken = texts(schema.endpoints@.take(k + 1));
            assert(taken.drop_last() =~= texts(schema.endpoints@.take(k as int)));
            assert(taken.last() == name);
            if !held {
                assert(texts(endpoints@) =~= before.push(name));
            }
        }
        k = k + 1;
    }
    assert(schema.endpoints@.take(k as int) =~= schema.endpoints@);
    let mut scrape = Scrape { updates: Vec::new(), endpoints };
    assert(update_views(scrape.updates@) =~= Seq::empty());
    let mut i: usize = 0;
    while i < lines.len()
        invariant
            i <= lines.len(),
            texts(lines@) == all,
            all == pieces(text@, '\n'),
            scan(*schema, all, i as int) == Ok::<ScanView, Seq<char>>(scrape.seen()),
        decreases lines.len() - i,
    {
        assert(all[i as int] == lines@[i as int]@);
        let line = trim_text(lines[i].as_str());
        if line.as_str().unicode_len() != 0 && !starts_with_text(line.as_str(), "#") {
            match parse_line(line.as_str()) {
                Err(error) => {
                    let mut message = String::from_str("line ");
                    push_decimal(&mut message, i as u64 + 1);
                    message.append(": ");
                    message.append(error.as_str());
                    proof {
                        assert(scan(*schema, all, i + 1) == Err::<ScanView, Seq<char>>(message@));
                        lemma_scan_stops(*schema, all, i + 1, all.len() as int);
                    }
                    return Err(message);
                },
                Ok(sample) => {
                    match scrape.take_sample(schema, &sample) {
                        Ok(()) => {},
                        Err(error) => {
                            proof {
                                assert(scan(*schema, all, i + 1) == Err::<ScanView, Seq<char>>(
                                    error@,
                                ));
                                lemma_scan_stops(*schema, all, i + 1, all.len() as int);
                            }
                            return Err(error);
                        },
                    }
                },
            }
        }
        i = i + 1;
    }
    Ok(scrape)
}

/// Endpoints once known stay, none is known twice, and no more than the cap, or
/// than are configured, are ever known.
pub proof fn law_endpoints_are_capped(schema: Schema, lines: Seq<Seq<char>>, n: int)
    requires
        0 <= n <= lines.len(),
    ensures
        scan(schema, lines, n) matches Ok(state) ==> {
            let configured = configured_endpoints(schema);
            &&& configured.len() <= state.1.len()
            &&& state.1.take(configured.len() as int) == configured
            &&& state.1.len() <= MAX_ENDPOINTS || state.1 == configured
            &&& state.1.no_duplicates()
        },
    decreases n,
{
    let configured = configured_endpoints(schema);
    if n > 0 {
        law_endpoints_are_capped(schema, lines, n - 1);
        if scan(schema, lines, n) is Ok {
            let before = scan(schema, lines, n - 1)->Ok_0;
            let after = scan(schema, lines, n)->Ok_0;
            assert(after.1 == before.1 || (before.1.len() < MAX_ENDPOINTS && exists|e: Seq<char>|
                after.1 == before.1.push(e) && !before.1.contains(e)));
            if after.1 != before.1 {
                let e = choose|e: Seq<char>|
                    after.1 == before.1.push(e) && !before.1.contains(e);
                assert(after.1.take(configured.len() as int) =~= before.1.take(
                    configured.len() as int,
                ));
            }
        }
    } else {
        lemma_once_each(texts(schema.endpoints@));
        assert(configured.take(configured.len() as int) =~= configured);
    }
}

/// A label's value is that of the last label with the name.
pub proof fn law_the_last_label_of_a_name_counts(
    labels: Seq<(Seq<char>, Seq<char>)>,
    key: Seq<char>,
)
    ensures
        match label_value(labels, key) {
            Some(value) => exists|i: int|
                {
                    &&& 0 <= i < labels.len()
                    &&& #[trigger] labels[i] == (key, value)
                    &&& forall|j: int| i < j < labels.len() ==> (#[trigger] labels[j]).0 != key
                },
            None => forall|j: int| 0 <= j < labels.len() ==> (#[trigger] labels[j]).0 != key,
        },
    decreases labels.len(),
{
    if labels.len() > 0 {
        let head = labels.drop_last();
        let last = labels.len() - 1;
        if labels[last].0 == key {
            assert(labels[last] == (key, labels[last].1));
        } else {
            law_the_last_label_of_a_name_counts(head, key);
            if let Some(value) = label_value(head, key) {
                let i = choose|i: int|
                    {
                        &&& 0 <= i < head.len()
                        &&& #[trigger] head[i] == (key, value)
                        &&& forall|j: int| i < j < head.len() ==> (#[trigger] head[j]).0 != key
                    };
                assert(labels[i] == (key, value));
                assert forall|j: int| i < j < labels.len() implies (#[trigger] labels[j]).0
                    != key by {
                    if j < last {
                        assert(head[j] == labels[j]);
                    }
                }
            } else {
                assert forall|j: int| 0 <= j < labels.len() implies (#[trigger] labels[j]).0
                    != key by {
                    if j < last {
                        assert(head[j] == labels[j]);
                    }
                }
            }
        }
    }
}

/// Of names that repeat, each is kept once, and none is lost.
pub proof fn law_every_name_is_kept_once(names: Seq<Seq<char>>, name: Seq<char>)
    ensures
        once_each(names).no_duplicates(),
        once_each(names).contains(name) <==> names.contains(name),
    decreases names.len(),
{
    if names.len() > 0 {
        let head = names.drop_last();
        let kept = once_each(head);
        let all = once_each(names);
        law_every_name_is_kept_once(head, name);
        law_every_name_is_kept_once(head, names.last());
        if all.contains(name) {
            let k = all.index_of(name);
            if k < kept.len() {
                assert(kept[k] == name);
                assert(names[head.index_of(name)] == name);
            } else {
                assert(names[names.len() - 1] == name);
            }
        }
        if names.contains(name) {
            let k = names.index_of(name);
            if k < head.len() {
                assert(head[k] == name);
                assert(all[kept.index_of(name)] == name);
            } else if kept.contains(name) {
                assert(all[kept.index_of(name)] == name);
            } else {
                assert(all[all.len() - 1] == name);
            }
        }
    }
}

/// Separators are passed over up to the first character that is none.
pub proof fn law_separators_are_passed_over(text: Seq<char>, at: int)
    requires
        0 <= at <= text.len(),
    ensures
        at <= separators_end(text, at) <= text.len(),
        forall|i: int|
            at <= i < separators_end(text, at) ==> {
                let c = #[trigger] text[i];
                c == ',' || c == ' ' || c == '\t' || c == '\n' || c == '\u{c}' || c == '\r'
            },
        separators_end(text, at) < text.len() ==> !separates(text[separators_end(text, at)]),
    decreases text.len() - at,
{
    if at < text.len() && separates(text[at]) {
        law_separators_are_passed_over(text, at + 1);
    }
}

/// A value as it stands between quotes: a backslash before every backslash and every
/// quote, and `\n` for a new line.
pub open spec fn quoted_form(value: Seq<char>) -> Seq<char>
    decreases value.len(),
{
    if value.len() == 0 {
        Seq::empty()
    } else {
        (if value[0] == '\\' {
            seq!['\\', '\\']
        } else if value[0] == '"' {
            seq!['\\', '"']
        } else if value[0] == '\n' {
            seq!['\\', 'n']
        } else {
            seq![value[0]]
        }) + quoted_form(value.drop_first())
    }
}

/// Whether a text is made of ASCII characters only.
pub open spec fn plain(text: Seq<char>) -> bool {
    forall|i: int| 0 <= i < text.len() ==> (#[trigger] text[i] as nat) < 0x80
}

/// What stands between quotes is read as the value that it was written for, up to the
/// quote that ends it.
pub proof fn law_quoted_values_are_read_back(text: Seq<char>, at: int, value: Seq<char>)
    requires
        plain(value),
        0 <= at,
        at + quoted_form(value).len() < text.len(),
        text.subrange(at, at + quoted_form(value).len()) == quoted_form(value),
        text[at + quoted_form(value).len()] == '"',
    ensures
        quoted(text, at) == Ok::<(Seq<char>, int), Seq<char>>(
            (value, at + quoted_form(value).len() + 1),
        ),
    decreases value.len(),
{
    let form = quoted_form(value);
    let here = text.subrange(at, at + form.len());
    if value.len() == 0 {
        assert(quoted(text, at) == Ok::<(Seq<char>, int), Seq<char>>((Seq::empty(), at + 1)));
        assert(value =~= Seq::empty());
    } else {
        let c = value[0];
        let rest = value.drop_first();
        let more = quoted_form(rest);
        let step = form.len() - more.len();
        assert(value =~= seq![c] + rest);
        assert forall|i: int| 0 <= i < rest.len() implies (#[trigger] rest[i] as nat) < 0x80 by {
            assert(rest[i] == value[i + 1]);
        }
        assert(here.skip(step) =~= more);
        assert(text.subrange(at + step, at + step + more.len()) =~= here.skip(step));
        law_quoted_values_are_read_back(text, at + step, rest);
        assert(text[at] == here[0]);
        if step == 2 {
            assert(text[at + 1] == here[1]);
        }
        assert(bytewise(c) == seq![c]);
        assert(quoted(text, at) == Ok::<(Seq<char>, int), Seq<char>>(
            (seq![c] + rest, at + form.len() + 1),
        ));
    }
}

/// Labels as a sample writes them.
pub open spec fn labels_form(labels: Seq<(Seq<char>, Seq<char>)>) -> Seq<char>
    decreases labels.len(),
{
    if labels.len() == 0 {
        Seq::empty()
    } else {
        labels[0].0 + seq!['=', '"'] + quoted_form(labels[0].1) + seq!['"'] + (if labels.len()
            == 1 {
            Seq::empty()
        } else {
            seq![','] + labels_form(labels.drop_first())
        })
    }
}

/// Whether a label's name is one: without an equals sign, and neither empty nor
/// beginning or ending in white space or a comma.
pub open spec fn is_label_name(name: Seq<char>) -> bool {
    &&& name.len() > 0
    &&& !name.contains('=')
    &&& !separates(name[0])
    &&& !is_space(name[0])
    &&& !is_space(name.last())
}

/// Labels are read back as they were written, all of them and in their order.
pub proof fn law_labels_are_read_back(
    text: Seq<char>,
    at: int,
    labels: Seq<(Seq<char>, Seq<char>)>,
)
    requires
        0 <= at <= text.len(),
        text.skip(at) == labels_form(labels) || (labels.len() > 0 && text.skip(at) == seq![',']
            + labels_form(labels)),
        forall|i: int|
            0 <= i < labels.len() ==> is_label_name((#[trigger] labels[i]).0) && plain(labels[i].1),
    ensures
        labels_from(text, at) == Ok::<Seq<(Seq<char>, Seq<char>)>, Seq<char>>(labels),
    decreases labels.len(),
{
    if labels.len() == 0 {
        assert(text.skip(at).len() == 0);
        assert(separators_end(text, at) == at);
        assert(labels =~= Seq::empty());
    } else {
        let (name, value) = labels[0];
        let rest = labels.drop_first();
        let form = labels_form(labels);
        assert(is_label_name(name) && plain(value));
        let start = if text.skip(at) == form {
            at
        } else {
            at + 1
        };
        assert(text.skip(at).len() == text.len() - at);
        assert(form.len() >= name.len() + quoted_form(value).len() + 3);
        assert(text.len() - start == form.len()) by {
            if start != at {
                assert((seq![','] + form).len() == form.len() + 1);
            }
        }
        assert(text.skip(start) =~= form) by {
            if start != at {
                assert((seq![','] + form).skip(1) =~= form);
                assert(text.skip(at).skip(1) =~= text.skip(start));
            }
        }
        assert(form[0] == name[0]);
        assert(text[start] == text.skip(start)[0]);
        if start != at {
            assert(text[at] == text.skip(at)[0]);
            assert((seq![','] + form)[0] == ',');
            reveal_with_fuel(separators_end, 3);
        }
        assert(separators_end(text, at) == start) by {
            reveal_with_fuel(separators_end, 3);
        }
        let equals = start + name.len();
        let shown = quoted_form(value);
        assert forall|i: int| start <= i < equals implies #[trigger] text[i] != '=' by {
            assert(text[i] == text.skip(start)[i - start]);
            assert(form[i - start] == name[i - start]);
        }
        assert(text[equals] == text.skip(start)[equals - start]);
        assert(form[equals - start] == '=');
        assert(text[equals + 1] == text.skip(start)[equals + 1 - start]);
        assert(form[equals + 1 - start] == '"');
        crate::text::lemma_first_at(text, '=', start, equals);
        let close = equals + 2 + shown.len();
        assert(text[close] == text.skip(start)[close - start]);
        assert(form[close - start] == '"');
        assert(text.subrange(equals + 2, close) =~= shown) by {
            assert forall|i: int| 0 <= i < shown.len() implies text.subrange(equals + 2, close)[i]
                == shown[i] by {
                assert(text[equals + 2 + i] == text.skip(start)[equals + 2 + i - start]);
                assert(form[equals + 2 + i - start] == shown[i]);
            }
        }
        law_quoted_values_are_read_back(text, equals + 2, value);
        let end = close + 1;
        assert(text.subrange(start, equals) =~= name) by {
            assert forall|i: int| 0 <= i < name.len() implies text.subrange(start, equals)[i]
                == name[i] by {
                assert(text[start + i] == text.skip(start)[i]);
                assert(form[i] == name[i]);
            }
        }
        assert(trimmed(name) == name);
        assert forall|i: int| 0 <= i < rest.len() implies is_label_name((#[trigger] rest[i]).0)
            && plain(rest[i].1) by {
            assert(rest[i] == labels[i + 1]);
        }
        let tail = if labels.len() == 1 {
            Seq::empty()
        } else {
            seq![','] + labels_form(rest)
        };
        assert(text.skip(end) =~= tail) by {
            assert(text.skip(start).skip(end - start) =~= text.skip(end));
            assert(form.skip(end - start) =~= tail);
        }
        law_labels_are_read_back(text, end, rest);
        assert(labels =~= seq![(name, value)] + rest);
    }
}

/// A sample without labels is a name, white space and a number.
pub proof fn law_a_name_and_a_number_are_a_sample(name: Seq<char>, value: Seq<char>)
    requires
        name.len() > 0,
        !name.contains('{'),
        !is_space(name.last()),
        forall|i: int| 0 <= i < value.len() ==> !is_space(#[trigger] value[i]),
        is_number(value),
    ensures
        line_sample(name + seq![' '] + value) == Ok::<SampleView, Seq<char>>(
            (name, Seq::empty(), value),
        ),
{
    let line = name + seq![' '] + value;
    let split = name.len() as int;
    crate::text::law_the_last_space_is_last(line, line.len() as int);
    let found = last_space(line, line.len() as int);
    assert(line[split] == ' ');
    assert(is_space(line[split]));
    if let Some(at) = found {
        if at > split {
            assert(line[at] == value[at - split - 1]);
        }
    }
    assert(found == Some(split));
    assert(line.take(split) =~= name);
    assert(trimmed_back(name) == name);
    assert(line.skip(split) =~= seq![' '] + value);
    assert(line.skip(split).drop_first() =~= value);
    lemma_not_trimmed(value);
    assert(trimmed(line.skip(split)) == value);
    crate::text::law_texts_split_at_the_first_separator(name, '{');
    if let Some((before, after)) = crate::text::split_first(name, '{') {
        assert(name[before.len() as int] == '{');
    }
    assert(first_at(name, '{', 0) is None);
}

proof fn lemma_not_trimmed(value: Seq<char>)
    requires
        forall|i: int| 0 <= i < value.len() ==> !is_space(#[trigger] value[i]),
    ensures
        trimmed(value) == value,
{
    if value.len() > 0 {
        assert(!is_space(value[0]));
        assert(!is_space(value[value.len() - 1]));
    }
}

/// An endpoint that is known counts; another becomes known where its label is a short
/// identifier and there is room for it, and is passed over where not.
pub proof fn law_endpoints_become_known_while_there_is_room(
    endpoints: Seq<Seq<char>>,
    labels: Seq<(Seq<char>, Seq<char>)>,
)
    ensures
        match admitted(endpoints, labels) {
            Some((known, endpoint)) => {
                &&& label_value(labels, "endpoint"@) == Some(endpoint)
                &&& known.contains(endpoint)
                &&& known == endpoints || (known == endpoints.push(endpoint) && !endpoints.contains(
                    endpoint,
                ) && endpoints.len() < 32 && 0 < endpoint.len() <= 40)
            },
            None => label_value(labels, "endpoint"@) matches Some(endpoint) ==> {
                &&& !endpoints.contains(endpoint)
                &&& endpoints.len() >= 32 || endpoint.len() > 40 || !identifier(endpoint)
            },
        },
{
    if let Some((known, endpoint)) = admitted(endpoints, labels) {
        if known != endpoints {
            assert(known[endpoints.len() as int] == endpoint);
        }
    }
}

/// Empty lines and comments change nothing.
pub proof fn law_comments_are_passed_over(
    schema: Schema,
    state: ScanView,
    line: Seq<char>,
    number: nat,
)
    requires
        trimmed(line).len() == 0 || trimmed(line)[0] == '#',
    ensures
        after_line(schema, state, line, number) == Ok::<ScanView, Seq<char>>(state),
{
    reveal_strlit("#");
    if trimmed(line).len() > 0 {
        assert(trimmed(line).take(1) =~= "#"@);
    }
}

/// What has been taken in stays: a further line adds at most one update behind the
/// others and at most one endpoint behind the others.
pub proof fn law_lines_only_add(schema: Schema, state: ScanView, line: Seq<char>, number: nat)
    ensures
        after_line(schema, state, line, number) matches Ok(after) ==> {
            &&& after.0 == state.0 || (after.0.len() == state.0.len() + 1 && after.0.drop_last()
                == state.0)
            &&& after.1 == state.1 || (after.1.len() == state.1.len() + 1 && after.1.drop_last()
                == state.1)
        },
{
    if let Ok(after) = after_line(schema, state, line, number) {
        if after.0 != state.0 {
            assert(after.0.drop_last() =~= state.0);
        }
        if after.1 != state.1 {
            assert(after.1.drop_last() =~= state.1);
        }
    }
}

/// A character is told by its bytes: those behind the first carry six bits each, and
/// the first the rest.
pub proof fn law_characters_are_told_by_their_bytes(c: char)
    ensures
        ({
            let n = c as nat;
            let bytes = bytewise(c);
            let low = |i: int| bytes[i] as nat - 0x80;
            &&& n < 0x80 ==> bytes == seq![c]
            &&& 0x80 <= n < 0x800 ==> bytes.len() == 2 && n == 64 * (bytes[0] as nat - 0xc0) + low(
                1,
            )
            &&& 0x800 <= n < 0x10000 ==> bytes.len() == 3 && n == 4096 * (bytes[0] as nat - 0xe0)
                + 64 * low(1) + low(2)
            &&& n >= 0x10000 ==> bytes.len() == 4 && n == 262144 * (bytes[0] as nat - 0xf0) + 4096
                * low(1) + 64 * low(2) + low(3)
        }),
{
    let n = c as nat;
    assert(n <= 0x10ffff);
    assert(n / 64 == 64 * (n / 4096) + (n / 64) % 64);
    assert(n / 4096 == 64 * (n / 262144) + (n / 4096) % 64);
}

/// What a sample adds is its own value, under the family of its name; a sample of
/// another name adds nothing.
pub proof fn law_updates_carry_the_value_of_their_sample(
    schema: Schema,
    state: ScanView,
    sample: SampleView,
)
    ensures
        after_sample(schema, state, sample) matches Ok(after) ==> (after.0 != state.0 ==> {
            let update = after.0.last();
            &&& after.0.len() == state.0.len() + 1
            &&& update.0 == family_of(schema, sample.0)
            &&& !(update.0 is Other)
            &&& update.5 == sample.2
        }),
        family_of(schema, sample.0) is Other ==> after_sample(schema, state, sample) == Ok::<
            ScanView,
            Seq<char>,
        >(state),
{
}

/// A sample of a table, of a worker, of a worker's table or of a worker's group is taken
/// in exactly where it has the labels that say of which, and under those.
pub proof fn law_samples_are_taken_in_under_their_labels(
    schema: Schema,
    state: ScanView,
    sample: SampleView,
)
    ensures
        ({
            let family = family_of(schema, sample.0);
            let table = label_value(sample.1, "table"@);
            let worker = label_value(sample.1, "worker"@);
            let group = label_value(sample.1, "group"@);
            let named = match family {
                Family::Table => Some((table, Some(Seq::<char>::empty()), schema.table_prefix@)),
                Family::Worker => Some((worker, Some(Seq::<char>::empty()), schema.worker_prefix@)),
                Family::WorkerTable => Some((worker, table, schema.worker_table_prefix@)),
                Family::WorkerGroup => Some((table, group, schema.worker_group_prefix@)),
                _ => None,
            };
            named matches Some((subject, part, prefix)) ==> after_sample(schema, state, sample)
                == Ok::<ScanView, Seq<char>>(
                if subject is Some && part is Some {
                    (
                        state.0.push(
                            (
                                family,
                                subject->0,
                                part->0,
                                sample.0.skip(prefix.len() as int),
                                false,
                                sample.2,
                            ),
                        ),
                        state.1,
                    )
                } else {
                    state
                },
            )
        }),
{
}

/// Requests count as failed exactly where their status begins with a five, and a
/// histogram's buckets keep the bound that they are for.
pub proof fn law_requests_and_buckets_are_taken_in(
    schema: Schema,
    state: ScanView,
    sample: SampleView,
)
    requires
        admitted(state.1, sample.1) is Some,
    ensures
        family_of(schema, sample.0) is Requests ==> (after_sample(schema, state, sample) matches Ok(
            after,
        ) && after.0.len() == state.0.len() + 1 && (after.0.last().4 <==> (label_value(
            sample.1,
            "status"@,
        ) matches Some(status) && status.len() > 0 && status[0] == '5'))),
        family_of(schema, sample.0) is ObservedBucket || family_of(schema, sample.0)
            is ProcessingBucket ==> match label_value(sample.1, "le"@) {
            None => after_sample(schema, state, sample) == Ok::<ScanView, Seq<char>>(state),
            Some(le) => if le == "+Inf"@ || is_number(le) {
                after_sample(schema, state, sample) matches Ok(after) && after.0.len()
                    == state.0.len() + 1 && after.0.last().3 == le
            } else {
                after_sample(schema, state, sample) is Err
            },
        },
{
    reveal_strlit("5");
    if let Some(status) = label_value(sample.1, "status"@) {
        if status.len() > 0 {
            assert(status.take(1) =~= seq![status[0]]);
            assert("5"@ =~= seq!['5']);
            if status.take(1) == "5"@ {
                assert(status.take(1)[0] == "5"@[0]);
            }
        }
    }
}

/// The samples of a server's requests are told apart by their names, whatever prefix
/// the names have.
pub proof fn law_request_samples_are_told_apart(schema: Schema)
    requires
        schema.named(),
    ensures
        family_of(schema, schema.prefix@ + "_http_requests_total"@) is Requests,
        family_of(schema, schema.prefix@ + "_http_request_duration_seconds_bucket"@)
            is ObservedBucket,
        family_of(schema, schema.prefix@ + "_http_request_duration_seconds_sum"@) is ObservedSum,
        family_of(schema, schema.prefix@ + "_http_request_duration_seconds_count"@)
            is ObservedCount,
        family_of(schema, schema.prefix@ + "_http_request_processing_duration_seconds_bucket"@)
            is ProcessingBucket,
        family_of(schema, schema.prefix@ + "_http_request_processing_duration_seconds_sum"@)
            is ProcessingSum,
        family_of(schema, schema.prefix@ + "_http_request_processing_duration_seconds_count"@)
            is ProcessingCount,
        family_of(schema, schema.prefix@ + "_http_in_flight"@) is InFlight,
        family_of(schema, schema.prefix@ + "_http_processing_in_flight"@) is ProcessingInFlight,
{
    reveal_strlit("_http_requests_total");
    reveal_strlit("_http_request_duration_seconds_bucket");
    reveal_strlit("_http_request_duration_seconds_sum");
    reveal_strlit("_http_request_duration_seconds_count");
    reveal_strlit("_http_request_processing_duration_seconds_bucket");
    reveal_strlit("_http_request_processing_duration_seconds_sum");
    reveal_strlit("_http_request_processing_duration_seconds_count");
    reveal_strlit("_http_in_flight");
    reveal_strlit("_http_processing_in_flight");
    assert("_http_requests_total"@.len() == 20);
    assert("_http_request_duration_seconds_bucket"@.len() == 37);
    assert("_http_request_duration_seconds_sum"@.len() == 34);
    assert("_http_request_duration_seconds_count"@.len() == 36);
    assert("_http_request_processing_duration_seconds_bucket"@.len() == 48);
    assert("_http_request_processing_duration_seconds_sum"@.len() == 45);
    assert("_http_request_processing_duration_seconds_count"@.len() == 47);
    assert("_http_in_flight"@.len() == 15);
    assert("_http_processing_in_flight"@.len() == 26);
    let n = schema.prefix@.len();
    assert(schema.requests_total@.len() == n + 20);
    assert(schema.duration_bucket@.len() == n + 37);
    assert(schema.duration_sum@.len() == n + 34);
    assert(schema.duration_count@.len() == n + 36);
    assert(schema.processing_bucket@.len() == n + 48);
    assert(schema.processing_sum@.len() == n + 45);
    assert(schema.processing_count@.len() == n + 47);
    assert(schema.in_flight@.len() == n + 15);
    assert(schema.processing_in_flight@.len() == n + 26);
}

proof fn lemma_worker_name(schema: Schema, name: Seq<char>)
    requires
        schema.named(),
        name.len() >= schema.prefix@.len() + 8,
        name[schema.prefix@.len() as int + 1] == 'w',
    ensures
        name != schema.requests_total@,
        name != schema.duration_bucket@,
        name != schema.duration_sum@,
        name != schema.duration_count@,
        name != schema.processing_bucket@,
        name != schema.processing_sum@,
        name != schema.processing_count@,
        name != schema.in_flight@,
        name != schema.processing_in_flight@,
        name != "process_resident_memory_bytes"@,
        name != "process_start_time_seconds"@,
        !begins_with(name, schema.gauge_prefix@),
        !begins_with(name, schema.table_prefix@),
        !begins_with(name, schema.layout_prefix@),
{
    let at = schema.prefix@.len() + 1;
    reveal_strlit("_http_requests_total");
    reveal_strlit("_http_request_duration_seconds_bucket");
    reveal_strlit("_http_request_duration_seconds_sum");
    reveal_strlit("_http_request_duration_seconds_count");
    reveal_strlit("_http_request_processing_duration_seconds_bucket");
    reveal_strlit("_http_request_processing_duration_seconds_sum");
    reveal_strlit("_http_request_processing_duration_seconds_count");
    reveal_strlit("_http_in_flight");
    reveal_strlit("_http_processing_in_flight");
    reveal_strlit("_snapshot_");
    reveal_strlit("_table_");
    reveal_strlit("_layout_");
    assert(schema.requests_total@[at as int] == 'h');
    assert(schema.duration_bucket@[at as int] == 'h');
    assert(schema.duration_sum@[at as int] == 'h');
    assert(schema.duration_count@[at as int] == 'h');
    assert(schema.processing_bucket@[at as int] == 'h');
    assert(schema.processing_sum@[at as int] == 'h');
    assert(schema.processing_count@[at as int] == 'h');
    assert(schema.in_flight@[at as int] == 'h');
    assert(schema.processing_in_flight@[at as int] == 'h');
    lemma_other_start(name, schema.gauge_prefix@, at as int);
    lemma_other_start(name, schema.table_prefix@, at as int);
    lemma_other_start(name, schema.layout_prefix@, at as int);
    lemma_no_w(at as int);
}

proof fn lemma_other_start(name: Seq<char>, start: Seq<char>, at: int)
    requires
        0 <= at < start.len(),
        at < name.len(),
        name[at] != start[at],
    ensures
        !begins_with(name, start),
{
    if begins_with(name, start) {
        assert(name.take(start.len() as int)[at] == name[at]);
    }
}

proof fn lemma_no_w(at: int)
    ensures
        0 <= at < "process_resident_memory_bytes"@.len() ==> "process_resident_memory_bytes"@[at]
            != 'w',
        0 <= at < "process_start_time_seconds"@.len() ==> "process_start_time_seconds"@[at] != 'w',
{
    reveal_strlit("process_resident_memory_bytes");
    reveal_strlit("process_start_time_seconds");
}

/// Samples of a worker's tables and of groups are told apart from those of the worker,
/// whose names they begin like.
pub proof fn law_worker_samples_are_told_apart(schema: Schema, stem: Seq<char>)
    requires
        schema.named(),
    ensures
        family_of(schema, schema.prefix@ + "_worker_table_"@ + stem) is WorkerTable,
        family_of(schema, schema.prefix@ + "_worker_group_"@ + stem) is WorkerGroup,
        !begins_with(stem, "table_"@) && !begins_with(stem, "group_"@) ==> family_of(
            schema,
            schema.prefix@ + "_worker_"@ + stem,
        ) is Worker,
{
    reveal_strlit("_worker_table_");
    reveal_strlit("_worker_group_");
    reveal_strlit("_worker_");
    reveal_strlit("table_");
    reveal_strlit("group_");
    let n = schema.prefix@.len() as int;
    let table = schema.prefix@ + "_worker_table_"@ + stem;
    let group = schema.prefix@ + "_worker_group_"@ + stem;
    let worker = schema.prefix@ + "_worker_"@ + stem;
    lemma_worker_name(schema, table);
    lemma_worker_name(schema, group);
    lemma_worker_name(schema, worker);
    assert(table.take(n + 14) =~= schema.worker_table_prefix@);
    assert(group.take(n + 14) =~= schema.worker_group_prefix@);
    assert(worker.take(n + 8) =~= schema.worker_prefix@);
    assert(table[n + 8] == 't' && schema.worker_group_prefix@[n + 8] == 'g');
    lemma_other_start(table, schema.worker_group_prefix@, n + 8);
    assert("_worker_"@ + "table_"@ =~= "_worker_table_"@);
    assert("_worker_"@ + "group_"@ =~= "_worker_group_"@);
    assert(worker.skip(n + 8) =~= stem);
    if begins_with(worker, schema.worker_table_prefix@) {
        assert(stem.take(6) =~= worker.take(n + 14).skip(n + 8));
        assert(schema.worker_table_prefix@.skip(n + 8) =~= "table_"@);
    }
    if begins_with(worker, schema.worker_group_prefix@) {
        assert(stem.take(6) =~= worker.take(n + 14).skip(n + 8));
        assert(schema.worker_group_prefix@.skip(n + 8) =~= "group_"@);
    }
}

} // verus!
