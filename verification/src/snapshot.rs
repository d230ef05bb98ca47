//! Snapshot encoding and decoding.
//!
//! A snapshot is a text of lines: a magic line that names the version, a `NOW` record, then
//! further records, one a line. The decoder takes one line at a time.

use vstd::prelude::*;
use vstd::slice::slice_subrange;

use crate::text;
use crate::number;

verus! {

/// The magic line of the snapshots that this library writes.
pub const SNAPSHOT_MAGIC: &'static str = "LEMMALOG2";

/// The magic line of the first named version.
pub const SNAPSHOT_MAGIC_V1: &'static str = "LEMMALOG1";

/// The magic line of the oldest version.
pub const SNAPSHOT_MAGIC_V0: &'static str = "CORTEXLOG1";

/// How the fields of a snapshot are written.
#[derive(Clone, Copy, Debug, PartialEq, Eq, Structural)]
pub enum SnapshotVersion {
    /// Provenance is split at commas and a carriage return has no escape.
    Legacy,
    /// Provenance is length-prefixed and a carriage return has an escape.
    V2,
}

/// One argument of a stored fact.
#[derive(Clone, Debug, PartialEq, Eq)]
pub enum SnapshotValue {
    Symbol(String),
    Integer(i64),
}

/// One record of a snapshot. The confidence of a fact is kept as it is written.
#[derive(Clone, Debug, PartialEq, Eq)]
pub enum SnapshotRecord {
    Now(i64),
    Rules(String),
    Episode { id: String, timestamp: i64, speaker: Option<String>, text: String },
    Escalation(String),
    Fact {
        predicate: String,
        confidence: String,
        provenance: Vec<String>,
        arguments: Vec<SnapshotValue>,
    },
}

/// Why a snapshot cannot be read.
#[derive(Clone, Debug, PartialEq, Eq)]
pub enum SnapshotError {
    InvalidMagic(String),
    MissingNow,
    Malformed { line: usize, message: String },
}

// ---------------------------------------------------------------- meaning
/// What a [`SnapshotValue`] holds.
pub enum ValueView {
    Symbol(Seq<char>),
    Integer(int),
}

/// What a [`SnapshotRecord`] holds.
pub enum RecordView {
    Now(int),
    Rules(Seq<char>),
    Episode { id: Seq<char>, timestamp: int, speaker: Option<Seq<char>>, text: Seq<char> },
    Escalation(Seq<char>),
    Fact {
        predicate: Seq<char>,
        confidence: Seq<char>,
        provenance: Seq<Seq<char>>,
        arguments: Seq<ValueView>,
    },
}

/// What a [`SnapshotError`] holds.
pub enum ErrorView {
    InvalidMagic(Seq<char>),
    MissingNow,
    Malformed { line: int, message: Seq<char> },
}

impl View for SnapshotValue {
    type V = ValueView;

    open spec fn view(&self) -> ValueView {
        match *self {
            SnapshotValue::Symbol(s) => ValueView::Symbol(s@),
            SnapshotValue::Integer(i) => ValueView::Integer(i as int),
        }
    }
}

/// What a sequence of values holds.
pub open spec fn value_views(values: Seq<SnapshotValue>) -> Seq<ValueView> {
    values.map_values(|v: SnapshotValue| v@)
}

/// The text that an optional string holds.
pub open spec fn optional_text(s: Option<String>) -> Option<Seq<char>> {
    match s {
        Some(t) => Some(t@),
        None => None,
    }
}

impl View for SnapshotRecord {
    type V = RecordView;

    open spec fn view(&self) -> RecordView {
        match *self {
            SnapshotRecord::Now(now) => RecordView::Now(now as int),
            SnapshotRecord::Rules(rules) => RecordView::Rules(rules@),
            SnapshotRecord::Episode { id, timestamp, speaker, text } => RecordView::Episode {
                id: id@,
                timestamp: timestamp as int,
                speaker: optional_text(speaker),
                text: text@,
            },
            SnapshotRecord::Escalation(text) => RecordView::Escalation(text@),
            SnapshotRecord::Fact { predicate, confidence, provenance, arguments } => {
                RecordView::Fact {
                    predicate: predicate@,
                    confidence: confidence@,
                    provenance: text::texts(provenance@),
                    arguments: value_views(arguments@),
                }
            },
        }
    }
}

impl View for SnapshotError {
    type V = ErrorView;

    open spec fn view(&self) -> ErrorView {
        match *self {
            SnapshotError::InvalidMagic(magic) => ErrorView::InvalidMagic(magic@),
            SnapshotError::MissingNow => ErrorView::MissingNow,
            SnapshotError::Malformed { line, message } => ErrorView::Malformed {
                line: line as int,
                message: message@,
            },
        }
    }
}

/// How a character stands in an escaped text.
pub open spec fn escaped_char(c: char) -> Seq<char> {
    if c == '\\' {
        seq!['\\', '\\']
    } else if c == '\t' {
        seq!['\\', 't']
    } else if c == '\n' {
        seq!['\\', 'n']
    } else if c == '\r' {
        seq!['\\', 'r']
    } else if c == ' ' {
        seq!['\\', 's']
    } else {
        seq![c]
    }
}

/// The escaped form of `s`: one field of a record, without tabs, line endings and spaces.
pub open spec fn escaped(s: Seq<char>) -> Seq<char>
    decreases s.len(),
{
    if s.len() == 0 {
        seq![]
    } else {
        escaped_char(s[0]) + escaped(s.drop_first())
    }
}

/// What a backslash and the character `c` after it stand for.
pub open spec fn unescaped_pair(c: char, version: SnapshotVersion) -> Seq<char> {
    if c == 't' {
        seq!['\t']
    } else if c == 'n' {
        seq!['\n']
    } else if c == 'r' && version == SnapshotVersion::V2 {
        seq!['\r']
    } else if c == 's' {
        seq![' ']
    } else if c == '\\' {
        seq!['\\']
    } else {
        seq!['\\', c]
    }
}

/// The text whose escaped form is `s`; a backslash that begins no escape stands for itself.
pub open spec fn unescaped(s: Seq<char>, version: SnapshotVersion) -> Seq<char>
    decreases s.len(),
{
    if s.len() == 0 {
        seq![]
    } else if s[0] != '\\' {
        seq![s[0]] + unescaped(s.drop_first(), version)
    } else if s.len() == 1 {
        seq!['\\']
    } else {
        unescaped_pair(s[1], version) + unescaped(s.skip(2), version)
    }
}

/// One reference in length-prefixed form: the bytes of its escaped form, a colon, and that form.
pub open spec fn provenance_entry(value: Seq<char>) -> Seq<char> {
    number::decimal(text::byte_len(escaped(value))) + seq![':'] + escaped(value)
}

/// The length-prefixed form of a list of references.
pub open spec fn provenance_text(values: Seq<Seq<char>>) -> Seq<char>
    decreases values.len(),
{
    if values.len() == 0 {
        seq![]
    } else {
        provenance_entry(values[0]) + provenance_text(values.drop_first())
    }
}

/// The references that `s` lists in length-prefixed form, or why it lists none.
pub open spec fn read_provenance(s: Seq<char>) -> Result<Seq<Seq<char>>, Seq<char>>
    decreases s.len(),
{
    if s.len() == 0 {
        Ok(seq![])
    } else {
        match text::cut_char(s, ':') {
            None => Err("length has no colon"@),
            Some((length, rest)) => match number::read_unsigned(length, usize::MAX as nat) {
                None => Err("invalid length "@ + text::quoted(length)),
                Some(bytes) => match text::chars_in_bytes(rest, bytes as int) {
                    None => Err(
                        "length "@ + number::decimal(bytes) + " exceeds encoded value"@,
                    ),
                    Some(n) => {
                        proof {
                            text::lemma_cut_char_parts(s, ':');
                            text::lemma_chars_in_bytes_bound(rest, bytes as int);
                        }
                        match read_provenance(rest.skip(n)) {
                            Ok(values) => Ok(
                                seq![unescaped(rest.take(n), SnapshotVersion::V2)] + values,
                            ),
                            Err(message) => Err(message),
                        }
                    },
                },
            },
        }
    }
}

/// The references in a comma-separated list; empty ones are left out.
pub open spec fn legacy_references(parts: Seq<Seq<char>>) -> Seq<Seq<char>>
    decreases parts.len(),
{
    if parts.len() == 0 {
        seq![]
    } else {
        let values = legacy_references(parts.drop_last());
        if parts.last().len() == 0 {
            values
        } else {
            values.push(unescaped(parts.last(), SnapshotVersion::Legacy))
        }
    }
}

/// The provenance field of a fact.
pub open spec fn read_provenance_field(version: SnapshotVersion, field: Seq<char>) -> Result<
    Seq<Seq<char>>,
    Seq<char>,
> {
    match version {
        SnapshotVersion::Legacy => Ok(legacy_references(text::pieces(field, ','))),
        SnapshotVersion::V2 => match read_provenance(field) {
            Ok(values) => Ok(values),
            Err(message) => Err("bad provenance: "@ + message),
        },
    }
}

/// One argument of a fact.
pub open spec fn read_argument(version: SnapshotVersion, argument: Seq<char>) -> Result<
    ValueView,
    Seq<char>,
> {
    if text::begins(argument, "s:"@) {
        Ok(ValueView::Symbol(unescaped(argument.skip("s:"@.len() as int), version)))
    } else if text::begins(argument, "i:"@) {
        match number::read_i64(argument.skip("i:"@.len() as int)) {
            Some(i) => Ok(ValueView::Integer(i)),
            None => Err("invalid integer argument "@ + text::quoted(argument)),
        }
    } else {
        Err("invalid FACT argument "@ + text::quoted(argument))
    }
}

/// The arguments of a fact in the pieces of its last field; empty pieces are left out, and the
/// first piece that is no argument decides the message.
pub open spec fn read_arguments(version: SnapshotVersion, parts: Seq<Seq<char>>) -> Result<
    Seq<ValueView>,
    Seq<char>,
>
    decreases parts.len(),
{
    if parts.len() == 0 {
        Ok(seq![])
    } else {
        match read_arguments(version, parts.drop_last()) {
            Err(message) => Err(message),
            Ok(values) => if parts.last().len() == 0 {
                Ok(values)
            } else {
                match read_argument(version, parts.last()) {
                    Ok(value) => Ok(values.push(value)),
                    Err(message) => Err(message),
                }
            },
        }
    }
}

/// The payload of an `EP` record.
pub open spec fn read_episode(version: SnapshotVersion, payload: Seq<char>) -> Result<
    RecordView,
    Seq<char>,
> {
    let parts = text::fields(payload, '\t', 4);
    if parts.len() != 4 {
        Err("bad EP record"@)
    } else {
        match number::read_i64(parts[1]) {
            None => Err("invalid EP timestamp "@ + text::quoted(parts[1])),
            Some(timestamp) => Ok(
                RecordView::Episode {
                    id: unescaped(parts[0], version),
                    timestamp,
                    speaker: if parts[2].len() == 0 {
                        None
                    } else {
                        Some(unescaped(parts[2], version))
                    },
                    text: unescaped(parts[3], version),
                },
            ),
        }
    }
}

/// The payload of a `FACT` record.
pub open spec fn read_fact(version: SnapshotVersion, payload: Seq<char>) -> Result<
    RecordView,
    Seq<char>,
> {
    let parts = text::fields(payload, '\t', 4);
    if parts.len() != 4 {
        Err("bad FACT record"@)
    } else if !number::real_text(parts[1]) {
        Err("invalid FACT confidence "@ + text::quoted(parts[1]))
    } else {
        match read_provenance_field(version, parts[2]) {
            Err(message) => Err(message),
            Ok(provenance) => match read_arguments(version, text::pieces(parts[3], ' ')) {
                Err(message) => Err(message),
                Ok(arguments) => Ok(
                    RecordView::Fact {
                        predicate: parts[0],
                        confidence: parts[1],
                        provenance,
                        arguments,
                    },
                ),
            },
        }
    }
}

/// The record that a line holds, or why it holds none.
pub open spec fn read_record(version: SnapshotVersion, line: Seq<char>) -> Result<
    RecordView,
    Seq<char>,
> {
    match text::cut_char(line, '\t') {
        None => Err("record has no tab-separated payload"@),
        Some((tag, payload)) => if tag == "NOW"@ {
            match number::read_i64(payload) {
                Some(now) => Ok(RecordView::Now(now)),
                None => Err("invalid NOW value "@ + text::quoted(payload)),
            }
        } else if tag == "RULES"@ {
            Ok(RecordView::Rules(unescaped(payload, version)))
        } else if tag == "EP"@ {
            read_episode(version, payload)
        } else if tag == "ESC"@ {
            Ok(RecordView::Escalation(unescaped(payload, version)))
        } else if tag == "FACT"@ {
            read_fact(version, payload)
        } else {
            Err("unknown record tag "@ + text::quoted(tag))
        },
    }
}

/// The record that the line with the given number holds, or the error that it is.
pub open spec fn record_at(version: SnapshotVersion, number: int, line: Seq<char>) -> Result<
    RecordView,
    ErrorView,
> {
    match read_record(version, line) {
        Ok(record) => Ok(record),
        Err(message) => Err(ErrorView::Malformed { line: number, message }),
    }
}

/// Whether a record of a fact has a predicate that can be written and a real confidence.
pub open spec fn sound_record(record: RecordView) -> bool {
    record matches RecordView::Fact { predicate, confidence, .. } ==> {
        &&& !predicate.contains('\t')
        &&& !predicate.contains('\n')
        &&& number::real_text(confidence)
    }
}

/// What a line holds that is one line is sound.
pub proof fn read_records_are_sound(version: SnapshotVersion, line: Seq<char>)
    requires
        !line.contains('\n'),
    ensures
        read_record(version, line) matches Ok(record) ==> sound_record(record),
{
    text::lemma_cut_char_parts(line, '\t');
    if let Some((tag, payload)) = text::cut_char(line, '\t') {
        text::lemma_cut_char_parts(payload, '\t');
        reveal_with_fuel(text::fields, 3);
        if let Some((predicate, rest)) = text::cut_char(payload, '\t') {
            assert(text::fields(payload, '\t', 4)[0] == predicate);
            if predicate.contains('\n') {
                let k = choose|k: int| 0 <= k < predicate.len() && predicate[k] == '\n';
                assert(payload[k] == '\n');
                assert(line[tag.len() + 1 + k] == '\n');
            }
        }
    }
}

/// The version that a magic line names.
pub open spec fn version_of(magic: Seq<char>) -> Option<SnapshotVersion> {
    if magic == SNAPSHOT_MAGIC@ {
        Some(SnapshotVersion::V2)
    } else if magic == SNAPSHOT_MAGIC_V1@ || magic == SNAPSHOT_MAGIC_V0@ {
        Some(SnapshotVersion::Legacy)
    } else {
        None
    }
}

/// How a value stands among the arguments of a fact.
pub open spec fn argument_text(value: ValueView) -> Seq<char> {
    match value {
        ValueView::Symbol(s) => "s:"@ + escaped(s),
        ValueView::Integer(i) => "i:"@ + number::decimal_int(i),
    }
}

/// How the arguments of a fact stand in its last field.
pub open spec fn arguments_text(values: Seq<ValueView>) -> Seq<char> {
    text::join(values.map_values(|v: ValueView| argument_text(v)), seq![' '])
}

/// The speaker field of an `EP` record.
pub open spec fn speaker_text(speaker: Option<Seq<char>>) -> Seq<char> {
    match speaker {
        Some(s) => escaped(s),
        None => seq![],
    }
}

/// The line that holds a record, without its line ending.
pub open spec fn record_line(record: RecordView) -> Seq<char> {
    match record {
        RecordView::Now(now) => "NOW\t"@ + number::decimal_int(now),
        RecordView::Rules(rules) => "RULES\t"@ + escaped(rules),
        RecordView::Episode { id, timestamp, speaker, text } => "EP\t"@ + escaped(id) + seq!['\t']
            + number::decimal_int(timestamp) + seq!['\t'] + speaker_text(speaker) + seq!['\t']
            + escaped(text),
        RecordView::Escalation(text) => "ESC\t"@ + escaped(text),
        RecordView::Fact { predicate, confidence, provenance, arguments } => "FACT\t"@ + predicate
            + seq!['\t'] + confidence + seq!['\t'] + provenance_text(provenance) + seq!['\t']
            + arguments_text(arguments),
    }
}

/// The lines that hold records, each with its line ending.
pub open spec fn record_lines(records: Seq<RecordView>) -> Seq<char>
    decreases records.len(),
{
    if records.len() == 0 {
        seq![]
    } else {
        record_lines(records.drop_last()) + record_line(records.last()) + seq!['\n']
    }
}

/// The text of the snapshot that holds `records`.
pub open spec fn snapshot_text(records: Seq<RecordView>) -> Seq<char> {
    SNAPSHOT_MAGIC@ + seq!['\n'] + record_lines(records)
}

/// What a sequence of records holds.
pub open spec fn record_views(records: Seq<SnapshotRecord>) -> Seq<RecordView> {
    records.map_values(|r: SnapshotRecord| r@)
}

/// The records in the first `n` lines of a snapshot, of which the first is the magic line.
pub open spec fn records_upto(
    version: SnapshotVersion,
    lines: Seq<Seq<char>>,
    n: int,
) -> Result<Seq<RecordView>, ErrorView>
    decreases n,
{
    if n <= 1 {
        Ok(seq![])
    } else {
        match records_upto(version, lines, n - 1) {
            Err(error) => Err(error),
            Ok(records) => match record_at(version, n, lines[n - 1]) {
                Err(error) => Err(error),
                Ok(record) => if n == 2 && !(record is Now) {
                    Err(ErrorView::MissingNow)
                } else {
                    Ok(records.push(record))
                },
            },
        }
    }
}

/// The records in the lines of a snapshot, or why it cannot be read.
pub open spec fn read_lines(lines: Seq<Seq<char>>) -> Result<Seq<RecordView>, ErrorView> {
    if lines.len() == 0 {
        Err(ErrorView::InvalidMagic(seq![]))
    } else {
        match version_of(lines[0]) {
            None => Err(ErrorView::InvalidMagic(lines[0])),
            Some(version) => if lines.len() == 1 {
                Err(ErrorView::MissingNow)
            } else {
                records_upto(version, lines, lines.len() as int)
            },
        }
    }
}

/// The records of a snapshot, or why it cannot be read.
pub open spec fn read_snapshot(snapshot: Seq<char>) -> Result<Seq<RecordView>, ErrorView> {
    read_lines(text::lines(snapshot))
}

/// How an error is told to a reader.
pub open spec fn error_text(error: ErrorView) -> Seq<char> {
    match error {
        ErrorView::InvalidMagic(magic) => "not a lemmalog snapshot: magic "@ + text::quoted(magic),
        ErrorView::MissingNow => "snapshot is missing its NOW record"@,
        ErrorView::Malformed { line, message } => "malformed snapshot record at line "@
            + number::decimal_int(line) + ": "@ + message,
    }
}

// -------------------------------------------------------------- functions
/// Escapes a text for one field of a record.
pub fn escape(value: &str) -> (form: String)
    ensures
        form@ == escaped(value@),
{
    let chars: Vec<char> = text::chars_of(value);
    let mut form: String = String::new();
    assert(value@.skip(0) =~= value@);
    for i in 0..chars.len()
        invariant
            chars@ == value@,
            form@ + escaped(value@.skip(i as int)) == escaped(value@),
    {
        let c = chars[i];
        let ghost start = form@;
        if c == '\\' {
            form.push('\\');
            form.push('\\');
        } else if c == '\t' {
            form.push('\\');
            form.push('t');
        } else if c == '\n' {
            form.push('\\');
            form.push('n');
        } else if c == '\r' {
            form.push('\\');
            form.push('r');
        } else if c == ' ' {
            form.push('\\');
            form.push('s');
        } else {
            form.push(c);
        }
        assert(form@ =~= start + escaped_char(c));
        let ghost rest = value@.skip(i as int);
        assert(rest.drop_first() =~= value@.skip(i as int + 1));
        assert(form@ + escaped(rest.drop_first()) =~= start + escaped(rest));
    }
    assert(value@.skip(chars.len() as int) =~= seq![]);
    assert(form@ + escaped(seq![]) =~= form@);
    form
}

/// Takes the escapes out of one field of a record.
pub fn unescape(value: &[char], version: SnapshotVersion) -> (decoded: String)
    ensures
        decoded@ == unescaped(value@, version),
{
    let mut decoded: String = String::new();
    let mut i: usize = 0;
    let end: usize = value.len();
    assert(value@.skip(0) =~= value@);
    while i < end
        invariant
            end == value@.len(),
            i <= end,
            decoded@ + unescaped(value@.skip(i as int), version) == unescaped(value@, version),
        decreases end - i,
    {
        let c = value[i];
        let ghost start = decoded@;
        let ghost rest = value@.skip(i as int);
        assert(rest.drop_first() =~= value@.skip(i as int + 1));
        if c != '\\' {
            decoded.push(c);
            assert(decoded@ + unescaped(rest.drop_first(), version) =~= start + unescaped(
                rest,
                version,
            ));
            i = i + 1;
        } else if i + 1 == end {
            decoded.push('\\');
            assert(unescaped(value@.skip(i as int + 1), version) =~= seq![]);
            assert(decoded@ + unescaped(value@.skip(i as int + 1), version) =~= start + unescaped(
                rest,
                version,
            ));
            i = i + 1;
        } else {
            let next = value[i + 1];
            assert(rest[1] == next);
            assert(rest.skip(2) =~= value@.skip(i as int + 2));
            if next == 't' {
                decoded.push('\t');
            } else if next == 'n' {
                decoded.push('\n');
            } else if next == 'r' && version == SnapshotVersion::V2 {
                decoded.push('\r');
            } else if next == 's' {
                decoded.push(' ');
            } else if next == '\\' {
                decoded.push('\\');
            } else {
                decoded.push('\\');
                decoded.push(next);
            }
            assert(decoded@ =~= start + unescaped_pair(next, version));
            assert(decoded@ + unescaped(rest.skip(2), version) =~= start + unescaped(rest, version));
            i = i + 2;
        }
    }
    assert(decoded@ + unescaped(value@.skip(i as int), version) =~= decoded@);
    decoded
}

/// Writes references in length-prefixed form.
pub fn encode_provenance(values: &Vec<String>) -> (encoded: String)
    ensures
        encoded@ == provenance_text(text::texts(values@)),
{
    let mut encoded: String = String::new();
    let ghost all = text::texts(values@);
    assert(all.skip(0) =~= all);
    for i in 0..values.len()
        invariant
            all == text::texts(values@),
            encoded@ + provenance_text(all.skip(i as int)) == provenance_text(all),
    {
        let ghost start = encoded@;
        let ghost rest = all.skip(i as int);
        let value = escape(values[i].as_str());
        let length: usize = value.as_str().as_bytes().len();
        number::push_decimal(&mut encoded, length as u64);
        encoded.push(':');
        encoded.append(value.as_str());
        assert(encoded@ =~= start + provenance_entry(all[i as int]));
        assert(rest.drop_first() =~= all.skip(i as int + 1));
        assert(encoded@ + provenance_text(rest.drop_first()) =~= start + provenance_text(rest));
    }
    assert(all.skip(values.len() as int) =~= seq![]);
    assert(encoded@ + provenance_text(seq![]) =~= encoded@);
    encoded
}

/// Reads references in length-prefixed form.
pub fn decode_provenance(encoded: &[char]) -> (decoded: Result<Vec<String>, String>)
    ensures
        match decoded {
            Ok(values) => read_provenance(encoded@) == Ok::<Seq<Seq<char>>, Seq<char>>(
                text::texts(values@),
            ),
            Err(message) => read_provenance(encoded@) == Err::<Seq<Seq<char>>, Seq<char>>(message@),
        },
{
    let mut values: Vec<String> = Vec::new();
    let mut rest = encoded;
    while rest.len() > 0
        invariant
            read_provenance(encoded@) == match read_provenance(rest@) {
                Ok(more) => Ok::<Seq<Seq<char>>, Seq<char>>(text::texts(values@) + more),
                Err(message) => Err(message),
            },
        decreases rest@.len(),
    {
        proof {
            text::lemma_cut_char_parts(rest@, ':');
        }
        match text::split_once_char(rest, ':') {
            None => {
                return Err("length has no colon".to_owned());
            },
            Some((length, tail)) => {
                match number::parse_usize(length) {
                    None => {
                        let mut message: String = "invalid length ".to_owned();
                        message.append(text::quote(text::string_of(length).as_str()).as_str());
                        return Err(message);
                    },
                    Some(bytes) => {
                        match text::count_chars(tail, bytes) {
                            None => {
                                let mut message: String = "length ".to_owned();
                                number::push_decimal(&mut message, bytes as u64);
                                message.append(" exceeds encoded value");
                                return Err(message);
                            },
                            Some(count) => {
                                let ghost done = text::texts(values@);
                                let end: usize = tail.len();
                                let value = slice_subrange(tail, 0, count);
                                let remaining = slice_subrange(tail, count, end);
                                assert(value@ =~= tail@.take(count as int));
                                assert(remaining@ =~= tail@.skip(count as int));
                                values.push(unescape(value, SnapshotVersion::V2));
                                assert(text::texts(values@) =~= done.push(
                                    unescaped(value@, SnapshotVersion::V2),
                                ));
                                proof {
                                    if let Ok(more) = read_provenance(remaining@) {
                                        assert(done + (seq![unescaped(value@, SnapshotVersion::V2)]
                                            + more) =~= text::texts(values@) + more);
                                    }
                                }
                                rest = remaining;
                            },
                        }
                    },
                }
            },
        }
    }
    assert(text::texts(values@) + Seq::<Seq<char>>::empty() =~= text::texts(values@));
    Ok(values)
}

/// A message that ends with the quoted form of what it is about.
fn message_about(what: &str, about: &[char]) -> (message: String)
    ensures
        message@ == what@ + text::quoted(about@),
{
    let mut message: String = what.to_owned();
    message.append(text::quote(text::string_of(about).as_str()).as_str());
    message
}

/// Reads the provenance field of a fact.
fn parse_provenance(version: SnapshotVersion, field: &[char]) -> (parsed: Result<
    Vec<String>,
    String,
>)
    ensures
        match parsed {
            Ok(values) => read_provenance_field(version, field@) == Ok::<
                Seq<Seq<char>>,
                Seq<char>,
            >(text::texts(values@)),
            Err(message) => read_provenance_field(version, field@) == Err::<
                Seq<Seq<char>>,
                Seq<char>,
            >(message@),
        },
{
    match version {
        SnapshotVersion::Legacy => {
            let parts: Vec<String> = text::split_char(field, ',');
            let ghost all = text::texts(parts@);
            let mut values: Vec<String> = Vec::new();
            for i in 0..parts.len()
                invariant
                    all == text::texts(parts@),
                    text::texts(values@) == legacy_references(all.take(i as int)),
            {
                let ghost done = text::texts(values@);
                assert(all.take(i as int + 1).drop_last() =~= all.take(i as int));
                assert(all.take(i as int + 1).last() == parts@[i as int]@);
                if !parts[i].as_str().is_empty() {
                    let chars: Vec<char> = text::chars_of(parts[i].as_str());
                    values.push(unescape(chars.as_slice(), SnapshotVersion::Legacy));
                    assert(text::texts(values@) =~= done.push(
                        unescaped(parts@[i as int]@, SnapshotVersion::Legacy),
                    ));
                }
            }
            assert(all.take(parts.len() as int) =~= all);
            Ok(values)
        },
        SnapshotVersion::V2 => match decode_provenance(field) {
            Ok(values) => Ok(values),
            Err(why) => {
                let mut message: String = "bad provenance: ".to_owned();
                message.append(why.as_str());
                Err(message)
            },
        },
    }
}

/// Reads one argument of a fact.
fn parse_argument(version: SnapshotVersion, argument: &[char]) -> (parsed: Result<
    SnapshotValue,
    String,
>)
    ensures
        match parsed {
            Ok(value) => read_argument(version, argument@) == Ok::<ValueView, Seq<char>>(value@),
            Err(message) => read_argument(version, argument@) == Err::<ValueView, Seq<char>>(
                message@,
            ),
        },
{
    if let Some(symbol) = text::strip_prefix(argument, "s:") {
        Ok(SnapshotValue::Symbol(unescape(symbol, version)))
    } else if let Some(integer) = text::strip_prefix(argument, "i:") {
        match number::parse_i64(integer) {
            Some(i) => Ok(SnapshotValue::Integer(i)),
            None => Err(message_about("invalid integer argument ", argument)),
        }
    } else {
        Err(message_about("invalid FACT argument ", argument))
    }
}

/// Reads the arguments of a fact.
fn parse_arguments(version: SnapshotVersion, field: &[char]) -> (parsed: Result<
    Vec<SnapshotValue>,
    String,
>)
    ensures
        match parsed {
            Ok(values) => read_arguments(version, text::pieces(field@, ' ')) == Ok::<
                Seq<ValueView>,
                Seq<char>,
            >(value_views(values@)),
            Err(message) => read_arguments(version, text::pieces(field@, ' ')) == Err::<
                Seq<ValueView>,
                Seq<char>,
            >(message@),
        },
{
    let parts: Vec<String> = text::split_char(field, ' ');
    let ghost all = text::texts(parts@);
    let mut values: Vec<SnapshotValue> = Vec::new();
    assert(value_views(values@) =~= seq![]);
    for i in 0..parts.len()
        invariant
            all == text::texts(parts@),
            all == text::pieces(field@, ' '),
            read_arguments(version, all.take(i as int)) == Ok::<Seq<ValueView>, Seq<char>>(
                value_views(values@),
            ),
    {
        let ghost done = value_views(values@);
        assert(all.take(i as int + 1).drop_last() =~= all.take(i as int));
        assert(all.take(i as int + 1).last() == parts@[i as int]@);
        if !parts[i].as_str().is_empty() {
            let chars: Vec<char> = text::chars_of(parts[i].as_str());
            match parse_argument(version, chars.as_slice()) {
                Ok(value) => {
                    values.push(value);
                    assert(value_views(values@) =~= done.push(value@));
                },
                Err(message) => {
                    proof {
                        lemma_argument_error(version, all, i as int + 1);
                    }
                    return Err(message);
                },
            }
        }
    }
    assert(all.take(parts.len() as int) =~= all);
    Ok(values)
}

/// An error among the first arguments is the error of all.
proof fn lemma_argument_error(version: SnapshotVersion, parts: Seq<Seq<char>>, n: int)
    requires
        0 <= n <= parts.len(),
        read_arguments(version, parts.take(n)) is Err,
    ensures
        read_arguments(version, parts) == read_arguments(version, parts.take(n)),
    decreases parts.len(),
{
    if n == parts.len() {
        assert(parts.take(n) =~= parts);
    } else {
        assert(parts.drop_last().take(n) =~= parts.take(n));
        lemma_argument_error(version, parts.drop_last(), n);
    }
}

/// Reads the payload of an `EP` record.
fn parse_episode(version: SnapshotVersion, payload: &[char]) -> (parsed: Result<
    SnapshotRecord,
    String,
>)
    ensures
        match parsed {
            Ok(record) => read_episode(version, payload@) == Ok::<RecordView, Seq<char>>(record@),
            Err(message) => read_episode(version, payload@) == Err::<RecordView, Seq<char>>(
                message@,
            ),
        },
{
    match text::split_four(payload, '\t') {
        None => Err("bad EP record".to_owned()),
        Some((id, timestamp, speaker, text)) => match number::parse_i64(timestamp) {
            None => Err(message_about("invalid EP timestamp ", timestamp)),
            Some(seconds) => Ok(
                SnapshotRecord::Episode {
                    id: unescape(id, version),
                    timestamp: seconds,
                    speaker: if speaker.len() == 0 {
                        None
                    } else {
                        Some(unescape(speaker, version))
                    },
                    text: unescape(text, version),
                },
            ),
        },
    }
}

/// Reads the payload of a `FACT` record.
fn parse_fact(version: SnapshotVersion, payload: &[char]) -> (parsed: Result<
    SnapshotRecord,
    String,
>)
    ensures
        match parsed {
            Ok(record) => read_fact(version, payload@) == Ok::<RecordView, Seq<char>>(record@),
            Err(message) => read_fact(version, payload@) == Err::<RecordView, Seq<char>>(message@),
        },
{
    match text::split_four(payload, '\t') {
        None => Err("bad FACT record".to_owned()),
        Some((predicate, confidence, provenance, arguments)) => {
            if !number::is_real_text(confidence) {
                return Err(message_about("invalid FACT confidence ", confidence));
            }
            match parse_provenance(version, provenance) {
                Err(message) => Err(message),
                Ok(references) => match parse_arguments(version, arguments) {
                    Err(message) => Err(message),
                    Ok(values) => Ok(
                        SnapshotRecord::Fact {
                            predicate: text::string_of(predicate),
                            confidence: text::string_of(confidence),
                            provenance: references,
                            arguments: values,
                        },
                    ),
                },
            }
        },
    }
}

/// Reads one line of a snapshot, without its line ending.
pub fn parse_record(version: SnapshotVersion, line_number: usize, line: &str) -> (parsed: Result<
    SnapshotRecord,
    SnapshotError,
>)
    ensures
        match parsed {
            Ok(record) => record_at(version, line_number as int, line@) == Ok::<
                RecordView,
                ErrorView,
            >(record@),
            Err(error) => record_at(version, line_number as int, line@) == Err::<
                RecordView,
                ErrorView,
            >(error@),
        },
{
    let chars: Vec<char> = text::chars_of(line);
    let read: Result<SnapshotRecord, String> = match text::split_once_char(chars.as_slice(), '\t') {
        None => Err("record has no tab-separated payload".to_owned()),
        Some((tag, payload)) => {
            if text::is_text(tag, "NOW") {
                match number::parse_i64(payload) {
                    Some(now) => Ok(SnapshotRecord::Now(now)),
                    None => Err(message_about("invalid NOW value ", payload)),
                }
            } else if text::is_text(tag, "RULES") {
                Ok(SnapshotRecord::Rules(unescape(payload, version)))
            } else if text::is_text(tag, "EP") {
                parse_episode(version, payload)
            } else if text::is_text(tag, "ESC") {
                Ok(SnapshotRecord::Escalation(unescape(payload, version)))
            } else if text::is_text(tag, "FACT") {
                parse_fact(version, payload)
            } else {
                Err(message_about("unknown record tag ", tag))
            }
        },
    };
    match read {
        Ok(record) => Ok(record),
        Err(message) => Err(SnapshotError::Malformed { line: line_number, message }),
    }
}

/// Writes one argument of a fact.
fn push_argument(out: &mut String, value: &SnapshotValue)
    ensures
        final(out)@ == old(out)@ + argument_text(value@),
{
    let ghost start = out@;
    match value {
        SnapshotValue::Symbol(symbol) => {
            out.append("s:");
            out.append(escape(symbol.as_str()).as_str());
        },
        SnapshotValue::Integer(integer) => {
            out.append("i:");
            out.append(number::int_text(*integer).as_str());
        },
    }
    assert(out@ =~= start + argument_text(value@));
}

/// Writes the arguments of a fact.
fn push_arguments(out: &mut String, values: &Vec<SnapshotValue>)
    ensures
        final(out)@ == old(out)@ + arguments_text(value_views(values@)),
{
    let ghost start = out@;
    let ghost all = value_views(values@).map_values(|v: ValueView| argument_text(v));
    assert(start + text::join(all.take(0), seq![' ']) =~= start);
    for i in 0..values.len()
        invariant
            all == value_views(values@).map_values(|v: ValueView| argument_text(v)),
            out@ == start + text::join(all.take(i as int), seq![' ']),
    {
        if i > 0 {
            out.push(' ');
        }
        push_argument(out, &values[i]);
        assert(all.take(i as int + 1).drop_last() =~= all.take(i as int));
        assert(out@ =~= start + text::join(all.take(i as int + 1), seq![' ']));
    }
    assert(all.take(values.len() as int) =~= all);
}

/// Writes one record as a line, without its line ending.
pub fn encode_record(record: &SnapshotRecord) -> (line: String)
    ensures
        line@ == record_line(record@),
{
    let mut line: String = String::new();
    match record {
        SnapshotRecord::Now(now) => {
            line.append("NOW\t");
            line.append(number::int_text(*now).as_str());
        },
        SnapshotRecord::Rules(rules) => {
            line.append("RULES\t");
            line.append(escape(rules.as_str()).as_str());
        },
        SnapshotRecord::Episode { id, timestamp, speaker, text } => {
            line.append("EP\t");
            line.append(escape(id.as_str()).as_str());
            line.push('\t');
            line.append(number::int_text(*timestamp).as_str());
            line.push('\t');
            if let Some(name) = speaker {
                line.append(escape(name.as_str()).as_str());
            }
            line.push('\t');
            line.append(escape(text.as_str()).as_str());
        },
        SnapshotRecord::Escalation(text) => {
            line.append("ESC\t");
            line.append(escape(text.as_str()).as_str());
        },
        SnapshotRecord::Fact { predicate, confidence, provenance, arguments } => {
            line.append("FACT\t");
            line.append(predicate.as_str());
            line.push('\t');
            line.append(confidence.as_str());
            line.push('\t');
            line.append(encode_provenance(provenance).as_str());
            line.push('\t');
            push_arguments(&mut line, arguments);
        },
    }
    assert(line@ =~= record_line(record@));
    line
}

/// Writes the snapshot that holds `records`.
pub fn encode_snapshot(records: &Vec<SnapshotRecord>) -> (snapshot: String)
    ensures
        snapshot@ == snapshot_text(record_views(records@)),
{
    let mut snapshot: String = SNAPSHOT_MAGIC.to_owned();
    snapshot.push('\n');
    let ghost start = snapshot@;
    let ghost all = record_views(records@);
    assert(start + record_lines(all.take(0)) =~= start);
    for i in 0..records.len()
        invariant
            all == record_views(records@),
            snapshot@ == start + record_lines(all.take(i as int)),
    {
        snapshot.append(encode_record(&records[i]).as_str());
        snapshot.push('\n');
        assert(all.take(i as int + 1).drop_last() =~= all.take(i as int));
        assert(snapshot@ =~= start + record_lines(all.take(i as int + 1)));
    }
    assert(all.take(records.len() as int) =~= all);
    snapshot
}

impl SnapshotError {
    /// Tells the error to a reader.
    pub fn message(&self) -> (told: String)
        ensures
            told@ == error_text(self@),
    {
        match self {
            SnapshotError::InvalidMagic(magic) => {
                let mut told: String = "not a lemmalog snapshot: magic ".to_owned();
                told.append(text::quote(magic.as_str()).as_str());
                told
            },
            SnapshotError::MissingNow => "snapshot is missing its NOW record".to_owned(),
            SnapshotError::Malformed { line, message } => {
                let mut told: String = "malformed snapshot record at line ".to_owned();
                told.append(number::size_text(*line).as_str());
                told.append(": ");
                told.append(message.as_str());
                told
            },
        }
    }
}

/// A line without its line feed and the carriage return before it.
pub fn strip_ending(line: &str) -> (content: String)
    ensures
        content@ == without_ending(line@),
{
    let chars: Vec<char> = text::chars_of(line);
    let mut end: usize = chars.len();
    if end > 0 && chars[end - 1] == '\n' {
        end = end - 1;
        if end > 0 && chars[end - 1] == '\r' {
            end = end - 1;
        }
    }
    let content = slice_subrange(chars.as_slice(), 0, end);
    assert(content@ =~= without_ending(line@));
    text::string_of(content)
}

/// Reads a snapshot one line at a time.
pub struct SnapshotReader {
    version: Option<SnapshotVersion>,
    line_number: usize,
    peak_record_buffer_bytes: usize,
}

/// What a [`SnapshotReader`] has come to.
pub struct ReaderView {
    /// The version that the magic line named.
    pub version: Option<SnapshotVersion>,
    /// The number of lines that were read.
    pub line_number: int,
    /// The most bytes that the buffer of a line was reported to hold.
    pub peak: int,
}

impl View for SnapshotReader {
    type V = ReaderView;

    closed spec fn view(&self) -> ReaderView {
        ReaderView {
            version: self.version,
            line_number: self.line_number as int,
            peak: self.peak_record_buffer_bytes as int,
        }
    }
}

/// What the line with the given number gives: nothing for the magic line, a record for any
/// other, of which the first must be a `NOW` record.
pub open spec fn line_gives(
    version: Option<SnapshotVersion>,
    number: int,
    line: Seq<char>,
) -> Result<Option<RecordView>, ErrorView> {
    if number == 1 {
        match version_of(line) {
            None => Err(ErrorView::InvalidMagic(line)),
            Some(_) => Ok(None),
        }
    } else {
        match record_at(version->0, number, line) {
            Err(error) => Err(error),
            Ok(record) => if number == 2 && !(record is Now) {
                Err(ErrorView::MissingNow)
            } else {
                Ok(Some(record))
            },
        }
    }
}

/// A line without its line feed and the carriage return before it; a line without a line feed
/// is kept.
pub open spec fn without_ending(line: Seq<char>) -> Seq<char> {
    if line.len() > 0 && line.last() == '\n' {
        text::without_return(line.drop_last())
    } else {
        line
    }
}

/// What a line gave, as its view.
pub open spec fn given_view(given: Result<Option<SnapshotRecord>, SnapshotError>) -> Result<
    Option<RecordView>,
    ErrorView,
> {
    match given {
        Ok(Some(record)) => Ok(Some(record@)),
        Ok(None) => Ok(None),
        Err(error) => Err(error@),
    }
}

impl ReaderView {
    /// Whether a further line can be read: none was, or the magic line was accepted.
    pub open spec fn ready(self) -> bool {
        0 <= self.line_number && (self.line_number == 0 || self.version is Some)
    }

    /// The reader after one more line.
    pub open spec fn after(self, line: Seq<char>, buffer_bytes: int) -> ReaderView {
        ReaderView {
            version: if self.line_number == 0 {
                version_of(line)
            } else {
                self.version
            },
            line_number: self.line_number + 1,
            peak: if buffer_bytes > self.peak {
                buffer_bytes
            } else {
                self.peak
            },
        }
    }
}

impl SnapshotReader {
    /// A reader that has read nothing.
    pub fn new() -> (reader: SnapshotReader)
        ensures
            reader@ == (ReaderView { version: None, line_number: 0, peak: 0 }),
    {
        SnapshotReader { version: None, line_number: 0, peak_record_buffer_bytes: 0 }
    }

    /// The most bytes that the buffer of a line was reported to hold.
    pub fn peak_record_buffer_bytes(&self) -> (bytes: usize)
        ensures
            bytes == self@.peak,
    {
        self.peak_record_buffer_bytes
    }

    /// The number of lines that were read.
    pub fn line_number(&self) -> (number: usize)
        ensures
            number == self@.line_number,
    {
        self.line_number
    }

    /// Reads one line, without its line ending, out of a buffer of `buffer_bytes` bytes.
    pub fn accept(&mut self, line: &str, buffer_bytes: usize) -> (given: Result<
        Option<SnapshotRecord>,
        SnapshotError,
    >)
        requires
            old(self)@.ready(),
            old(self)@.line_number < usize::MAX,
        ensures
            final(self)@ == old(self)@.after(line@, buffer_bytes as int),
            given_view(given) == line_gives(
                old(self)@.version,
                old(self)@.line_number + 1,
                line@,
            ),
    {
        self.line_number = self.line_number + 1;
        if buffer_bytes > self.peak_record_buffer_bytes {
            self.peak_record_buffer_bytes = buffer_bytes;
        }
        if self.line_number == 1 {
            self.version = if text::same_text(line, SNAPSHOT_MAGIC) {
                Some(SnapshotVersion::V2)
            } else if text::same_text(line, SNAPSHOT_MAGIC_V1) || text::same_text(
                line,
                SNAPSHOT_MAGIC_V0,
            ) {
                Some(SnapshotVersion::Legacy)
            } else {
                None
            };
            return if self.version.is_some() {
                Ok(None)
            } else {
                Err(SnapshotError::InvalidMagic(line.to_owned()))
            };
        }
        match self.version {
            None => Err(SnapshotError::MissingNow),
            Some(version) => match parse_record(version, self.line_number, line) {
                Err(error) => Err(error),
                Ok(record) => {
                    if self.line_number == 2 {
                        if let SnapshotRecord::Now(_) = record {
                            Ok(Some(record))
                        } else {
                            Err(SnapshotError::MissingNow)
                        }
                    } else {
                        Ok(Some(record))
                    }
                },
            },
        }
    }

    /// Reads one line with its line ending, as it was read into a buffer of `buffer_bytes` bytes.
    pub fn read_line(&mut self, line: &str, buffer_bytes: usize) -> (given: Result<
        Option<SnapshotRecord>,
        SnapshotError,
    >)
        requires
            old(self)@.ready(),
            old(self)@.line_number < usize::MAX,
        ensures
            final(self)@ == old(self)@.after(without_ending(line@), buffer_bytes as int),
            given_view(given) == line_gives(
                old(self)@.version,
                old(self)@.line_number + 1,
                without_ending(line@),
            ),
    {
        self.accept(strip_ending(line).as_str(), buffer_bytes)
    }

    /// Ends the snapshot: it must have had its two header lines.
    pub fn finish(&self) -> (done: Result<(), SnapshotError>)
        ensures
            match done {
                Ok(_) => self@.line_number != 0 && self@.line_number != 1,
                Err(error) => if self@.line_number == 0 {
                    error@ == ErrorView::InvalidMagic(seq![])
                } else {
                    self@.line_number == 1 && error@ == ErrorView::MissingNow
                },
            },
    {
        if self.line_number == 0 {
            let magic: String = String::new();
            assert(magic@ =~= seq![]);
            Err(SnapshotError::InvalidMagic(magic))
        } else if self.line_number == 1 {
            Err(SnapshotError::MissingNow)
        } else {
            Ok(())
        }
    }
}

/// Reads a whole snapshot.
pub fn decode_snapshot(snapshot: &str) -> (decoded: Result<Vec<SnapshotRecord>, SnapshotError>)
    ensures
        match decoded {
            Ok(records) => read_snapshot(snapshot@) == Ok::<Seq<RecordView>, ErrorView>(
                record_views(records@),
            ),
            Err(error) => read_snapshot(snapshot@) == Err::<Seq<RecordView>, ErrorView>(error@),
        },
{
    let chars: Vec<char> = text::chars_of(snapshot);
    let lines: Vec<String> = text::split_lines(chars.as_slice());
    let ghost all = text::texts(lines@);
    let mut reader = SnapshotReader::new();
    let mut records: Vec<SnapshotRecord> = Vec::new();
    assert(record_views(records@) =~= seq![]);
    for i in 0..lines.len()
        invariant
            all == text::texts(lines@),
            all == text::lines(snapshot@),
            reader@.ready(),
            reader@.line_number == i,
            i == 0 ==> records@.len() == 0,
            i > 0 ==> version_of(all[0]) == reader@.version,
            i > 0 ==> records_upto(reader@.version->0, all, i as int) == Ok::<
                Seq<RecordView>,
                ErrorView,
            >(record_views(records@)),
    {
        let ghost done = record_views(records@);
        let ghost before = reader@;
        match reader.accept(lines[i].as_str(), 0) {
            Err(error) => {
                proof {
                    if i > 0 {
                        lemma_record_error(before.version->0, all, i as int + 1, all.len() as int);
                    }
                }
                return Err(error);
            },
            Ok(None) => {
                assert(record_views(records@) =~= seq![]);
            },
            Ok(Some(record)) => {
                records.push(record);
                assert(record_views(records@) =~= done.push(record@));
            },
        }
    }
    match reader.finish() {
        Err(error) => Err(error),
        Ok(_) => Ok(records),
    }
}

/// Which records lines hold depends on those lines alone, and not on the magic line but for its
/// version.
pub proof fn lemma_records_same(
    version: SnapshotVersion,
    a: Seq<Seq<char>>,
    b: Seq<Seq<char>>,
    n: int,
)
    requires
        n <= a.len(),
        n <= b.len(),
        forall|i: int| 1 <= i < n ==> a[i] == b[i],
    ensures
        records_upto(version, a, n) == records_upto(version, b, n),
    decreases n,
{
    if n > 1 {
        lemma_records_same(version, a, b, n - 1);
    }
}

/// An error in the first lines is the error of all.
pub proof fn lemma_record_error(version: SnapshotVersion, lines: Seq<Seq<char>>, n: int, m: int)
    requires
        1 <= n <= m,
        records_upto(version, lines, n) is Err,
    ensures
        records_upto(version, lines, m) == records_upto(version, lines, n),
    decreases m,
{
    if n < m {
        lemma_record_error(version, lines, n, m - 1);
    }
}

} // verus!
