//! Bounded lexical search over the facts of a snapshot.
//!
//! Each fact that holds now is one row of text. The rows are searched with a regular expression,
//! and of the lines that match only the first ones in lexical order are kept.

use grep_regex::RegexMatcherBuilder;
use grep_searcher::sinks::UTF8;
use grep_searcher::Searcher;
use vstd::prelude::*;
use vstd::slice::slice_subrange;

use crate::number;
use crate::snapshot;
use crate::snapshot::{ErrorView, RecordView, SnapshotError, SnapshotReader, SnapshotRecord};
use crate::snapshot::{SnapshotValue, ValueView};
use crate::sorted;
use crate::text;

verus! {

// ------------------------------------------------------------------- rows
/// How a value is shown in a row.
pub open spec fn shown(value: ValueView) -> Seq<char> {
    match value {
        ValueView::Symbol(symbol) => symbol,
        ValueView::Integer(integer) => number::decimal_int(integer),
    }
}

/// The row of a statement.
pub open spec fn row_text(
    scope: Seq<char>,
    subject: ValueView,
    predicate: ValueView,
    object: ValueView,
    provenance: Seq<Seq<char>>,
) -> Seq<char> {
    scope + "\t"@ + shown(subject) + " --"@ + shown(predicate) + "--> "@ + shown(object)
        + "\tprovenance="@ + text::join(provenance, ","@)
}

/// Whether `now` lies between the two arguments: the first is the first moment of validity,
/// the second the first moment after it.
pub open spec fn valid_at(arguments: Seq<ValueView>, from: int, to: int, now: int) -> bool {
    match (arguments[from], arguments[to]) {
        (ValueView::Integer(valid_from), ValueView::Integer(valid_to)) => valid_from <= now
            < valid_to,
        _ => false,
    }
}

/// The row of an `edge` fact, which belongs to the given scope.
pub open spec fn edge_row(
    scope: Seq<char>,
    arguments: Seq<ValueView>,
    now: int,
    provenance: Seq<Seq<char>>,
) -> Option<Seq<char>> {
    if arguments.len() != 6 || !valid_at(arguments, 3, 4, now) {
        None
    } else {
        Some(row_text(scope, arguments[0], arguments[1], arguments[2], provenance))
    }
}

/// The scope and the row of a `scoped_edge` fact.
pub open spec fn scoped_edge_row(
    arguments: Seq<ValueView>,
    now: int,
    provenance: Seq<Seq<char>>,
) -> Option<(Seq<char>, Seq<char>)> {
    if arguments.len() != 7 || !valid_at(arguments, 4, 5, now) {
        None
    } else {
        match arguments[0] {
            ValueView::Symbol(scope) => Some(
                (scope, row_text(scope, arguments[1], arguments[2], arguments[3], provenance)),
            ),
            ValueView::Integer(_) => None,
        }
    }
}

/// Which facts are searched.
#[verifier::ext_equal]
pub struct PolicyView {
    /// The scopes that are searched; all where none is given.
    pub selected: Option<Seq<Seq<char>>>,
    /// The scope that facts without one belong to.
    pub legacy: Seq<char>,
    /// Whether facts without a scope are searched.
    pub include_legacy: bool,
}

impl PolicyView {
    /// Whether a scope is searched.
    pub open spec fn selects(self, scope: Seq<char>) -> bool {
        match self.selected {
            None => true,
            Some(scopes) => scopes.contains(scope),
        }
    }

    /// The row of a record, where it has one that is searched.
    pub open spec fn row(self, now: int, record: RecordView) -> Option<Seq<char>> {
        match record {
            RecordView::Fact { predicate, provenance, arguments, .. } => if predicate == "edge"@ {
                if self.include_legacy {
                    edge_row(self.legacy, arguments, now, provenance)
                } else {
                    None
                }
            } else if predicate == "scoped_edge"@ {
                match scoped_edge_row(arguments, now, provenance) {
                    Some((scope, row)) if self.selects(scope) => Some(row),
                    _ => None,
                }
            } else {
                None
            },
            _ => None,
        }
    }

    /// The rows of records, in their order.
    pub open spec fn rows(self, now: int, records: Seq<RecordView>) -> Seq<Seq<char>>
        decreases records.len(),
    {
        if records.len() == 0 {
            seq![]
        } else {
            let rows = self.rows(now, records.drop_last());
            match self.row(now, records.last()) {
                Some(row) => rows.push(row),
                None => rows,
            }
        }
    }
}

/// The time that the first record tells.
pub open spec fn time_of(records: Seq<RecordView>) -> int {
    records[0]->Now_0
}

/// Shows a value.
pub fn display_value(value: &SnapshotValue) -> (form: String)
    ensures
        form@ == shown(value@),
{
    match value {
        SnapshotValue::Symbol(symbol) => symbol.as_str().to_owned(),
        SnapshotValue::Integer(integer) => number::int_text(*integer),
    }
}

/// Writes the row of a statement.
pub fn render_row(
    scope: &str,
    subject: &SnapshotValue,
    predicate: &SnapshotValue,
    object: &SnapshotValue,
    provenance: &Vec<String>,
) -> (row: String)
    ensures
        row@ == row_text(scope@, subject@, predicate@, object@, text::texts(provenance@)),
{
    let mut row: String = scope.to_owned();
    row.append("\t");
    row.append(display_value(subject).as_str());
    row.append(" --");
    row.append(display_value(predicate).as_str());
    row.append("--> ");
    row.append(display_value(object).as_str());
    row.append("\tprovenance=");
    row.append(text::join_strings(provenance, ",").as_str());
    row
}

/// Whether `now` lies between two arguments.
pub fn temporally_valid(
    arguments: &Vec<SnapshotValue>,
    valid_from_index: usize,
    valid_to_index: usize,
    now: i64,
) -> (valid: bool)
    requires
        valid_from_index < arguments@.len(),
        valid_to_index < arguments@.len(),
    ensures
        valid == valid_at(
            snapshot::value_views(arguments@),
            valid_from_index as int,
            valid_to_index as int,
            now as int,
        ),
{
    match (&arguments[valid_from_index], &arguments[valid_to_index]) {
        (SnapshotValue::Integer(valid_from), SnapshotValue::Integer(valid_to)) => *valid_from <= now
            && now < *valid_to,
        _ => false,
    }
}

/// Writes the row of an `edge` fact.
pub fn render_edge(
    scope: &str,
    arguments: &Vec<SnapshotValue>,
    now: i64,
    provenance: &Vec<String>,
) -> (row: Option<String>)
    ensures
        snapshot::optional_text(row) == edge_row(
            scope@,
            snapshot::value_views(arguments@),
            now as int,
            text::texts(provenance@),
        ),
{
    if arguments.len() != 6 || !temporally_valid(arguments, 3, 4, now) {
        return None;
    }
    Some(render_row(scope, &arguments[0], &arguments[1], &arguments[2], provenance))
}

/// Writes the row of a `scoped_edge` fact, and says its scope.
pub fn render_scoped_edge(
    arguments: &Vec<SnapshotValue>,
    now: i64,
    provenance: &Vec<String>,
) -> (row: Option<(String, String)>)
    ensures
        match row {
            Some((scope, row)) => scoped_edge_row(
                snapshot::value_views(arguments@),
                now as int,
                text::texts(provenance@),
            ) == Some((scope@, row@)),
            None => scoped_edge_row(
                snapshot::value_views(arguments@),
                now as int,
                text::texts(provenance@),
            ) is None,
        },
{
    if arguments.len() != 7 || !temporally_valid(arguments, 4, 5, now) {
        return None;
    }
    match &arguments[0] {
        SnapshotValue::Integer(_) => None,
        SnapshotValue::Symbol(scope) => {
            let row: String = render_row(
                scope.as_str(),
                &arguments[1],
                &arguments[2],
                &arguments[3],
                provenance,
            );
            Some((scope.as_str().to_owned(), row))
        },
    }
}

/// Turns records into the rows that are searched.
pub struct FactRowReader {
    now: i64,
    selected_scopes: Option<Vec<String>>,
    legacy_scope: String,
    include_legacy: bool,
}

/// The texts of a list that may be missing.
pub open spec fn optional_texts(strings: Option<Vec<String>>) -> Option<Seq<Seq<char>>> {
    match strings {
        Some(strings) => Some(text::texts(strings@)),
        None => None,
    }
}

impl FactRowReader {
    /// The time at which facts must hold.
    pub closed spec fn time(&self) -> int {
        self.now as int
    }

    /// Which facts are searched.
    pub closed spec fn policy(&self) -> PolicyView {
        PolicyView {
            selected: optional_texts(self.selected_scopes),
            legacy: self.legacy_scope@,
            include_legacy: self.include_legacy,
        }
    }

    /// A reader of the facts that hold at `now`.
    pub fn new(
        now: i64,
        selected_scopes: Option<Vec<String>>,
        legacy_scope: String,
        include_legacy: bool,
    ) -> (facts: FactRowReader)
        ensures
            facts.time() == now,
            facts.policy() == (PolicyView {
                selected: optional_texts(selected_scopes),
                legacy: legacy_scope@,
                include_legacy,
            }),
    {
        FactRowReader { now, selected_scopes, legacy_scope, include_legacy }
    }

    /// Sets the time at which facts must hold.
    pub fn set_time(&mut self, now: i64)
        ensures
            final(self).time() == now,
            final(self).policy() == old(self).policy(),
    {
        self.now = now;
    }

    /// Whether a scope is searched.
    pub fn scope_selected(&self, scope: &str) -> (selected: bool)
        ensures
            selected == self.policy().selects(scope@),
    {
        match &self.selected_scopes {
            None => true,
            Some(scopes) => sorted::has(scopes, scope),
        }
    }

    /// The row of a record, where it has one that is searched.
    pub fn row(&self, record: &SnapshotRecord) -> (row: Option<String>)
        ensures
            snapshot::optional_text(row) == self.policy().row(self.time(), record@),
    {
        match record {
            SnapshotRecord::Fact { predicate, provenance, arguments, .. } => {
                if text::same_text(predicate.as_str(), "edge") {
                    if self.include_legacy {
                        render_edge(self.legacy_scope.as_str(), arguments, self.now, provenance)
                    } else {
                        None
                    }
                } else if text::same_text(predicate.as_str(), "scoped_edge") {
                    match render_scoped_edge(arguments, self.now, provenance) {
                        None => None,
                        Some((scope, row)) => if self.scope_selected(scope.as_str()) {
                            Some(row)
                        } else {
                            None
                        },
                    }
                } else {
                    None
                }
            },
            _ => None,
        }
    }
}

// --------------------------------------------------------------- matching
/// What is wrong with a regular expression, as `RegexMatcherBuilder::build` tells it.
pub uninterp spec fn regex_error(pattern: Seq<char>) -> Option<Seq<char>>;

/// Whether a regular expression matches a line, which is without its line feed: what
/// `Matcher::is_match` returns for the matcher that `RegexMatcherBuilder::build` makes of it
/// with `case_smart` on.
pub uninterp spec fn regex_matches(pattern: Seq<char>, line: Seq<char>) -> bool;

/// The lines of a text, each with the line feed that ends it. What follows the last line feed is
/// a line only where it is not empty.
pub open spec fn fed_lines(s: Seq<char>) -> Seq<Seq<char>>
    decreases s.len(),
{
    if s.len() == 0 {
        seq![]
    } else {
        match text::first_char(s, '\n') {
            None => seq![s],
            Some(i) => {
                proof {
                    text::lemma_first_char(s, '\n');
                }
                seq![s.take(i + 1)] + fed_lines(s.skip(i + 1))
            },
        }
    }
}

/// A line without the line feed that ends it.
pub open spec fn without_feed(line: Seq<char>) -> Seq<char> {
    if line.len() > 0 && line.last() == '\n' {
        line.drop_last()
    } else {
        line
    }
}

/// A text without the byte order mark that it begins with.
pub open spec fn without_mark(s: Seq<char>) -> Seq<char> {
    if s.len() > 0 && s[0] == '\u{feff}' {
        s.drop_first()
    } else {
        s
    }
}

/// Those of some lines that a regular expression matches.
pub open spec fn matching(pattern: Seq<char>, lines: Seq<Seq<char>>) -> Seq<Seq<char>> {
    lines.filter(|line: Seq<char>| regex_matches(pattern, without_feed(line)))
}

/// `RegexMatcherBuilder::build` with `case_smart` on: the text of its error, where it returns
/// one. The text is a function of the pattern alone; which patterns are refused is not stated.
#[verifier::external_body]
fn pattern_error(pattern: &str) -> (error: Option<String>)
    ensures
        snapshot::optional_text(error) == regex_error(pattern@),
{
    match RegexMatcherBuilder::new().case_smart(true).build(pattern) {
        Ok(_) => None,
        Err(error) => Some(error.to_string()),
    }
}

/// Notes a line that matched, and asks for the next one.
fn note_line(found: &mut Vec<String>, line: &str) -> (more: bool)
    ensures
        final(found)@.len() == old(found)@.len() + 1,
        text::texts(final(found)@) == text::texts(old(found)@).push(line@),
        more,
{
    let ghost all = text::texts(found@);
    found.push(line.to_owned());
    assert(text::texts(found@) =~= all.push(line@));
    true
}

/// `Searcher::search_slice` of a searcher with its default configuration, with the matcher that
/// `RegexMatcherBuilder::build` makes of the pattern with `case_smart` on: it skips one byte
/// order mark at the beginning, reads the rest line by line, a line ending at each line feed,
/// and hands on, with its line feed, each line that the pattern matches without it. On UTF-8
/// text it returns no error.
#[verifier::external_body]
fn search_lines(pattern: &str, searched: &str) -> (found: Vec<String>)
    requires
        regex_error(pattern@) is None,
    ensures
        text::texts(found@) == fed_lines(without_mark(searched@)).filter(
            |line: Seq<char>| regex_matches(pattern@, without_feed(line)),
        ),
{
    let mut found: Vec<String> = Vec::new();
    if let Ok(matcher) = RegexMatcherBuilder::new().case_smart(true).build(pattern) {
        let sink = UTF8(|_, line| Ok(note_line(&mut found, line)));
        let _ = Searcher::new().search_slice(&matcher, searched.as_bytes(), sink);
    }
    found
}

// --------------------------------------------------------- bounded matches
/// The number of bytes that texts take together.
pub open spec fn total_bytes(rows: Seq<Seq<char>>) -> int
    decreases rows.len(),
{
    if rows.len() == 0 {
        0
    } else {
        total_bytes(rows.drop_last()) + text::byte_len(rows.last())
    }
}

/// A count as a machine word holds it: one that is too large is held as the largest.
pub open spec fn held(count: int) -> int {
    if count <= usize::MAX {
        count
    } else {
        usize::MAX as int
    }
}

/// The larger of two counts.
pub open spec fn larger(a: int, b: int) -> int {
    if a >= b {
        a
    } else {
        b
    }
}

/// What a [`BoundedMatches`] has come to.
#[verifier::ext_equal]
pub struct MatchesView {
    /// How many rows are kept.
    pub capacity: int,
    /// The rows that are kept, in order.
    pub rows: Seq<Seq<char>>,
    /// The most rows that were kept at a time.
    pub peak_count: int,
    /// The most bytes that were kept at a time.
    pub peak_bytes: int,
}

impl MatchesView {
    /// No rows yet.
    pub open spec fn none(capacity: int) -> MatchesView {
        MatchesView { capacity, rows: seq![], peak_count: 0, peak_bytes: 0 }
    }

    /// After one more row: it takes its place among the rows, unless it is there already, and
    /// the last row gives way where there are too many.
    pub open spec fn after(self, row: Seq<char>) -> MatchesView {
        let all = sorted::placed(self.rows, row);
        let rows = if all.len() <= self.capacity {
            all
        } else {
            all.take(self.capacity)
        };
        MatchesView {
            rows,
            peak_count: larger(self.peak_count, rows.len() as int),
            peak_bytes: larger(self.peak_bytes, held(total_bytes(rows))),
            ..self
        }
    }

    /// After some more rows.
    pub open spec fn after_all(self, rows: Seq<Seq<char>>) -> MatchesView
        decreases rows.len(),
    {
        if rows.len() == 0 {
            self
        } else {
            self.after_all(rows.drop_last()).after(rows.last())
        }
    }

    /// Whether no more rows are kept than may be.
    pub open spec fn bounded(self) -> bool {
        0 <= self.capacity && self.rows.len() <= self.capacity
    }
}

/// The first matching rows in order, of which a bounded number is kept.
pub struct BoundedMatches {
    capacity: usize,
    rows: Vec<String>,
    peak_count: usize,
    peak_bytes: usize,
}

impl View for BoundedMatches {
    type V = MatchesView;

    closed spec fn view(&self) -> MatchesView {
        MatchesView {
            capacity: self.capacity as int,
            rows: text::texts(self.rows@),
            peak_count: self.peak_count as int,
            peak_bytes: self.peak_bytes as int,
        }
    }
}

/// The number of bytes that texts take together, as far as a machine word holds it.
fn count_bytes(rows: &Vec<String>) -> (bytes: usize)
    ensures
        bytes == held(total_bytes(text::texts(rows@))),
{
    let ghost all = text::texts(rows@);
    let mut bytes: usize = 0;
    for i in 0..rows.len()
        invariant
            all == text::texts(rows@),
            bytes == held(total_bytes(all.take(i as int))),
            total_bytes(all.take(i as int)) >= 0,
    {
        assert(all.take(i as int + 1).drop_last() =~= all.take(i as int));
        bytes = bytes.saturating_add(rows[i].as_str().as_bytes().len());
    }
    assert(all.take(rows@.len() as int) =~= all);
    bytes
}

impl BoundedMatches {
    /// No rows yet, and room for `capacity` of them.
    pub fn new(capacity: usize) -> (matches: BoundedMatches)
        ensures
            matches@ == MatchesView::none(capacity as int),
            matches@.bounded(),
    {
        let matches = BoundedMatches { capacity, rows: Vec::new(), peak_count: 0, peak_bytes: 0 };
        assert(matches@.rows =~= seq![]);
        matches
    }

    /// Keeps a row, where it is among the first.
    pub fn retain(&mut self, row: String)
        requires
            old(self)@.bounded(),
        ensures
            final(self)@ == old(self)@.after(row@),
            final(self)@.bounded(),
    {
        let ghost all = sorted::placed(self@.rows, row@);
        sorted::place(&mut self.rows, row);
        if self.rows.len() > self.capacity {
            let capacity: usize = self.capacity;
            self.rows.truncate(capacity);
            assert(text::texts(self.rows@) =~= all.take(self.capacity as int));
        }
        if self.rows.len() > self.peak_count {
            self.peak_count = self.rows.len();
        }
        let bytes: usize = count_bytes(&self.rows);
        if bytes > self.peak_bytes {
            self.peak_bytes = bytes;
        }
    }
}

// ---------------------------------------------------------------- streams
/// The text that is searched: each row and a line feed.
pub open spec fn stream(rows: Seq<Seq<char>>) -> Seq<char>
    decreases rows.len(),
{
    if rows.len() == 0 {
        seq![]
    } else {
        stream(rows.drop_last()) + rows.last() + seq!['\n']
    }
}

/// Lines without their line feeds.
pub open spec fn without_feeds(lines: Seq<Seq<char>>) -> Seq<Seq<char>> {
    lines.map_values(|line: Seq<char>| without_feed(line))
}

/// The lines that match in the stream of some rows. A row that holds a line feed makes more than
/// one line.
pub open spec fn lines_found(pattern: Seq<char>, rows: Seq<Seq<char>>) -> Seq<Seq<char>> {
    without_feeds(matching(pattern, fed_lines(without_mark(stream(rows)))))
}

/// The lines of texts that end with a line feed are the lines of both.
proof fn lemma_fed_lines_add(a: Seq<char>, b: Seq<char>)
    requires
        a.len() == 0 || a.last() == '\n',
    ensures
        fed_lines(a + b) == fed_lines(a) + fed_lines(b),
    decreases a.len(),
{
    if a.len() == 0 {
        assert(a + b =~= b);
        assert(fed_lines(a) + fed_lines(b) =~= fed_lines(b));
    } else {
        text::lemma_first_char(a, '\n');
        assert(a.contains(a.last()));
        let i = text::first_char(a, '\n')->0;
        let rest = a.skip(i + 1);
        assert forall|j: int| 0 <= j < i implies (a + b)[j] != '\n' by {
            assert((a + b)[j] == a[j]);
        }
        text::lemma_first_char_is(a + b, '\n', i);
        assert((a + b).take(i + 1) =~= a.take(i + 1));
        assert((a + b).skip(i + 1) =~= rest + b);
        lemma_fed_lines_add(rest, b);
        assert(seq![a.take(i + 1)] + (fed_lines(rest) + fed_lines(b)) =~= (seq![a.take(i + 1)]
            + fed_lines(rest)) + fed_lines(b));
    }
}

/// What matches among lines is what matches among the first and what matches among the rest.
proof fn lemma_matching_add(pattern: Seq<char>, a: Seq<Seq<char>>, b: Seq<Seq<char>>)
    ensures
        matching(pattern, a + b) == matching(pattern, a) + matching(pattern, b),
    decreases b.len(),
{
    if b.len() == 0 {
        assert(a + b =~= a);
        assert(matching(pattern, a) + matching(pattern, b) =~= matching(pattern, a));
    } else {
        assert((a + b).drop_last() =~= a + b.drop_last());
        lemma_matching_add(pattern, a, b.drop_last());
        assert(matching(pattern, a + b) =~= matching(pattern, a) + matching(pattern, b));
    }
}

proof fn lemma_stream_add(a: Seq<Seq<char>>, b: Seq<Seq<char>>)
    ensures
        stream(a + b) == stream(a) + stream(b),
        a.len() > 0 ==> stream(a).len() > 0 && stream(a).last() == '\n',
    decreases b.len(),
{
    if b.len() == 0 {
        assert(a + b =~= a);
        assert(stream(a) + stream(b) =~= stream(a));
    } else {
        assert((a + b).drop_last() =~= a + b.drop_last());
        lemma_stream_add(a, b.drop_last());
        assert(stream(a + b) =~= stream(a) + stream(b));
    }
}

/// A stream can be searched in parts, where no part but the first begins with a byte order mark.
pub proof fn search_in_parts(pattern: Seq<char>, a: Seq<Seq<char>>, b: Seq<Seq<char>>)
    requires
        a.len() == 0 || stream(b).len() == 0 || stream(b)[0] != '\u{feff}',
    ensures
        lines_found(pattern, a + b) == lines_found(pattern, a) + lines_found(pattern, b),
{
    if a.len() == 0 {
        assert(a + b =~= b);
        assert(lines_found(pattern, a) =~= seq![]);
        assert(lines_found(pattern, a) + lines_found(pattern, b) =~= lines_found(pattern, b));
    } else {
        lemma_stream_add(a, b);
        let head = without_mark(stream(a));
        assert(head.len() > 0 && head.last() == '\n');
        assert(without_mark(stream(a + b)) =~= head + stream(b));
        lemma_fed_lines_add(head, stream(b));
        lemma_matching_add(pattern, fed_lines(head), fed_lines(stream(b)));
        assert(lines_found(pattern, a + b) =~= lines_found(pattern, a) + lines_found(pattern, b));
    }
}

proof fn lemma_after_all_add(matches: MatchesView, a: Seq<Seq<char>>, b: Seq<Seq<char>>)
    ensures
        matches.after_all(a + b) == matches.after_all(a).after_all(b),
    decreases b.len(),
{
    if b.len() == 0 {
        assert(a + b =~= a);
    } else {
        assert((a + b).drop_last() =~= a + b.drop_last());
        lemma_after_all_add(matches, a, b.drop_last());
    }
}

/// Keeps lines, each without its line feed, where they are among the first.
pub fn retain_lines(matches: &mut BoundedMatches, lines: &Vec<String>)
    requires
        old(matches)@.bounded(),
    ensures
        final(matches)@ == old(matches)@.after_all(without_feeds(text::texts(lines@))),
        final(matches)@.bounded(),
{
    let ghost start = matches@;
    let ghost all = without_feeds(text::texts(lines@));
    for i in 0..lines.len()
        invariant
            all == without_feeds(text::texts(lines@)),
            matches@ == start.after_all(all.take(i as int)),
            matches@.bounded(),
    {
        let chars: Vec<char> = text::chars_of(lines[i].as_str());
        let mut end: usize = chars.len();
        if end > 0 && chars[end - 1] == '\n' {
            end = end - 1;
        }
        let content = slice_subrange(chars.as_slice(), 0, end);
        assert(content@ =~= all[i as int]);
        assert(all.take(i as int + 1).drop_last() =~= all.take(i as int));
        matches.retain(text::string_of(content));
    }
    assert(all.take(lines@.len() as int) =~= all);
}

// ----------------------------------------------------------------- search
/// How much a search held at a time.
#[derive(Clone, Debug, PartialEq, Eq)]
pub struct SearchStats {
    /// The most bytes that the buffer of a line of the snapshot held.
    pub peak_snapshot_record_bytes: usize,
    /// The most rows that were kept.
    pub peak_retained_result_count: usize,
    /// The most bytes that the kept rows took.
    pub peak_retained_result_bytes: usize,
}

impl Default for SearchStats {
    fn default() -> (stats: SearchStats)
        ensures
            stats.peak_snapshot_record_bytes == 0,
            stats.peak_retained_result_count == 0,
            stats.peak_retained_result_bytes == 0,
    {
        SearchStats {
            peak_snapshot_record_bytes: 0,
            peak_retained_result_count: 0,
            peak_retained_result_bytes: 0,
        }
    }
}

/// What a search found.
#[derive(Clone, Debug, PartialEq, Eq)]
pub struct SearchOutput {
    /// The first matching rows, in order.
    pub rows: Vec<String>,
    /// Whether more rows matched.
    pub truncated: bool,
    /// How much the search held at a time.
    pub stats: SearchStats,
}

/// What a search found, as a view.
#[verifier::ext_equal]
pub struct OutputView {
    pub rows: Seq<Seq<char>>,
    pub truncated: bool,
    pub record_bytes: int,
    pub result_count: int,
    pub result_bytes: int,
}

impl View for SearchOutput {
    type V = OutputView;

    open spec fn view(&self) -> OutputView {
        OutputView {
            rows: text::texts(self.rows@),
            truncated: self.truncated,
            record_bytes: self.stats.peak_snapshot_record_bytes as int,
            result_count: self.stats.peak_retained_result_count as int,
            result_bytes: self.stats.peak_retained_result_bytes as int,
        }
    }
}

/// Why a search failed.
#[derive(Clone, Debug, PartialEq, Eq)]
pub enum SearchError {
    /// The snapshot cannot be read.
    Snapshot(SnapshotError),
    /// The regular expression is none; the text says why.
    Regex(String),
}

/// Why a search failed, as a view.
pub enum SearchErrorView {
    Snapshot(ErrorView),
    Regex(Seq<char>),
}

impl View for SearchError {
    type V = SearchErrorView;

    open spec fn view(&self) -> SearchErrorView {
        match self {
            SearchError::Snapshot(error) => SearchErrorView::Snapshot(error@),
            SearchError::Regex(message) => SearchErrorView::Regex(message@),
        }
    }
}

/// How a failure is told to a reader.
pub open spec fn failure_text(error: SearchErrorView) -> Seq<char> {
    match error {
        SearchErrorView::Snapshot(error) => snapshot::error_text(error),
        SearchErrorView::Regex(message) => "invalid regex: "@ + message,
    }
}

impl SearchError {
    /// Tells the failure to a reader.
    pub fn message(&self) -> (told: String)
        ensures
            told@ == failure_text(self@),
    {
        match self {
            SearchError::Snapshot(error) => error.message(),
            SearchError::Regex(message) => {
                let mut told: String = "invalid regex: ".to_owned();
                told.append(message.as_str());
                told
            },
        }
    }
}

/// What is searched for and where, and the lines of the snapshot that were read.
#[verifier::ext_equal]
pub struct SearchView {
    pub pattern: Seq<char>,
    pub limit: int,
    pub policy: PolicyView,
    pub lines: Seq<Seq<char>>,
    pub peak: int,
}

impl SearchView {
    /// After one more line, read from a buffer of `buffer_bytes` bytes.
    pub open spec fn after(self, line: Seq<char>, buffer_bytes: int) -> SearchView {
        SearchView {
            lines: self.lines.push(line),
            peak: larger(self.peak, buffer_bytes),
            ..self
        }
    }
}

/// What is wrong with the first lines of a snapshot.
pub open spec fn problem(lines: Seq<Seq<char>>) -> Option<ErrorView> {
    if lines.len() == 0 {
        None
    } else {
        match snapshot::version_of(lines[0]) {
            None => Some(ErrorView::InvalidMagic(lines[0])),
            Some(version) => match snapshot::records_upto(version, lines, lines.len() as int) {
                Ok(_) => None,
                Err(error) => Some(error),
            },
        }
    }
}

/// The records in the first lines of a snapshot with which nothing is wrong.
pub open spec fn records_in(lines: Seq<Seq<char>>) -> Seq<RecordView> {
    if lines.len() == 0 {
        seq![]
    } else {
        snapshot::records_upto(
            snapshot::version_of(lines[0])->0,
            lines,
            lines.len() as int,
        )->Ok_0
    }
}

/// What a search keeps of the rows of records: one row more than the limit.
pub open spec fn kept(
    pattern: Seq<char>,
    limit: int,
    policy: PolicyView,
    records: Seq<RecordView>,
) -> MatchesView {
    MatchesView::none(held(limit + 1)).after_all(
        lines_found(pattern, policy.rows(time_of(records), records)),
    )
}

/// What a search finds that has kept some rows.
pub open spec fn settled(matches: MatchesView, limit: int, peak: int) -> OutputView {
    OutputView {
        rows: if matches.rows.len() > limit {
            matches.rows.take(limit)
        } else {
            matches.rows
        },
        truncated: matches.rows.len() > limit,
        record_bytes: peak,
        result_count: matches.peak_count,
        result_bytes: matches.peak_bytes,
    }
}

/// What a search of records finds.
pub open spec fn search_result(
    pattern: Seq<char>,
    limit: int,
    policy: PolicyView,
    records: Seq<RecordView>,
    peak: int,
) -> OutputView {
    settled(kept(pattern, limit, policy, records), limit, peak)
}

/// Gives out what a search has kept, up to its limit.
pub fn settle(matches: BoundedMatches, limit: usize, record_bytes: usize) -> (output: SearchOutput)
    ensures
        output@ == settled(matches@, limit as int, record_bytes as int),
{
    let ghost kept = matches@.rows;
    let stats = SearchStats {
        peak_snapshot_record_bytes: record_bytes,
        peak_retained_result_count: matches.peak_count,
        peak_retained_result_bytes: matches.peak_bytes,
    };
    let mut rows: Vec<String> = matches.rows;
    let truncated: bool = rows.len() > limit;
    if truncated {
        rows.truncate(limit);
        assert(text::texts(rows@) =~= kept.take(limit as int));
    }
    SearchOutput { rows, truncated, stats }
}

/// How many bytes of rows are gathered before they are searched.
pub const SEARCH_BATCH_BYTES: usize = 65536;

/// A search that reads a snapshot line by line and holds only a batch of its rows at a time.
pub struct SnapshotSearch {
    pattern: String,
    limit: usize,
    reader: SnapshotReader,
    facts: FactRowReader,
    pending: String,
    matches: BoundedMatches,
    lines: Ghost<Seq<Seq<char>>>,
    searched: Ghost<Seq<Seq<char>>>,
    waiting: Ghost<Seq<Seq<char>>>,
}

impl View for SnapshotSearch {
    type V = SearchView;

    closed spec fn view(&self) -> SearchView {
        SearchView {
            pattern: self.pattern@,
            limit: self.limit as int,
            policy: self.facts.policy(),
            lines: self.lines@,
            peak: self.reader@.peak,
        }
    }
}

impl SnapshotSearch {
    /// Whether the reader has come to the end of the lines, and nothing is wrong with them.
    spec fn reading(&self) -> bool {
        &&& self.reader@.ready()
        &&& self.reader@.line_number == self.lines@.len()
        &&& problem(self.lines@) is None
        &&& self.lines@.len() > 0 ==> self.reader@.version == snapshot::version_of(self.lines@[0])
        &&& self.lines@.len() > 1 ==> self.facts.time() == time_of(records_in(self.lines@))
    }

    /// Whether the rows that wait are pending, and what is kept is what the rows that were
    /// searched leave.
    spec fn consistent(&self) -> bool {
        &&& regex_error(self.pattern@) is None
        &&& self.pending@ == stream(self.waiting@)
        &&& self.searched@.len() == 0 || self.waiting@.len() == 0 || stream(self.waiting@)[0]
            != '\u{feff}'
        &&& self.matches@ == MatchesView::none(held(self.limit + 1)).after_all(
            lines_found(self.pattern@, self.searched@),
        )
        &&& self.matches@.bounded()
    }

    /// The rows of the records in the lines.
    spec fn rows(&self) -> Seq<Seq<char>> {
        let records = records_in(self.lines@);
        self.facts.policy().rows(time_of(records), records)
    }

    /// Whether the search can go on.
    pub closed spec fn ready(&self) -> bool {
        &&& self.reading()
        &&& self.consistent()
        &&& self.searched@ + self.waiting@ == self.rows()
        &&& self.waiting@.len() == 0 ==> self.searched@.len() == 0
    }

    /// Begins a search.
    pub fn new(
        pattern: &str,
        limit: usize,
        selected_scopes: Option<Vec<String>>,
        legacy_scope: String,
        include_legacy: bool,
    ) -> (begun: Result<SnapshotSearch, SearchError>)
        ensures
            match begun {
                Ok(search) => {
                    &&& regex_error(pattern@) is None
                    &&& search.ready()
                    &&& search@ == SearchView {
                        pattern: pattern@,
                        limit: limit as int,
                        policy: PolicyView {
                            selected: optional_texts(selected_scopes),
                            legacy: legacy_scope@,
                            include_legacy,
                        },
                        lines: seq![],
                        peak: 0,
                    }
                },
                Err(error) => regex_error(pattern@) is Some && error@ == SearchErrorView::Regex(
                    regex_error(pattern@)->0,
                ),
            },
    {
        if let Some(message) = pattern_error(pattern) {
            return Err(SearchError::Regex(message));
        }
        let search = SnapshotSearch {
            pattern: pattern.to_owned(),
            limit,
            reader: SnapshotReader::new(),
            facts: FactRowReader::new(0, selected_scopes, legacy_scope, include_legacy),
            pending: String::new(),
            matches: BoundedMatches::new(limit.saturating_add(1)),
            lines: Ghost(Seq::empty()),
            searched: Ghost(Seq::empty()),
            waiting: Ghost(Seq::empty()),
        };
        assert(search.pending@ =~= seq![]);
        assert(search.searched@ + search.waiting@ =~= search.rows());
        assert(lines_found(search.pattern@, seq![]) =~= seq![]);
        Ok(search)
    }

    /// Searches the rows that wait.
    fn flush(&mut self)
        requires
            old(self).consistent(),
        ensures
            final(self).consistent(),
            final(self).pattern == old(self).pattern,
            final(self).limit == old(self).limit,
            final(self).reader == old(self).reader,
            final(self).facts == old(self).facts,
            final(self).lines == old(self).lines,
            final(self).waiting@ == Seq::<Seq<char>>::empty(),
            final(self).searched@ == old(self).searched@ + old(self).waiting@,
    {
        let ghost searched = self.searched@;
        let ghost waiting = self.waiting@;
        let found: Vec<String> = search_lines(self.pattern.as_str(), self.pending.as_str());
        retain_lines(&mut self.matches, &found);
        proof {
            search_in_parts(self.pattern@, searched, waiting);
            lemma_after_all_add(
                MatchesView::none(held(self.limit + 1)),
                lines_found(self.pattern@, searched),
                lines_found(self.pattern@, waiting),
            );
        }
        self.pending = String::new();
        self.searched = Ghost(searched + waiting);
        self.waiting = Ghost(Seq::empty());
        assert(self.pending@ =~= stream(self.waiting@));
    }

    /// Gathers a row, and searches the rows that wait where there are many.
    fn take_row(&mut self, row: &str)
        requires
            old(self).consistent(),
            old(self).waiting@.len() == 0 ==> old(self).searched@.len() == 0,
        ensures
            final(self).consistent(),
            final(self).waiting@.len() > 0,
            final(self).pattern == old(self).pattern,
            final(self).limit == old(self).limit,
            final(self).reader == old(self).reader,
            final(self).facts == old(self).facts,
            final(self).lines == old(self).lines,
            final(self).searched@ + final(self).waiting@ == (old(self).searched@ + old(
                self,
            ).waiting@).push(row@),
    {
        let ghost rows = self.searched@ + self.waiting@;
        let chars: Vec<char> = text::chars_of(row);
        if self.pending.as_str().as_bytes().len() >= SEARCH_BATCH_BYTES && chars.len() > 0
            && chars[0] != '\u{feff}' {
            self.flush();
        }
        let ghost waiting = self.waiting@;
        self.pending.append(row);
        self.pending.append("\n");
        self.waiting = Ghost(waiting.push(row@));
        proof {
            reveal_strlit("\n");
            assert("\n"@ =~= seq!['\n']);
            assert(waiting.push(row@).drop_last() =~= waiting);
            assert(self.pending@ =~= stream(self.waiting@));
            assert(self.searched@ + self.waiting@ =~= rows.push(row@));
            if waiting.len() > 0 {
                lemma_stream_add(waiting, seq![]);
                assert(stream(self.waiting@)[0] == stream(waiting)[0]);
            } else {
                assert(stream(waiting) =~= seq![]);
                assert(self.searched@.len() > 0 ==> stream(self.waiting@)[0] == row@[0]);
            }
        }
    }

    /// Takes one line of the snapshot, without its line ending, out of a buffer of
    /// `buffer_bytes` bytes. After a failure the search is over.
    pub fn push_line(&mut self, line: &str, buffer_bytes: usize) -> (done: Result<(), SearchError>)
        requires
            old(self).ready(),
            old(self)@.lines.len() < usize::MAX,
        ensures
            match done {
                Ok(_) => {
                    &&& problem(old(self)@.lines.push(line@)) is None
                    &&& final(self).ready()
                    &&& final(self)@ == old(self)@.after(line@, buffer_bytes as int)
                },
                Err(error) => {
                    &&& problem(old(self)@.lines.push(line@)) is Some
                    &&& error@ == SearchErrorView::Snapshot(
                        problem(old(self)@.lines.push(line@))->0,
                    )
                },
            },
    {
        let ghost before = self.lines@;
        let ghost lines = before.push(line@);
        let ghost policy = self.facts.policy();
        let ghost records = records_in(before);
        proof {
            if before.len() > 0 {
                let version = snapshot::version_of(before[0])->0;
                snapshot::lemma_records_same(version, before, lines, before.len() as int);
                lemma_records_count(version, before, before.len() as int);
            }
        }
        let given = self.reader.accept(line, buffer_bytes);
        self.lines = Ghost(lines);
        match given {
            Err(error) => Err(SearchError::Snapshot(error)),
            Ok(None) => {
                assert(records_in(lines) =~= records);
                Ok(())
            },
            Ok(Some(record)) => {
                assert(records_in(lines) == records.push(record@));
                assert(records.push(record@).drop_last() =~= records);
                if self.reader.line_number() == 2 {
                    if let SnapshotRecord::Now(now) = record {
                        self.facts.set_time(now);
                    }
                    assert(records =~= seq![]);
                    proof {
                        reveal_with_fuel(PolicyView::rows, 2);
                    }
                    assert(self.rows() =~= seq![]);
                } else {
                    assert(time_of(records_in(lines)) == time_of(records));
                    if let Some(row) = self.facts.row(&record) {
                        self.take_row(row.as_str());
                    }
                }
                Ok(())
            },
        }
    }

    /// Takes one line of the snapshot as it was read, with its line ending.
    pub fn read_line(&mut self, line: &str, buffer_bytes: usize) -> (done: Result<(), SearchError>)
        requires
            old(self).ready(),
            old(self)@.lines.len() < usize::MAX,
        ensures
            ({
                let lines = old(self)@.lines.push(snapshot::without_ending(line@));
                match done {
                    Ok(_) => {
                        &&& problem(lines) is None
                        &&& final(self).ready()
                        &&& final(self)@ == old(self)@.after(
                            snapshot::without_ending(line@),
                            buffer_bytes as int,
                        )
                    },
                    Err(error) => problem(lines) is Some && error@ == SearchErrorView::Snapshot(
                        problem(lines)->0,
                    ),
                }
            }),
    {
        self.push_line(snapshot::strip_ending(line).as_str(), buffer_bytes)
    }

    /// Ends the search.
    pub fn finish(self) -> (found: Result<SearchOutput, SearchError>)
        requires
            self.ready(),
        ensures
            match snapshot::read_lines(self@.lines) {
                Ok(records) => found matches Ok(output) && output@ == search_result(
                    self@.pattern,
                    self@.limit,
                    self@.policy,
                    records,
                    self@.peak,
                ),
                Err(error) => found matches Err(failure) && failure@ == SearchErrorView::Snapshot(
                    error,
                ),
            },
    {
        let mut search = self;
        match search.reader.finish() {
            Err(error) => Err(SearchError::Snapshot(error)),
            Ok(_) => {
                search.flush();
                let peak: usize = search.reader.peak_record_buffer_bytes();
                Ok(settle(search.matches, search.limit, peak))
            },
        }
    }
}

/// Each line but the magic line holds one record, of which the first tells the time.
proof fn lemma_records_count(version: snapshot::SnapshotVersion, lines: Seq<Seq<char>>, n: int)
    requires
        snapshot::records_upto(version, lines, n) is Ok,
        1 <= n,
    ensures
        snapshot::records_upto(version, lines, n)->Ok_0.len() == n - 1,
        n > 1 ==> snapshot::records_upto(version, lines, n)->Ok_0[0] is Now,
    decreases n,
{
    if n > 1 {
        lemma_records_count(version, lines, n - 1);
    }
}

/// Searches the facts of a snapshot; where there is no snapshot, nothing is found. The buffer of
/// a line counts as large as the line.
pub fn search_snapshot(
    snapshot: Option<&str>,
    pattern: &str,
    limit: usize,
    selected_scopes: Option<Vec<String>>,
    legacy_scope: String,
    include_legacy: bool,
) -> (found: Result<SearchOutput, SearchError>)
    ensures
        ({
            let policy = PolicyView {
                selected: optional_texts(selected_scopes),
                legacy: legacy_scope@,
                include_legacy,
            };
            match regex_error(pattern@) {
                Some(message) => found matches Err(failure) && failure@ == SearchErrorView::Regex(
                    message,
                ),
                None => match snapshot {
                    None => found matches Ok(output) && output@ == nothing_found(),
                    Some(content) => match snapshot::read_snapshot(content@) {
                        Err(error) => found matches Err(failure) && failure@
                            == SearchErrorView::Snapshot(error),
                        Ok(records) => found matches Ok(output) && output@ == search_result(
                            pattern@,
                            limit as int,
                            policy,
                            records,
                            longest(text::lines(content@)),
                        ),
                    },
                },
            }
        }),
{
    let mut search = match SnapshotSearch::new(
        pattern,
        limit,
        selected_scopes,
        legacy_scope,
        include_legacy,
    ) {
        Ok(search) => search,
        Err(error) => {
            return Err(error);
        },
    };
    let content = match snapshot {
        Some(content) => content,
        None => {
            let output = SearchOutput {
                rows: Vec::new(),
                truncated: false,
                stats: SearchStats::default(),
            };
            assert(output@.rows =~= seq![]);
            return Ok(output);
        },
    };
    let ghost begun = search@;
    let chars: Vec<char> = text::chars_of(content);
    let lines: Vec<String> = text::split_lines(chars.as_slice());
    let ghost all = text::texts(lines@);
    assert(all.take(0) =~= seq![]);
    for i in 0..lines.len()
        invariant
            all == text::texts(lines@),
            all == text::lines(content@),
            search.ready(),
            search@.pattern == begun.pattern,
            search@.limit == begun.limit,
            search@.policy == begun.policy,
            search@.lines == all.take(i as int),
            search@.peak == longest(all.take(i as int)),
            regex_error(pattern@) is None,
            snapshot == Some(content),
    {
        let ghost part = all.take(i as int + 1);
        assert(part =~= all.take(i as int).push(all[i as int]));
        assert(part.drop_last() =~= all.take(i as int));
        let bytes: usize = lines[i].as_str().as_bytes().len();
        if let Err(error) = search.push_line(lines[i].as_str(), bytes) {
            proof {
                lemma_problem(all, i as int + 1);
            }
            return Err(error);
        }
    }
    assert(all.take(all.len() as int) =~= all);
    search.finish()
}

/// What is found where there is no snapshot.
pub open spec fn nothing_found() -> OutputView {
    OutputView {
        rows: seq![],
        truncated: false,
        record_bytes: 0,
        result_count: 0,
        result_bytes: 0,
    }
}

/// The number of bytes of the longest line.
pub open spec fn longest(lines: Seq<Seq<char>>) -> int
    decreases lines.len(),
{
    if lines.len() == 0 {
        0
    } else {
        larger(longest(lines.drop_last()), text::byte_len(lines.last()) as int)
    }
}

/// What is wrong with the first lines is wrong with the snapshot.
proof fn lemma_problem(lines: Seq<Seq<char>>, n: int)
    requires
        1 <= n <= lines.len(),
        problem(lines.take(n)) is Some,
    ensures
        snapshot::read_lines(lines) == Err::<Seq<RecordView>, ErrorView>(
            problem(lines.take(n))->0,
        ),
{
    let part = lines.take(n);
    assert(part[0] == lines[0]);
    if let Some(version) = snapshot::version_of(lines[0]) {
        snapshot::lemma_records_same(version, part, lines, n);
        assert(n > 1);
        snapshot::lemma_record_error(version, lines, n, lines.len() as int);
    }
}

} // verus!
