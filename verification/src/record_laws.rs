//! How records are written and read, and what is told of those that cannot be read.

use vstd::prelude::*;

use crate::agent::{EpisodeView, MemoryView};
use crate::clause;
use crate::engine::FactView;
use crate::evidence;
use crate::number;
use crate::persistence::{LoadErrorView, Progress};
use crate::persistence;
use crate::search::{MatchesView, SearchErrorView};
use crate::search;
use crate::snapshot::{ErrorView, ReaderView, RecordView, SnapshotVersion, ValueView};
use crate::snapshot;
use crate::text;

verus! {

/// The first line of a snapshot that cannot be read is told, by its number.
pub proof fn first_unreadable_line_is_told(
    version: SnapshotVersion,
    lines: Seq<Seq<char>>,
    n: int,
    message: Seq<char>,
)
    requires
        1 <= n < lines.len(),
        snapshot::version_of(lines[0]) == Some(version),
        snapshot::records_upto(version, lines, n) is Ok,
        snapshot::read_record(version, lines[n]) == Err::<RecordView, Seq<char>>(message),
    ensures
        snapshot::read_lines(lines) == Err::<Seq<RecordView>, ErrorView>(
            ErrorView::Malformed { line: n + 1, message },
        ),
{
    snapshot::lemma_record_error(version, lines, n + 1, lines.len() as int);
}

/// A line of a snapshot gives one record, behind those before it, and the first is the time.
pub proof fn each_line_gives_its_record(version: SnapshotVersion, lines: Seq<Seq<char>>, n: int)
    requires
        1 <= n < lines.len(),
        snapshot::records_upto(version, lines, n) is Ok,
        snapshot::read_record(version, lines[n]) is Ok,
    ensures
        ({
            let record = snapshot::read_record(version, lines[n])->Ok_0;
            if n == 1 && !(record is Now) {
                snapshot::records_upto(version, lines, n + 1) == Err::<
                    Seq<RecordView>,
                    ErrorView,
                >(ErrorView::MissingNow)
            } else {
                snapshot::records_upto(version, lines, n + 1) == Ok::<
                    Seq<RecordView>,
                    ErrorView,
                >(snapshot::records_upto(version, lines, n)->Ok_0.push(record))
            }
        }),
{
}

/// What cannot be read is told with what is wrong and where.
pub proof fn errors_tell_what_is_wrong(line: nat, message: Seq<char>)
    ensures
        snapshot::error_text(ErrorView::Malformed { line: line as int, message })
            == "malformed snapshot record at line "@ + number::decimal(line) + ": "@ + message,
        snapshot::error_text(ErrorView::InvalidMagic(message)) == "not a lemmalog snapshot: magic "@
            + text::quoted(message),
        snapshot::error_text(ErrorView::MissingNow) == "snapshot is missing its NOW record"@,
        persistence::load_error_text(LoadErrorView::MissingRules)
            == "snapshot is missing its RULES record"@,
        persistence::load_error_text(LoadErrorView::DuplicateHeader)
            == "snapshot contains a duplicate header record"@,
        persistence::load_error_text(LoadErrorView::Rules(message)) == "cannot parse "@
            + text::quoted(message),
        persistence::load_error_text(LoadErrorView::Snapshot(ErrorView::MissingNow))
            == snapshot::error_text(ErrorView::MissingNow),
        search::failure_text(SearchErrorView::Regex(message)) == "invalid regex: "@ + message,
        search::failure_text(SearchErrorView::Snapshot(ErrorView::MissingNow))
            == snapshot::error_text(ErrorView::MissingNow),
{
}

/// The references of an older snapshot stand between commas, and each one that is not empty is read.
pub proof fn older_references_are_all_read(parts: Seq<Seq<char>>, part: Seq<char>)
    ensures
        snapshot::legacy_references(seq![]).len() == 0,
        snapshot::legacy_references(parts.push(part)) == if part.len() == 0 {
            snapshot::legacy_references(parts)
        } else {
            snapshot::legacy_references(parts).push(
                snapshot::unescaped(part, SnapshotVersion::Legacy),
            )
        },
{
    assert(parts.push(part).drop_last() =~= parts);
}

/// The field of the references of an older snapshot holds them between commas.
pub proof fn older_references_stand_between_commas(parts: Seq<Seq<char>>)
    requires
        parts.len() > 0,
        forall|i: int| 0 <= i < parts.len() ==> !(#[trigger] parts[i]).contains(','),
    ensures
        snapshot::read_provenance_field(
            SnapshotVersion::Legacy,
            text::join(parts, seq![',']),
        ) == Ok::<Seq<Seq<char>>, Seq<char>>(snapshot::legacy_references(parts)),
{
    text::lemma_pieces_of_join(parts, ',');
}

/// The longest of some lines is one of them, and none is longer.
pub proof fn longest_line_is_the_longest(lines: Seq<Seq<char>>, i: int)
    requires
        0 <= i < lines.len(),
    ensures
        text::byte_len(lines[i]) <= search::longest(lines),
        exists|k: int|
            0 <= k < lines.len() && text::byte_len(#[trigger] lines[k]) == search::longest(lines),
    decreases lines.len(),
{
    let fewer = lines.drop_last();
    let n = lines.len() - 1;
    assert(lines[n] == lines.last());
    if fewer.len() > 0 {
        longest_line_is_the_longest(
            fewer,
            if i < n {
                i
            } else {
                0
            },
        );
        assert(i < n ==> fewer[i] == lines[i]);
        let k = choose|k: int|
            0 <= k < fewer.len() && text::byte_len(#[trigger] fewer[k]) == search::longest(fewer);
        assert(lines[k] == fewer[k]);
    } else {
        assert(search::longest(fewer) == 0);
    }
}

/// The size of rows is that of all of them together.
pub proof fn sizes_add_up(rows: Seq<Seq<char>>, row: Seq<char>)
    ensures
        search::total_bytes(seq![]) == 0,
        search::total_bytes(rows.push(row)) == search::total_bytes(rows) + text::byte_len(row),
{
    assert(rows.push(row).drop_last() =~= rows);
}

/// Five characters are written with a backslash before a letter of their own, and all others as they
/// are; a text is written character by character.
pub proof fn characters_are_escaped_by_themselves(a: Seq<char>, b: Seq<char>, c: char)
    ensures
        snapshot::escaped(a + b) == snapshot::escaped(a) + snapshot::escaped(b),
        snapshot::escaped(seq!['\\']) == seq!['\\', '\\'],
        snapshot::escaped(seq!['\t']) == seq!['\\', 't'],
        snapshot::escaped(seq!['\n']) == seq!['\\', 'n'],
        snapshot::escaped(seq!['\r']) == seq!['\\', 'r'],
        snapshot::escaped(seq![' ']) == seq!['\\', 's'],
        c != '\\' && c != '\t' && c != '\n' && c != '\r' && c != ' ' ==> snapshot::escaped(seq![c])
            == seq![c],
    decreases a.len(),
{
    lemma_escaped_one('\\');
    lemma_escaped_one('\t');
    lemma_escaped_one('\n');
    lemma_escaped_one('\r');
    lemma_escaped_one(' ');
    lemma_escaped_one(c);
    if a.len() > 0 {
        characters_are_escaped_by_themselves(a.drop_first(), b, c);
        assert((a + b).drop_first() =~= a.drop_first() + b);
        assert((a + b)[0] == a[0]);
        assert(snapshot::escaped(a + b) =~= snapshot::escaped(a) + snapshot::escaped(b));
    } else {
        assert(a + b =~= b);
        assert(snapshot::escaped(a) + snapshot::escaped(b) =~= snapshot::escaped(b));
    }
}

proof fn lemma_escaped_one(c: char)
    ensures
        snapshot::escaped(seq![c]) == snapshot::escaped_char(c),
{
    let none = Seq::<char>::empty();
    assert(seq![c].drop_first() =~= none);
    assert(snapshot::escaped(none) =~= none);
    assert(snapshot::escaped_char(c) + none =~= snapshot::escaped_char(c));
}

/// Each record stands on one line: its tag, and its fields behind tabs.
pub proof fn records_are_written_in_fields(
    now: int,
    a: Seq<char>,
    b: Seq<char>,
    speaker: Seq<char>,
    confidence: Seq<char>,
    provenance: Seq<Seq<char>>,
    arguments: Seq<ValueView>,
)
    ensures
        snapshot::record_line(RecordView::Now(now)) == "NOW\t"@ + number::decimal_int(now),
        snapshot::record_line(RecordView::Rules(a)) == "RULES\t"@ + snapshot::escaped(a),
        snapshot::record_line(RecordView::Escalation(a)) == "ESC\t"@ + snapshot::escaped(a),
        snapshot::record_line(
            RecordView::Episode { id: a, timestamp: now, speaker: Some(speaker), text: b },
        ) == "EP\t"@ + snapshot::escaped(a) + seq!['\t'] + number::decimal_int(now) + seq!['\t']
            + snapshot::escaped(speaker) + seq!['\t'] + snapshot::escaped(b),
        snapshot::record_line(
            RecordView::Episode { id: a, timestamp: now, speaker: None, text: b },
        ) == "EP\t"@ + snapshot::escaped(a) + seq!['\t'] + number::decimal_int(now) + seq![
            '\t',
            '\t',
        ] + snapshot::escaped(b),
        snapshot::record_line(
            RecordView::Fact { predicate: a, confidence, provenance, arguments },
        ) == "FACT\t"@ + a + seq!['\t'] + confidence + seq!['\t'] + provenance.map_values(
            |value: Seq<char>|
                number::decimal(text::byte_len(snapshot::escaped(value))) + seq![':']
                    + snapshot::escaped(value),
        ).flatten() + seq!['\t'] + text::join(
            arguments.map_values(
                |value: ValueView|
                    match value {
                        ValueView::Symbol(name) => "s:"@ + snapshot::escaped(name),
                        ValueView::Integer(i) => "i:"@ + number::decimal_int(i),
                    },
            ),
            seq![' '],
        ),
{
    let silent = snapshot::record_line(
        RecordView::Episode { id: a, timestamp: now, speaker: None, text: b },
    );
    assert(silent =~= "EP\t"@ + snapshot::escaped(a) + seq!['\t'] + number::decimal_int(now)
        + seq!['\t', '\t'] + snapshot::escaped(b));
    lemma_provenance(provenance);
    assert(arguments.map_values(|v: ValueView| snapshot::argument_text(v))
        =~= arguments.map_values(
        |value: ValueView|
            match value {
                ValueView::Symbol(name) => "s:"@ + snapshot::escaped(name),
                ValueView::Integer(i) => "i:"@ + number::decimal_int(i),
            },
    ));
}

proof fn lemma_provenance(values: Seq<Seq<char>>)
    ensures
        snapshot::provenance_text(values) == values.map_values(
            |value: Seq<char>|
                number::decimal(text::byte_len(snapshot::escaped(value))) + seq![':']
                    + snapshot::escaped(value),
        ).flatten(),
    decreases values.len(),
{
    let entry = |value: Seq<char>|
        number::decimal(text::byte_len(snapshot::escaped(value))) + seq![':'] + snapshot::escaped(
            value,
        );
    let all = values.map_values(entry);
    if values.len() > 0 {
        let rest = values.drop_first();
        lemma_provenance(rest);
        assert(all.drop_first() =~= rest.map_values(entry));
        assert(all.first() == entry(values[0]));
    } else {
        assert(all =~= seq![]);
        assert(snapshot::provenance_text(values) =~= all.flatten());
    }
}

/// A memory is saved with its time and its rules first, then its episodes, the conflicts that were
/// told, and its facts, each with all its confidences, in their orders.
pub proof fn memory_is_saved_whole(memory: MemoryView)
    ensures
        persistence::memory_records(memory) == seq![
            RecordView::Now(memory.engine.now),
            RecordView::Rules(memory.rules),
        ] + memory.episodes.map_values(
            |episode: EpisodeView|
                RecordView::Episode {
                    id: episode.id,
                    timestamp: episode.ts,
                    speaker: episode.speaker,
                    text: episode.text,
                },
        ) + memory.escalations.map_values(|told: Seq<char>| RecordView::Escalation(told))
            + memory.engine.facts.map_values(
            |fact: FactView|
                fact.ann.conf.map_values(
                    |confidence: Seq<char>|
                        RecordView::Fact {
                            predicate: fact.pred,
                            confidence,
                            provenance: fact.ann.prov,
                            arguments: fact.key,
                        },
                ),
        ).flatten(),
{
    lemma_fact_records(memory.engine.facts);
    assert(memory.episodes.map_values(|episode: EpisodeView| persistence::episode_record(episode))
        =~= memory.episodes.map_values(
        |episode: EpisodeView|
            RecordView::Episode {
                id: episode.id,
                timestamp: episode.ts,
                speaker: episode.speaker,
                text: episode.text,
            },
    ));
}

proof fn lemma_fact_records(facts: Seq<FactView>)
    ensures
        persistence::fact_records(facts) == facts.map_values(
            |fact: FactView|
                fact.ann.conf.map_values(
                    |confidence: Seq<char>|
                        RecordView::Fact {
                            predicate: fact.pred,
                            confidence,
                            provenance: fact.ann.prov,
                            arguments: fact.key,
                        },
                ),
        ).flatten(),
    decreases facts.len(),
{
    let rows = |fact: FactView|
        fact.ann.conf.map_values(
            |confidence: Seq<char>|
                RecordView::Fact {
                    predicate: fact.pred,
                    confidence,
                    provenance: fact.ann.prov,
                    arguments: fact.key,
                },
        );
    let all = facts.map_values(rows);
    all.lemma_flatten_and_flatten_alt_are_equivalent();
    if facts.len() > 0 {
        let fewer = facts.drop_last();
        lemma_fact_records(fewer);
        fewer.map_values(rows).lemma_flatten_and_flatten_alt_are_equivalent();
        assert(all.drop_last() =~= fewer.map_values(rows));
        assert(all.last() == rows(facts.last()));
        assert(persistence::confidence_records(facts.last()) =~= rows(facts.last()));
    } else {
        assert(persistence::fact_records(facts) =~= all.flatten());
    }
}

/// A snapshot begins with its time and its rules, once each: another record in their place is told,
/// and so is one of them that comes again.
pub proof fn headers_come_first_and_once(
    now: int,
    rules: Seq<char>,
    memory: MemoryView,
    record: RecordView,
)
    ensures
        persistence::absorbed(Progress::Start, RecordView::Now(now)) == Ok::<
            Progress,
            LoadErrorView,
        >(Progress::Timed(now)),
        !(record is Now) ==> persistence::absorbed(Progress::Start, record) == Err::<
            Progress,
            LoadErrorView,
        >(LoadErrorView::Snapshot(ErrorView::MissingNow)),
        !(record is Rules) ==> persistence::absorbed(Progress::Timed(now), record) == Err::<
            Progress,
            LoadErrorView,
        >(LoadErrorView::MissingRules),
        clause::read_program(rules) is None ==> persistence::absorbed(
            Progress::Timed(now),
            RecordView::Rules(rules),
        ) == Err::<Progress, LoadErrorView>(LoadErrorView::Rules(rules)),
        clause::read_program(rules) is Some ==> persistence::absorbed(
            Progress::Timed(now),
            RecordView::Rules(rules),
        ) == Ok::<Progress, LoadErrorView>(
            Progress::Filled { now, memory: MemoryView::fresh(rules) },
        ),
        record is Now || record is Rules ==> persistence::absorbed(
            Progress::Filled { now, memory },
            record,
        ) == Err::<Progress, LoadErrorView>(LoadErrorView::DuplicateHeader),
{
}

/// A record without a tab, or with a tag that is not known, is refused, and so is a fact whose
/// confidence is no number, or an episode without its fields.
pub proof fn broken_records_are_refused(
    version: SnapshotVersion,
    line: Seq<char>,
    tag: Seq<char>,
    payload: Seq<char>,
)
    requires
        !line.contains('\t'),
        !tag.contains('\t'),
        tag != "NOW"@,
        tag != "RULES"@,
        tag != "EP"@,
        tag != "ESC"@,
        tag != "FACT"@,
    ensures
        snapshot::read_record(version, line) == Err::<RecordView, Seq<char>>(
            "record has no tab-separated payload"@,
        ),
        snapshot::read_record(version, tag + seq!['\t'] + payload) == Err::<RecordView, Seq<char>>(
            "unknown record tag "@ + text::quoted(tag),
        ),
        snapshot::read_episode(version, line) == Err::<RecordView, Seq<char>>("bad EP record"@),
        snapshot::read_fact(version, line) == Err::<RecordView, Seq<char>>("bad FACT record"@),
{
    text::lemma_first_char_none(line, '\t');
    text::lemma_cut_char(tag, '\t', payload);
    reveal_with_fuel(text::fields, 2);
}

/// The arguments of a fact are read one after the other; what is empty between two spaces is none,
/// and one that is neither a symbol nor an integer is refused.
pub proof fn arguments_are_read_in_order(
    version: SnapshotVersion,
    parts: Seq<Seq<char>>,
    name: Seq<char>,
    i: i64,
)
    requires
        snapshot::read_arguments(version, parts) is Ok,
    ensures
        ({
            let values = snapshot::read_arguments(version, parts)->Ok_0;
            &&& snapshot::read_arguments(version, parts.push(seq![])) == Ok::<
                Seq<ValueView>,
                Seq<char>,
            >(values)
            &&& snapshot::read_arguments(version, parts.push(seq!['s', ':'] + name)) == Ok::<
                Seq<ValueView>,
                Seq<char>,
            >(values.push(ValueView::Symbol(snapshot::unescaped(name, version))))
            &&& snapshot::read_arguments(
                version,
                parts.push(seq!['i', ':'] + number::decimal_int(i as int)),
            ) == Ok::<Seq<ValueView>, Seq<char>>(values.push(ValueView::Integer(i as int)))
            &&& name.len() > 0 && name[0] != 's' && name[0] != 'i' ==> snapshot::read_arguments(
                version,
                parts.push(name),
            ) is Err
        }),
{
    reveal_strlit("s:");
    reveal_strlit("i:");
    let none = Seq::<char>::empty();
    let symbol = seq!['s', ':'] + name;
    let integer = seq!['i', ':'] + number::decimal_int(i as int);
    assert(parts.push(none).drop_last() =~= parts);
    assert(parts.push(symbol).drop_last() =~= parts);
    assert(parts.push(integer).drop_last() =~= parts);
    assert(parts.push(name).drop_last() =~= parts);
    assert(symbol.take(2) =~= "s:"@);
    assert(symbol.skip(2) =~= name);
    assert(integer.take(2) =~= "i:"@);
    assert(integer.skip(2) =~= number::decimal_int(i as int));
    assert(integer.take(2)[0] == 'i' && "s:"@[0] == 's' && "i:"@[0] == 'i');
    number::decimal_int_reads_back(i);
    if name.len() > 0 && name[0] != 's' && name[0] != 'i' {
        if text::begins(name, "s:"@) || text::begins(name, "i:"@) {
            assert(name.take(2)[0] == name[0]);
        }
    }
}

/// A reader of a snapshot counts its lines, takes the version from the first, and remembers how much
/// room a line took at most.
pub proof fn reader_counts_its_lines(reader: ReaderView, line: Seq<char>, bytes: int)
    ensures
        ({
            let after = reader.after(line, bytes);
            &&& after.line_number == reader.line_number + 1
            &&& after.version == if reader.line_number == 0 {
                snapshot::version_of(line)
            } else {
                reader.version
            }
            &&& after.peak >= reader.peak
            &&& after.peak >= bytes
            &&& after.peak == reader.peak || after.peak == bytes
        }),
{
}

/// What a reader gives of a line is what the snapshot holds there.
pub proof fn reader_gives_what_the_snapshot_holds(
    version: SnapshotVersion,
    lines: Seq<Seq<char>>,
    n: int,
)
    requires
        2 <= n <= lines.len(),
        snapshot::records_upto(version, lines, n - 1) is Ok,
    ensures
        match snapshot::line_gives(Some(version), n, lines[n - 1]) {
            Ok(Some(record)) => snapshot::records_upto(version, lines, n) == Ok::<
                Seq<RecordView>,
                ErrorView,
            >(snapshot::records_upto(version, lines, n - 1)->Ok_0.push(record)),
            Ok(None) => false,
            Err(error) => snapshot::records_upto(version, lines, n) == Err::<
                Seq<RecordView>,
                ErrorView,
            >(error),
        },
{
}

/// The three magic lines have their versions, and no other line is one.
pub proof fn versions_have_their_magic(line: Seq<char>)
    ensures
        snapshot::version_of("LEMMALOG2"@) == Some(SnapshotVersion::V2),
        snapshot::version_of("LEMMALOG1"@) == Some(SnapshotVersion::Legacy),
        snapshot::version_of("CORTEXLOG1"@) == Some(SnapshotVersion::Legacy),
        line != "LEMMALOG2"@ && line != "LEMMALOG1"@ && line != "CORTEXLOG1"@
            ==> snapshot::version_of(line) is None,
{
    reveal_strlit("LEMMALOG2");
    reveal_strlit("LEMMALOG1");
    reveal_strlit("CORTEXLOG1");
    assert("LEMMALOG1"@[8] == '1' && "LEMMALOG2"@[8] == '2');
    assert("CORTEXLOG1"@.len() == 10 && "LEMMALOG2"@.len() == 9);
}

/// What rows took at most grows with them, and is what some of them took.
pub proof fn most_that_rows_took_is_kept(matches: MatchesView, row: Seq<char>)
    ensures
        ({
            let after = matches.after(row);
            let now = search::total_bytes(after.rows);
            &&& after.peak_bytes >= matches.peak_bytes
            &&& now <= usize::MAX ==> after.peak_bytes >= now && (after.peak_bytes
                == matches.peak_bytes || after.peak_bytes == now)
            &&& after.peak_count >= matches.peak_count
            &&& after.peak_count >= after.rows.len()
            &&& after.capacity == matches.capacity
        }),
{
}

/// The record of evidence has a line for each entry, in their order: the reference, a tab and the
/// time. A line without a tab makes it unreadable, and a later line of a reference counts.
pub proof fn evidence_is_recorded_by_lines(
    entries: Seq<(Seq<char>, Seq<char>)>,
    lines: Seq<Seq<char>>,
    uri: Seq<char>,
    time: Seq<char>,
    line: Seq<char>,
)
    requires
        !uri.contains('\t'),
        !line.contains('\t'),
    ensures
        evidence::record_of(seq![]).len() == 0,
        evidence::record_of(entries.push((uri, time))) == evidence::record_of(entries) + uri + seq![
            '\t',
        ] + time + seq!['\n'],
        evidence::entries_in(seq![]) == Some(Seq::<(Seq<char>, Seq<char>)>::empty()),
        evidence::entries_in(lines.push(line)) is None,
        evidence::entries_in(lines.push(uri + seq!['\t'] + time)) == match evidence::entries_in(
            lines,
        ) {
            Some(before) => Some(evidence::captured(before, uri, time)),
            None => None,
        },
{
    assert(entries.push((uri, time)).drop_last() =~= entries);
    let written = uri + seq!['\t'] + time;
    assert(lines.push(line).drop_last() =~= lines);
    assert(lines.push(written).drop_last() =~= lines);
    text::lemma_cut_char(uri, '\t', time);
    text::lemma_first_char_none(line, '\t');
    assert(evidence::record_of(entries.push((uri, time))) =~= evidence::record_of(entries) + uri
        + seq!['\t'] + time + seq!['\n']);
}

/// A search of lines that were read so far knows of the first that is wrong, as a reader of the whole
/// does, and of the records before.
pub proof fn search_knows_of_the_first_problem(lines: Seq<Seq<char>>)
    requires
        lines.len() >= 2,
    ensures
        search::problem(lines) == match snapshot::read_lines(lines) {
            Ok(_) => None,
            Err(error) => Some(error),
        },
        snapshot::read_lines(lines) matches Ok(records) ==> search::records_in(lines) == records,
        search::nothing_found().rows.len() == 0,
        !search::nothing_found().truncated,
{
}

/// A loader of lines knows of the first problem, as a reader of the whole does.
pub proof fn loader_knows_of_the_first_problem(lines: Seq<Seq<char>>)
    requires
        lines.len() > 0,
    ensures
        persistence::load_problem(lines) matches Some(error) ==> persistence::load_lines(lines)
            == Err::<MemoryView, LoadErrorView>(error),
        persistence::load_lines(lines) is Ok ==> persistence::load_problem(lines) is None,
{
}

/// A backslash and the character behind it are read as one where they are written for one, and as they
/// are elsewhere. Older snapshots do not write the carriage return so.
pub proof fn escapes_are_read_in_pairs(rest: Seq<char>, c: char, version: SnapshotVersion)
    ensures
        ({
            let behind = snapshot::unescaped(rest, version);
            &&& snapshot::unescaped(seq!['\\', 't'] + rest, version) == seq!['\t'] + behind
            &&& snapshot::unescaped(seq!['\\', 'n'] + rest, version) == seq!['\n'] + behind
            &&& snapshot::unescaped(seq!['\\', 's'] + rest, version) == seq![' '] + behind
            &&& snapshot::unescaped(seq!['\\', '\\'] + rest, version) == seq!['\\'] + behind
            &&& snapshot::unescaped(seq!['\\', 'r'] + rest, version) == (if version
                == SnapshotVersion::V2 {
                seq!['\r']
            } else {
                seq!['\\', 'r']
            }) + behind
            &&& c != 't' && c != 'n' && c != 's' && c != 'r' && c != '\\' ==> snapshot::unescaped(
                seq!['\\', c] + rest,
                version,
            ) == seq!['\\', c] + behind
            &&& c != '\\' ==> snapshot::unescaped(seq![c] + rest, version) == seq![c] + behind
            &&& snapshot::unescaped(seq!['\\'], version) == seq!['\\']
        }),
{
    assert((seq!['\\', 't'] + rest).skip(2) =~= rest);
    assert((seq!['\\', 'n'] + rest).skip(2) =~= rest);
    assert((seq!['\\', 's'] + rest).skip(2) =~= rest);
    assert((seq!['\\', '\\'] + rest).skip(2) =~= rest);
    assert((seq!['\\', 'r'] + rest).skip(2) =~= rest);
    assert((seq!['\\', c] + rest).skip(2) =~= rest);
    assert((seq![c] + rest).drop_first() =~= rest);
}

} // verus!
