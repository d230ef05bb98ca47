//! The record of evidence: which reference was captured when.
//!
//! It is a text with one line for each reference, in order: the reference, a tab and the time.

use vstd::prelude::*;

use crate::args;
use crate::snapshot;
use crate::sorted;
use crate::text;

verus! {

/// References and when they were captured, as views.
pub open spec fn entry_views(entries: Seq<(String, String)>) -> Seq<(Seq<char>, Seq<char>)> {
    entries.map_values(|entry: (String, String)| (entry.0@, entry.1@))
}

/// The references of entries.
pub open spec fn references(entries: Seq<(Seq<char>, Seq<char>)>) -> Seq<Seq<char>> {
    entries.map_values(|entry: (Seq<char>, Seq<char>)| entry.0)
}

/// Entries after a reference was captured: a reference that is there gets the new time, one that
/// is not comes at its place in the order.
pub open spec fn captured(
    entries: Seq<(Seq<char>, Seq<char>)>,
    uri: Seq<char>,
    time: Seq<char>,
) -> Seq<(Seq<char>, Seq<char>)>
    decreases entries.len(),
{
    if entries.len() == 0 {
        seq![(uri, time)]
    } else if entries[0].0 == uri {
        entries.update(0, (uri, time))
    } else if text::before(uri, entries[0].0) {
        seq![(uri, time)] + entries
    } else {
        seq![entries[0]] + captured(entries.drop_first(), uri, time)
    }
}

/// Entries after references were captured at a time.
pub open spec fn all_captured(
    entries: Seq<(Seq<char>, Seq<char>)>,
    uris: Seq<Seq<char>>,
    time: Seq<char>,
) -> Seq<(Seq<char>, Seq<char>)>
    decreases uris.len(),
{
    if uris.len() == 0 {
        entries
    } else {
        captured(all_captured(entries, uris.drop_last(), time), uris.last(), time)
    }
}

/// The entries in lines; none where a line holds no tab.
pub open spec fn entries_in(lines: Seq<Seq<char>>) -> Option<Seq<(Seq<char>, Seq<char>)>>
    decreases lines.len(),
{
    if lines.len() == 0 {
        Some(seq![])
    } else {
        match entries_in(lines.drop_last()) {
            None => None,
            Some(entries) => match text::cut_char(lines.last(), '\t') {
                None => None,
                Some((uri, time)) => Some(captured(entries, uri, time)),
            },
        }
    }
}

/// The line of an entry.
pub open spec fn entry_line(entry: (Seq<char>, Seq<char>)) -> Seq<char> {
    entry.0 + seq!['\t'] + entry.1
}

/// The record of entries.
pub open spec fn record_of(entries: Seq<(Seq<char>, Seq<char>)>) -> Seq<char>
    decreases entries.len(),
{
    if entries.len() == 0 {
        seq![]
    } else {
        record_of(entries.drop_last()) + entry_line(entries.last()) + seq!['\n']
    }
}

/// Where a reference is captured.
proof fn lemma_captured_at(
    entries: Seq<(Seq<char>, Seq<char>)>,
    uri: Seq<char>,
    time: Seq<char>,
    at: int,
)
    requires
        0 <= at <= entries.len(),
        forall|j: int| 0 <= j < at ==> text::before((#[trigger] entries[j]).0, uri),
        at == entries.len() || entries[at].0 == uri || text::before(uri, entries[at].0),
    ensures
        captured(entries, uri, time) == if at < entries.len() && entries[at].0 == uri {
            entries.update(at, (uri, time))
        } else {
            entries.take(at) + seq![(uri, time)] + entries.skip(at)
        },
    decreases entries.len(),
{
    if at == 0 {
        if entries.len() == 0 {
            assert(captured(entries, uri, time) =~= entries.take(0) + seq![(uri, time)]
                + entries.skip(0));
        } else if entries[0].0 != uri {
            assert(seq![(uri, time)] + entries =~= entries.take(0) + seq![(uri, time)]
                + entries.skip(0));
        }
    } else {
        assert(text::before(entries[0].0, uri));
        sorted::before_is_irreflexive(uri);
        if text::before(uri, entries[0].0) {
            sorted::before_is_transitive(uri, entries[0].0, uri);
        }
        let rest = entries.drop_first();
        assert forall|j: int| 0 <= j < at - 1 implies text::before(
            (#[trigger] rest[j]).0,
            uri,
        ) by {
            assert(rest[j] == entries[j + 1]);
        }
        lemma_captured_at(rest, uri, time, at - 1);
        assert(captured(entries, uri, time) =~= if at < entries.len() && entries[at].0 == uri {
            entries.update(at, (uri, time))
        } else {
            entries.take(at) + seq![(uri, time)] + entries.skip(at)
        });
    }
}

/// Captures a reference at a time.
pub fn capture(entries: &mut Vec<(String, String)>, uri: &str, time: &str)
    ensures
        entry_views(final(entries)@) == captured(entry_views(old(entries)@), uri@, time@),
{
    let ghost all = entry_views(entries@);
    let ghost whole = entries@;
    let mut at: usize = 0;
    while at < entries.len() && text::is_before(entries[at].0.as_str(), uri)
        invariant
            entries@ == whole,
            all == entry_views(whole),
            at <= entries@.len(),
            forall|j: int| 0 <= j < at ==> text::before((#[trigger] all[j]).0, uri@),
        decreases entries@.len() - at,
    {
        at = at + 1;
    }
    proof {
        if at < entries@.len() {
            sorted::before_is_total(all[at as int].0, uri@);
        }
        lemma_captured_at(all, uri@, time@, at as int);
    }
    if at < entries.len() && text::same_text(entries[at].0.as_str(), uri) {
        entries.set(at, (uri.to_owned(), time.to_owned()));
        assert(entry_views(entries@) =~= all.update(at as int, (uri@, time@)));
    } else {
        entries.insert(at, (uri.to_owned(), time.to_owned()));
        assert(entry_views(entries@) =~= all.take(at as int) + seq![(uri@, time@)] + all.skip(
            at as int,
        ));
    }
}

/// Captures references at a time.
pub fn capture_all(entries: &mut Vec<(String, String)>, uris: &Vec<String>, time: &str)
    ensures
        entry_views(final(entries)@) == all_captured(
            entry_views(old(entries)@),
            text::texts(uris@),
            time@,
        ),
{
    let ghost start = entry_views(entries@);
    let ghost all = text::texts(uris@);
    for i in 0..uris.len()
        invariant
            all == text::texts(uris@),
            entry_views(entries@) == all_captured(start, all.take(i as int), time@),
    {
        assert(all.take(i as int + 1).drop_last() =~= all.take(i as int));
        capture(entries, uris[i].as_str(), time);
    }
    assert(all.take(all.len() as int) =~= all);
}

/// When references are captured: at the time that was given, or else now.
pub open spec fn capture_time(captured_at: Option<Seq<char>>, now: Seq<char>) -> Seq<char> {
    match captured_at {
        Some(time) => time,
        None => now,
    }
}

/// Captures references at the time that was given, or else now. Says whether there were any.
pub fn record_evidence(
    entries: &mut Vec<(String, String)>,
    uris: &Vec<String>,
    captured_at: &Option<String>,
    now: &str,
) -> (changed: bool)
    ensures
        changed == (uris@.len() > 0),
        entry_views(final(entries)@) == all_captured(
            entry_views(old(entries)@),
            text::texts(uris@),
            capture_time(snapshot::optional_text(*captured_at), now@),
        ),
{
    match captured_at {
        Some(time) => capture_all(entries, uris, time.as_str()),
        None => capture_all(entries, uris, now),
    }
    uris.len() > 0
}

/// Reads the record of evidence; none where a line holds no tab.
pub fn parse_evidence(content: &str) -> (entries: Option<Vec<(String, String)>>)
    ensures
        match entries {
            Some(entries) => entries_in(text::lines(content@)) == Some(entry_views(entries@)),
            None => entries_in(text::lines(content@)) is None,
        },
{
    let chars: Vec<char> = text::chars_of(content);
    let lines: Vec<String> = text::split_lines(chars.as_slice());
    let ghost all = text::texts(lines@);
    let mut entries: Vec<(String, String)> = Vec::new();
    assert(entry_views(entries@) =~= seq![]);
    for i in 0..lines.len()
        invariant
            all == text::texts(lines@),
            all == text::lines(content@),
            entries_in(all.take(i as int)) == Some(entry_views(entries@)),
    {
        assert(all.take(i as int + 1).drop_last() =~= all.take(i as int));
        let line: Vec<char> = text::chars_of(lines[i].as_str());
        match text::split_once_char(line.as_slice(), '\t') {
            None => {
                proof {
                    lemma_malformed(all, i as int + 1);
                }
                return None;
            },
            Some((uri, time)) => {
                capture(
                    &mut entries,
                    text::string_of(uri).as_str(),
                    text::string_of(time).as_str(),
                );
            },
        }
    }
    assert(all.take(all.len() as int) =~= all);
    Some(entries)
}

/// A line without a tab among the first lines spoils all.
proof fn lemma_malformed(lines: Seq<Seq<char>>, n: int)
    requires
        0 <= n <= lines.len(),
        entries_in(lines.take(n)) is None,
    ensures
        entries_in(lines) is None,
    decreases lines.len(),
{
    if n == lines.len() {
        assert(lines.take(n) =~= lines);
    } else {
        assert(lines.drop_last().take(n) =~= lines.take(n));
        lemma_malformed(lines.drop_last(), n);
    }
}

/// Writes the record of evidence.
pub fn write_evidence(entries: &Vec<(String, String)>) -> (content: String)
    ensures
        content@ == record_of(entry_views(entries@)),
{
    let ghost all = entry_views(entries@);
    let mut content: String = String::new();
    assert(content@ =~= record_of(all.take(0)));
    for i in 0..entries.len()
        invariant
            all == entry_views(entries@),
            content@ == record_of(all.take(i as int)),
    {
        assert(all.take(i as int + 1).drop_last() =~= all.take(i as int));
        content.append(entries[i].0.as_str());
        content.push('\t');
        content.append(entries[i].1.as_str());
        content.push('\n');
        assert(content@ =~= record_of(all.take(i as int + 1)));
    }
    assert(all.take(all.len() as int) =~= all);
    content
}

/// The proof of a fact, and behind it each entry whose reference stands in what was written so
/// far.
pub open spec fn with_evidence(
    proof_text: Seq<char>,
    entries: Seq<(Seq<char>, Seq<char>)>,
) -> Seq<char>
    decreases entries.len(),
{
    if entries.len() == 0 {
        proof_text
    } else {
        let before = with_evidence(proof_text, entries.drop_last());
        let (uri, time) = entries.last();
        if text::contains_text(before, uri) {
            before + "evidence: "@ + uri + " (captured_at="@ + time + ")\n"@
        } else {
            before
        }
    }
}

/// Tells the proof of a fact with the evidence that it cites.
pub fn cite_evidence(proof_text: &str, entries: &Vec<(String, String)>) -> (told: String)
    ensures
        told@ == text::trimmed_end(with_evidence(proof_text@, entry_views(entries@))),
{
    let ghost all = entry_views(entries@);
    let mut told: String = proof_text.to_owned();
    for i in 0..entries.len()
        invariant
            all == entry_views(entries@),
            told@ == with_evidence(proof_text@, all.take(i as int)),
    {
        assert(all.take(i as int + 1).drop_last() =~= all.take(i as int));
        let written: Vec<char> = text::chars_of(told.as_str());
        let uri: Vec<char> = text::chars_of(entries[i].0.as_str());
        if text::has_text(written.as_slice(), uri.as_slice()) {
            told.append("evidence: ");
            told.append(entries[i].0.as_str());
            told.append(" (captured_at=");
            told.append(entries[i].1.as_str());
            told.append(")\n");
        }
    }
    assert(all.take(all.len() as int) =~= all);
    let chars: Vec<char> = text::chars_of(told.as_str());
    text::string_of(text::trim_end(chars.as_slice()))
}

// ------------------------------------------------------------------- laws
/// Whether the references of entries stand in order, each once.
pub open spec fn in_order(entries: Seq<(Seq<char>, Seq<char>)>) -> bool {
    sorted::ordered(references(entries))
}

/// Whether no entry holds a tab or a line ending.
pub open spec fn recordable(entries: Seq<(Seq<char>, Seq<char>)>) -> bool {
    forall|i: int|
        0 <= i < entries.len() ==> !args::breaks_record((#[trigger] entries[i]).0)
            && !args::breaks_record(entries[i].1)
}

/// Capturing a reference changes the references as placing it in order does.
pub proof fn capture_places_reference(
    entries: Seq<(Seq<char>, Seq<char>)>,
    uri: Seq<char>,
    time: Seq<char>,
)
    ensures
        references(captured(entries, uri, time)) == sorted::placed(references(entries), uri),
    decreases entries.len(),
{
    let listed = references(entries);
    if entries.len() == 0 {
        assert(references(captured(entries, uri, time)) =~= seq![uri]);
    } else if entries[0].0 == uri {
        assert(references(captured(entries, uri, time)) =~= listed);
    } else if text::before(uri, entries[0].0) {
        assert(references(captured(entries, uri, time)) =~= seq![uri] + listed);
    } else {
        let rest = entries.drop_first();
        capture_places_reference(rest, uri, time);
        assert(references(rest) =~= listed.drop_first());
        assert(references(captured(entries, uri, time)) =~= seq![listed[0]] + references(
            captured(rest, uri, time),
        ));
    }
}

/// Capturing keeps the references in order.
pub proof fn capture_keeps_order(
    entries: Seq<(Seq<char>, Seq<char>)>,
    uri: Seq<char>,
    time: Seq<char>,
)
    requires
        in_order(entries),
    ensures
        in_order(captured(entries, uri, time)),
{
    capture_places_reference(entries, uri, time);
    sorted::lemma_placed(references(entries), uri);
}

proof fn lemma_record_lines(entries: Seq<(Seq<char>, Seq<char>)>)
    requires
        recordable(entries),
    ensures
        text::lines(record_of(entries)) == entries.map_values(
            |entry: (Seq<char>, Seq<char>)| entry_line(entry),
        ),
        entries.len() > 0 ==> record_of(entries).last() == '\n',
    decreases entries.len(),
{
    let all = entries.map_values(|entry: (Seq<char>, Seq<char>)| entry_line(entry));
    if entries.len() == 0 {
        assert(all =~= seq![]);
    } else {
        let fewer = entries.drop_last();
        let last = entries.last();
        assert forall|i: int| 0 <= i < fewer.len() implies !args::breaks_record(
            (#[trigger] fewer[i]).0,
        ) && !args::breaks_record(fewer[i].1) by {
            assert(fewer[i] == entries[i]);
        }
        lemma_record_lines(fewer);
        assert(!args::breaks_record(entries[entries.len() - 1].0));
        let line = entry_line(last);
        assert(!line.contains('\n')) by {
            if line.contains('\n') {
                let i = choose|i: int| 0 <= i < line.len() && line[i] == '\n';
                if i < last.0.len() {
                    assert(last.0[i] == '\n');
                } else if i > last.0.len() {
                    assert(last.1[i - last.0.len() - 1] == '\n');
                }
            }
        }
        assert(line.last() != '\r') by {
            if last.1.len() > 0 {
                assert(line.last() == last.1.last());
                assert(last.1.contains(last.1.last()));
            } else {
                assert(line.last() == '\t');
            }
        }
        let head = record_of(fewer);
        let tail = line + seq!['\n'];
        assert(record_of(entries) =~= head + tail);
        text::lemma_lines_add(head, tail);
        text::lemma_lines_first(line, seq![]);
        assert(line + seq!['\n'] + Seq::<char>::empty() =~= tail);
        assert(text::lines(tail) =~= seq![line]);
        assert(all =~= fewer.map_values(|entry: (Seq<char>, Seq<char>)| entry_line(entry)) + seq![
            line,
        ]);
    }
}

proof fn lemma_entries(entries: Seq<(Seq<char>, Seq<char>)>)
    requires
        recordable(entries),
        in_order(entries),
    ensures
        entries_in(
            entries.map_values(|entry: (Seq<char>, Seq<char>)| entry_line(entry)),
        ) == Some(entries),
    decreases entries.len(),
{
    let lines = entries.map_values(|entry: (Seq<char>, Seq<char>)| entry_line(entry));
    if entries.len() == 0 {
        assert(entries =~= seq![]);
    } else {
        let fewer = entries.drop_last();
        let (uri, time) = entries.last();
        let listed = references(entries);
        assert forall|i: int| 0 <= i < fewer.len() implies !args::breaks_record(
            (#[trigger] fewer[i]).0,
        ) && !args::breaks_record(fewer[i].1) by {
            assert(fewer[i] == entries[i]);
        }
        assert forall|i: int, j: int| 0 <= i < j < references(fewer).len() implies text::before(
            #[trigger] references(fewer)[i],
            #[trigger] references(fewer)[j],
        ) by {
            assert(text::before(listed[i], listed[j]));
        }
        lemma_entries(fewer);
        assert(lines.drop_last() =~= fewer.map_values(
            |entry: (Seq<char>, Seq<char>)| entry_line(entry),
        ));
        assert(!args::breaks_record(entries[entries.len() - 1].0));
        text::lemma_cut_char(uri, '\t', time);
        assert forall|j: int| 0 <= j < fewer.len() implies text::before(
            (#[trigger] fewer[j]).0,
            uri,
        ) by {
            assert(text::before(listed[j], listed[entries.len() - 1]));
        }
        lemma_captured_at(fewer, uri, time, fewer.len() as int);
        assert(fewer.take(fewer.len() as int) + seq![(uri, time)] + fewer.skip(fewer.len() as int)
            =~= entries);
    }
}

/// The record of evidence reads back.
pub proof fn evidence_reads_back(entries: Seq<(Seq<char>, Seq<char>)>)
    requires
        recordable(entries),
        in_order(entries),
    ensures
        entries_in(text::lines(record_of(entries))) == Some(entries),
{
    lemma_record_lines(entries);
    lemma_entries(entries);
}

} // verus!
