//! What an explanation cites.

use vstd::prelude::*;

use crate::datalog;
use crate::evidence;
use crate::sorted;
use crate::text;
use crate::text_laws;

verus! {

/// The line that cites a reference.
pub open spec fn citation(uri: Seq<char>, time: Seq<char>) -> Seq<char> {
    "evidence: "@ + uri + " (captured_at="@ + time + ")"@
}

/// What is cited is written behind what was there: with one more entry a text is as before and, where
/// the reference stands in it, one more line.
pub proof fn evidence_is_added_behind(
    proof_text: Seq<char>,
    entries: Seq<(Seq<char>, Seq<char>)>,
    uri: Seq<char>,
    time: Seq<char>,
)
    ensures
        evidence::with_evidence(proof_text, seq![]) == proof_text,
        ({
            let before = evidence::with_evidence(proof_text, entries);
            let after = evidence::with_evidence(proof_text, entries.push((uri, time)));
            after == if exists|a: Seq<char>, b: Seq<char>| before == #[trigger] (a + uri + b) {
                before + "evidence: "@ + uri + " (captured_at="@ + time + ")\n"@
            } else {
                before
            }
        }),
{
    let longer = entries.push((uri, time));
    assert(longer.drop_last() =~= entries);
    text_laws::contained_text_stands_between(
        evidence::with_evidence(proof_text, entries),
        uri,
    );
}

/// A text with evidence begins with the text, and each entry whose reference stands in the text has
/// its line.
proof fn lemma_cited(
    proof_text: Seq<char>,
    entries: Seq<(Seq<char>, Seq<char>)>,
    i: int,
)
    requires
        0 <= i < entries.len(),
        text::contains_text(proof_text, entries[i].0),
    ensures
        text::contains_text(
            evidence::with_evidence(proof_text, entries),
            citation(entries[i].0, entries[i].1),
        ),
    decreases entries.len(),
{
    let fewer = entries.drop_last();
    let before = evidence::with_evidence(proof_text, fewer);
    let whole = evidence::with_evidence(proof_text, entries);
    let (uri, time) = entries.last();
    let none = Seq::<char>::empty();
    lemma_begins(proof_text, fewer);
    let (u, t) = entries[i];
    let line = citation(u, t);
    if i < fewer.len() {
        lemma_cited(proof_text, fewer, i);
        if whole != before {
            let tail = whole.skip(before.len() as int);
            assert(whole =~= none + before + tail);
            text_laws::lemma_contained_in(none, before, tail, line);
        }
    } else {
        let tail = before.skip(proof_text.len() as int);
        assert(before =~= none + proof_text + tail);
        text_laws::lemma_contained_in(none, proof_text, tail, u);
        reveal_strlit(")");
        reveal_strlit(")\n");
        assert(whole =~= before + line + seq!['\n']);
        text_laws::lemma_contained(before, line, seq!['\n']);
    }
}

proof fn lemma_begins(proof_text: Seq<char>, entries: Seq<(Seq<char>, Seq<char>)>)
    ensures
        proof_text.len() <= evidence::with_evidence(proof_text, entries).len(),
        evidence::with_evidence(proof_text, entries).take(proof_text.len() as int) == proof_text,
    decreases entries.len(),
{
    if entries.len() > 0 {
        lemma_begins(proof_text, entries.drop_last());
        let before = evidence::with_evidence(proof_text, entries.drop_last());
        let whole = evidence::with_evidence(proof_text, entries);
        assert(whole.take(proof_text.len() as int) =~= before.take(proof_text.len() as int));
    } else {
        assert(proof_text.take(proof_text.len() as int) =~= proof_text);
    }
}

/// The text that is told cites each captured reference that the explanation names, with the time of
/// its capture, and begins with the explanation, white space at its end aside.
pub proof fn named_references_are_cited(
    proof_text: Seq<char>,
    entries: Seq<(Seq<char>, Seq<char>)>,
)
    ensures
        ({
            let told = text::trimmed_end(evidence::with_evidence(proof_text, entries));
            let shown = text::trimmed_end(proof_text);
            &&& forall|i: int|
                0 <= i < entries.len() && text::contains_text(
                    proof_text,
                    (#[trigger] entries[i]).0,
                ) ==> text::contains_text(
                    told,
                    "evidence: "@ + entries[i].0 + " (captured_at="@ + entries[i].1 + ")"@,
                )
            &&& shown.len() <= told.len()
            &&& told.take(shown.len() as int) == shown
        }),
{
    let whole = evidence::with_evidence(proof_text, entries);
    let told = text::trimmed_end(whole);
    let shown = text::trimmed_end(proof_text);
    text_laws::trimmed_end_is_a_beginning(whole);
    text_laws::trimmed_end_is_a_beginning(proof_text);
    lemma_begins(proof_text, entries);
    reveal_strlit(")");
    if shown.len() > 0 {
        let n = shown.len() - 1;
        assert(whole[n] == whole.take(proof_text.len() as int)[n]);
        assert(!text::white(whole[n]));
    }
    assert(told.take(shown.len() as int) =~= shown) by {
        assert forall|k: int| 0 <= k < shown.len() implies told[k] == shown[k] by {
            assert(told[k] == whole[k]);
            assert(whole[k] == whole.take(proof_text.len() as int)[k]);
        }
    }
    assert forall|i: int|
        0 <= i < entries.len() && text::contains_text(proof_text, (#[trigger] entries[i]).0)
        implies text::contains_text(
        told,
        "evidence: "@ + entries[i].0 + " (captured_at="@ + entries[i].1 + ")"@,
    ) by {
        let line = citation(entries[i].0, entries[i].1);
        lemma_cited(proof_text, entries, i);
        let k = choose|k: int| text::occurs_at(whole, line, k);
        let end = k + line.len() - 1;
        assert(line.last() == ')');
        assert(whole.subrange(k, k + line.len())[line.len() - 1] == whole[end]);
        assert(!text::white(whole[end]));
        assert(told.len() > end);
        assert(told.subrange(k, k + line.len()) =~= whole.subrange(k, k + line.len()));
        assert(text::occurs_at(told, line, k));
    }
}

/// Whether a time is recorded for a reference.
pub open spec fn recorded(
    entries: Seq<(Seq<char>, Seq<char>)>,
    uri: Seq<char>,
    time: Seq<char>,
) -> bool {
    exists|i: int| 0 <= i < entries.len() && #[trigger] entries[i] == (uri, time)
}

proof fn lemma_recorded_first(
    first: (Seq<char>, Seq<char>),
    rest: Seq<(Seq<char>, Seq<char>)>,
    uri: Seq<char>,
    time: Seq<char>,
)
    ensures
        recorded(seq![first] + rest, uri, time) <==> first == (uri, time) || recorded(
            rest,
            uri,
            time,
        ),
{
    let all = seq![first] + rest;
    if recorded(all, uri, time) {
        let i = choose|i: int| 0 <= i < all.len() && #[trigger] all[i] == (uri, time);
        if i > 0 {
            assert(rest[i - 1] == (uri, time));
        }
    }
    if first == (uri, time) {
        assert(all[0] == (uri, time));
    }
    if recorded(rest, uri, time) {
        let i = choose|i: int| 0 <= i < rest.len() && #[trigger] rest[i] == (uri, time);
        assert(all[i + 1] == (uri, time));
    }
}

proof fn lemma_after(entries: Seq<(Seq<char>, Seq<char>)>, uri: Seq<char>, time: Seq<char>)
    requires
        evidence::in_order(entries),
        entries.len() > 0,
        text::before(uri, entries[0].0),
    ensures
        !recorded(entries, uri, time),
{
    if recorded(entries, uri, time) {
        let i = choose|i: int| 0 <= i < entries.len() && #[trigger] entries[i] == (uri, time);
        let listed = evidence::references(entries);
        assert(listed[i] == uri && listed[0] == entries[0].0);
        if i > 0 {
            assert(text::before(listed[0], listed[i]));
            sorted::before_is_transitive(uri, listed[0], uri);
        }
        sorted::before_is_irreflexive(uri);
    }
}

/// To capture a reference records its time, in place of an earlier one, and leaves all other
/// references as they were.
pub proof fn capture_records_one_time(
    entries: Seq<(Seq<char>, Seq<char>)>,
    uri: Seq<char>,
    time: Seq<char>,
    other: Seq<char>,
    when: Seq<char>,
)
    requires
        evidence::in_order(entries),
    ensures
        recorded(evidence::captured(entries, uri, time), other, when) <==> if other == uri {
            when == time
        } else {
            recorded(entries, other, when)
        },
    decreases entries.len(),
{
    let after = evidence::captured(entries, uri, time);
    let none = Seq::<(Seq<char>, Seq<char>)>::empty();
    if entries.len() == 0 {
        assert(after =~= seq![(uri, time)] + none);
        lemma_recorded_first((uri, time), none, other, when);
    } else {
        let first = entries[0];
        let rest = entries.drop_first();
        assert(entries =~= seq![first] + rest);
        lemma_recorded_first(first, rest, other, when);
        assert(evidence::in_order(rest)) by {
            let listed = evidence::references(entries);
            let fewer = evidence::references(rest);
            assert forall|i: int, j: int| 0 <= i < j < fewer.len() implies text::before(
                #[trigger] fewer[i],
                #[trigger] fewer[j],
            ) by {
                assert(fewer[i] == listed[i + 1] && fewer[j] == listed[j + 1]);
            }
        }
        if first.0 == uri {
            assert(after =~= seq![(uri, time)] + rest);
            lemma_recorded_first((uri, time), rest, other, when);
            if other == uri && recorded(rest, uri, when) {
                let i = choose|i: int| 0 <= i < rest.len() && #[trigger] rest[i] == (uri, when);
                let listed = evidence::references(entries);
                assert(listed[i + 1] == entries[i + 1].0);
                assert(text::before(listed[0], listed[i + 1]));
                sorted::before_is_irreflexive(uri);
            }
        } else if text::before(uri, first.0) {
            lemma_after(entries, uri, when);
            assert(after == seq![(uri, time)] + entries);
            lemma_recorded_first((uri, time), entries, other, when);
        } else {
            capture_records_one_time(rest, uri, time, other, when);
            lemma_recorded_first(first, evidence::captured(rest, uri, time), other, when);
        }
    }
}

/// To capture references records the time for each of them, and leaves all others as they were.
pub proof fn each_captured_reference_is_recorded(
    entries: Seq<(Seq<char>, Seq<char>)>,
    uris: Seq<Seq<char>>,
    time: Seq<char>,
    other: Seq<char>,
    when: Seq<char>,
)
    requires
        evidence::in_order(entries),
    ensures
        recorded(evidence::all_captured(entries, uris, time), other, when) <==> if uris.contains(
            other,
        ) {
            when == time
        } else {
            recorded(entries, other, when)
        },
        evidence::in_order(evidence::all_captured(entries, uris, time)),
    decreases uris.len(),
{
    if uris.len() > 0 {
        let fewer = uris.drop_last();
        let before = evidence::all_captured(entries, fewer, time);
        each_captured_reference_is_recorded(entries, fewer, time, other, when);
        evidence::capture_keeps_order(before, uris.last(), time);
        capture_records_one_time(before, uris.last(), time, other, when);
        datalog::lemma_push_holds(fewer, uris.last(), other);
        assert(uris =~= fewer.push(uris.last()));
    }
}

/// The time of a capture is the one that was given, and else the present one.
pub proof fn given_time_is_recorded(time: Seq<char>, now: Seq<char>)
    ensures
        evidence::capture_time(Some(time), now) == time,
        evidence::capture_time(None, now) == now,
{
}

} // verus!
