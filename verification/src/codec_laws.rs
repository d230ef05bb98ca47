//! What the snapshot codec promises as a whole: what is written reads back.

use vstd::prelude::*;

use crate::number;
use crate::snapshot;
use crate::snapshot::{RecordView, SnapshotVersion, ValueView, SNAPSHOT_MAGIC};
use crate::text;

verus! {

/// Whether `s` holds no tab, no line ending and no space.
pub open spec fn bare(s: Seq<char>) -> bool {
    forall|i: int|
        0 <= i < s.len() ==> {
            &&& #[trigger] s[i] != '\t'
            &&& s[i] != '\n'
            &&& s[i] != '\r'
            &&& s[i] != ' '
        }
}

proof fn lemma_bare_add(a: Seq<char>, b: Seq<char>)
    requires
        bare(a),
        bare(b),
    ensures
        bare(a + b),
{
    assert forall|i: int| 0 <= i < (a + b).len() implies ({
        &&& #[trigger] (a + b)[i] != '\t'
        &&& (a + b)[i] != '\n'
        &&& (a + b)[i] != '\r'
        &&& (a + b)[i] != ' '
    }) by {
        if i < a.len() {
            assert((a + b)[i] == a[i]);
        } else {
            assert((a + b)[i] == b[i - a.len()]);
        }
    }
}

proof fn lemma_bare_without(s: Seq<char>)
    requires
        bare(s),
    ensures
        !s.contains('\t'),
        !s.contains('\n'),
        !s.contains('\r'),
        !s.contains(' '),
{
}

/// An escaped text holds no tab, no line ending and no space.
pub proof fn escaped_is_bare(s: Seq<char>)
    ensures
        bare(snapshot::escaped(s)),
    decreases s.len(),
{
    if s.len() > 0 {
        escaped_is_bare(s.drop_first());
        lemma_bare_add(snapshot::escaped_char(s[0]), snapshot::escaped(s.drop_first()));
    }
}

/// Escaping loses nothing: every text reads back from its escaped form.
pub proof fn escape_reads_back(s: Seq<char>)
    ensures
        snapshot::unescaped(snapshot::escaped(s), SnapshotVersion::V2) == s,
    decreases s.len(),
{
    if s.len() > 0 {
        let rest = snapshot::escaped(s.drop_first());
        let form = snapshot::escaped(s);
        escape_reads_back(s.drop_first());
        if snapshot::escaped_char(s[0]).len() == 1 {
            assert(form.drop_first() =~= rest);
        } else {
            assert(form[1] == snapshot::escaped_char(s[0])[1]);
            assert(form.skip(2) =~= rest);
        }
        assert(snapshot::unescaped(form, SnapshotVersion::V2) =~= seq![s[0]] + s.drop_first());
        assert(seq![s[0]] + s.drop_first() =~= s);
    }
}

/// In the older versions every text without a carriage return reads back from its escaped form.
pub proof fn escape_reads_back_in_legacy(s: Seq<char>)
    requires
        !s.contains('\r'),
    ensures
        snapshot::unescaped(snapshot::escaped(s), SnapshotVersion::Legacy) == s,
    decreases s.len(),
{
    if s.len() > 0 {
        let rest = snapshot::escaped(s.drop_first());
        let form = snapshot::escaped(s);
        assert(s.contains(s[0]));
        assert(!s.drop_first().contains('\r')) by {
            if s.drop_first().contains('\r') {
                let i = choose|i: int| 0 <= i < s.drop_first().len() && s.drop_first()[i] == '\r';
                assert(s[i + 1] == '\r');
            }
        }
        escape_reads_back_in_legacy(s.drop_first());
        if snapshot::escaped_char(s[0]).len() == 1 {
            assert(form.drop_first() =~= rest);
        } else {
            assert(form[1] == snapshot::escaped_char(s[0])[1]);
            assert(form.skip(2) =~= rest);
        }
        assert(snapshot::unescaped(form, SnapshotVersion::Legacy) =~= seq![s[0]] + s.drop_first());
        assert(seq![s[0]] + s.drop_first() =~= s);
    }
}

/// Whether the escaped forms of references are short enough for their length to be a size.
pub open spec fn sized(values: Seq<Seq<char>>) -> bool {
    forall|i: int|
        0 <= i < values.len() ==> text::byte_len(snapshot::escaped(#[trigger] values[i]))
            <= usize::MAX
}

proof fn lemma_digits_bare(s: Seq<char>)
    requires
        number::all_digits(s),
    ensures
        bare(s),
        !s.contains(':'),
{
    assert forall|i: int| 0 <= i < s.len() implies ({
        &&& #[trigger] s[i] != '\t'
        &&& s[i] != '\n'
        &&& s[i] != '\r'
        &&& s[i] != ' '
        &&& s[i] != ':'
    }) by {
        assert(text::digit(s[i]));
    }
}

/// The provenance codec loses nothing: every list of references reads back from its
/// length-prefixed form.
pub proof fn provenance_reads_back(values: Seq<Seq<char>>)
    requires
        sized(values),
    ensures
        snapshot::read_provenance(snapshot::provenance_text(values)) == Ok::<
            Seq<Seq<char>>,
            Seq<char>,
        >(values),
    decreases values.len(),
{
    let form = snapshot::provenance_text(values);
    if values.len() > 0 {
        let value = snapshot::escaped(values[0]);
        let bytes = text::byte_len(value);
        let length = number::decimal(bytes);
        let tail = snapshot::provenance_text(values.drop_first());
        assert(form =~= length + seq![':'] + (value + tail));
        number::lemma_decimal(bytes);
        lemma_digits_bare(length);
        text::lemma_cut_char(length, ':', value + tail);
        assert(text::byte_len(snapshot::escaped(values[0])) <= usize::MAX);
        number::decimal_reads_back(bytes, usize::MAX as nat);
        text::lemma_chars_in_bytes(value, tail);
        assert((value + tail).take(value.len() as int) =~= value);
        assert((value + tail).skip(value.len() as int) =~= tail);
        escape_reads_back(values[0]);
        assert forall|i: int| 0 <= i < values.drop_first().len() implies text::byte_len(
            snapshot::escaped(#[trigger] values.drop_first()[i]),
        ) <= usize::MAX by {
            assert(values.drop_first()[i] == values[i + 1]);
        }
        provenance_reads_back(values.drop_first());
        assert(seq![values[0]] + values.drop_first() =~= values);
    } else {
        assert(values =~= seq![]);
    }
}

proof fn lemma_provenance_bare(values: Seq<Seq<char>>)
    ensures
        bare(snapshot::provenance_text(values)),
    decreases values.len(),
{
    if values.len() > 0 {
        let value = snapshot::escaped(values[0]);
        let length = number::decimal(text::byte_len(value));
        number::lemma_decimal(text::byte_len(value));
        lemma_digits_bare(length);
        escaped_is_bare(values[0]);
        lemma_bare_add(length, seq![':']);
        lemma_bare_add(length + seq![':'], value);
        lemma_provenance_bare(values.drop_first());
        lemma_bare_add(
            snapshot::provenance_entry(values[0]),
            snapshot::provenance_text(values.drop_first()),
        );
    }
}

proof fn lemma_int_bare(i: int)
    ensures
        bare(number::decimal_int(i)),
{
    if i < 0 {
        number::lemma_decimal((-i) as nat);
        lemma_digits_bare(number::decimal((-i) as nat));
        lemma_bare_add(seq!['-'], number::decimal((-i) as nat));
    } else {
        number::lemma_decimal(i as nat);
        lemma_digits_bare(number::decimal(i as nat));
    }
}

/// A text that writes a real number holds no tab, no line ending and no space.
pub proof fn real_text_is_bare(s: Seq<char>)
    requires
        number::real_text(s),
    ensures
        bare(s),
{
    number::real_text_is_plain(s);
    assert forall|i: int| 0 <= i < s.len() implies ({
        &&& #[trigger] s[i] != '\t'
        &&& s[i] != '\n'
        &&& s[i] != '\r'
        &&& s[i] != ' '
    }) by {
        assert(number::plain_char(s[i]));
    }
}

/// Whether a number is one of 64 bits with a sign.
pub open spec fn in_i64(i: int) -> bool {
    i64::MIN <= i <= i64::MAX
}

/// Whether a value is one that an argument can be.
pub open spec fn value_fits(value: ValueView) -> bool {
    value matches ValueView::Integer(i) ==> in_i64(i)
}

/// Whether all of some values fit.
pub open spec fn values_fit(values: Seq<ValueView>) -> bool {
    forall|i: int| 0 <= i < values.len() ==> value_fits(#[trigger] values[i])
}

/// Whether the fields of a record can be told apart: its numbers are of 64 bits, a speaker has a
/// name, a predicate holds no tab, and a confidence writes a real number.
pub open spec fn separable(record: RecordView) -> bool {
    match record {
        RecordView::Now(now) => in_i64(now),
        RecordView::Rules(_) => true,
        RecordView::Episode { timestamp, speaker, .. } => in_i64(timestamp) && (
        speaker matches Some(name) ==> name.len() > 0),
        RecordView::Escalation(_) => true,
        RecordView::Fact { predicate, confidence, provenance, arguments } => {
            &&& !predicate.contains('\t')
            &&& number::real_text(confidence)
            &&& sized(provenance)
            &&& values_fit(arguments)
        },
    }
}

/// Whether a line can hold the record: its fields can be told apart, and a predicate holds no line
/// feed.
pub open spec fn writable(record: RecordView) -> bool {
    &&& separable(record)
    &&& record matches RecordView::Fact { predicate, .. } ==> !predicate.contains('\n')
}

proof fn lemma_argument(value: ValueView)
    requires
        value_fits(value),
    ensures
        bare(snapshot::argument_text(value)),
        snapshot::argument_text(value).len() > 0,
        snapshot::read_argument(SnapshotVersion::V2, snapshot::argument_text(value)) == Ok::<
            ValueView,
            Seq<char>,
        >(value),
{
    reveal_strlit("s:");
    reveal_strlit("i:");
    let form = snapshot::argument_text(value);
    match value {
        ValueView::Symbol(s) => {
            escaped_is_bare(s);
            lemma_bare_add("s:"@, snapshot::escaped(s));
            assert(form.take(2) =~= "s:"@);
            assert(form.skip(2) =~= snapshot::escaped(s));
            escape_reads_back(s);
        },
        ValueView::Integer(i) => {
            lemma_int_bare(i);
            lemma_bare_add("i:"@, number::decimal_int(i));
            assert(form.take(2) =~= "i:"@);
            assert(form.skip(2) =~= number::decimal_int(i));
            assert("s:"@[0] != "i:"@[0]);
            assert(form.take(2)[0] == 'i');
            number::decimal_int_reads_back(i as i64);
        },
    }
}

proof fn lemma_read_arguments(values: Seq<ValueView>)
    requires
        values_fit(values),
    ensures
        snapshot::read_arguments(
            SnapshotVersion::V2,
            values.map_values(|v: ValueView| snapshot::argument_text(v)),
        ) == Ok::<Seq<ValueView>, Seq<char>>(values),
    decreases values.len(),
{
    let parts = values.map_values(|v: ValueView| snapshot::argument_text(v));
    if values.len() > 0 {
        let fewer = values.drop_last();
        assert forall|i: int| 0 <= i < fewer.len() implies value_fits(#[trigger] fewer[i]) by {
            assert(fewer[i] == values[i]);
        }
        lemma_read_arguments(fewer);
        assert(parts.drop_last() =~= fewer.map_values(|v: ValueView| snapshot::argument_text(v)));
        assert(value_fits(values.last()));
        lemma_argument(values.last());
        assert(fewer.push(values.last()) =~= values);
    } else {
        assert(values =~= seq![]);
    }
}

proof fn lemma_arguments(values: Seq<ValueView>)
    requires
        values_fit(values),
    ensures
        snapshot::read_arguments(
            SnapshotVersion::V2,
            text::pieces(snapshot::arguments_text(values), ' '),
        ) == Ok::<Seq<ValueView>, Seq<char>>(values),
        !snapshot::arguments_text(values).contains('\n'),
        !snapshot::arguments_text(values).contains('\r'),
{
    let parts = values.map_values(|v: ValueView| snapshot::argument_text(v));
    let form = snapshot::arguments_text(values);
    assert forall|i: int| 0 <= i < parts.len() implies bare(#[trigger] parts[i]) by {
        assert(value_fits(values[i]));
        lemma_argument(values[i]);
    }
    lemma_join_without(parts, '\n');
    lemma_join_without(parts, '\r');
    if values.len() == 0 {
        assert(parts =~= seq![]);
        text::lemma_first_char_none(form, ' ');
        assert(text::pieces(form, ' ') =~= seq![form]);
        let none = seq![form].drop_last();
        assert(none =~= seq![]);
        assert(snapshot::read_arguments(SnapshotVersion::V2, none) == Ok::<
            Seq<ValueView>,
            Seq<char>,
        >(seq![]));
        assert(values =~= seq![]);
    } else {
        text::lemma_pieces_of_join(parts, ' ');
        lemma_read_arguments(values);
    }
}

proof fn lemma_join_without(parts: Seq<Seq<char>>, c: char)
    requires
        c == '\n' || c == '\r',
        forall|i: int| 0 <= i < parts.len() ==> bare(#[trigger] parts[i]),
    ensures
        !text::join(parts, seq![' ']).contains(c),
    decreases parts.len(),
{
    if parts.len() == 1 {
        assert(bare(parts[0]));
    } else if parts.len() > 1 {
        let fewer = parts.drop_last();
        assert forall|i: int| 0 <= i < fewer.len() implies bare(#[trigger] fewer[i]) by {
            assert(fewer[i] == parts[i]);
        }
        lemma_join_without(fewer, c);
        assert(bare(parts.last()));
        let whole = text::join(parts, seq![' ']);
        let head = text::join(fewer, seq![' ']);
        if whole.contains(c) {
            let i = choose|i: int| 0 <= i < whole.len() && whole[i] == c;
            if i < head.len() {
                assert(head[i] == c);
            } else if i > head.len() {
                assert(parts.last()[i - head.len() - 1] == c);
            }
        }
    }
}

/// The tags of the records hold no tab, and no two are the same.
proof fn lemma_tags()
    ensures
        "NOW\t"@ == "NOW"@ + seq!['\t'],
        "RULES\t"@ == "RULES"@ + seq!['\t'],
        "EP\t"@ == "EP"@ + seq!['\t'],
        "ESC\t"@ == "ESC"@ + seq!['\t'],
        "FACT\t"@ == "FACT"@ + seq!['\t'],
        !"NOW"@.contains('\t'),
        !"RULES"@.contains('\t'),
        !"EP"@.contains('\t'),
        !"ESC"@.contains('\t'),
        !"FACT"@.contains('\t'),
        "RULES"@ != "NOW"@,
        "EP"@ != "NOW"@,
        "EP"@ != "RULES"@,
        "ESC"@ != "NOW"@,
        "ESC"@ != "RULES"@,
        "ESC"@ != "EP"@,
        "FACT"@ != "NOW"@,
        "FACT"@ != "RULES"@,
        "FACT"@ != "EP"@,
        "FACT"@ != "ESC"@,
{
    reveal_strlit("NOW");
    reveal_strlit("NOW\t");
    reveal_strlit("RULES");
    reveal_strlit("RULES\t");
    reveal_strlit("EP");
    reveal_strlit("EP\t");
    reveal_strlit("ESC");
    reveal_strlit("ESC\t");
    reveal_strlit("FACT");
    reveal_strlit("FACT\t");
    assert("NOW\t"@ =~= "NOW"@ + seq!['\t']);
    assert("RULES\t"@ =~= "RULES"@ + seq!['\t']);
    assert("EP\t"@ =~= "EP"@ + seq!['\t']);
    assert("ESC\t"@ =~= "ESC"@ + seq!['\t']);
    assert("FACT\t"@ =~= "FACT"@ + seq!['\t']);
    assert("RULES"@.len() == 5 && "NOW"@.len() == 3 && "EP"@.len() == 2 && "ESC"@.len() == 3
        && "FACT"@.len() == 4);
    assert("ESC"@[0] == 'E' && "NOW"@[0] == 'N');
}

proof fn lemma_episode_line(
    id: Seq<char>,
    timestamp: int,
    speaker: Option<Seq<char>>,
    text: Seq<char>,
)
    requires
        in_i64(timestamp),
        speaker matches Some(name) ==> name.len() > 0,
    ensures
        ({
            let record = RecordView::Episode { id, timestamp, speaker, text };
            snapshot::read_record(SnapshotVersion::V2, snapshot::record_line(record)) == Ok::<
                RecordView,
                Seq<char>,
            >(record)
        }),
{
    let p0 = snapshot::escaped(id);
    let p1 = number::decimal_int(timestamp);
    let p2 = snapshot::speaker_text(speaker);
    let p3 = snapshot::escaped(text);
    let payload = p0 + seq!['\t'] + p1 + seq!['\t'] + p2 + seq!['\t'] + p3;
    let line = snapshot::record_line(RecordView::Episode { id, timestamp, speaker, text });
    lemma_tags();
    assert(line =~= "EP"@ + seq!['\t'] + payload);
    text::lemma_cut_char("EP"@, '\t', payload);
    escaped_is_bare(id);
    lemma_int_bare(timestamp);
    if let Some(name) = speaker {
        escaped_is_bare(name);
        escape_reads_back(name);
        lemma_escaped_nonempty(name);
    }
    text::lemma_four_fields(p0, p1, p2, p3, '\t');
    number::decimal_int_reads_back(timestamp as i64);
    escape_reads_back(id);
    escape_reads_back(text);
}

proof fn lemma_fact_payload(
    parts: Seq<Seq<char>>,
    provenance: Seq<Seq<char>>,
    arguments: Seq<ValueView>,
    payload: Seq<char>,
)
    requires
        text::fields(payload, '\t', 4) == parts,
        parts.len() == 4,
        number::real_text(parts[1]),
        snapshot::read_provenance(parts[2]) == Ok::<Seq<Seq<char>>, Seq<char>>(provenance),
        snapshot::read_arguments(SnapshotVersion::V2, text::pieces(parts[3], ' ')) == Ok::<
            Seq<ValueView>,
            Seq<char>,
        >(arguments),
    ensures
        snapshot::read_fact(SnapshotVersion::V2, payload) == Ok::<RecordView, Seq<char>>(
            RecordView::Fact {
                predicate: parts[0],
                confidence: parts[1],
                provenance,
                arguments,
            },
        ),
{
}

proof fn lemma_fact_fields(
    predicate: Seq<char>,
    confidence: Seq<char>,
    provenance: Seq<Seq<char>>,
    p3: Seq<char>,
)
    requires
        !predicate.contains('\t'),
        number::real_text(confidence),
        sized(provenance),
    ensures
        ({
            let p2 = snapshot::provenance_text(provenance);
            let payload = predicate + seq!['\t'] + confidence + seq!['\t'] + p2 + seq!['\t'] + p3;
            text::fields(payload, '\t', 4) == seq![predicate, confidence, p2, p3]
        }),
{
    let p2 = snapshot::provenance_text(provenance);
    real_text_is_bare(confidence);
    lemma_bare_without(confidence);
    lemma_provenance_bare(provenance);
    lemma_bare_without(p2);
    text::lemma_four_fields(predicate, confidence, p2, p3, '\t');
}

proof fn lemma_fact_tagged(payload: Seq<char>, record: RecordView)
    requires
        snapshot::read_fact(SnapshotVersion::V2, payload) == Ok::<RecordView, Seq<char>>(record),
    ensures
        snapshot::read_record(SnapshotVersion::V2, "FACT"@ + seq!['\t'] + payload) == Ok::<
            RecordView,
            Seq<char>,
        >(record),
{
    lemma_tags();
    text::lemma_cut_char("FACT"@, '\t', payload);
}

proof fn lemma_fact_text(
    predicate: Seq<char>,
    confidence: Seq<char>,
    provenance: Seq<Seq<char>>,
    arguments: Seq<ValueView>,
)
    ensures
        snapshot::record_line(RecordView::Fact { predicate, confidence, provenance, arguments })
            == "FACT"@ + seq!['\t'] + (predicate + seq!['\t'] + confidence + seq!['\t']
            + snapshot::provenance_text(provenance) + seq!['\t'] + snapshot::arguments_text(
            arguments,
        )),
{
    lemma_tags();
    let line = snapshot::record_line(
        RecordView::Fact { predicate, confidence, provenance, arguments },
    );
    assert(line =~= "FACT"@ + seq!['\t'] + (predicate + seq!['\t'] + confidence + seq!['\t']
        + snapshot::provenance_text(provenance) + seq!['\t'] + snapshot::arguments_text(
        arguments,
    )));
}

#[verifier::spinoff_prover]
#[verifier::rlimit(40)]
proof fn lemma_fact_reads(
    predicate: Seq<char>,
    confidence: Seq<char>,
    provenance: Seq<Seq<char>>,
    arguments: Seq<ValueView>,
    payload: Seq<char>,
)
    requires
        !predicate.contains('\t'),
        number::real_text(confidence),
        sized(provenance),
        values_fit(arguments),
        payload == predicate + seq!['\t'] + confidence + seq!['\t'] + snapshot::provenance_text(
            provenance,
        ) + seq!['\t'] + snapshot::arguments_text(arguments),
    ensures
        snapshot::read_fact(SnapshotVersion::V2, payload) == Ok::<RecordView, Seq<char>>(
            RecordView::Fact { predicate, confidence, provenance, arguments },
        ),
{
    let p2 = snapshot::provenance_text(provenance);
    let p3 = snapshot::arguments_text(arguments);
    let parts = seq![predicate, confidence, p2, p3];
    lemma_fact_fields(predicate, confidence, provenance, p3);
    provenance_reads_back(provenance);
    lemma_arguments(arguments);
    assert(parts[0] == predicate && parts[1] == confidence);
    assert(parts[2] == p2 && parts[3] == p3);
    lemma_fact_payload(parts, provenance, arguments, payload);
}

proof fn lemma_fact_line(
    predicate: Seq<char>,
    confidence: Seq<char>,
    provenance: Seq<Seq<char>>,
    arguments: Seq<ValueView>,
)
    requires
        !predicate.contains('\t'),
        number::real_text(confidence),
        sized(provenance),
        values_fit(arguments),
    ensures
        ({
            let record = RecordView::Fact { predicate, confidence, provenance, arguments };
            snapshot::read_record(SnapshotVersion::V2, snapshot::record_line(record)) == Ok::<
                RecordView,
                Seq<char>,
            >(record)
        }),
{
    let payload = predicate + seq!['\t'] + confidence + seq!['\t'] + snapshot::provenance_text(
        provenance,
    ) + seq!['\t'] + snapshot::arguments_text(arguments);
    lemma_fact_text(predicate, confidence, provenance, arguments);
    lemma_fact_reads(predicate, confidence, provenance, arguments, payload);
    lemma_fact_tagged(
        payload,
        RecordView::Fact { predicate, confidence, provenance, arguments },
    );
}

/// A record reads back from its line.
pub proof fn record_reads_back(record: RecordView)
    requires
        separable(record),
    ensures
        snapshot::read_record(SnapshotVersion::V2, snapshot::record_line(record)) == Ok::<
            RecordView,
            Seq<char>,
        >(record),
{
    match record {
        RecordView::Now(now) => {
            lemma_tags();
            text::lemma_cut_char("NOW"@, '\t', number::decimal_int(now));
            number::decimal_int_reads_back(now as i64);
        },
        RecordView::Rules(rules) => {
            lemma_tags();
            text::lemma_cut_char("RULES"@, '\t', snapshot::escaped(rules));
            escape_reads_back(rules);
        },
        RecordView::Episode { id, timestamp, speaker, text } => {
            lemma_episode_line(id, timestamp, speaker, text);
        },
        RecordView::Escalation(text) => {
            lemma_tags();
            text::lemma_cut_char("ESC"@, '\t', snapshot::escaped(text));
            escape_reads_back(text);
        },
        RecordView::Fact { predicate, confidence, provenance, arguments } => {
            lemma_fact_line(predicate, confidence, provenance, arguments);
        },
    }
}

proof fn lemma_escaped_nonempty(s: Seq<char>)
    requires
        s.len() > 0,
    ensures
        snapshot::escaped(s).len() > 0,
{
    assert(snapshot::escaped_char(s[0]).len() > 0);
}

proof fn lemma_add_without(a: Seq<char>, b: Seq<char>, c: char)
    requires
        !a.contains(c),
        !b.contains(c),
    ensures
        !(a + b).contains(c),
{
    if (a + b).contains(c) {
        let i = choose|i: int| 0 <= i < (a + b).len() && (a + b)[i] == c;
        if i < a.len() {
            assert(a[i] == c);
        } else {
            assert(b[i - a.len()] == c);
        }
    }
}

/// A line that ends with a bare part after a tab ends with no carriage return.
proof fn lemma_line_end(head: Seq<char>, tail: Seq<char>)
    requires
        head.len() > 0,
        head.last() == '\t',
        !tail.contains('\r'),
    ensures
        (head + tail).last() != '\r',
{
    if tail.len() > 0 {
        assert((head + tail).last() == tail.last());
        assert(tail.contains(tail.last()));
    } else {
        assert((head + tail).last() == head.last());
    }
}

proof fn lemma_tags_end()
    ensures
        "NOW\t"@.len() > 0 && "NOW\t"@.last() == '\t' && !"NOW\t"@.contains('\n'),
        "RULES\t"@.len() > 0 && "RULES\t"@.last() == '\t' && !"RULES\t"@.contains('\n'),
        "EP\t"@.len() > 0 && !"EP\t"@.contains('\n'),
        "ESC\t"@.len() > 0 && "ESC\t"@.last() == '\t' && !"ESC\t"@.contains('\n'),
        "FACT\t"@.len() > 0 && !"FACT\t"@.contains('\n'),
{
    reveal_strlit("NOW\t");
    reveal_strlit("RULES\t");
    reveal_strlit("EP\t");
    reveal_strlit("ESC\t");
    reveal_strlit("FACT\t");
}

/// The line of a record is one line: it holds no line feed and ends with no carriage return.
pub proof fn record_line_is_one_line(record: RecordView)
    requires
        writable(record),
    ensures
        !snapshot::record_line(record).contains('\n'),
        snapshot::record_line(record).len() > 0,
        snapshot::record_line(record).last() != '\r',
{
    lemma_tags_end();
    let tab = seq!['\t'];
    assert(!tab.contains('\n'));
    match record {
        RecordView::Now(now) => {
            let tail = number::decimal_int(now);
            lemma_int_bare(now);
            lemma_bare_without(tail);
            lemma_add_without("NOW\t"@, tail, '\n');
            lemma_line_end("NOW\t"@, tail);
        },
        RecordView::Rules(rules) => {
            let tail = snapshot::escaped(rules);
            escaped_is_bare(rules);
            lemma_bare_without(tail);
            lemma_add_without("RULES\t"@, tail, '\n');
            lemma_line_end("RULES\t"@, tail);
        },
        RecordView::Escalation(text) => {
            let tail = snapshot::escaped(text);
            escaped_is_bare(text);
            lemma_bare_without(tail);
            lemma_add_without("ESC\t"@, tail, '\n');
            lemma_line_end("ESC\t"@, tail);
        },
        RecordView::Episode { id, timestamp, speaker, text } => {
            let p0 = snapshot::escaped(id);
            let p1 = number::decimal_int(timestamp);
            let p2 = snapshot::speaker_text(speaker);
            let p3 = snapshot::escaped(text);
            escaped_is_bare(id);
            lemma_bare_without(p0);
            lemma_int_bare(timestamp);
            lemma_bare_without(p1);
            if let Some(name) = speaker {
                escaped_is_bare(name);
            }
            lemma_bare_without(p2);
            escaped_is_bare(text);
            lemma_bare_without(p3);
            lemma_add_without("EP\t"@, p0, '\n');
            lemma_joined_line("EP\t"@ + p0, p1, p2, p3);
        },
        RecordView::Fact { predicate, confidence, provenance, arguments } => {
            let p2 = snapshot::provenance_text(provenance);
            let p3 = snapshot::arguments_text(arguments);
            real_text_is_bare(confidence);
            lemma_bare_without(confidence);
            lemma_provenance_bare(provenance);
            lemma_bare_without(p2);
            lemma_arguments(arguments);
            lemma_add_without("FACT\t"@, predicate, '\n');
            lemma_joined_line("FACT\t"@ + predicate, confidence, p2, p3);
        },
    }
}

proof fn lemma_joined_line(head: Seq<char>, p1: Seq<char>, p2: Seq<char>, p3: Seq<char>)
    requires
        !head.contains('\n'),
        !p1.contains('\n'),
        !p2.contains('\n'),
        !p3.contains('\n'),
        !p3.contains('\r'),
    ensures
        ({
            let line = head + seq!['\t'] + p1 + seq!['\t'] + p2 + seq!['\t'] + p3;
            !line.contains('\n') && line.len() > 0 && line.last() != '\r'
        }),
{
    let tab = seq!['\t'];
    assert(!tab.contains('\n'));
    lemma_add_without(head, tab, '\n');
    lemma_add_without(head + tab, p1, '\n');
    lemma_add_without(head + tab + p1, tab, '\n');
    lemma_add_without(head + tab + p1 + tab, p2, '\n');
    lemma_add_without(head + tab + p1 + tab + p2, tab, '\n');
    lemma_add_without(head + tab + p1 + tab + p2 + tab, p3, '\n');
    assert((head + tab + p1 + tab + p2 + tab).last() == '\t');
    lemma_line_end(head + tab + p1 + tab + p2 + tab, p3);
}

/// Whether every record of a snapshot can be written.
pub open spec fn all_writable(records: Seq<RecordView>) -> bool {
    forall|i: int| 0 <= i < records.len() ==> writable(#[trigger] records[i])
}

proof fn lemma_lines_of_records(records: Seq<RecordView>)
    requires
        all_writable(records),
    ensures
        text::lines(snapshot::record_lines(records)) == records.map_values(
            |r: RecordView| snapshot::record_line(r),
        ),
        records.len() > 0 ==> snapshot::record_lines(records).last() == '\n',
    decreases records.len(),
{
    let all = records.map_values(|r: RecordView| snapshot::record_line(r));
    if records.len() == 0 {
        assert(all =~= seq![]);
    } else {
        let fewer = records.drop_last();
        let line = snapshot::record_line(records.last());
        assert forall|i: int| 0 <= i < fewer.len() implies writable(#[trigger] fewer[i]) by {
            assert(fewer[i] == records[i]);
        }
        lemma_lines_of_records(fewer);
        assert(writable(records.last()));
        record_line_is_one_line(records.last());
        let head = snapshot::record_lines(fewer);
        let tail = line + seq!['\n'];
        assert(snapshot::record_lines(records) =~= head + tail);
        text::lemma_lines_add(head, tail);
        text::lemma_lines_first(line, seq![]);
        assert(line + seq!['\n'] + Seq::<char>::empty() =~= tail);
        assert(text::lines(tail) =~= seq![line]);
        assert(all =~= fewer.map_values(|r: RecordView| snapshot::record_line(r)) + seq![line]);
    }
}

proof fn lemma_records_upto(records: Seq<RecordView>, lines: Seq<Seq<char>>, n: int)
    requires
        all_writable(records),
        records.len() > 0,
        records[0] is Now,
        lines == seq![SNAPSHOT_MAGIC@] + records.map_values(
            |r: RecordView| snapshot::record_line(r),
        ),
        1 <= n <= lines.len(),
    ensures
        snapshot::records_upto(SnapshotVersion::V2, lines, n) == Ok::<
            Seq<RecordView>,
            snapshot::ErrorView,
        >(records.take(n - 1)),
    decreases n,
{
    if n == 1 {
        assert(records.take(0) =~= seq![]);
    } else {
        lemma_records_upto(records, lines, n - 1);
        let record = records[n - 2];
        assert(lines[n - 1] == snapshot::record_line(record));
        assert(writable(record));
        record_reads_back(record);
        assert(records.take(n - 2).push(record) =~= records.take(n - 1));
    }
}

/// The lines of a snapshot are its magic line and one line for each record.
pub proof fn snapshot_lines(records: Seq<RecordView>)
    requires
        all_writable(records),
    ensures
        text::lines(snapshot::snapshot_text(records)) == seq![SNAPSHOT_MAGIC@]
            + records.map_values(|r: RecordView| snapshot::record_line(r)),
{
    let body = snapshot::record_lines(records);
    reveal_strlit("LEMMALOG2");
    assert(!SNAPSHOT_MAGIC@.contains('\n'));
    text::lemma_lines_first(SNAPSHOT_MAGIC@, body);
    lemma_lines_of_records(records);
    assert(text::lines(snapshot::snapshot_text(records)) =~= seq![SNAPSHOT_MAGIC@]
        + records.map_values(|r: RecordView| snapshot::record_line(r)));
}

/// A snapshot loses nothing: the records that were written, of which the first tells the time,
/// are the records that are read.
pub proof fn snapshot_reads_back(records: Seq<RecordView>)
    requires
        all_writable(records),
        records.len() > 0,
        records[0] is Now,
    ensures
        snapshot::read_snapshot(snapshot::snapshot_text(records)) == Ok::<
            Seq<RecordView>,
            snapshot::ErrorView,
        >(records),
{
    let lines = seq![SNAPSHOT_MAGIC@] + records.map_values(
        |r: RecordView| snapshot::record_line(r),
    );
    snapshot_lines(records);
    lemma_records_upto(records, lines, lines.len() as int);
    assert(records.take(records.len() as int) =~= records);
}

/// The two older magic lines mean the same: snapshots that differ in them alone read alike.
pub proof fn legacy_magics_agree(lines: Seq<Seq<char>>)
    requires
        lines.len() > 0,
    ensures
        ({
            let v0 = lines.update(0, snapshot::SNAPSHOT_MAGIC_V0@);
            let v1 = lines.update(0, snapshot::SNAPSHOT_MAGIC_V1@);
            snapshot::read_lines(v0) == snapshot::read_lines(v1)
        }),
{
    let v0 = lines.update(0, snapshot::SNAPSHOT_MAGIC_V0@);
    let v1 = lines.update(0, snapshot::SNAPSHOT_MAGIC_V1@);
    reveal_strlit("LEMMALOG2");
    reveal_strlit("LEMMALOG1");
    reveal_strlit("CORTEXLOG1");
    assert(snapshot::SNAPSHOT_MAGIC_V1@[8] == '1' && SNAPSHOT_MAGIC@[8] == '2');
    assert(snapshot::SNAPSHOT_MAGIC_V0@.len() == 10);
    snapshot::lemma_records_same(SnapshotVersion::Legacy, v0, v1, lines.len() as int);
}

} // verus!
