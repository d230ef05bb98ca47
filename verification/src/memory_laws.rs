//! A memory that is saved and loaded is the memory that it was, and a search sees what it holds.

use vstd::prelude::*;

use crate::agent;
use crate::agent::{AgentMemory, EpisodeView, Extractor, MemoryView};
use crate::clause;
use crate::codec_laws;
use crate::datalog;
use crate::datalog::RowView;
use crate::defaults;
use crate::engine;
use crate::engine::{AnnView, EngineView, FactView};
use crate::number;
use crate::persistence;
use crate::persistence::{LoadErrorView, Progress};
use crate::program_laws;
use crate::search;
use crate::search::PolicyView;
use crate::search_laws;
use crate::rows;
use crate::snapshot;
use crate::snapshot::{RecordView, SnapshotVersion, ValueView, SNAPSHOT_MAGIC};
use crate::sorted;
use crate::store_laws;

verus! {

/// How far loading has come after records.
pub open spec fn absorbed_all(records: Seq<RecordView>) -> Result<
    Progress,
    LoadErrorView,
>
    decreases records.len(),
{
    if records.len() == 0 {
        Ok(Progress::Start)
    } else {
        match absorbed_all(records.drop_last()) {
            Err(error) => Err(error),
            Ok(progress) => persistence::absorbed(progress, records.last()),
        }
    }
}

/// The memory after records were taken.
pub open spec fn taken_all(memory: MemoryView, records: Seq<RecordView>) -> Option<MemoryView>
    decreases records.len(),
{
    if records.len() == 0 {
        Some(memory)
    } else {
        match taken_all(memory, records.drop_last()) {
            None => None,
            Some(before) => persistence::taken(before, records.last()),
        }
    }
}

/// Lines that hold records are loaded as the records are.
proof fn lemma_lines_absorbed(
    records: Seq<RecordView>,
    lines: Seq<Seq<char>>,
    n: int,
)
    requires
        codec_laws::all_writable(records),
        records.len() > 0,
        records[0] is Now,
        lines == seq![SNAPSHOT_MAGIC@] + records.map_values(
            |r: RecordView| snapshot::record_line(r),
        ),
        1 <= n <= lines.len(),
    ensures
        persistence::loaded_upto(SnapshotVersion::V2, lines, n) == absorbed_all(records.take(n - 1)),
    decreases n,
{
    if n > 1 {
        lemma_lines_absorbed(records, lines, n - 1);
        let record = records[n - 2];
        assert(lines[n - 1] == snapshot::record_line(record));
        assert(codec_laws::writable(record));
        codec_laws::record_reads_back(record);
        assert(records.take(n - 1).drop_last() =~= records.take(n - 2));
    }
}

proof fn lemma_taken_add(memory: MemoryView, a: Seq<RecordView>, b: Seq<RecordView>)
    requires
        taken_all(memory, a) is Some,
    ensures
        taken_all(memory, a + b) == taken_all(taken_all(memory, a)->0, b),
    decreases b.len(),
{
    if b.len() == 0 {
        assert(a + b =~= a);
    } else {
        assert((a + b).drop_last() =~= a + b.drop_last());
        lemma_taken_add(memory, a, b.drop_last());
    }
}

proof fn lemma_header(
    now: int,
    rules: Seq<char>,
    rest: Seq<RecordView>,
)
    requires
        clause::read_program(rules) is Some,
        taken_all(MemoryView::fresh(rules), rest) is Some,
    ensures
        absorbed_all(seq![RecordView::Now(now), RecordView::Rules(rules)] + rest) == Ok::<
            Progress,
            LoadErrorView,
        >(
            Progress::Filled {
                now,
                memory: taken_all(MemoryView::fresh(rules), rest)->0,
            },
        ),
    decreases rest.len(),
{
    let header = seq![RecordView::Now(now), RecordView::Rules(rules)];
    if rest.len() == 0 {
        assert(header + rest =~= header);
        let first = seq![RecordView::Now(now)];
        assert(header.drop_last() =~= first);
        assert(first.drop_last() =~= seq![]);
        reveal_with_fuel(absorbed_all, 3);
    } else {
        assert((header + rest).drop_last() =~= header + rest.drop_last());
        lemma_header(now, rules, rest.drop_last());
    }
}

proof fn lemma_episodes_taken(memory: MemoryView, episodes: Seq<EpisodeView>)
    ensures
        taken_all(
            memory,
            episodes.map_values(|episode: EpisodeView| persistence::episode_record(episode)),
        ) == Some(MemoryView { episodes: memory.episodes + episodes, ..memory }),
    decreases episodes.len(),
{
    let records = episodes.map_values(
        |episode: EpisodeView| persistence::episode_record(episode),
    );
    if episodes.len() == 0 {
        assert(memory.episodes + episodes =~= memory.episodes);
    } else {
        let fewer = episodes.drop_last();
        lemma_episodes_taken(memory, fewer);
        assert(records.drop_last() =~= fewer.map_values(
            |episode: EpisodeView| persistence::episode_record(episode),
        ));
        assert((memory.episodes + fewer).push(episodes.last()) =~= memory.episodes + episodes);
    }
}

proof fn lemma_escalations_taken(memory: MemoryView, told: Seq<Seq<char>>)
    ensures
        taken_all(memory, told.map_values(|t: Seq<char>| RecordView::Escalation(t))) == Some(
            MemoryView { escalations: memory.escalations + told, ..memory },
        ),
    decreases told.len(),
{
    let records = told.map_values(|t: Seq<char>| RecordView::Escalation(t));
    if told.len() == 0 {
        assert(memory.escalations + told =~= memory.escalations);
    } else {
        let fewer = told.drop_last();
        lemma_escalations_taken(memory, fewer);
        assert(records.drop_last() =~= fewer.map_values(
            |t: Seq<char>| RecordView::Escalation(t),
        ));
        assert((memory.escalations + fewer).push(told.last()) =~= memory.escalations + told);
    }
}

/// The facts after facts were asserted, each with its annotation.
pub open spec fn restored(start: Seq<FactView>, facts: Seq<FactView>) -> Seq<FactView>
    decreases facts.len(),
{
    if facts.len() == 0 {
        start
    } else {
        engine::declared(
            restored(start, facts.drop_last()),
            facts.last().pred,
            facts.last().key,
            facts.last().ann,
        )
    }
}

/// The annotation of a fact of which the first confidences were loaded.
spec fn part_of(ann: AnnView, n: int) -> AnnView {
    AnnView { conf: ann.conf.take(n), prov: ann.prov }
}

/// One more confidence of a fact joins those that were merged before.
proof fn lemma_part_merged(had: AnnView, ann: AnnView, n: int)
    requires
        sorted::ordered(had.prov),
        store_laws::regular_ann(ann),
        1 < n <= ann.conf.len(),
    ensures
        had.merged(part_of(ann, n - 1)).merged(AnnView::base(ann.conf[n - 1], ann.prov))
            == had.merged(part_of(ann, n)),
{
    let conf = ann.conf.take(n);
    let more = seq![ann.conf[n - 1]];
    assert(conf.drop_last() =~= ann.conf.take(n - 1));
    reveal_with_fuel(engine::joined, 2);
    assert(more.drop_last() =~= seq![]);
    let prov = sorted::placed_all(had.prov, ann.prov);
    sorted::lemma_placed_in_order(ann.prov);
    sorted::lemma_placed_all(had.prov, ann.prov);
    assert forall|i: int| 0 <= i < ann.prov.len() implies prov.contains(
        #[trigger] ann.prov[i],
    ) by {
        assert(ann.prov.contains(ann.prov[i]));
    }
    sorted::lemma_placed_all_again(prov, ann.prov);
}

/// The first confidences of a fact and one more are the first confidences.
proof fn lemma_part_joined(ann: AnnView, n: int)
    requires
        store_laws::regular_ann(ann),
        1 < n <= ann.conf.len(),
    ensures
        part_of(ann, n - 1).merged(AnnView::base(ann.conf[n - 1], ann.prov)) == part_of(ann, n),
{
    let had = ann.conf.take(n - 1);
    let confidence = ann.conf[n - 1];
    assert(!had.contains(confidence)) by {
        if had.contains(confidence) {
            let k = choose|k: int| 0 <= k < had.len() && had[k] == confidence;
            assert(ann.conf[k] == confidence);
        }
    }
    let more = seq![confidence];
    reveal_with_fuel(engine::joined, 2);
    assert(more.drop_last() =~= seq![]);
    assert(engine::joined(had, more) =~= ann.conf.take(n));
    sorted::lemma_placed_in_order(ann.prov);
    assert forall|i: int| 0 <= i < ann.prov.len() implies ann.prov.contains(
        #[trigger] ann.prov[i],
    ) by {}
    sorted::lemma_placed_all_again(ann.prov, ann.prov);
}

/// The records of a fact assert that fact.
proof fn lemma_fact_taken(memory: MemoryView, fact: FactView, n: int)
    requires
        store_laws::regular(memory.engine.facts),
        store_laws::regular_ann(fact.ann),
        1 <= n <= fact.ann.conf.len(),
    ensures
        ({
            let after = taken_all(memory, persistence::confidence_records(fact).take(n));
            &&& after is Some
            &&& after->0.engine.facts == engine::declared(
                memory.engine.facts,
                fact.pred,
                fact.key,
                part_of(fact.ann, n),
            )
            &&& after->0.engine.now == memory.engine.now
            &&& after->0 == MemoryView { engine: after->0.engine, ..memory }
        }),
    decreases n,
{
    let all = persistence::confidence_records(fact);
    let records = all.take(n);
    let ann = AnnView::base(fact.ann.conf[n - 1], fact.ann.prov);
    assert(records.drop_last() =~= all.take(n - 1));
    sorted::lemma_placed_in_order(fact.ann.prov);
    if n == 1 {
        assert(all.take(0) =~= seq![]);
        store_laws::lemma_symbols(memory.engine, fact.key);
        assert(ann.conf =~= fact.ann.conf.take(1));
    } else {
        lemma_fact_taken(memory, fact, n - 1);
        let before = taken_all(memory, all.take(n - 1))->0;
        store_laws::lemma_symbols(before.engine, fact.key);
        let first = memory.engine.facts;
        let facts = before.engine.facts;
        engine::lemma_place_of(first, fact.pred, fact.key);
        let at: int = match engine::place_of(first, fact.pred, fact.key) {
            Some(i) => i,
            None => first.len() as int,
        };
        assert forall|j: int| 0 <= j < at implies !engine::is_fact(
            #[trigger] facts[j],
            fact.pred,
            fact.key,
        ) by {
            assert(!engine::is_fact(first[j], fact.pred, fact.key));
        }
        engine::lemma_place_is(facts, fact.pred, fact.key, at);
        if at < first.len() {
            assert(store_laws::regular_fact(first[at]));
            lemma_part_merged(first[at].ann, fact.ann, n);
        } else {
            lemma_part_joined(fact.ann, n);
        }
        assert(taken_all(memory, records)->0.engine.facts =~= engine::declared(
            first,
            fact.pred,
            fact.key,
            part_of(fact.ann, n),
        ));
    }
}

/// Regular facts without the last are regular.
proof fn lemma_fewer_regular(facts: Seq<FactView>)
    requires
        store_laws::regular(facts),
        facts.len() > 0,
    ensures
        store_laws::regular(facts.drop_last()),
        store_laws::regular_fact(facts.last()),
{
    let fewer = facts.drop_last();
    assert forall|i: int, j: int| 0 <= i < j < fewer.len() implies !engine::is_fact(
        #[trigger] fewer[i],
        (#[trigger] fewer[j]).pred,
        fewer[j].key,
    ) by {
        assert(!engine::is_fact(facts[i], facts[j].pred, facts[j].key));
    }
    assert forall|i: int| 0 <= i < fewer.len() implies store_laws::regular_fact(
        #[trigger] fewer[i],
    ) by {
        assert(store_laws::regular_fact(facts[i]));
    }
    assert(store_laws::regular_fact(facts[facts.len() - 1]));
}

/// The records of facts assert them.
proof fn lemma_facts_taken(memory: MemoryView, facts: Seq<FactView>)
    requires
        store_laws::regular(memory.engine.facts),
        store_laws::regular(facts),
    ensures
        ({
            let after = taken_all(memory, persistence::fact_records(facts));
            &&& after is Some
            &&& after->0.engine.facts == restored(memory.engine.facts, facts)
            &&& after->0.engine.now == memory.engine.now
            &&& after->0 == MemoryView { engine: after->0.engine, ..memory }
            &&& store_laws::regular(after->0.engine.facts)
        }),
    decreases facts.len(),
{
    if facts.len() > 0 {
        let fewer = facts.drop_last();
        let fact = facts.last();
        lemma_fewer_regular(facts);
        lemma_facts_taken(memory, fewer);
        let before = taken_all(memory, persistence::fact_records(fewer))->0;
        let n = fact.ann.conf.len() as int;
        let records = persistence::confidence_records(fact);
        lemma_fact_taken(before, fact, n);
        assert(records.take(n) =~= records);
        assert(part_of(fact.ann, n).conf =~= fact.ann.conf);
        assert(part_of(fact.ann, n) == fact.ann);
        lemma_taken_add(memory, persistence::fact_records(fewer), records);
        store_laws::declare_keeps_regular(
            before.engine.facts,
            fact.pred,
            fact.key,
            fact.ann,
        );
    }
}

/// Asserting facts again: one that was there gets the annotation of both, one that was not comes
/// with its own, and no other fact changes or comes.
pub proof fn facts_are_restored(
    start: Seq<FactView>,
    facts: Seq<FactView>,
    pred: Seq<char>,
    key: Seq<ValueView>,
)
    requires
        store_laws::regular(start),
        store_laws::regular(facts),
    ensures
        ({
            let place = engine::place_of(restored(start, facts), pred, key);
            match (engine::place_of(start, pred, key), engine::place_of(facts, pred, key)) {
                (None, None) => place is None,
                (Some(i), None) => place == Some(i) && restored(start, facts)[i] == start[i],
                (None, Some(j)) => place is Some && restored(start, facts)[place->0] == facts[j],
                (Some(i), Some(j)) => place == Some(i) && restored(start, facts)[i] == (FactView {
                    pred,
                    key,
                    ann: start[i].ann.merged(facts[j].ann),
                }),
            }
        }),
    decreases facts.len(),
{
    engine::lemma_place_of(start, pred, key);
    engine::lemma_place_of(facts, pred, key);
    if facts.len() > 0 {
        let fewer = facts.drop_last();
        let fact = facts.last();
        let before = restored(start, fewer);
        let after = restored(start, facts);
        lemma_fewer_regular(facts);
        facts_are_restored(start, fewer, pred, key);
        engine::lemma_place_of(fewer, pred, key);
        engine::lemma_place_of(before, pred, key);
        engine::lemma_place_of(before, fact.pred, fact.key);
        engine::lemma_place_of(after, pred, key);
        if let Some(j) = engine::place_of(fewer, pred, key) {
            assert(facts[j] == fewer[j]);
            assert(!engine::is_fact(
                facts[j],
                facts[facts.len() - 1].pred,
                facts[facts.len() - 1].key,
            ));
            assert(!engine::is_fact(fact, pred, key));
        }
        let at: int = match engine::place_of(before, fact.pred, fact.key) {
            Some(i) => i,
            None => before.len() as int,
        };
        if engine::is_fact(fact, pred, key) {
            assert(engine::place_of(fewer, pred, key) is None);
            assert(engine::place_of(facts, pred, key) == Some(facts.len() - 1));
            assert forall|k: int| 0 <= k < at implies !engine::is_fact(
                #[trigger] after[k],
                pred,
                key,
            ) by {
                assert(!engine::is_fact(before[k], pred, key));
            }
            engine::lemma_place_is(after, pred, key, at);
        } else {
            match engine::place_of(before, pred, key) {
                Some(i) => {
                    assert(i != at);
                    assert forall|k: int| 0 <= k < i implies !engine::is_fact(
                        #[trigger] after[k],
                        pred,
                        key,
                    ) by {
                        assert(!engine::is_fact(before[k], pred, key));
                    }
                    engine::lemma_place_is(after, pred, key, i);
                },
                None => {
                    assert forall|k: int| 0 <= k < after.len() implies !engine::is_fact(
                        #[trigger] after[k],
                        pred,
                        key,
                    ) by {
                        if k < before.len() {
                            assert(!engine::is_fact(before[k], pred, key));
                        }
                    }
                },
            }
        }
    }
}

/// The records of a memory can be written.
proof fn lemma_memory_writable(memory: MemoryView)
    requires
        store_laws::regular(memory.engine.facts),
        codec_laws::in_i64(memory.engine.now),
        forall|i: int|
            0 <= i < memory.engine.facts.len() ==> codec_laws::values_fit(
                (#[trigger] memory.engine.facts[i]).key,
            ) && codec_laws::sized(memory.engine.facts[i].ann.prov),
        forall|i: int|
            0 <= i < memory.episodes.len() ==> codec_laws::in_i64(
                (#[trigger] memory.episodes[i]).ts,
            ) && named(memory.episodes[i].speaker),
    ensures
        codec_laws::all_writable(persistence::memory_records(memory)),
{
    let records = persistence::memory_records(memory);
    let facts = persistence::fact_records(memory.engine.facts);
    lemma_facts_writable(memory.engine.facts);
    let start = records.len() - facts.len();
    assert forall|i: int| 0 <= i < records.len() implies codec_laws::writable(
        #[trigger] records[i],
    ) by {
        if i >= start {
            assert(records[i] == facts[i - start]);
        } else if 2 <= i < 2 + memory.episodes.len() {
            assert(records[i] == persistence::episode_record(memory.episodes[i - 2]));
        } else if i >= 2 {
            assert(records[i] is Escalation);
        }
    }
}

proof fn lemma_facts_writable(facts: Seq<FactView>)
    requires
        store_laws::regular(facts),
        forall|i: int|
            0 <= i < facts.len() ==> codec_laws::values_fit((#[trigger] facts[i]).key)
                && codec_laws::sized(facts[i].ann.prov),
    ensures
        codec_laws::all_writable(persistence::fact_records(facts)),
    decreases facts.len(),
{
    if facts.len() > 0 {
        let fewer = facts.drop_last();
        let last = facts.last();
        lemma_fewer_regular(facts);
        assert forall|i: int| 0 <= i < fewer.len() implies codec_laws::values_fit(
            (#[trigger] fewer[i]).key,
        ) && codec_laws::sized(fewer[i].ann.prov) by {
            assert(fewer[i] == facts[i]);
        }
        assert(codec_laws::values_fit(facts[facts.len() - 1].key));
        lemma_facts_writable(fewer);
        let rest = persistence::fact_records(fewer);
        let own = persistence::confidence_records(last);
        let all = persistence::fact_records(facts);
        assert forall|i: int| 0 <= i < all.len() implies codec_laws::writable(
            #[trigger] all[i],
        ) by {
            if i < rest.len() {
                assert(all[i] == rest[i]);
            } else {
                assert(all[i] == own[i - rest.len()]);
                assert(number::real_text(last.ann.conf[i - rest.len()]));
            }
        }
    }
}

/// Whether a speaker is not known or has a name.
pub open spec fn named(speaker: Option<Seq<char>>) -> bool {
    speaker matches Some(name) ==> name.len() > 0
}

/// Whether a memory can be written: each speaker that is known has a name, and no reference is
/// longer, escaped, than a text can be.
pub open spec fn can_be_written(memory: MemoryView) -> bool {
    &&& forall|i: int|
        0 <= i < memory.episodes.len() ==> named((#[trigger] memory.episodes[i]).speaker)
    &&& forall|i: int|
        0 <= i < memory.engine.facts.len() ==> codec_laws::sized(
            (#[trigger] memory.engine.facts[i]).ann.prov,
        )
}

/// Whether the facts that the program of a memory states, and that come and go with what is
/// observed, are still there; where batches were installed, all that it states. Where no batch was
/// installed and the program states none of these predicates, they are.
pub open spec fn states_its_program(memory: MemoryView) -> bool {
    forall|i: int|
        0 <= i < program_laws::program_facts(memory.rules).len() && (memory.installed > 0
            || program_laws::moves(
            (#[trigger] program_laws::program_facts(memory.rules)[i]).pred,
        )) ==> program_laws::kept(
            memory.engine.facts,
            program_laws::program_facts(memory.rules)[i],
        )
}

/// A memory that is saved and loaded has the same time, rules, episodes and conflicts, and its
/// facts are those of the program to which all facts of the memory were asserted again. The next
/// episode is numbered after the last.
proof fn lemma_saved_loads<X: Extractor>(
    memory: AgentMemory<X>,
    text: Seq<char>,
    ts: int,
    speaker: Option<Seq<char>>,
)
    requires
        memory.wf(),
        can_be_written(memory@),
    ensures
        ({
            let content = snapshot::snapshot_text(persistence::memory_records(memory@));
            let loaded = persistence::load_text(content);
            &&& loaded is Ok
            &&& loaded->Ok_0.engine.now == memory@.engine.now
            &&& loaded->Ok_0.engine.facts == restored(
                program_laws::program_facts(memory@.rules),
                memory@.engine.facts,
            )
            &&& loaded->Ok_0.episodes == memory@.episodes
            &&& loaded->Ok_0.escalations == memory@.escalations
            &&& loaded->Ok_0.rules == memory@.rules
            &&& loaded->Ok_0.next_episode(text, ts, speaker).id == "ep"@ + number::decimal_int(
                memory@.episodes.len() as int + 1,
            )
        }),
{
    let view = memory@;
    memory.lemma_wf();
    lemma_memory_writable(view);
    let records = persistence::memory_records(view);
    let lines = seq![SNAPSHOT_MAGIC@] + records.map_values(
        |r: RecordView| snapshot::record_line(r),
    );
    assert(records[0] == RecordView::Now(view.engine.now));
    codec_laws::snapshot_lines(records);
    lemma_lines_absorbed(records, lines, lines.len() as int);
    assert(records.take(records.len() as int) =~= records);
    let fresh = MemoryView::fresh(view.rules);
    let eps = view.episodes.map_values(
        |episode: EpisodeView| persistence::episode_record(episode),
    );
    let escs = view.escalations.map_values(|t: Seq<char>| RecordView::Escalation(t));
    let facts = persistence::fact_records(view.engine.facts);
    let header = seq![RecordView::Now(view.engine.now), RecordView::Rules(view.rules)];
    let m1 = MemoryView { episodes: fresh.episodes + view.episodes, ..fresh };
    let m2 = MemoryView { escalations: m1.escalations + view.escalations, ..m1 };
    lemma_episodes_taken(fresh, view.episodes);
    lemma_escalations_taken(m1, view.escalations);
    lemma_taken_add(fresh, eps, escs);
    program_laws::program_facts_are_certain(view.rules);
    lemma_facts_taken(m2, view.engine.facts);
    lemma_taken_add(fresh, eps + escs, facts);
    assert(records =~= header + (eps + escs + facts));
    lemma_header(view.engine.now, view.rules, eps + escs + facts);
    assert(fresh.episodes + view.episodes =~= view.episodes);
    assert(m1.escalations + view.escalations =~= view.escalations);
    assert(lines[0] == SNAPSHOT_MAGIC@);
}

/// Confidences that begin with that of a program are not changed by it.
proof fn lemma_certain_joined(conf: Seq<Seq<char>>, n: int)
    requires
        engine::distinct(conf),
        1 <= n <= conf.len(),
    ensures
        engine::joined(seq![conf[0]], conf.take(n)) == conf.take(n),
    decreases n,
{
    let part = conf.take(n);
    assert(part.drop_last() =~= conf.take(n - 1));
    if n == 1 {
        reveal_with_fuel(engine::joined, 2);
        assert(conf.take(0) =~= seq![]);
        assert(seq![conf[0]][0] == conf[0]);
        assert(seq![conf[0]] =~= part);
    } else {
        lemma_certain_joined(conf, n - 1);
        let had = conf.take(n - 1);
        assert(!had.contains(conf[n - 1])) by {
            if had.contains(conf[n - 1]) {
                let k = choose|k: int| 0 <= k < had.len() && had[k] == conf[n - 1];
                assert(conf[k] == conf[n - 1]);
            }
        }
        assert(had.push(conf[n - 1]) =~= part);
    }
}

/// A memory is loaded with the facts that it had: the same predicates and keys, each with the same
/// confidences and the same references. Of the facts that its program states, those that come and
/// go with what is observed must still be there.
proof fn lemma_loaded_facts<X: Extractor>(memory: AgentMemory<X>)
    requires
        memory.wf(),
        can_be_written(memory@),
        states_its_program(memory@),
    ensures
        ({
            let content = snapshot::snapshot_text(persistence::memory_records(memory@));
            let loaded = persistence::load_text(content);
            &&& loaded is Ok
            &&& loaded->Ok_0.engine.facts.len() == memory@.engine.facts.len()
            &&& forall|fact: FactView|
                #[trigger] loaded->Ok_0.engine.facts.contains(fact)
                    <==> memory@.engine.facts.contains(fact)
        }),
{
    lemma_saved_loads(memory, seq![], 0, None);
    memory.lemma_wf();
    let program = program_laws::program_facts(memory@.rules);
    program_laws::program_facts_are_certain(memory@.rules);
    lemma_restored_same(program, memory@.engine.facts);
}

/// Stores with facts that give the same, whatever their order, state the same rows.
proof fn lemma_same_facts_state(a: EngineView, b: EngineView, row: RowView)
    requires
        a.now == b.now,
        forall|fact: FactView| #[trigger] a.facts.contains(fact) ==> b.facts.contains(fact),
        datalog::stated(a, row),
    ensures
        datalog::stated(b, row),
{
    if row != datalog::now_row(a) {
        let i = choose|i: int|
            0 <= i < a.facts.len() && engine::is_fact(#[trigger] a.facts[i], row.pred, row.key);
        assert(a.facts.contains(a.facts[i]));
        let j = choose|j: int| 0 <= j < b.facts.len() && b.facts[j] == a.facts[i];
        assert(engine::is_fact(b.facts[j], row.pred, row.key));
    }
}

/// A memory that is saved and loaded answers as it did: the same rows hold.
proof fn lemma_loaded_answers<X: Extractor>(memory: AgentMemory<X>, row: RowView)
    requires
        memory.wf(),
        can_be_written(memory@),
        states_its_program(memory@),
    ensures
        ({
            let content = snapshot::snapshot_text(persistence::memory_records(memory@));
            let loaded = persistence::load_text(content);
            &&& loaded is Ok
            &&& datalog::holds(
                loaded->Ok_0.engine,
                agent::clauses_of(loaded->Ok_0.rules),
                row,
            ) == datalog::holds(memory@.engine, agent::clauses_of(memory@.rules), row)
        }),
{
    lemma_saved_loads(memory, seq![], 0, None);
    lemma_loaded_facts(memory);
    let content = snapshot::snapshot_text(persistence::memory_records(memory@));
    let store = persistence::load_text(content)->Ok_0.engine;
    assert forall|row: RowView| #[trigger]
        datalog::stated(store, row) <==> datalog::stated(memory@.engine, row) by {
        if datalog::stated(store, row) {
            lemma_same_facts_state(store, memory@.engine, row);
        }
        if datalog::stated(memory@.engine, row) {
            lemma_same_facts_state(memory@.engine, store, row);
        }
    }
    datalog::lemma_same_rows(
        store,
        memory@.engine,
        defaults::all_rules(agent::clauses_of(memory@.rules)),
        row,
    );
}

/// Facts that keep those of a program are the same when they are asserted to it again.
proof fn lemma_restored_same(program: Seq<FactView>, facts: Seq<FactView>)
    requires
        store_laws::regular(program),
        store_laws::regular(facts),
        forall|i: int|
            0 <= i < program.len() ==> (#[trigger] program[i]).ann == agent::program_ann()
                && program_laws::kept(facts, program[i]),
    ensures
        forall|fact: FactView|
            #[trigger] restored(program, facts).contains(fact) <==> facts.contains(fact),
        restored(program, facts).len() == facts.len(),
{
    let after = restored(program, facts);
    lemma_restored_regular(program, facts);
    assert forall|fact: FactView| #[trigger] after.contains(fact) <==> facts.contains(fact) by {
        facts_are_restored(program, facts, fact.pred, fact.key);
        engine::lemma_place_of(program, fact.pred, fact.key);
        engine::lemma_place_of(facts, fact.pred, fact.key);
        engine::lemma_place_of(after, fact.pred, fact.key);
        let place = engine::place_of(after, fact.pred, fact.key);
        if let Some(i) = engine::place_of(program, fact.pred, fact.key) {
            assert(program[i].ann == agent::program_ann());
            assert(program_laws::kept(facts, program[i]));
            let j = choose|j: int|
                0 <= j < facts.len() && engine::is_fact(
                    #[trigger] facts[j],
                    program[i].pred,
                    program[i].key,
                ) && facts[j].ann.conf.len() > 0 && facts[j].ann.conf[0] == "1"@;
            lemma_one_place(facts, j);
            let ann = facts[j].ann;
            assert(store_laws::regular_fact(facts[j]));
            lemma_certain_joined(ann.conf, ann.conf.len() as int);
            assert(ann.conf.take(ann.conf.len() as int) =~= ann.conf);
            sorted::lemma_placed_in_order(ann.prov);
            assert(agent::program_ann().conf =~= seq![ann.conf[0]]);
            assert(agent::program_ann().prov =~= seq![]);
            assert(agent::program_ann().merged(ann) == ann);
            assert(after[i] == facts[j]);
        }
        if after.contains(fact) {
            let k = choose|k: int| 0 <= k < after.len() && after[k] == fact;
            assert(engine::is_fact(after[k], fact.pred, fact.key));
            lemma_one_place(after, k);
        }
        if facts.contains(fact) {
            let k = choose|k: int| 0 <= k < facts.len() && facts[k] == fact;
            assert(engine::is_fact(facts[k], fact.pred, fact.key));
            lemma_one_place(facts, k);
        }
    }
    lemma_same_size(after, facts);
}

/// A fact of regular facts stands in one place.
proof fn lemma_one_place(facts: Seq<FactView>, k: int)
    requires
        store_laws::regular(facts),
        0 <= k < facts.len(),
    ensures
        engine::place_of(facts, facts[k].pred, facts[k].key) == Some(k),
{
    engine::lemma_place_of(facts, facts[k].pred, facts[k].key);
    let i = engine::place_of(facts, facts[k].pred, facts[k].key)->0;
    if i < k {
        assert(!engine::is_fact(facts[i], facts[k].pred, facts[k].key));
    }
}

proof fn lemma_restored_regular(start: Seq<FactView>, facts: Seq<FactView>)
    requires
        store_laws::regular(start),
        store_laws::regular(facts),
    ensures
        store_laws::regular(restored(start, facts)),
    decreases facts.len(),
{
    if facts.len() > 0 {
        lemma_fewer_regular(facts);
        lemma_restored_regular(start, facts.drop_last());
        let fact = facts.last();
        store_laws::declare_keeps_regular(
            restored(start, facts.drop_last()),
            fact.pred,
            fact.key,
            fact.ann,
        );
    }
}

/// Two regular lists with the same facts are of one length.
proof fn lemma_same_size(a: Seq<FactView>, b: Seq<FactView>)
    requires
        store_laws::regular(a),
        store_laws::regular(b),
        forall|fact: FactView| #[trigger] a.contains(fact) <==> b.contains(fact),
    ensures
        a.len() == b.len(),
{
    lemma_no_duplicates(a);
    lemma_no_duplicates(b);
    a.unique_seq_to_set();
    b.unique_seq_to_set();
    assert(a.to_set() =~= b.to_set());
}

proof fn lemma_no_duplicates(facts: Seq<FactView>)
    requires
        store_laws::regular(facts),
    ensures
        facts.no_duplicates(),
{
    assert forall|i: int, j: int|
        0 <= i < facts.len() && 0 <= j < facts.len() && i != j implies facts[i] != facts[j] by {
        if i < j {
            assert(!engine::is_fact(facts[i], facts[j].pred, facts[j].key));
        } else {
            assert(!engine::is_fact(facts[j], facts[i].pred, facts[i].key));
        }
    }
}

// ------------------------------------------------------- saved and searched
/// The row of a fact, where it has one that is searched.
pub open spec fn fact_row(policy: PolicyView, now: int, fact: FactView) -> Option<Seq<char>> {
    if fact.pred == "edge"@ && policy.include_legacy {
        search::edge_row(policy.legacy, fact.key, now, fact.ann.prov)
    } else if fact.pred == "scoped_edge"@ {
        match search::scoped_edge_row(fact.key, now, fact.ann.prov) {
            Some((scope, row)) if policy.selects(scope) => Some(row),
            _ => None,
        }
    } else {
        None
    }
}

/// A search of a saved memory sees the facts of the memory that hold now, each as one row, and
/// nothing else.
pub proof fn saved_memory_is_searched(memory: MemoryView, policy: PolicyView, row: Seq<char>)
    requires
        store_laws::regular(memory.engine.facts),
    ensures
        ({
            let records = persistence::memory_records(memory);
            policy.rows(search::time_of(records), records).contains(row) <==> exists|i: int|
                0 <= i < memory.engine.facts.len() && fact_row(
                    policy,
                    memory.engine.now,
                    #[trigger] memory.engine.facts[i],
                ) == Some(row)
        }),
{
    let records = persistence::memory_records(memory);
    let now = memory.engine.now;
    let facts = memory.engine.facts;
    let of_facts = persistence::fact_records(facts);
    let start = records.len() - of_facts.len();
    assert(records[0] == RecordView::Now(now));
    assert forall|i: int| 0 <= i < start implies policy.row(now, #[trigger] records[i]) is None by {
        assert(!(records[i] is Fact));
    }
    assert forall|i: int| start <= i < records.len() implies #[trigger] records[i]
        == of_facts[i - start] by {}
    search_laws::searched_rows_are_those_of_records(policy, now, records, row);
    lemma_fact_records_rows(policy, now, facts, row);
    if exists|i: int|
        0 <= i < records.len() && policy.row(now, #[trigger] records[i]) == Some(row) {
        let i = choose|i: int|
            0 <= i < records.len() && policy.row(now, #[trigger] records[i]) == Some(row);
        assert(policy.row(now, of_facts[i - start]) == Some(row));
    }
    if exists|i: int|
        0 <= i < of_facts.len() && policy.row(now, #[trigger] of_facts[i]) == Some(row) {
        let i = choose|i: int|
            0 <= i < of_facts.len() && policy.row(now, #[trigger] of_facts[i]) == Some(row);
        assert(records[i + start] == of_facts[i]);
    }
}

proof fn lemma_fact_records_rows(
    policy: PolicyView,
    now: int,
    facts: Seq<FactView>,
    row: Seq<char>,
)
    requires
        store_laws::regular(facts),
    ensures
        (exists|i: int|
            0 <= i < persistence::fact_records(facts).len() && policy.row(
                now,
                #[trigger] persistence::fact_records(facts)[i],
            ) == Some(row)) <==> exists|i: int|
            0 <= i < facts.len() && fact_row(policy, now, #[trigger] facts[i]) == Some(row),
    decreases facts.len(),
{
    let all = persistence::fact_records(facts);
    if facts.len() > 0 {
        let fewer = facts.drop_last();
        let rest = persistence::fact_records(fewer);
        let last = facts.last();
        let own = persistence::confidence_records(last);
        lemma_fewer_regular(facts);
        lemma_fact_records_rows(policy, now, fewer, row);
        assert forall|k: int| 0 <= k < own.len() implies policy.row(now, #[trigger] own[k])
            == fact_row(policy, now, last) by {
            reveal_strlit("edge");
            reveal_strlit("scoped_edge");
            assert("edge"@.len() != "scoped_edge"@.len());
        }
        assert(own.len() > 0);
        if exists|i: int|
            0 <= i < all.len() && policy.row(now, #[trigger] all[i]) == Some(row) {
            let i = choose|i: int|
                0 <= i < all.len() && policy.row(now, #[trigger] all[i]) == Some(row);
            if i < rest.len() {
                assert(policy.row(now, rest[i]) == Some(row));
                let k = choose|k: int|
                    0 <= k < fewer.len() && fact_row(policy, now, #[trigger] fewer[k]) == Some(row);
                assert(facts[k] == fewer[k]);
            } else {
                assert(all[i] == own[i - rest.len()]);
                assert(fact_row(policy, now, facts[facts.len() - 1]) == Some(row));
            }
        }
        if exists|i: int|
            0 <= i < facts.len() && fact_row(policy, now, #[trigger] facts[i]) == Some(row) {
            let i = choose|i: int|
                0 <= i < facts.len() && fact_row(policy, now, #[trigger] facts[i]) == Some(row);
            if i < fewer.len() {
                assert(fewer[i] == facts[i]);
                let k = choose|k: int|
                    0 <= k < rest.len() && policy.row(now, #[trigger] rest[k]) == Some(row);
                assert(all[k] == rest[k]);
            } else {
                assert(all[rest.len() as int] == own[0]);
            }
        }
    }
}

/// A fact that is searched is one that a query says is current.
pub proof fn searched_fact_is_current(policy: PolicyView, store: EngineView, i: int)
    requires
        0 <= i < store.facts.len(),
        fact_row(policy, store.now, store.facts[i]) is Some,
    ensures
        ({
            let fact = store.facts[i];
            let skip: int = if fact.pred == "edge"@ {
                0
            } else {
                1
            };
            let key = fact.key.subrange(skip, skip + 3);
            &&& engine::given(fact, store.now, "current"@) == Some(key)
            &&& datalog::holds(store, store.rules, RowView { pred: "current"@, key })
        }),
{
    let fact = store.facts[i];
    let skip: int = if fact.pred == "edge"@ {
        0
    } else {
        1
    };
    reveal_strlit("edge");
    reveal_strlit("scoped_edge");
    reveal_strlit("current");
    assert("edge"@.len() == 4 && "scoped_edge"@.len() == 11 && "current"@.len() == 7);
    assert(fact.key.len() >= 3 ==> fact.key.take(3) =~= fact.key.subrange(0, 3));
    rows::given_row_holds(store, store.rules, i, "current"@, fact.key.subrange(skip, skip + 3));
}

/// Whether a memory has the time, rules, episodes and conflicts of another, and facts that are
/// those of its program to which all facts of the other were asserted again.
pub open spec fn restores(loaded: MemoryView, memory: MemoryView) -> bool {
    &&& loaded.engine.now == memory.engine.now
    &&& loaded.rules == memory.rules
    &&& loaded.episodes == memory.episodes
    &&& loaded.escalations == memory.escalations
    &&& loaded.engine.facts == restored(
        program_laws::program_facts(memory.rules),
        memory.engine.facts,
    )
}

/// What was saved is loaded: `load` gives a memory for the text that `save` gave. It has the same
/// time, rules, episodes and conflicts, and the next episode is numbered after the last. Its facts
/// are those of the program to which all facts of the memory were asserted again. Where the facts
/// of the program that come and go are still there, these are the facts that the memory had, each
/// with the same confidences and the same references, and the same rows hold.
pub proof fn what_was_saved_is_loaded<X: Extractor>(
    memory: AgentMemory<X>,
    content: Seq<char>,
    loaded: AgentMemory<X>,
    text: Seq<char>,
    ts: int,
    speaker: Option<Seq<char>>,
    fact: FactView,
    row: RowView,
)
    requires
        memory.wf(),
        can_be_written(memory@),
        content == snapshot::snapshot_text(persistence::memory_records(memory@)),
        loaded.wf(),
        persistence::load_text(content) is Ok ==> loaded@ == persistence::load_text(content)->Ok_0,
    ensures
        persistence::load_text(content) is Ok,
        restores(loaded@, memory@),
        loaded@.next_episode(text, ts, speaker).id == "ep"@ + number::decimal_int(
            memory@.episodes.len() as int + 1,
        ),
        states_its_program(memory@) ==> {
            &&& loaded@.engine.facts.len() == memory@.engine.facts.len()
            &&& loaded@.engine.facts.contains(fact) <==> memory@.engine.facts.contains(fact)
            &&& datalog::holds(loaded@.engine, loaded@.engine.rules, row) <==> datalog::holds(
                memory@.engine,
                memory@.engine.rules,
                row,
            )
        },
{
    lemma_saved_loads(memory, text, ts, speaker);
    memory.lemma_wf();
    loaded.lemma_wf();
    if states_its_program(memory@) {
        lemma_loaded_facts(memory);
        lemma_loaded_answers(memory, row);
    }
}

} // verus!
