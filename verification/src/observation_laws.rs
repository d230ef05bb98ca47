//! What an observation does to a memory, and what is current afterwards.

use vstd::prelude::*;

use crate::agent;
use crate::agent::{EpisodeView, MemoryView, ReportView};
use crate::datalog;
use crate::datalog::RowView;
use crate::engine;
use crate::engine::{EngineView, FactView};
use crate::number;
use crate::protocol::CandidateView;
use crate::query_laws;
use crate::snapshot::ValueView;
use crate::update;
use crate::update::OutcomeView;
use crate::update_laws;

verus! {

/// Nothing is done of no candidates.
pub proof fn nothing_is_done_of_nothing(
    store: EngineView,
    scope: Option<Seq<char>>,
    episode: Seq<char>,
    provenance: Seq<Seq<char>>,
)
    ensures
        agent::all_updated(store, scope, seq![], episode, provenance) == (
            store,
            (ReportView { added: 0, updated: 0, noop: 0, escalations: seq![] }),
        ),
{
}

/// Candidates are taken one after the other: one more meets the store that the others left, and is
/// counted where it belongs. One that conflicts is counted as added, and its conflict is told.
pub proof fn candidates_are_taken_in_order(
    store: EngineView,
    scope: Option<Seq<char>>,
    candidates: Seq<CandidateView>,
    candidate: CandidateView,
    episode: Seq<char>,
    provenance: Seq<Seq<char>>,
)
    ensures
        ({
            let (before, report) = agent::all_updated(
                store,
                scope,
                candidates,
                episode,
                provenance,
            );
            let (after, more) = agent::all_updated(
                store,
                scope,
                candidates.push(candidate),
                episode,
                provenance,
            );
            let (last, outcome) = update::updated(before, scope, candidate, episode, provenance);
            &&& after == last
            &&& more.added == report.added + (if outcome is Added || outcome is Conflict {
                1int
            } else {
                0
            })
            &&& more.updated == report.updated + (if outcome is Updated {
                1int
            } else {
                0
            })
            &&& more.noop == report.noop + (if outcome is Noop {
                1int
            } else {
                0
            })
            &&& more.escalations == (match outcome {
                OutcomeView::Conflict(told) => report.escalations.push(told),
                _ => report.escalations,
            })
        }),
{
    assert(candidates.push(candidate).drop_last() =~= candidates);
}

/// Each candidate is counted once.
pub proof fn each_candidate_is_counted_once(
    store: EngineView,
    scope: Option<Seq<char>>,
    candidates: Seq<CandidateView>,
    episode: Seq<char>,
    provenance: Seq<Seq<char>>,
)
    ensures
        ({
            let report = agent::all_updated(store, scope, candidates, episode, provenance).1;
            &&& 0 <= report.added
            &&& 0 <= report.updated
            &&& 0 <= report.noop
            &&& report.added + report.updated + report.noop == candidates.len()
            &&& report.escalations.len() <= report.added
        }),
    decreases candidates.len(),
{
    if candidates.len() > 0 {
        each_candidate_is_counted_once(store, scope, candidates.drop_last(), episode, provenance);
    }
}

proof fn lemma_closed_time(store: EngineView, relation: Seq<char>, open: Seq<FactView>, skip: int)
    ensures
        update::with_closed(store, relation, open, skip).now == store.now,
        update::with_closed(store, relation, open, skip).rules == store.rules,
    decreases open.len(),
{
    if open.len() > 0 {
        lemma_closed_time(store, relation, open.drop_last(), skip);
    }
}

proof fn lemma_time(
    store: EngineView,
    scope: Option<Seq<char>>,
    candidates: Seq<CandidateView>,
    episode: Seq<char>,
    provenance: Seq<Seq<char>>,
)
    ensures
        agent::all_updated(store, scope, candidates, episode, provenance).0.now == store.now,
        agent::all_updated(store, scope, candidates, episode, provenance).0.rules == store.rules,
    decreases candidates.len(),
{
    if candidates.len() > 0 {
        let fewer = candidates.drop_last();
        let before = agent::all_updated(store, scope, fewer, episode, provenance).0;
        lemma_time(store, scope, fewer, episode, provenance);
        let ready = update::prepared(before, scope, candidates.last());
        lemma_closed_time(
            ready,
            update::relation_name(scope),
            update::rivals(ready, scope, candidates.last()),
            update::prefix(scope).len() as int,
        );
    }
}

/// An observation is remembered: its episode stands behind the others, the conflicts that it told
/// stand behind those that were told, and the time of the memory is that of the episode. Rules,
/// batches, suppositions and the last turn stay as they are.
pub proof fn observation_is_remembered(
    memory: MemoryView,
    episode: EpisodeView,
    scope: Option<Seq<char>>,
    candidates: Seq<CandidateView>,
    provenance: Seq<Seq<char>>,
)
    ensures
        ({
            let (after, report) = memory.observed(episode, scope, candidates, provenance);
            &&& after.episodes == memory.episodes.push(episode)
            &&& after.escalations == memory.escalations + report.escalations
            &&& after.counter == memory.counter + 1
            &&& after.engine.now == episode.ts
            &&& after.engine.rules == memory.engine.rules
            &&& after.rules == memory.rules
            &&& after.base == memory.base
            &&& after.batches == memory.batches
            &&& after.installed == memory.installed
            &&& after.suppositions == memory.suppositions
            &&& after.turn == memory.turn
            &&& report.added + report.updated + report.noop == candidates.len()
        }),
{
    let store = EngineView { now: episode.ts, ..memory.engine };
    lemma_time(store, scope, candidates, episode.id, provenance);
    each_candidate_is_counted_once(store, scope, candidates, episode.id, provenance);
}

/// The candidates of an observation meet the store of the memory at the time of the episode, and
/// refer to the episode.
pub proof fn observation_takes_its_candidates(
    memory: MemoryView,
    episode: EpisodeView,
    scope: Option<Seq<char>>,
    candidates: Seq<CandidateView>,
    provenance: Seq<Seq<char>>,
)
    ensures
        ({
            let (after, report) = memory.observed(episode, scope, candidates, provenance);
            let store = EngineView {
                names: memory.engine.names,
                facts: memory.engine.facts,
                now: episode.ts,
                rules: memory.engine.rules,
            };
            (after.engine, report) == agent::all_updated(
                store,
                scope,
                candidates,
                episode.id,
                provenance,
            )
        }),
{
}

/// Episodes are numbered from one on, in the order in which they are observed, and keep the text,
/// the time and the speaker that the caller gave; so no two have one id.
pub proof fn episodes_are_numbered(
    memory: MemoryView,
    text: Seq<char>,
    ts: int,
    speaker: Option<Seq<char>>,
    other: int,
)
    requires
        0 <= memory.counter,
        0 <= other,
    ensures
        ({
            let episode = memory.next_episode(text, ts, speaker);
            &&& episode.id == seq!['e', 'p'] + number::decimal((memory.counter + 1) as nat)
            &&& episode.text == text
            &&& episode.ts == ts
            &&& episode.speaker == speaker
            &&& other != memory.counter + 1 ==> agent::episode_id(other) != episode.id
        }),
{
    reveal_strlit("ep");
    assert("ep"@ =~= seq!['e', 'p']);
    let n = (memory.counter + 1) as nat;
    number::lemma_decimal(n);
    number::lemma_decimal(other as nat);
    if agent::episode_id(other) == "ep"@ + number::decimal(n) {
        assert(agent::episode_id(other).skip(2) =~= number::decimal(other as nat));
        assert(("ep"@ + number::decimal(n)).skip(2) =~= number::decimal(n));
    }
}

/// A new memory remembers nothing, and knows of its program and of what is exclusive.
pub proof fn new_memory_is_empty(rules: Seq<char>)
    ensures
        ({
            let memory = MemoryView::fresh(rules);
            &&& memory.episodes.len() == 0
            &&& memory.escalations.len() == 0
            &&& memory.counter == 0
            &&& memory.suppositions == 0
            &&& memory.batches.len() == 0
            &&& memory.turn.len() == 0
            &&& memory.rules == rules
            &&& agent::clauses_of(rules).len() == 0 ==> memory.engine.facts.len() == 1
                && memory.engine.facts[0].pred == "exclusive"@ && memory.engine.facts[0].key
                == seq![ValueView::Symbol("works_at"@)]
        }),
{
    let clauses = agent::clauses_of(rules);
    let store = MemoryView::fresh(rules).engine;
    if clauses.len() == 0 {
        reveal_with_fuel(agent::with_clauses, 1);
        assert(engine::place_of(
            Seq::<FactView>::empty(),
            "exclusive"@,
            seq![ValueView::Symbol("works_at"@)],
        ) is None);
    }
}

// ---------------------------------------------------------------- current
/// Whether a fact without a scope says that a subject has an object in a relation, at a time.
pub open spec fn says(
    fact: FactView,
    now: int,
    subject: ValueView,
    relation: ValueView,
    object: ValueView,
) -> bool {
    &&& fact.pred == "edge"@
    &&& fact.key.len() == 6
    &&& fact.key[0] == subject
    &&& fact.key[1] == relation
    &&& fact.key[2] == object
    &&& fact.key[3] is Integer
    &&& fact.key[4] is Integer
    &&& fact.key[3]->Integer_0 <= now
    &&& now < fact.key[4]->Integer_0
}

/// Whether a fact says in a scope that a subject has an object in a relation, at a time.
pub open spec fn says_in(
    fact: FactView,
    now: int,
    scope: ValueView,
    subject: ValueView,
    relation: ValueView,
    object: ValueView,
) -> bool {
    &&& fact.pred == "scoped_edge"@
    &&& fact.key.len() == 7
    &&& fact.key[0] == scope
    &&& fact.key[1] == subject
    &&& fact.key[2] == relation
    &&& fact.key[3] == object
    &&& fact.key[4] is Integer
    &&& fact.key[5] is Integer
    &&& fact.key[4]->Integer_0 <= now
    &&& now < fact.key[5]->Integer_0
}

proof fn lemma_distinct_relations()
    ensures
        "edge"@ != "current"@,
        "edge"@ != "scoped_current"@,
        "scoped_edge"@ != "current"@,
        "scoped_edge"@ != "scoped_current"@,
        "current"@ != "scoped_current"@,
        "edge"@ != "scoped_edge"@,
        "now"@ != "current"@,
        "now"@ != "scoped_current"@,
{
    reveal_strlit("edge");
    reveal_strlit("scoped_edge");
    reveal_strlit("current");
    reveal_strlit("scoped_current");
    reveal_strlit("now");
    assert("edge"@.len() == 4 && "scoped_edge"@.len() == 11);
    assert("current"@.len() == 7 && "scoped_current"@.len() == 14 && "now"@.len() == 3);
}

/// Without added rules the relation `current` holds what some fact says now, in whatever scope, and
/// nothing else.
pub proof fn current_is_what_is_said_now(
    store: EngineView,
    subject: ValueView,
    relation: ValueView,
    object: ValueView,
)
    requires
        forall|i: int|
            0 <= i < store.facts.len() ==> (#[trigger] store.facts[i]).pred != "now"@
                && store.facts[i].pred != "current"@,
    ensures
        datalog::holds(
            store,
            seq![],
            RowView { pred: "current"@, key: seq![subject, relation, object] },
        ) <==> exists|i: int|
            0 <= i < store.facts.len() && (says(
                #[trigger] store.facts[i],
                store.now,
                subject,
                relation,
                object,
            ) || store.facts[i].key.len() > 0 && says_in(
                store.facts[i],
                store.now,
                store.facts[i].key[0],
                subject,
                relation,
                object,
            )),
{
    let key = seq![subject, relation, object];
    let row = RowView { pred: "current"@, key };
    lemma_distinct_relations();
    query_laws::only_given_rows_hold_without_added_rules(store, row);
    update_laws::relation_holds_what_facts_give(store.facts, store.now, "current"@, key);
    assert forall|i: int| 0 <= i < store.facts.len() implies (engine::given(
        #[trigger] store.facts[i],
        store.now,
        "current"@,
    ) == Some(key) <==> says(store.facts[i], store.now, subject, relation, object)
        || store.facts[i].key.len() > 0 && says_in(
        store.facts[i],
        store.now,
        store.facts[i].key[0],
        subject,
        relation,
        object,
    )) by {
        let fact = store.facts[i];
        if fact.pred == "edge"@ && fact.key.len() == 6 {
            let part = fact.key.take(3);
            assert(part[0] == fact.key[0] && part[1] == fact.key[1] && part[2] == fact.key[2]);
            assert(part == key <==> fact.key[0] == subject && fact.key[1] == relation && fact.key[2]
                == object) by {
                if fact.key[0] == subject && fact.key[1] == relation && fact.key[2] == object {
                    assert(part =~= key);
                }
            }
        }
        if fact.pred == "scoped_edge"@ && fact.key.len() == 7 {
            let part = fact.key.subrange(1, 4);
            assert(part[0] == fact.key[1] && part[1] == fact.key[2] && part[2] == fact.key[3]);
            assert(part == key <==> fact.key[1] == subject && fact.key[2] == relation && fact.key[3]
                == object) by {
                if fact.key[1] == subject && fact.key[2] == relation && fact.key[3] == object {
                    assert(part =~= key);
                }
            }
        }
    }
}

/// Without added rules the relation `scoped_current` holds what some fact says now in a scope, and
/// nothing else.
pub proof fn scoped_current_is_what_is_said_there_now(
    store: EngineView,
    scope: ValueView,
    subject: ValueView,
    relation: ValueView,
    object: ValueView,
)
    requires
        forall|i: int|
            0 <= i < store.facts.len() ==> (#[trigger] store.facts[i]).pred != "now"@
                && store.facts[i].pred != "scoped_current"@,
    ensures
        datalog::holds(
            store,
            seq![],
            RowView { pred: "scoped_current"@, key: seq![scope, subject, relation, object] },
        ) <==> exists|i: int|
            0 <= i < store.facts.len() && says_in(
                #[trigger] store.facts[i],
                store.now,
                scope,
                subject,
                relation,
                object,
            ),
{
    let key = seq![scope, subject, relation, object];
    let row = RowView { pred: "scoped_current"@, key };
    lemma_distinct_relations();
    query_laws::only_given_rows_hold_without_added_rules(store, row);
    update_laws::relation_holds_what_facts_give(store.facts, store.now, "scoped_current"@, key);
    assert forall|i: int| 0 <= i < store.facts.len() implies (engine::given(
        #[trigger] store.facts[i],
        store.now,
        "scoped_current"@,
    ) == Some(key) <==> says_in(
        store.facts[i],
        store.now,
        scope,
        subject,
        relation,
        object,
    )) by {
        let fact = store.facts[i];
        if fact.pred == "scoped_edge"@ && fact.key.len() == 7 {
            let part = fact.key.take(4);
            assert(part[0] == fact.key[0] && part[1] == fact.key[1] && part[2] == fact.key[2]
                && part[3] == fact.key[3]);
            assert(part == key <==> fact.key[0] == scope && fact.key[1] == subject && fact.key[2]
                == relation && fact.key[3] == object) by {
                if fact.key[0] == scope && fact.key[1] == subject && fact.key[2] == relation
                    && fact.key[3] == object {
                    assert(part =~= key);
                }
            }
        }
    }
}

} // verus!
