//! What is observed of a text, what is only supposed, what a program states, and what is known then.

use vstd::prelude::*;

use crate::agent::{AgentMemory, EpisodeView, Extractor, MemoryView, ModelView, ReportView};
use crate::agent;
use crate::batches::BatchView;
use crate::batches;
use crate::clause::RuleView;
use crate::context;
use crate::datalog;
use crate::engine::{AnnView, EngineView, FactView, TermView};
use crate::engine;
use crate::news;
use crate::number;
use crate::observation_laws;
use crate::order;
use crate::persistence;
use crate::policy_laws;
use crate::protocol::{CandidateView, DEFAULT_CONFIDENCE};
use crate::protocol;
use crate::query_laws;
use crate::snapshot::ValueView;
use crate::text;
use crate::update;
use crate::update_laws;

verus! {

/// What is supposed is each candidate, as a fact without a scope that is valid from now on; what was
/// there is there as it was, and nothing else comes.
pub proof fn each_candidate_is_supposed(
    store: EngineView,
    candidates: Seq<CandidateView>,
    now: int,
    pred: Seq<char>,
    key: Seq<ValueView>,
)
    ensures
        ({
            let after = agent::with_edges(store, agent::supposed_keys(candidates, now));
            &&& update_laws::has_fact(after.facts, pred, key) <==> update_laws::has_fact(
                store.facts,
                pred,
                key,
            ) || pred == "edge"@ && exists|i: int|
                0 <= i < candidates.len() && key == policy_laws::new_key(
                    None,
                    #[trigger] candidates[i],
                    now,
                )
            &&& after.now == store.now
            &&& after.rules == store.rules
        }),
    decreases candidates.len(),
{
    let keys = agent::supposed_keys(candidates, now);
    if candidates.len() > 0 {
        let fewer = candidates.drop_last();
        let last = candidates.last();
        let n = candidates.len() - 1;
        each_candidate_is_supposed(store, fewer, now, pred, key);
        assert(keys.drop_last() =~= agent::supposed_keys(fewer, now));
        let before = agent::with_edges(store, keys.drop_last());
        let own = policy_laws::new_key(None, last, now);
        assert(update::open_key(None, last, now) =~= own);
        assert(keys.last() == own);
        update_laws::declare_adds_one(
            before.facts,
            "edge"@,
            own,
            AnnView::base(DEFAULT_CONFIDENCE@, seq![]),
            pred,
            key,
        );
        assert(candidates[n] == last);
        assert forall|i: int| 0 <= i < n implies fewer[i] == #[trigger] candidates[i] by {}
        if exists|i: int|
            0 <= i < fewer.len() && key == policy_laws::new_key(None, #[trigger] fewer[i], now) {
            let i = choose|i: int|
                0 <= i < fewer.len() && key == policy_laws::new_key(None, #[trigger] fewer[i], now);
            assert(key == policy_laws::new_key(None, candidates[i], now));
        }
        if exists|i: int|
            0 <= i < candidates.len() && key == policy_laws::new_key(
                None,
                #[trigger] candidates[i],
                now,
            ) {
            let i = choose|i: int|
                0 <= i < candidates.len() && key == policy_laws::new_key(
                    None,
                    #[trigger] candidates[i],
                    now,
                );
            if i < n {
                assert(key == policy_laws::new_key(None, fewer[i], now));
            }
        }
    } else {
        assert(keys =~= seq![]);
    }
}

proof fn lemma_strict(candidates: Seq<CandidateView>)
    ensures
        protocol::strict_facts(candidates) == candidates.filter(
            |candidate: CandidateView| protocol::strict(candidate),
        ),
    decreases candidates.len(),
{
    reveal(Seq::filter);
    if candidates.len() > 0 {
        lemma_strict(candidates.drop_last());
    }
}

/// Of a text those lines are observed that state a strict fact, in their order and with the
/// confidence 0.9 where they give none, as the next episode, which has the text and no speaker.
pub proof fn told_text_is_observed(
    memory: MemoryView,
    content: Seq<char>,
    ts: int,
    scope: Option<Seq<char>>,
    provenance: Seq<Seq<char>>,
)
    ensures
        memory.told(content, ts, scope, provenance) == memory.observed(
            memory.next_episode(content, ts, None),
            scope,
            protocol::protocol_facts(content, "0.9"@).filter(
                |candidate: CandidateView| protocol::strict(candidate),
            ),
            provenance,
        ),
{
    protocol::reported_facts_are_the_strict_ones(text::lines(content), "0.9"@);
    lemma_strict(protocol::protocol_facts(content, "0.9"@));
}

/// A turn sets the time and leaves the facts as they are; right behind it nothing is new.
pub proof fn turn_sets_the_time(memory: MemoryView, now: int)
    ensures
        ({
            let after = memory.turned(now);
            &&& after.engine.now == now
            &&& after.engine.facts == memory.engine.facts
            &&& after.engine.rules == memory.engine.rules
            &&& after.engine.names == memory.engine.names
            &&& after.episodes == memory.episodes
            &&& after.escalations == memory.escalations
            &&& after.counter == memory.counter
            &&& after.rules == memory.rules
            &&& after.news().len() == 0
        }),
{
    news::nothing_is_new_at_a_turn(memory.engine.facts);
}

/// The symbols of a candidate and its scope are known after it was observed, and all that were known
/// stay known.
pub proof fn observed_symbols_are_known(
    store: EngineView,
    scope: Option<Seq<char>>,
    candidate: CandidateView,
    episode: Seq<char>,
    provenance: Seq<Seq<char>>,
    name: Seq<char>,
)
    requires
        store.names.contains(name) || name == candidate.subj || name == candidate.pred || name
            == candidate.obj || scope == Some(name),
    ensures
        update::updated(store, scope, candidate, episode, provenance).0.names.contains(name),
{
    let scoped = match scope {
        None => store,
        Some(own) => store.with_name(own),
    };
    let ready = update::prepared(store, scope, candidate);
    if scope is Some {
        lemma_known(store.names, scope->0, name);
    }
    let first = engine::interned(scoped.names, candidate.subj);
    let second = engine::interned(first, candidate.pred);
    lemma_known(scoped.names, candidate.subj, name);
    lemma_known(first, candidate.pred, name);
    lemma_known(second, candidate.obj, name);
    lemma_closed_names(
        ready,
        update::relation_name(scope),
        update::rivals(ready, scope, candidate),
        update::prefix(scope).len() as int,
    );
}

proof fn lemma_known(names: Seq<Seq<char>>, own: Seq<char>, name: Seq<char>)
    ensures
        engine::interned(names, own).contains(name) <==> names.contains(name) || name == own,
{
    datalog::lemma_push_holds(names, own, name);
}

proof fn lemma_closed_names(store: EngineView, relation: Seq<char>, open: Seq<FactView>, skip: int)
    ensures
        update::with_closed(store, relation, open, skip).names == store.names,
    decreases open.len(),
{
    if open.len() > 0 {
        lemma_closed_names(store, relation, open.drop_last(), skip);
    }
}

/// The symbols of a fact that is loaded are known, all of them.
pub proof fn loaded_symbols_are_known(store: EngineView, values: Seq<ValueView>, name: Seq<char>)
    ensures
        persistence::with_symbols(store, values).names.contains(name) <==> store.names.contains(
            name,
        ) || values.contains(ValueView::Symbol(name)),
        persistence::with_symbols(store, values).facts == store.facts,
        persistence::with_symbols(store, values).now == store.now,
        persistence::with_symbols(store, values).rules == store.rules,
    decreases values.len(),
{
    if values.len() > 0 {
        let fewer = values.drop_last();
        loaded_symbols_are_known(store, fewer, name);
        assert(values =~= fewer.push(values.last()));
        datalog::lemma_push_holds(fewer, values.last(), ValueView::Symbol(name));
        if let ValueView::Symbol(own) = values.last() {
            lemma_known(persistence::with_symbols(store, fewer).names, own, name);
        }
    }
}

/// A program states its facts, each of them: those are the clauses that have no body; what was there
/// stays there, and nothing else comes.
pub proof fn program_states_each_of_its_facts(
    store: EngineView,
    clauses: Seq<RuleView>,
    pred: Seq<char>,
    key: Seq<ValueView>,
)
    ensures
        ({
            let after = agent::with_clauses(store, clauses);
            &&& update_laws::has_fact(after.facts, pred, key) <==> update_laws::has_fact(
                store.facts,
                pred,
                key,
            ) || exists|i: int|
                0 <= i < clauses.len() && states(#[trigger] clauses[i], pred, key)
            &&& after.now == store.now
            &&& after.rules == store.rules
        }),
    decreases clauses.len(),
{
    if clauses.len() > 0 {
        let fewer = clauses.drop_last();
        let last = clauses.last();
        let n = clauses.len() - 1;
        let before = agent::with_clauses(store, fewer);
        program_states_each_of_its_facts(store, fewer, pred, key);
        assert(clauses[n] == last);
        assert forall|i: int| 0 <= i < n implies fewer[i] == #[trigger] clauses[i] by {}
        let own = agent::ground_key(last.head);
        loaded_symbols_are_known(before, own, seq![]);
        let named = persistence::with_symbols(before, own);
        update_laws::declare_adds_one(
            named.facts,
            last.head.pred,
            own,
            agent::program_ann(),
            pred,
            key,
        );
        assert(own == key ==> states(last, pred, key) == (last.is_fact() && last.head.pred
            == pred)) by {
            assert forall|i: int| 0 <= i < own.len() implies own[i] == constant(
                last.head.args[i],
            ) by {}
        }
        if states(last, pred, key) {
            assert(own =~= key);
        }
        if exists|i: int| 0 <= i < fewer.len() && states(#[trigger] fewer[i], pred, key) {
            let i = choose|i: int| 0 <= i < fewer.len() && states(#[trigger] fewer[i], pred, key);
            assert(states(clauses[i], pred, key));
        }
        if exists|i: int| 0 <= i < clauses.len() && states(#[trigger] clauses[i], pred, key) {
            let i = choose|i: int|
                0 <= i < clauses.len() && states(#[trigger] clauses[i], pred, key);
            if i < n {
                assert(states(fewer[i], pred, key));
            }
        }
    }
}

/// The value that a term without a variable is.
pub open spec fn constant(term: TermView) -> ValueView {
    match term {
        TermView::Sym(name) => ValueView::Symbol(name),
        TermView::Int(i) => ValueView::Integer(i),
        TermView::Var(name) => ValueView::Symbol(name),
    }
}

/// Whether a clause states a fact.
pub open spec fn states(clause: RuleView, pred: Seq<char>, key: Seq<ValueView>) -> bool {
    &&& clause.body.len() == 0
    &&& clause.guards.len() == 0
    &&& clause.head.pred == pred
    &&& clause.head.args.len() == key.len()
    &&& forall|i: int| 0 <= i < key.len() ==> #[trigger] key[i] == constant(clause.head.args[i])
}

/// A batch is installed behind the others, under the next number, and its text behind the rules;
/// what is remembered stays as it is.
pub proof fn batch_stands_behind_the_others(memory: MemoryView, source: Seq<char>)
    requires
        0 <= memory.installed,
        memory.rules == batches::program_text(memory.base, memory.batches),
    ensures
        ({
            let after = memory.with_batch(source);
            &&& after.batches.len() == memory.batches.len() + 1
            &&& after.batches.drop_last() == memory.batches
            &&& after.batches.last() == (BatchView {
                id: seq!['b', 'a', 't', 'c', 'h'] + number::decimal((memory.installed + 1) as nat),
                source,
            })
            &&& after.rules == memory.rules + seq!['\n'] + source
            &&& after.base == memory.base
            &&& after.installed == memory.installed + 1
            &&& after.episodes == memory.episodes
            &&& after.escalations == memory.escalations
            &&& after.counter == memory.counter
            &&& after.engine.now == memory.engine.now
        }),
{
    reveal_strlit("batch");
    assert("batch"@ =~= seq!['b', 'a', 't', 'c', 'h']);
    reveal_strlit("\n");
    assert("\n"@ =~= seq!['\n']);
    let batch = BatchView { id: batches::batch_id(memory.installed + 1), source };
    assert(memory.batches.push(batch).drop_last() =~= memory.batches);
    program_states_each_of_its_facts(
        memory.with_program(
            batches::program_text(memory.base, memory.batches.push(batch)),
        ).engine,
        agent::clauses_of(source),
        seq![],
        seq![],
    );
}

/// A batch that is taken back is gone, and the others stay in their order; facts stay.
pub proof fn batch_is_taken_back_alone(memory: MemoryView, i: int)
    requires
        0 <= i < memory.batches.len(),
    ensures
        ({
            let after = memory.without_batch(i);
            &&& after.batches == memory.batches.take(i) + memory.batches.skip(i + 1)
            &&& after.rules == batches::program_text(memory.base, after.batches)
            &&& after.engine.facts == memory.engine.facts
            &&& after.engine.now == memory.engine.now
            &&& after.episodes == memory.episodes
            &&& after.base == memory.base
            &&& after.installed == memory.installed
        }),
{
    assert(memory.batches.remove(i) =~= memory.batches.take(i) + memory.batches.skip(i + 1));
}

/// What a model found is what its answer says, with the confidence 0.9 where that gives none; of a
/// call that failed nothing is found, and the failure is counted.
pub proof fn model_finds_what_its_answer_says(
    episode: EpisodeView,
    response: Seq<char>,
    model: ModelView,
)
    requires
        agent::recalled(model.seen, episode.id) is None,
    ensures
        ModelView::fresh().found_in(Some(response)) == protocol::protocol_facts(
            response,
            "0.9"@,
        ),
        model.found_in(Some(response)) == protocol::protocol_facts(response, model.confidence),
        model.found_in(None).len() == 0,
        model.extracted(episode, Some(response)) == protocol::protocol_facts(
            response,
            model.confidence,
        ),
        model.after(episode, None).failed == model.failed.push(episode.id),
        model.after(episode, Some(response)).failed == model.failed,
        model.after(episode, Some(response)).calls() == model.calls() + 1,
        model.after(episode, None).calls() == model.calls() + 1,
{
}

/// Rows are ordered by the first value in which they differ: integers by size, integers before
/// symbols, symbols by their characters; and a beginning stands before the whole.
pub proof fn keys_are_ordered_by_values(
    common: Seq<ValueView>,
    x: ValueView,
    y: ValueView,
    a: Seq<ValueView>,
    b: Seq<ValueView>,
)
    ensures
        x != y ==> (order::key_before(common + seq![x] + a, common + seq![y] + b) <==> match (x, y) {
            (ValueView::Integer(i), ValueView::Integer(j)) => i < j,
            (ValueView::Integer(_), ValueView::Symbol(_)) => true,
            (ValueView::Symbol(_), ValueView::Integer(_)) => false,
            (ValueView::Symbol(s), ValueView::Symbol(t)) => text::before(s, t),
        }),
        order::key_before(common, common + seq![x] + a),
        !order::key_before(common + seq![x] + a, common),
    decreases common.len(),
{
    let left = common + seq![x] + a;
    let right = common + seq![y] + b;
    if common.len() > 0 {
        let rest = common.drop_first();
        keys_are_ordered_by_values(rest, x, y, a, b);
        assert(left.drop_first() =~= rest + seq![x] + a);
        assert(right.drop_first() =~= rest + seq![y] + b);
        assert(left[0] == common[0] && right[0] == common[0]);
    } else {
        assert(left[0] == x && right[0] == y);
    }
}

/// The facts that fit a pattern are all that have its length and its values, in their order.
pub proof fn fitting_facts_keep_their_order(
    facts: Seq<FactView>,
    pattern: Seq<Option<ValueView>>,
)
    ensures
        engine::fitting(facts, pattern) == facts.filter(
            |fact: FactView|
                fact.key.len() == pattern.len() && forall|i: int|
                    0 <= i < pattern.len() && (#[trigger] pattern[i]) is Some ==> fact.key[i]
                        == pattern[i]->0,
        ),
    decreases facts.len(),
{
    let fit = |fact: FactView|
        fact.key.len() == pattern.len() && forall|i: int|
            0 <= i < pattern.len() && (#[trigger] pattern[i]) is Some ==> fact.key[i]
                == pattern[i]->0;
    reveal(Seq::filter);
    if facts.len() > 0 {
        fitting_facts_keep_their_order(facts.drop_last(), pattern);
        let last = facts.last();
        assert(engine::fits(last.key, pattern) <==> fit(last)) by {
            if fit(last) {
                assert forall|i: int| 0 <= i < last.key.len() implies ((
                #[trigger] pattern[i]) matches Some(value) ==> last.key[i] == value) by {}
            }
            if engine::fits(last.key, pattern) {
                assert forall|i: int|
                    0 <= i < pattern.len() && (#[trigger] pattern[i]) is Some implies last.key[i]
                    == pattern[i]->0 by {}
            }
        }
    }
}

/// What is known keeps its place: a new name stands behind the others, and one that is known does not
/// come again.
pub proof fn names_keep_their_places(
    names: Seq<Seq<char>>,
    more: Seq<Seq<char>>,
    name: Seq<char>,
)
    ensures
        names.contains(name) ==> engine::interned(names, name) == names,
        !names.contains(name) ==> engine::interned(names, name) == names + seq![name],
        engine::joined(names, seq![]) == names,
        engine::joined(names, more.push(name)) == engine::interned(
            engine::joined(names, more),
            name,
        ),
{
    assert(more.push(name).drop_last() =~= more);
    assert(names.push(name) =~= names + seq![name]);
}

/// An observation remembers its episode, at its time, whatever the extractor finds in it, and counts
/// each candidate that was found once.
pub proof fn observation_remembers_its_episode<X: Extractor>(
    memory: AgentMemory<X>,
    episode: EpisodeView,
    after: AgentMemory<X>,
    report: ReportView,
)
    requires
        memory.observes(episode, after, report),
    ensures
        after@.episodes == memory@.episodes.push(episode),
        after@.escalations == memory@.escalations + report.escalations,
        after@.counter == memory@.counter + 1,
        after@.engine.now == episode.ts,
        after@.rules == memory@.rules,
        exists|candidates: Seq<CandidateView>| #[trigger]
            memory.source().can_find(episode, candidates, after.source().reader())
                && candidates.len() == report.added + report.updated + report.noop,
{
    let candidates = choose|candidates: Seq<CandidateView>|
        {
            &&& #[trigger] memory.source().can_find(
                episode,
                candidates,
                after.source().reader(),
            )
            &&& (after@, report) == memory@.observed(episode, None, candidates, seq![])
        };
    observation_laws::observation_is_remembered(memory@, episode, None, candidates, seq![]);
}

/// To suppose an episode changes no fact and remembers nothing; what is supposed is each candidate that
/// the extractor finds in it, from now on.
pub proof fn supposition_remembers_nothing<X: Extractor>(
    memory: AgentMemory<X>,
    episode: EpisodeView,
    after: AgentMemory<X>,
    keys: Seq<Seq<ValueView>>,
)
    requires
        memory.supposes(episode, after, keys),
    ensures
        after@.engine.facts == memory@.engine.facts,
        after@.engine.now == memory@.engine.now,
        after@.episodes == memory@.episodes,
        after@.escalations == memory@.escalations,
        after@.counter == memory@.counter,
        after@.suppositions == memory@.suppositions + 1,
        exists|candidates: Seq<CandidateView>|
            {
                &&& #[trigger] memory.source().can_find(
                    episode,
                    candidates,
                    after.source().reader(),
                )
                &&& candidates.len() == keys.len()
                &&& forall|i: int|
                    0 <= i < keys.len() ==> #[trigger] keys[i] == policy_laws::new_key(
                        None,
                        candidates[i],
                        memory@.engine.now,
                    )
            },
{
    let candidates = choose|candidates: Seq<CandidateView>|
        {
            &&& #[trigger] memory.source().can_find(
                episode,
                candidates,
                after.source().reader(),
            )
            &&& after@ == MemoryView {
                engine: agent::all_prepared(memory@.engine, candidates),
                suppositions: memory@.suppositions + 1,
                ..memory@
            }
            &&& keys == agent::supposed_keys(candidates, memory@.engine.now)
        };
    query_laws::supposition_asserts_nothing(memory@.engine, candidates);
    assert forall|i: int| 0 <= i < keys.len() implies #[trigger] keys[i] == policy_laws::new_key(
        None,
        candidates[i],
        memory@.engine.now,
    ) by {
        assert(update::open_key(None, candidates[i], memory@.engine.now) =~= policy_laws::new_key(
            None,
            candidates[i],
            memory@.engine.now,
        ));
    }
}

/// A name that is not known is no symbol of the store, so nothing that is said of symbols is relevant
/// to it.
pub proof fn unknown_names_are_no_symbols(names: Seq<Seq<char>>, name: Seq<char>)
    ensures
        names.contains(name) ==> context::looked_up(names, name) == ValueView::Symbol(name),
        !names.contains(name) ==> context::looked_up(names, name) is Integer,
{
}

/// A batch states its facts, each of them, beside those that were there; and the rules of the store are
/// those of the whole text.
pub proof fn batch_states_each_of_its_facts(
    memory: MemoryView,
    source: Seq<char>,
    pred: Seq<char>,
    key: Seq<ValueView>,
)
    ensures
        ({
            let after = memory.with_batch(source);
            &&& update_laws::has_fact(after.engine.facts, pred, key) <==> update_laws::has_fact(
                memory.engine.facts,
                pred,
                key,
            ) || exists|i: int|
                0 <= i < agent::clauses_of(source).len() && states(
                    #[trigger] agent::clauses_of(source)[i],
                    pred,
                    key,
                )
            &&& after.engine.rules == agent::clauses_of(after.rules)
        }),
{
    let batch = BatchView { id: batches::batch_id(memory.installed + 1), source };
    program_states_each_of_its_facts(
        memory.with_program(
            batches::program_text(memory.base, memory.batches.push(batch)),
        ).engine,
        agent::clauses_of(source),
        pred,
        key,
    );
}

/// A new memory holds that `works_at` is exclusive, and the facts that its program states, and no
/// others.
pub proof fn new_memory_holds_its_program(
    rules: Seq<char>,
    pred: Seq<char>,
    key: Seq<ValueView>,
)
    ensures
        update_laws::has_fact(MemoryView::fresh(rules).engine.facts, pred, key) <==> pred
            == "exclusive"@ && key == seq![ValueView::Symbol("works_at"@)] || exists|i: int|
            0 <= i < agent::clauses_of(rules).len() && states(
                #[trigger] agent::clauses_of(rules)[i],
                pred,
                key,
            ),
        MemoryView::fresh(rules).engine.rules == agent::clauses_of(rules),
        MemoryView::fresh(rules).engine.now == 0,
{
    let clauses = agent::clauses_of(rules);
    let blank = agent::blank_store(clauses);
    let own = seq![ValueView::Symbol("works_at"@)];
    let begun = blank.with_name("works_at"@).with_fact("exclusive"@, own, agent::program_ann());
    update_laws::declare_adds_one(
        blank.facts,
        "exclusive"@,
        own,
        agent::program_ann(),
        pred,
        key,
    );
    assert(!update_laws::has_fact(blank.facts, pred, key));
    program_states_each_of_its_facts(begun, clauses, pred, key);
}

/// An episode that is supposed has a number of its own, the text, the present time and no speaker.
pub proof fn supposed_episodes_are_numbered(memory: MemoryView, content: Seq<char>)
    requires
        0 <= memory.suppositions,
    ensures
        memory.supposed_episode(content) == (EpisodeView {
            id: seq!['h', 'y', 'p'] + number::decimal((memory.suppositions + 1) as nat),
            text: content,
            ts: memory.engine.now,
            speaker: None,
        }),
{
    reveal_strlit("hyp");
    assert("hyp"@ =~= seq!['h', 'y', 'p']);
}

} // verus!
