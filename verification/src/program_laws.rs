//! The facts that the program of a memory states stay in its store.

use vstd::prelude::*;

use crate::agent;
use crate::agent::MemoryView;
use crate::clause;
use crate::clause::RuleView;
use crate::engine;
use crate::engine::{AnnView, EngineView, FactView};
use crate::persistence;
use crate::protocol::CandidateView;
use crate::snapshot::{RecordView, ValueView};
use crate::sorted;
use crate::store_laws;
use crate::update;

verus! {

/// The facts that the program of a memory states: those of the default rules and of the rules
/// that were added.
pub open spec fn program_facts(rules: Seq<char>) -> Seq<FactView> {
    agent::first_store(agent::clauses_of(rules)).facts
}

/// Whether facts of a predicate come and go with what is observed.
pub open spec fn moves(pred: Seq<char>) -> bool {
    pred == "edge"@ || pred == "scoped_edge"@
}

/// Whether a fact of a program is among some facts, and the confidence of the program is its
/// first.
pub open spec fn kept(facts: Seq<FactView>, fact: FactView) -> bool {
    exists|i: int|
        0 <= i < facts.len() && engine::is_fact(#[trigger] facts[i], fact.pred, fact.key)
            && facts[i].ann.conf.len() > 0 && facts[i].ann.conf[0] == "1"@
}

/// Whether the facts of a program that do not move are kept.
pub open spec fn keeps(facts: Seq<FactView>, program: Seq<FactView>) -> bool {
    forall|i: int|
        0 <= i < program.len() ==> moves((#[trigger] program[i]).pred) || kept(facts, program[i])
}

/// Joining leaves the first text the first.
proof fn lemma_joined_first(list: Seq<Seq<char>>, more: Seq<Seq<char>>)
    requires
        list.len() > 0,
    ensures
        engine::joined(list, more).len() > 0,
        engine::joined(list, more)[0] == list[0],
    decreases more.len(),
{
    if more.len() > 0 {
        lemma_joined_first(list, more.drop_last());
    }
}

/// An assertion keeps what is kept.
proof fn lemma_declared_kept(
    facts: Seq<FactView>,
    pred: Seq<char>,
    key: Seq<ValueView>,
    ann: AnnView,
    fact: FactView,
)
    requires
        kept(facts, fact),
    ensures
        kept(engine::declared(facts, pred, key, ann), fact),
{
    let after = engine::declared(facts, pred, key, ann);
    let i = choose|i: int|
        0 <= i < facts.len() && engine::is_fact(#[trigger] facts[i], fact.pred, fact.key)
            && facts[i].ann.conf.len() > 0 && facts[i].ann.conf[0] == "1"@;
    engine::lemma_place_of(facts, pred, key);
    if let Some(j) = engine::place_of(facts, pred, key) {
        if i == j {
            lemma_joined_first(facts[i].ann.conf, ann.conf);
        }
    }
    assert(engine::is_fact(after[i], fact.pred, fact.key));
}

/// Taking a fact back that moves keeps what does not.
proof fn lemma_retracted_kept(
    facts: Seq<FactView>,
    pred: Seq<char>,
    key: Seq<ValueView>,
    fact: FactView,
)
    requires
        kept(facts, fact),
        fact.pred != pred,
    ensures
        kept(engine::retracted(facts, pred, key), fact),
{
    let after = engine::retracted(facts, pred, key);
    let i = choose|i: int|
        0 <= i < facts.len() && engine::is_fact(#[trigger] facts[i], fact.pred, fact.key)
            && facts[i].ann.conf.len() > 0 && facts[i].ann.conf[0] == "1"@;
    engine::lemma_place_of(facts, pred, key);
    if let Some(j) = engine::place_of(facts, pred, key) {
        let k = if i < j {
            i
        } else {
            i - 1
        };
        assert(after[k] == facts[i]);
        assert(engine::is_fact(after[k], fact.pred, fact.key));
    } else {
        assert(engine::is_fact(after[i], fact.pred, fact.key));
    }
}

proof fn lemma_closed_kept(
    store: EngineView,
    relation: Seq<char>,
    open: Seq<FactView>,
    skip: int,
    fact: FactView,
)
    requires
        kept(store.facts, fact),
        fact.pred != relation,
    ensures
        kept(update::with_closed(store, relation, open, skip).facts, fact),
    decreases open.len(),
{
    if open.len() > 0 {
        lemma_closed_kept(store, relation, open.drop_last(), skip, fact);
        let before = update::with_closed(store, relation, open.drop_last(), skip);
        let key = open.last().key;
        lemma_retracted_kept(before.facts, relation, key, fact);
        lemma_declared_kept(
            before.without_fact(relation, key).facts,
            relation,
            update::closed_key(key, skip, store.now),
            update::superseded(),
            fact,
        );
    }
}

/// An update keeps the facts of a program.
proof fn lemma_updated_kept(
    store: EngineView,
    scope: Option<Seq<char>>,
    candidate: CandidateView,
    episode: Seq<char>,
    provenance: Seq<Seq<char>>,
    fact: FactView,
)
    requires
        kept(store.facts, fact),
        !moves(fact.pred),
    ensures
        kept(update::updated(store, scope, candidate, episode, provenance).0.facts, fact),
{
    let relation = update::relation_name(scope);
    let skip = update::prefix(scope).len() as int;
    let ready = update::prepared(store, scope, candidate);
    let open = update::rivals(ready, scope, candidate);
    let ann = update::assertion(candidate, episode, provenance);
    let key = update::open_key(scope, candidate, store.now);
    let closed = update::with_closed(ready, relation, open, skip);
    assert(ready.facts == store.facts);
    lemma_declared_kept(ready.facts, relation, key, ann, fact);
    lemma_closed_kept(ready, relation, open, skip, fact);
    lemma_declared_kept(closed.facts, relation, key, ann, fact);
    if let Some(i) = update::same_object(open, skip, candidate.obj) {
        lemma_declared_kept(ready.facts, relation, open[i].key, ann, fact);
    }
}

proof fn lemma_all_updated_kept(
    store: EngineView,
    scope: Option<Seq<char>>,
    candidates: Seq<CandidateView>,
    episode: Seq<char>,
    provenance: Seq<Seq<char>>,
    fact: FactView,
)
    requires
        kept(store.facts, fact),
        !moves(fact.pred),
    ensures
        kept(agent::all_updated(store, scope, candidates, episode, provenance).0.facts, fact),
    decreases candidates.len(),
{
    if candidates.len() > 0 {
        let fewer = candidates.drop_last();
        lemma_all_updated_kept(store, scope, fewer, episode, provenance, fact);
        lemma_updated_kept(
            agent::all_updated(store, scope, fewer, episode, provenance).0,
            scope,
            candidates.last(),
            episode,
            provenance,
            fact,
        );
    }
}

proof fn lemma_closed_rules(
    store: EngineView,
    relation: Seq<char>,
    open: Seq<FactView>,
    skip: int,
)
    ensures
        update::with_closed(store, relation, open, skip).rules == store.rules,
    decreases open.len(),
{
    if open.len() > 0 {
        lemma_closed_rules(store, relation, open.drop_last(), skip);
    }
}

proof fn lemma_updated_rules(
    store: EngineView,
    scope: Option<Seq<char>>,
    candidates: Seq<CandidateView>,
    episode: Seq<char>,
    provenance: Seq<Seq<char>>,
)
    ensures
        agent::all_updated(store, scope, candidates, episode, provenance).0.rules == store.rules,
    decreases candidates.len(),
{
    if candidates.len() > 0 {
        let fewer = candidates.drop_last();
        lemma_updated_rules(store, scope, fewer, episode, provenance);
        let before = agent::all_updated(store, scope, fewer, episode, provenance).0;
        let ready = update::prepared(before, scope, candidates.last());
        lemma_closed_rules(
            ready,
            update::relation_name(scope),
            update::rivals(ready, scope, candidates.last()),
            update::prefix(scope).len() as int,
        );
    }
}

/// Observing candidates keeps the facts and the rules of the program.
pub proof fn observation_keeps_program(
    store: EngineView,
    scope: Option<Seq<char>>,
    candidates: Seq<CandidateView>,
    episode: Seq<char>,
    provenance: Seq<Seq<char>>,
    program: Seq<FactView>,
)
    ensures
        keeps(store.facts, program) ==> keeps(
            agent::all_updated(store, scope, candidates, episode, provenance).0.facts,
            program,
        ),
        agent::all_updated(store, scope, candidates, episode, provenance).0.rules == store.rules,
{
    lemma_updated_rules(store, scope, candidates, episode, provenance);
    let after = agent::all_updated(store, scope, candidates, episode, provenance).0;
    if keeps(store.facts, program) {
        assert forall|i: int| 0 <= i < program.len() implies moves((#[trigger] program[i]).pred)
            || kept(after.facts, program[i]) by {
            if !moves(program[i].pred) {
                lemma_all_updated_kept(store, scope, candidates, episode, provenance, program[i]);
            }
        }
    }
}

/// Asserting a fact keeps the facts of the program.
pub proof fn declaration_keeps_program(
    facts: Seq<FactView>,
    pred: Seq<char>,
    key: Seq<ValueView>,
    ann: AnnView,
    program: Seq<FactView>,
)
    requires
        keeps(facts, program),
    ensures
        keeps(engine::declared(facts, pred, key, ann), program),
{
    assert forall|i: int| 0 <= i < program.len() implies moves((#[trigger] program[i]).pred)
        || kept(engine::declared(facts, pred, key, ann), program[i]) by {
        if !moves(program[i].pred) {
            lemma_declared_kept(facts, pred, key, ann, program[i]);
        }
    }
}

/// A list with one more fact keeps what the list kept.
proof fn lemma_push_kept(facts: Seq<FactView>, last: FactView, fact: FactView)
    requires
        kept(facts, fact),
    ensures
        kept(facts.push(last), fact),
{
    let i = choose|i: int|
        0 <= i < facts.len() && engine::is_fact(#[trigger] facts[i], fact.pred, fact.key)
            && facts[i].ann.conf.len() > 0 && facts[i].ann.conf[0] == "1"@;
    assert(facts.push(last)[i] == facts[i]);
}

/// What is kept by a list is kept without the last fact, or is the last.
proof fn lemma_kept_last(facts: Seq<FactView>, fact: FactView)
    requires
        kept(facts, fact),
        facts.len() > 0,
    ensures
        kept(facts.drop_last(), fact) || (engine::is_fact(facts.last(), fact.pred, fact.key)
            && facts.last().ann.conf.len() > 0 && facts.last().ann.conf[0] == "1"@),
{
    let i = choose|i: int|
        0 <= i < facts.len() && engine::is_fact(#[trigger] facts[i], fact.pred, fact.key)
            && facts[i].ann.conf.len() > 0 && facts[i].ann.conf[0] == "1"@;
    if i < facts.len() - 1 {
        assert(facts.drop_last()[i] == facts[i]);
    }
}

proof fn lemma_in_scopes_kept(facts: Seq<FactView>, scopes: Seq<Seq<char>>, fact: FactView)
    requires
        kept(facts, fact),
        !moves(fact.pred),
    ensures
        kept(engine::in_scopes(facts, scopes), fact),
    decreases facts.len(),
{
    if facts.len() > 0 {
        let rest = engine::in_scopes(facts.drop_last(), scopes);
        lemma_kept_last(facts, fact);
        if kept(facts.drop_last(), fact) {
            lemma_in_scopes_kept(facts.drop_last(), scopes, fact);
            lemma_push_kept(rest, facts.last(), fact);
        } else {
            assert(!engine::out_of_scope(facts.last(), scopes));
            assert(rest.push(facts.last())[rest.len() as int] == facts.last());
        }
    }
}

proof fn lemma_without_unscoped_kept(facts: Seq<FactView>, fact: FactView)
    requires
        kept(facts, fact),
        !moves(fact.pred),
    ensures
        kept(engine::without_unscoped(facts), fact),
    decreases facts.len(),
{
    if facts.len() > 0 {
        let rest = engine::without_unscoped(facts.drop_last());
        lemma_kept_last(facts, fact);
        if kept(facts.drop_last(), fact) {
            lemma_without_unscoped_kept(facts.drop_last(), fact);
            lemma_push_kept(rest, facts.last(), fact);
        } else {
            assert(!engine::unscoped(facts.last()));
            assert(rest.push(facts.last())[rest.len() as int] == facts.last());
        }
    }
}

/// Restricting a store to scopes, and taking the facts without one, keeps the facts of the program.
pub proof fn restriction_keeps_program(
    facts: Seq<FactView>,
    scopes: Seq<Seq<char>>,
    program: Seq<FactView>,
)
    requires
        keeps(facts, program),
    ensures
        keeps(engine::in_scopes(facts, scopes), program),
        keeps(engine::without_unscoped(facts), program),
{
    assert forall|i: int| 0 <= i < program.len() implies moves((#[trigger] program[i]).pred) || (
    kept(engine::in_scopes(facts, scopes), program[i]) && kept(
        engine::without_unscoped(facts),
        program[i],
    )) by {
        if !moves(program[i].pred) {
            lemma_in_scopes_kept(facts, scopes, program[i]);
            lemma_without_unscoped_kept(facts, program[i]);
        }
    }
}

/// A record of a snapshot keeps the facts of the program.
pub proof fn record_keeps_program(memory: MemoryView, record: RecordView)
    requires
        keeps(memory.engine.facts, program_facts(memory.rules)),
    ensures
        persistence::taken(memory, record) matches Some(after) ==> keeps(
            after.engine.facts,
            program_facts(after.rules),
        ) && after.engine.rules == memory.engine.rules && after.rules == memory.rules,
{
    if let RecordView::Fact { predicate, confidence, provenance, arguments } = record {
        store_laws::lemma_symbols(memory.engine, arguments);
        declaration_keeps_program(
            memory.engine.facts,
            predicate,
            arguments,
            AnnView::base(confidence, provenance),
            program_facts(memory.rules),
        );
    }
}

proof fn lemma_clauses_annotated(store: EngineView, clauses: Seq<RuleView>)
    requires
        forall|i: int|
            0 <= i < store.facts.len() ==> (#[trigger] store.facts[i]).ann
                == agent::program_ann(),
    ensures
        forall|i: int|
            0 <= i < agent::with_clauses(store, clauses).facts.len() ==> (
            #[trigger] agent::with_clauses(store, clauses).facts[i]).ann == agent::program_ann(),
        agent::with_clauses(store, clauses).rules == store.rules,
    decreases clauses.len(),
{
    if clauses.len() > 0 {
        let fewer = clauses.drop_last();
        let before = agent::with_clauses(store, fewer);
        let after = agent::with_clauses(store, clauses);
        let clause = clauses.last();
        lemma_clauses_annotated(store, fewer);
        if clause.is_fact() {
            let key = agent::ground_key(clause.head);
            let ann = agent::program_ann();
            store_laws::lemma_symbols(before, key);
            engine::lemma_place_of(before.facts, clause.head.pred, key);
            assert(ann.merged(ann) == ann) by {
                reveal_with_fuel(engine::joined, 2);
                reveal_with_fuel(sorted::placed_all, 2);
                assert(ann.conf.drop_last() =~= seq![]);
                assert(ann.conf.contains(ann.conf[0]));
                assert(ann.conf.last() == ann.conf[0]);
            }
            assert forall|i: int| 0 <= i < after.facts.len() implies (
            #[trigger] after.facts[i]).ann == ann by {
                if i < before.facts.len() {
                    assert(before.facts[i].ann == ann);
                }
            }
        }
    }
}

/// The facts that a program states have its confidence and no references, and the program keeps
/// them.
pub proof fn program_facts_are_certain(rules: Seq<char>)
    ensures
        forall|i: int|
            0 <= i < program_facts(rules).len() ==> (#[trigger] program_facts(rules)[i]).ann
                == agent::program_ann(),
        keeps(program_facts(rules), program_facts(rules)),
        store_laws::regular(program_facts(rules)),
        agent::first_store(agent::clauses_of(rules)).rules == agent::clauses_of(rules),
{
    let none = agent::blank_store(agent::clauses_of(rules));
    let key = seq![ValueView::Symbol("works_at"@)];
    let program = program_facts(rules);
    engine::lemma_place_of(none.facts, "exclusive"@, key);
    lemma_clauses_annotated(
        none.with_name("works_at"@).with_fact("exclusive"@, key, agent::program_ann()),
        agent::clauses_of(rules),
    );
    assert forall|i: int| 0 <= i < program.len() implies moves((#[trigger] program[i]).pred)
        || kept(program, program[i]) by {
        assert(engine::is_fact(program[i], program[i].pred, program[i].key));
        assert(program[i].ann.conf[0] == "1"@);
    }
    clause::program_is_plain(rules);
    store_laws::first_store_is_regular(agent::clauses_of(rules));
}

} // verus!
