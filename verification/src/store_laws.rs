//! What every operation on the store keeps.

use vstd::prelude::*;

use crate::agent;
use crate::clause::RuleView;
use crate::engine;
use crate::engine::{AnnView, EngineView, FactView};
use crate::number;
use crate::persistence;
use crate::protocol;
use crate::protocol::{CandidateView, DEFAULT_CONFIDENCE};
use crate::snapshot;
use crate::snapshot::{RecordView, ValueView};
use crate::sorted;
use crate::text;
use crate::update;

verus! {

/// Whether no two facts have the same predicate and key.
pub open spec fn unique(facts: Seq<FactView>) -> bool {
    forall|i: int, j: int|
        0 <= i < j < facts.len() ==> !engine::is_fact(
            #[trigger] facts[i],
            (#[trigger] facts[j]).pred,
            facts[j].key,
        )
}

/// Whether all of some texts write real numbers.
pub open spec fn all_real(texts: Seq<Seq<char>>) -> bool {
    forall|i: int| 0 <= i < texts.len() ==> number::real_text(#[trigger] texts[i])
}

/// Whether an annotation has a confidence, none twice and each a real number, and its references
/// in order.
pub open spec fn regular_ann(ann: AnnView) -> bool {
    &&& ann.conf.len() > 0
    &&& engine::distinct(ann.conf)
    &&& all_real(ann.conf)
    &&& sorted::ordered(ann.prov)
}

/// Whether a predicate can be written: it holds no tab and no line feed.
pub open spec fn plain(pred: Seq<char>) -> bool {
    !pred.contains('\t') && !pred.contains('\n')
}

/// Whether a fact has a predicate that can be written and a regular annotation.
pub open spec fn regular_fact(fact: FactView) -> bool {
    regular_ann(fact.ann) && plain(fact.pred)
}

/// Whether each fact is there once, and is regular.
pub open spec fn regular(facts: Seq<FactView>) -> bool {
    &&& unique(facts)
    &&& forall|i: int| 0 <= i < facts.len() ==> regular_fact(#[trigger] facts[i])
}

/// The annotation of one assertion is regular.
pub proof fn base_is_regular(confidence: Seq<char>, provenance: Seq<Seq<char>>)
    requires
        number::real_text(confidence),
    ensures
        regular_ann(AnnView::base(confidence, provenance)),
{
    sorted::lemma_placed_all(seq![], provenance);
}

proof fn lemma_joined(list: Seq<Seq<char>>, more: Seq<Seq<char>>)
    requires
        engine::distinct(list),
        all_real(list),
        all_real(more),
    ensures
        engine::distinct(engine::joined(list, more)),
        all_real(engine::joined(list, more)),
        list.len() <= engine::joined(list, more).len(),
    decreases more.len(),
{
    if more.len() > 0 {
        let fewer = more.drop_last();
        assert forall|i: int| 0 <= i < fewer.len() implies number::real_text(
            #[trigger] fewer[i],
        ) by {
            assert(fewer[i] == more[i]);
        }
        assert(number::real_text(more[more.len() - 1]));
        lemma_joined(list, fewer);
    }
}

/// Regular annotations merge to a regular one.
pub proof fn merged_is_regular(a: AnnView, b: AnnView)
    requires
        regular_ann(a),
        regular_ann(b),
    ensures
        regular_ann(a.merged(b)),
{
    lemma_joined(a.conf, b.conf);
    sorted::lemma_placed_all(a.prov, b.prov);
}

/// An assertion keeps the store regular.
pub proof fn declare_keeps_regular(
    facts: Seq<FactView>,
    pred: Seq<char>,
    key: Seq<ValueView>,
    ann: AnnView,
)
    requires
        regular(facts),
        regular_ann(ann),
        plain(pred),
    ensures
        regular(engine::declared(facts, pred, key, ann)),
{
    let after = engine::declared(facts, pred, key, ann);
    engine::lemma_place_of(facts, pred, key);
    match engine::place_of(facts, pred, key) {
        Some(i) => {
            assert(regular_fact(facts[i]));
            merged_is_regular(facts[i].ann, ann);
            assert forall|j: int, k: int| 0 <= j < k < after.len() implies !engine::is_fact(
                #[trigger] after[j],
                (#[trigger] after[k]).pred,
                after[k].key,
            ) by {
                assert(!engine::is_fact(facts[j], facts[k].pred, facts[k].key));
            }
            assert forall|j: int| 0 <= j < after.len() implies regular_fact(
                #[trigger] after[j],
            ) by {
                assert(regular_fact(facts[j]));
            }
        },
        None => {
            assert forall|j: int, k: int| 0 <= j < k < after.len() implies !engine::is_fact(
                #[trigger] after[j],
                (#[trigger] after[k]).pred,
                after[k].key,
            ) by {
                assert(after[j] == facts[j]);
                if k < facts.len() {
                    assert(!engine::is_fact(facts[j], facts[k].pred, facts[k].key));
                } else {
                    assert(!engine::is_fact(facts[j], pred, key));
                }
            }
            assert forall|j: int| 0 <= j < after.len() implies regular_fact(
                #[trigger] after[j],
            ) by {
                if j < facts.len() {
                    assert(regular_fact(facts[j]));
                }
            }
        },
    }
}

/// Taking a fact back keeps the store regular.
pub proof fn retract_keeps_regular(facts: Seq<FactView>, pred: Seq<char>, key: Seq<ValueView>)
    requires
        regular(facts),
    ensures
        regular(engine::retracted(facts, pred, key)),
{
    engine::lemma_place_of(facts, pred, key);
    if let Some(i) = engine::place_of(facts, pred, key) {
        let after = facts.remove(i);
        assert forall|j: int, k: int| 0 <= j < k < after.len() implies !engine::is_fact(
            #[trigger] after[j],
            (#[trigger] after[k]).pred,
            after[k].key,
        ) by {
            let a = if j < i {
                j
            } else {
                j + 1
            };
            let b = if k < i {
                k
            } else {
                k + 1
            };
            assert(!engine::is_fact(facts[a], facts[b].pred, facts[b].key));
        }
        assert forall|j: int| 0 <= j < after.len() implies regular_fact(#[trigger] after[j]) by {
            let a = if j < i {
                j
            } else {
                j + 1
            };
            assert(regular_fact(facts[a]));
        }
    }
}

/// The confidence of a fact that gives none is a real number.
pub proof fn default_is_real()
    ensures
        number::real_text(DEFAULT_CONFIDENCE@),
        number::real_text("1"@),
{
    reveal_strlit("0.9");
    reveal_strlit("1");
    reveal_with_fuel(number::exponent_mark, 4);
    reveal_with_fuel(text::first_char_from, 4);
}

/// The relations of facts have names that can be written.
pub proof fn relations_are_plain(scope: Option<Seq<char>>)
    ensures
        plain(update::relation_name(scope)),
        plain("edge"@),
        plain("exclusive"@),
{
    reveal_strlit("edge");
    reveal_strlit("scoped_edge");
    reveal_strlit("exclusive");
}

pub proof fn lemma_closed_regular(
    store: EngineView,
    relation: Seq<char>,
    open: Seq<FactView>,
    skip: int,
)
    requires
        regular(store.facts),
        plain(relation),
    ensures
        regular(update::with_closed(store, relation, open, skip).facts),
        update::with_closed(store, relation, open, skip).now == store.now,
    decreases open.len(),
{
    if open.len() > 0 {
        lemma_closed_regular(store, relation, open.drop_last(), skip);
        let before = update::with_closed(store, relation, open.drop_last(), skip);
        let key = open.last().key;
        retract_keeps_regular(before.facts, relation, key);
        default_is_real();
        base_is_regular(DEFAULT_CONFIDENCE@, seq!["superseded"@]);
        declare_keeps_regular(
            before.without_fact(relation, key).facts,
            relation,
            update::closed_key(key, skip, store.now),
            update::superseded(),
        );
    }
}

/// Observing a candidate keeps the store regular, and changes neither the time nor the rules.
pub proof fn update_keeps_regular(
    store: EngineView,
    scope: Option<Seq<char>>,
    candidate: CandidateView,
    episode: Seq<char>,
    provenance: Seq<Seq<char>>,
)
    requires
        regular(store.facts),
        number::real_text(candidate.confidence),
    ensures
        ({
            let after = update::updated(store, scope, candidate, episode, provenance).0;
            regular(after.facts) && after.now == store.now
        }),
{
    let relation = update::relation_name(scope);
    let skip = update::prefix(scope).len() as int;
    let ready = update::prepared(store, scope, candidate);
    let open = update::rivals(ready, scope, candidate);
    let ann = update::assertion(candidate, episode, provenance);
    let key = update::open_key(scope, candidate, store.now);
    relations_are_plain(scope);
    base_is_regular(candidate.confidence, update::supports(episode, provenance));
    declare_keeps_regular(ready.facts, relation, key, ann);
    if update::same_object(open, skip, candidate.obj) is Some {
        let same = open[update::same_object(open, skip, candidate.obj)->0];
        declare_keeps_regular(ready.facts, relation, same.key, ann);
    }
    lemma_closed_regular(ready, relation, open, skip);
    declare_keeps_regular(
        update::with_closed(ready, relation, open, skip).facts,
        relation,
        key,
        ann,
    );
}

/// Observing candidates keeps the store regular, and changes neither the time nor the rules.
pub proof fn observation_keeps_regular(
    store: EngineView,
    scope: Option<Seq<char>>,
    candidates: Seq<CandidateView>,
    episode: Seq<char>,
    provenance: Seq<Seq<char>>,
)
    requires
        regular(store.facts),
        protocol::all_rated(candidates),
    ensures
        ({
            let after = agent::all_updated(store, scope, candidates, episode, provenance).0;
            regular(after.facts) && after.now == store.now
        }),
    decreases candidates.len(),
{
    if candidates.len() > 0 {
        protocol::lemma_rated(candidates);
        observation_keeps_regular(store, scope, candidates.drop_last(), episode, provenance);
        update_keeps_regular(
            agent::all_updated(store, scope, candidates.drop_last(), episode, provenance).0,
            scope,
            candidates.last(),
            episode,
            provenance,
        );
    }
}

/// The store that a memory begins with is regular.
pub proof fn first_store_is_regular(clauses: Seq<RuleView>)
    requires
        agent::stated_plainly(clauses),
    ensures
        regular(agent::first_store(clauses).facts),
{
    let none = agent::blank_store(clauses);
    let key = seq![ValueView::Symbol("works_at"@)];
    default_is_real();
    relations_are_plain(None);
    base_is_regular("1"@, seq![]);
    declare_keeps_regular(none.facts, "exclusive"@, key, agent::program_ann());
    lemma_clauses_regular(
        none.with_name("works_at"@).with_fact("exclusive"@, key, agent::program_ann()),
        clauses,
    );
}

proof fn lemma_clauses_regular(store: EngineView, clauses: Seq<RuleView>)
    requires
        regular(store.facts),
        agent::stated_plainly(clauses),
    ensures
        regular(agent::with_clauses(store, clauses).facts),
    decreases clauses.len(),
{
    if clauses.len() > 0 {
        let fewer = clauses.drop_last();
        let clause = clauses.last();
        assert(plain(clauses[clauses.len() - 1].head.pred));
        assert forall|i: int| 0 <= i < fewer.len() implies plain(
            (#[trigger] fewer[i]).head.pred,
        ) by {
            assert(fewer[i] == clauses[i]);
        }
        lemma_clauses_regular(store, fewer);
        let before = agent::with_clauses(store, fewer);
        lemma_symbols(before, agent::ground_key(clause.head));
        default_is_real();
        base_is_regular("1"@, seq![]);
        declare_keeps_regular(
            before.facts,
            clause.head.pred,
            agent::ground_key(clause.head),
            agent::program_ann(),
        );
    }
}

/// Taking a record keeps the store regular.
pub proof fn record_keeps_regular(memory: agent::MemoryView, record: RecordView)
    requires
        regular(memory.engine.facts),
        snapshot::sound_record(record),
    ensures
        persistence::taken(memory, record) matches Some(after) ==> regular(after.engine.facts),
{
    if let RecordView::Fact { predicate, confidence, provenance, arguments } = record {
        lemma_symbols(memory.engine, arguments);
        base_is_regular(confidence, provenance);
        declare_keeps_regular(
            memory.engine.facts,
            predicate,
            arguments,
            AnnView::base(confidence, provenance),
        );
    }
}

/// Interning symbols leaves the facts, the time and the rules as they are.
pub proof fn lemma_symbols(store: EngineView, values: Seq<ValueView>)
    ensures
        persistence::with_symbols(store, values).facts == store.facts,
        persistence::with_symbols(store, values).now == store.now,
        persistence::with_symbols(store, values).rules == store.rules,
    decreases values.len(),
{
    if values.len() > 0 {
        lemma_symbols(store, values.drop_last());
    }
}

/// Restricting the store to scopes keeps it regular.
pub proof fn restriction_keeps_regular(facts: Seq<FactView>, scopes: Seq<Seq<char>>)
    requires
        regular(facts),
    ensures
        regular(engine::in_scopes(facts, scopes)),
    decreases facts.len(),
{
    if facts.len() > 0 {
        let fewer = facts.drop_last();
        lemma_fewer_regular(facts);
        restriction_keeps_regular(fewer, scopes);
        assert forall|k: int| 0 <= k < engine::in_scopes(fewer, scopes).len() implies !engine::is_fact(
            #[trigger] engine::in_scopes(fewer, scopes)[k],
            facts.last().pred,
            facts.last().key,
        ) by {
            let kept = engine::in_scopes(fewer, scopes)[k];
            restriction_keeps_selected_scopes(fewer, scopes, kept);
            assert(engine::in_scopes(fewer, scopes).contains(kept));
            let j = choose|j: int| 0 <= j < fewer.len() && fewer[j] == kept;
            let last = facts.len() - 1;
            assert(!engine::is_fact(facts[j], facts[last].pred, facts[last].key));
        }
        assert(regular_fact(facts[facts.len() - 1]));
    }
}

/// Removing the facts without a scope keeps the store regular.
pub proof fn removal_keeps_regular(facts: Seq<FactView>)
    requires
        regular(facts),
    ensures
        regular(engine::without_unscoped(facts)),
    decreases facts.len(),
{
    if facts.len() > 0 {
        let fewer = facts.drop_last();
        lemma_fewer_regular(facts);
        removal_keeps_regular(fewer);
        assert forall|k: int| 0 <= k < engine::without_unscoped(fewer).len() implies !engine::is_fact(
            #[trigger] engine::without_unscoped(fewer)[k],
            facts.last().pred,
            facts.last().key,
        ) by {
            let kept = engine::without_unscoped(fewer)[k];
            removal_keeps_scoped_facts(fewer, kept);
            assert(engine::without_unscoped(fewer).contains(kept));
            let j = choose|j: int| 0 <= j < fewer.len() && fewer[j] == kept;
            let last = facts.len() - 1;
            assert(!engine::is_fact(facts[j], facts[last].pred, facts[last].key));
        }
        assert(regular_fact(facts[facts.len() - 1]));
    }
}

/// All but the last of regular facts are regular.
pub proof fn lemma_fewer_regular(facts: Seq<FactView>)
    requires
        regular(facts),
        facts.len() > 0,
    ensures
        regular(facts.drop_last()),
        regular_fact(facts.last()),
{
    let fewer = facts.drop_last();
    assert forall|i: int, j: int| 0 <= i < j < fewer.len() implies !engine::is_fact(
        #[trigger] fewer[i],
        (#[trigger] fewer[j]).pred,
        fewer[j].key,
    ) by {
        assert(!engine::is_fact(facts[i], facts[j].pred, facts[j].key));
    }
    assert forall|i: int| 0 <= i < fewer.len() implies regular_fact(#[trigger] fewer[i]) by {
        assert(regular_fact(facts[i]));
    }
    assert(regular_fact(facts[facts.len() - 1]));
}

/// What is left of a store when it is restricted to scopes: the facts of those scopes and all
/// that have none.
pub proof fn restriction_keeps_selected_scopes(
    facts: Seq<FactView>,
    scopes: Seq<Seq<char>>,
    fact: FactView,
)
    ensures
        engine::in_scopes(facts, scopes).contains(fact) <==> facts.contains(fact)
            && !engine::out_of_scope(fact, scopes),
    decreases facts.len(),
{
    let left = engine::in_scopes(facts, scopes);
    if facts.len() > 0 {
        let fewer = facts.drop_last();
        let rest = engine::in_scopes(fewer, scopes);
        restriction_keeps_selected_scopes(fewer, scopes, fact);
        if left.contains(fact) {
            let i = choose|i: int| 0 <= i < left.len() && left[i] == fact;
            if i < rest.len() {
                assert(rest[i] == fact);
                let k = choose|k: int| 0 <= k < fewer.len() && fewer[k] == fact;
                assert(facts[k] == fact);
            } else {
                assert(facts[facts.len() - 1] == fact);
            }
        }
        if facts.contains(fact) && !engine::out_of_scope(fact, scopes) {
            let k = choose|k: int| 0 <= k < facts.len() && facts[k] == fact;
            if k < fewer.len() {
                assert(fewer[k] == fact);
                let i = choose|i: int| 0 <= i < rest.len() && rest[i] == fact;
                assert(left[i] == fact);
            } else {
                assert(left[left.len() - 1] == fact);
            }
        }
    }
}

/// What is left of a store without the facts that have no scope.
pub proof fn removal_keeps_scoped_facts(facts: Seq<FactView>, fact: FactView)
    ensures
        engine::without_unscoped(facts).contains(fact) <==> facts.contains(fact)
            && !engine::unscoped(fact),
    decreases facts.len(),
{
    let left = engine::without_unscoped(facts);
    if facts.len() > 0 {
        let fewer = facts.drop_last();
        let rest = engine::without_unscoped(fewer);
        removal_keeps_scoped_facts(fewer, fact);
        if left.contains(fact) {
            let i = choose|i: int| 0 <= i < left.len() && left[i] == fact;
            if i < rest.len() {
                assert(rest[i] == fact);
                let k = choose|k: int| 0 <= k < fewer.len() && fewer[k] == fact;
                assert(facts[k] == fact);
            } else {
                assert(facts[facts.len() - 1] == fact);
            }
        }
        if facts.contains(fact) && !engine::unscoped(fact) {
            let k = choose|k: int| 0 <= k < facts.len() && facts[k] == fact;
            if k < fewer.len() {
                assert(fewer[k] == fact);
                let i = choose|i: int| 0 <= i < rest.len() && rest[i] == fact;
                assert(left[i] == fact);
            } else {
                assert(left[left.len() - 1] == fact);
            }
        }
    }
}

} // verus!
