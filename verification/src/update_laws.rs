//! What holds of every update.

use vstd::prelude::*;

use crate::datalog;
use crate::datalog::RowView;
use crate::defaults;
use crate::engine;
use crate::engine::{AnnView, EngineView, FactView};
use crate::protocol::CandidateView;
use crate::rows;
use crate::snapshot::ValueView;
use crate::store_laws;
use crate::update;
use crate::update::OutcomeView;

verus! {

/// Whether there is a fact with a predicate and a key.
pub open spec fn has_fact(facts: Seq<FactView>, pred: Seq<char>, key: Seq<ValueView>) -> bool {
    exists|i: int| 0 <= i < facts.len() && engine::is_fact(#[trigger] facts[i], pred, key)
}

/// An assertion adds one fact to those that are there, if any.
pub proof fn declare_adds_one(
    facts: Seq<FactView>,
    pred: Seq<char>,
    key: Seq<ValueView>,
    ann: AnnView,
    other_pred: Seq<char>,
    other_key: Seq<ValueView>,
)
    ensures
        has_fact(engine::declared(facts, pred, key, ann), other_pred, other_key) <==> has_fact(
            facts,
            other_pred,
            other_key,
        ) || (other_pred == pred && other_key == key),
{
    let after = engine::declared(facts, pred, key, ann);
    engine::lemma_place_of(facts, pred, key);
    if has_fact(after, other_pred, other_key) {
        let i = choose|i: int|
            0 <= i < after.len() && engine::is_fact(#[trigger] after[i], other_pred, other_key);
        if i < facts.len() {
            assert(engine::is_fact(facts[i], other_pred, other_key));
        }
    }
    if has_fact(facts, other_pred, other_key) {
        let i = choose|i: int|
            0 <= i < facts.len() && engine::is_fact(#[trigger] facts[i], other_pred, other_key);
        assert(engine::is_fact(after[i], other_pred, other_key));
    }
    if other_pred == pred && other_key == key {
        match engine::place_of(facts, pred, key) {
            Some(i) => {
                assert(engine::is_fact(after[i], other_pred, other_key));
            },
            None => {
                assert(engine::is_fact(after[facts.len() as int], other_pred, other_key));
            },
        }
    }
}

/// Taking back removes one fact.
pub proof fn retract_removes_one(
    facts: Seq<FactView>,
    pred: Seq<char>,
    key: Seq<ValueView>,
    other_pred: Seq<char>,
    other_key: Seq<ValueView>,
)
    requires
        store_laws::unique(facts),
    ensures
        has_fact(engine::retracted(facts, pred, key), other_pred, other_key) <==> has_fact(
            facts,
            other_pred,
            other_key,
        ) && !(other_pred == pred && other_key == key),
{
    let after = engine::retracted(facts, pred, key);
    engine::lemma_place_of(facts, pred, key);
    match engine::place_of(facts, pred, key) {
        None => {
            if has_fact(facts, other_pred, other_key) {
                let i = choose|i: int|
                    0 <= i < facts.len() && engine::is_fact(
                        #[trigger] facts[i],
                        other_pred,
                        other_key,
                    );
                assert(!engine::is_fact(facts[i], pred, key));
            }
        },
        Some(at) => {
            if has_fact(after, other_pred, other_key) {
                let i = choose|i: int|
                    0 <= i < after.len() && engine::is_fact(
                        #[trigger] after[i],
                        other_pred,
                        other_key,
                    );
                let k = if i < at {
                    i
                } else {
                    i + 1
                };
                assert(engine::is_fact(facts[k], other_pred, other_key));
                if k < at {
                    assert(!engine::is_fact(facts[k], facts[at].pred, facts[at].key));
                } else {
                    assert(!engine::is_fact(facts[at], facts[k].pred, facts[k].key));
                }
            }
            if has_fact(facts, other_pred, other_key) && !(other_pred == pred && other_key
                == key) {
                let i = choose|i: int|
                    0 <= i < facts.len() && engine::is_fact(
                        #[trigger] facts[i],
                        other_pred,
                        other_key,
                    );
                let k = if i < at {
                    i
                } else {
                    i - 1
                };
                assert(engine::is_fact(after[k], other_pred, other_key));
            }
        },
    }
}

/// An assertion leaves all other facts as they are.
pub proof fn declare_keeps_others(
    facts: Seq<FactView>,
    pred: Seq<char>,
    key: Seq<ValueView>,
    ann: AnnView,
    fact: FactView,
)
    requires
        !engine::is_fact(fact, pred, key),
    ensures
        engine::declared(facts, pred, key, ann).contains(fact) <==> facts.contains(fact),
{
    let after = engine::declared(facts, pred, key, ann);
    engine::lemma_place_of(facts, pred, key);
    if after.contains(fact) {
        let i = choose|i: int| 0 <= i < after.len() && after[i] == fact;
        if i < facts.len() {
            assert(facts[i] == fact);
        }
    }
    if facts.contains(fact) {
        let i = choose|i: int| 0 <= i < facts.len() && facts[i] == fact;
        assert(after[i] == fact);
    }
}

/// Taking back leaves all other facts as they are.
pub proof fn retract_keeps_others(
    facts: Seq<FactView>,
    pred: Seq<char>,
    key: Seq<ValueView>,
    fact: FactView,
)
    requires
        !engine::is_fact(fact, pred, key),
    ensures
        engine::retracted(facts, pred, key).contains(fact) <==> facts.contains(fact),
{
    let after = engine::retracted(facts, pred, key);
    engine::lemma_place_of(facts, pred, key);
    if let Some(at) = engine::place_of(facts, pred, key) {
        if after.contains(fact) {
            let i = choose|i: int| 0 <= i < after.len() && after[i] == fact;
            let k = if i < at {
                i
            } else {
                i + 1
            };
            assert(facts[k] == fact);
        }
        if facts.contains(fact) {
            let i = choose|i: int| 0 <= i < facts.len() && facts[i] == fact;
            let k = if i < at {
                i
            } else {
                i - 1
            };
            assert(after[k] == fact);
        }
    }
}

// ----------------------------------------------------------------- rivals
/// Whether a fact competes with a candidate: it has its scope, subject and relation.
pub open spec fn competes(
    fact: FactView,
    scope: Option<Seq<char>>,
    candidate: CandidateView,
) -> bool {
    fact.pred == update::relation_name(scope) && engine::fits(
        fact.key,
        update::rival_pattern(scope, candidate),
    )
}

proof fn lemma_pattern(scope: Option<Seq<char>>, candidate: CandidateView)
    ensures
        ({
            let pattern = update::rival_pattern(scope, candidate);
            let skip = update::prefix(scope).len() as int;
            &&& pattern.len() == skip + 6
            &&& 0 <= skip <= 1
            &&& pattern[skip] == Some(ValueView::Symbol(candidate.subj))
            &&& pattern[skip + 1] == Some(ValueView::Symbol(candidate.pred))
            &&& pattern[skip + 2] is None
            &&& pattern[skip + 3] is None
            &&& pattern[skip + 4] is None
            &&& pattern[skip + 5] is None
            &&& scope matches Some(name) ==> pattern[0] == Some(ValueView::Symbol(name))
        }),
{
}

/// The key of a candidate competes with the candidate.
proof fn lemma_open_key(scope: Option<Seq<char>>, candidate: CandidateView, now: int)
    ensures
        engine::fits(
            update::open_key(scope, candidate, now),
            update::rival_pattern(scope, candidate),
        ),
        update::open_key(scope, candidate, now)[update::prefix(scope).len() as int + 2]
            == ValueView::Symbol(candidate.obj),
        update::open_key(scope, candidate, now)[update::prefix(scope).len() as int + 4]
            == ValueView::Integer(i64::MAX as int),
{
    lemma_pattern(scope, candidate);
    let key = update::open_key(scope, candidate, now);
    let pattern = update::rival_pattern(scope, candidate);
    let skip = update::prefix(scope).len() as int;
    assert forall|i: int| 0 <= i < key.len() implies ((#[trigger] pattern[i]) matches Some(value)
        ==> key[i] == value) by {
        if i >= skip {
            assert(i == skip || i == skip + 1 || i == skip + 2 || i == skip + 3 || i == skip + 4
                || i == skip + 5);
        }
    }
}

/// The open ones of some rows are those with open keys.
proof fn lemma_open_ones(facts: Seq<FactView>, skip: int, key: Seq<ValueView>)
    ensures
        rows::has_row(update::open_ones(facts, skip), key) <==> rows::has_row(facts, key)
            && key[skip + 4] == ValueView::Integer(i64::MAX as int),
        forall|i: int|
            0 <= i < update::open_ones(facts, skip).len() ==> facts.contains(
                #[trigger] update::open_ones(facts, skip)[i],
            ),
    decreases facts.len(),
{
    let open = update::open_ones(facts, skip);
    if facts.len() > 0 {
        let fewer = facts.drop_last();
        let last = facts.last();
        let rest = update::open_ones(fewer, skip);
        lemma_open_ones(fewer, skip, key);
        if rows::has_row(rest, key) {
            let i = choose|i: int| 0 <= i < rest.len() && (#[trigger] rest[i]).key == key;
            assert(open[i].key == key);
            let k = choose|k: int| 0 <= k < fewer.len() && (#[trigger] fewer[k]).key == key;
            assert(facts[k].key == key);
        }
        if rows::has_row(open, key) {
            let i = choose|i: int| 0 <= i < open.len() && (#[trigger] open[i]).key == key;
            if i < rest.len() {
                assert(rest[i].key == key);
            } else {
                assert(facts[facts.len() - 1].key == key);
            }
        }
        if rows::has_row(facts, key) && key[skip + 4] == ValueView::Integer(i64::MAX as int) {
            let k = choose|k: int| 0 <= k < facts.len() && (#[trigger] facts[k]).key == key;
            if k < fewer.len() {
                assert(fewer[k].key == key);
            } else {
                assert(open[open.len() - 1].key == key);
            }
        }
        assert forall|i: int| 0 <= i < open.len() implies facts.contains(#[trigger] open[i]) by {
            if i < rest.len() {
                assert(open[i] == rest[i]);
                assert(fewer.contains(rest[i]));
                let k = choose|k: int| 0 <= k < fewer.len() && fewer[k] == rest[i];
                assert(facts[k] == open[i]);
            } else {
                assert(facts[facts.len() - 1] == open[i]);
            }
        }
    } else {
        assert(!rows::has_row(open, key));
        assert(!rows::has_row(facts, key));
    }
}

/// Whether a key is that of an open row that competes with a candidate, by a fact or by the rules.
pub open spec fn open_rival(
    store: EngineView,
    scope: Option<Seq<char>>,
    candidate: CandidateView,
    key: Seq<ValueView>,
) -> bool {
    &&& rows::held(store, update::relation_name(scope), key)
    &&& engine::fits(key, update::rival_pattern(scope, candidate))
    &&& key[update::prefix(scope).len() as int + 4] == ValueView::Integer(i64::MAX as int)
}

/// The rivals of a candidate are the open rows that hold and compete with it.
pub proof fn rivals_are_open_and_compete(
    store: EngineView,
    scope: Option<Seq<char>>,
    candidate: CandidateView,
    key: Seq<ValueView>,
)
    ensures
        rows::has_row(update::rivals(store, scope, candidate), key) <==> open_rival(
            store,
            scope,
            candidate,
            key,
        ),
        forall|i: int|
            0 <= i < update::rivals(store, scope, candidate).len() ==> (
            #[trigger] update::rivals(store, scope, candidate)[i]) == rows::held_row(
                store,
                update::relation_name(scope),
                update::rivals(store, scope, candidate)[i].key,
            ),
{
    let relation = update::relation_name(scope);
    let pattern = update::rival_pattern(scope, candidate);
    let skip = update::prefix(scope).len() as int;
    let all = store.rows(relation, pattern);
    let open = update::rivals(store, scope, candidate);
    rows::rows_are_what_holds(store, relation, pattern, key);
    lemma_open_ones(all, skip, key);
    assert forall|i: int| 0 <= i < open.len() implies (#[trigger] open[i]) == rows::held_row(
        store,
        relation,
        open[i].key,
    ) by {
        assert(all.contains(open[i]));
        let k = choose|k: int| 0 <= k < all.len() && all[k] == open[i];
        assert(all[k] == rows::held_row(store, relation, all[k].key));
    }
}

/// Each of the rivals is an open row that competes.
proof fn lemma_rival(
    store: EngineView,
    scope: Option<Seq<char>>,
    candidate: CandidateView,
    i: int,
)
    requires
        0 <= i < update::rivals(store, scope, candidate).len(),
    ensures
        open_rival(store, scope, candidate, update::rivals(store, scope, candidate)[i].key),
        competes(update::rivals(store, scope, candidate)[i], scope, candidate),
{
    let open = update::rivals(store, scope, candidate);
    rivals_are_open_and_compete(store, scope, candidate, open[i].key);
    assert(rows::has_row(open, open[i].key));
}

/// What a fact states holds.
proof fn lemma_stored_holds(store: EngineView, pred: Seq<char>, key: Seq<ValueView>)
    requires
        has_fact(store.facts, pred, key),
    ensures
        rows::held(store, pred, key),
{
    assert(datalog::stated(store, RowView { pred, key }));
}

/// Where no rule gives rows of a relation, what holds in it is what facts state.
proof fn lemma_only_stored(store: EngineView, scope: Option<Seq<char>>, key: Seq<ValueView>)
    requires
        rows::no_head(store.rules, update::relation_name(scope)),
    ensures
        rows::held(store, update::relation_name(scope), key) <==> has_fact(
            store.facts,
            update::relation_name(scope),
            key,
        ),
{
    let relation = update::relation_name(scope);
    let rules = defaults::all_rules(store.rules);
    let row = RowView { pred: relation, key };
    reveal_strlit("edge");
    reveal_strlit("scoped_edge");
    reveal_strlit("current");
    reveal_strlit("scoped_current");
    reveal_strlit("now");
    assert("edge"@.len() == 4 && "scoped_edge"@.len() == 11 && "now"@.len() == 3);
    assert("current"@.len() == 7 && "scoped_current"@.len() == 14);
    assert forall|j: int| 0 <= j < rules.len() implies (#[trigger] rules[j]).head.pred
        != relation by {
        if j >= defaults::default_rules().len() {
            assert(rules[j] == store.rules[j - defaults::default_rules().len()]);
        } else {
            assert(rules[j] == defaults::default_rules()[j]);
        }
    }
    rows::stored_rows_follow(store, rules, row, row);
}

/// To assert a row that holds makes no further row hold, and none less.
proof fn lemma_held_fact_adds_nothing(
    store: EngineView,
    pred: Seq<char>,
    key: Seq<ValueView>,
    ann: AnnView,
    row: RowView,
)
    requires
        rows::held(store, pred, key),
    ensures
        datalog::holds(store.with_fact(pred, key, ann), store.rules, row) <==> datalog::holds(
            store,
            store.rules,
            row,
        ),
{
    let after = store.with_fact(pred, key, ann);
    let rules = defaults::all_rules(store.rules);
    let held = Set::new(|r: RowView| datalog::follows(store, rules, r));
    assert forall|r: RowView| #[trigger] datalog::stated(after, r) <==> datalog::stated(store, r) || r
        == (RowView { pred, key }) by {
        declare_adds_one(store.facts, pred, key, ann, r.pred, r.key);
    }
    assert(datalog::closed_under(after, rules, held)) by {
        assert forall|r: RowView| #[trigger] datalog::stated(after, r) implies held.contains(
            r,
        ) by {
            assert(datalog::stated(after, r) <==> datalog::stated(store, r) || r == (RowView {
                pred,
                key,
            }));
        }
        assert forall|j: int, keys: Seq<Seq<ValueView>>, r: RowView|
            0 <= j < rules.len() && #[trigger] datalog::derives(rules[j], keys, r)
                && datalog::among(held, rules[j].body, keys) implies held.contains(r) by {
            assert forall|i: int| 0 <= i < rules[j].body.len() implies datalog::follows(
                store,
                rules,
                RowView { pred: rules[j].body[i].pred, key: #[trigger] keys[i] },
            ) by {
                assert(held.contains(RowView { pred: rules[j].body[i].pred, key: keys[i] }));
            }
            datalog::rule_gives_its_row(store, rules, j, keys, r);
        }
    }
    if datalog::follows(after, rules, row) {
        assert(held.contains(row));
    }
    if datalog::follows(store, rules, row) {
        assert forall|set: Set<RowView>| #[trigger]
            datalog::closed_under(after, rules, set) implies set.contains(row) by {
            assert forall|r: RowView| #[trigger] datalog::stated(store, r) implies set.contains(
                r,
            ) by {
                assert(datalog::stated(after, r));
            }
            assert(datalog::closed_under(store, rules, set));
        }
    }
}

proof fn lemma_same_object(facts: Seq<FactView>, skip: int, object: Seq<char>)
    ensures
        match update::same_object(facts, skip, object) {
            Some(i) => 0 <= i < facts.len() && facts[i].key[skip + 2] == ValueView::Symbol(object),
            None => forall|i: int|
                0 <= i < facts.len() ==> (#[trigger] facts[i]).key[skip + 2] != ValueView::Symbol(
                    object,
                ),
        },
    decreases facts.len(),
{
    if facts.len() > 0 {
        let fewer = facts.drop_last();
        lemma_same_object(fewer, skip, object);
        if update::same_object(facts, skip, object) is None {
            assert forall|i: int| 0 <= i < facts.len() implies (#[trigger] facts[i]).key[skip + 2]
                != ValueView::Symbol(object) by {
                if i < fewer.len() {
                    assert(fewer[i] == facts[i]);
                }
            }
        }
    }
}

// ------------------------------------------------------------------- laws
/// A candidate that is open already changes no fact but its annotation: the same facts stand in the
/// same places. Where only a rule said it, a fact says it now; elsewhere there is no further fact.
pub proof fn noop_changes_no_fact(
    store: EngineView,
    scope: Option<Seq<char>>,
    candidate: CandidateView,
    episode: Seq<char>,
    provenance: Seq<Seq<char>>,
)
    requires
        update::updated(store, scope, candidate, episode, provenance).1 is Noop,
    ensures
        ({
            let after = update::updated(store, scope, candidate, episode, provenance).0;
            &&& store.facts.len() <= after.facts.len() <= store.facts.len() + 1
            &&& rows::no_head(store.rules, update::relation_name(scope)) ==> after.facts.len()
                == store.facts.len()
            &&& forall|i: int|
                0 <= i < store.facts.len() ==> engine::is_fact(
                    #[trigger] after.facts[i],
                    store.facts[i].pred,
                    store.facts[i].key,
                )
        }),
{
    let skip = update::prefix(scope).len() as int;
    let relation = update::relation_name(scope);
    let ready = update::prepared(store, scope, candidate);
    let open = update::rivals(ready, scope, candidate);
    lemma_same_object(open, skip, candidate.obj);
    let n = update::same_object(open, skip, candidate.obj)->0;
    let same = open[n];
    lemma_rival(ready, scope, candidate, n);
    engine::lemma_place_of(ready.facts, relation, same.key);
    if rows::no_head(store.rules, relation) {
        lemma_only_stored(ready, scope, same.key);
        let k = choose|k: int|
            0 <= k < ready.facts.len() && engine::is_fact(
                #[trigger] ready.facts[k],
                relation,
                same.key,
            );
        assert(engine::is_fact(ready.facts[k], relation, same.key));
    }
}

/// A candidate that is open already makes no row hold that did not, and none hold no more.
pub proof fn noop_holds_what_held(
    store: EngineView,
    scope: Option<Seq<char>>,
    candidate: CandidateView,
    episode: Seq<char>,
    provenance: Seq<Seq<char>>,
    row: RowView,
)
    requires
        update::updated(store, scope, candidate, episode, provenance).1 is Noop,
    ensures
        ({
            let after = update::updated(store, scope, candidate, episode, provenance).0;
            datalog::holds(after, after.rules, row) <==> datalog::holds(store, store.rules, row)
        }),
{
    let skip = update::prefix(scope).len() as int;
    let relation = update::relation_name(scope);
    let ready = update::prepared(store, scope, candidate);
    let open = update::rivals(ready, scope, candidate);
    let ann = update::assertion(candidate, episode, provenance);
    lemma_same_object(open, skip, candidate.obj);
    let n = update::same_object(open, skip, candidate.obj)->0;
    lemma_rival(ready, scope, candidate, n);
    lemma_held_fact_adds_nothing(ready, relation, open[n].key, ann, row);
    datalog::lemma_same_store(store, ready, store.rules, row);
}

/// Whether an open row that holds says what a candidate says.
pub open spec fn stands(
    store: EngineView,
    scope: Option<Seq<char>>,
    candidate: CandidateView,
) -> bool {
    exists|key: Seq<ValueView>| #[trigger]
        open_rival(store, scope, candidate, key) && key[update::prefix(scope).len() as int + 2]
            == ValueView::Symbol(candidate.obj)
}

/// What was observed stands.
pub proof fn observed_fact_stands(
    store: EngineView,
    scope: Option<Seq<char>>,
    candidate: CandidateView,
    episode: Seq<char>,
    provenance: Seq<Seq<char>>,
)
    ensures
        stands(
            update::updated(store, scope, candidate, episode, provenance).0,
            scope,
            candidate,
        ),
{
    let skip = update::prefix(scope).len() as int;
    let relation = update::relation_name(scope);
    let ready = update::prepared(store, scope, candidate);
    let open = update::rivals(ready, scope, candidate);
    let ann = update::assertion(candidate, episode, provenance);
    let new_key = update::open_key(scope, candidate, store.now);
    let after = update::updated(store, scope, candidate, episode, provenance).0;
    lemma_open_key(scope, candidate, store.now);
    lemma_same_object(open, skip, candidate.obj);
    if open.len() > 0 && update::same_object(open, skip, candidate.obj) is Some {
        let n = update::same_object(open, skip, candidate.obj)->0;
        let same = open[n];
        lemma_rival(ready, scope, candidate, n);
        declare_adds_one(ready.facts, relation, same.key, ann, relation, same.key);
        lemma_stored_holds(after, relation, same.key);
        assert(open_rival(after, scope, candidate, same.key));
    } else {
        declare_adds_one(ready.facts, relation, new_key, ann, relation, new_key);
        declare_adds_one(
            update::with_closed(ready, relation, open, skip).facts,
            relation,
            new_key,
            ann,
            relation,
            new_key,
        );
        lemma_stored_holds(after, relation, new_key);
        assert(open_rival(after, scope, candidate, new_key));
    }
}

/// Observing what stands changes nothing but its annotation.
pub proof fn standing_fact_is_noop(
    store: EngineView,
    scope: Option<Seq<char>>,
    candidate: CandidateView,
    episode: Seq<char>,
    provenance: Seq<Seq<char>>,
)
    requires
        stands(store, scope, candidate),
    ensures
        update::updated(store, scope, candidate, episode, provenance).1 is Noop,
{
    let skip = update::prefix(scope).len() as int;
    let relation = update::relation_name(scope);
    let ready = update::prepared(store, scope, candidate);
    let open = update::rivals(ready, scope, candidate);
    let key = choose|key: Seq<ValueView>| #[trigger]
        open_rival(store, scope, candidate, key) && key[skip + 2] == ValueView::Symbol(
            candidate.obj,
        );
    datalog::lemma_same_store(store, ready, store.rules, RowView { pred: relation, key });
    rivals_are_open_and_compete(ready, scope, candidate, key);
    let k = choose|k: int| 0 <= k < open.len() && (#[trigger] open[k]).key == key;
    lemma_same_object(open, skip, candidate.obj);
    assert(open[k].key[skip + 2] == ValueView::Symbol(candidate.obj));
}

/// Observing the same again changes nothing but annotations.
pub proof fn observing_again_is_noop(
    store: EngineView,
    scope: Option<Seq<char>>,
    candidate: CandidateView,
    episode: Seq<char>,
    provenance: Seq<Seq<char>>,
    later_episode: Seq<char>,
    later_provenance: Seq<Seq<char>>,
)
    ensures
        ({
            let after = update::updated(store, scope, candidate, episode, provenance).0;
            update::updated(
                after,
                scope,
                candidate,
                later_episode,
                later_provenance,
            ).1 is Noop
        }),
{
    observed_fact_stands(store, scope, candidate, episode, provenance);
    standing_fact_is_noop(
        update::updated(store, scope, candidate, episode, provenance).0,
        scope,
        candidate,
        later_episode,
        later_provenance,
    );
}

/// A key that is open after facts were closed was open before, and was not closed.
proof fn lemma_closed(
    store: EngineView,
    relation: Seq<char>,
    open: Seq<FactView>,
    skip: int,
    key: Seq<ValueView>,
)
    requires
        store_laws::regular(store.facts),
        store_laws::plain(relation),
        store.now != i64::MAX,
        0 <= skip,
        forall|i: int| 0 <= i < open.len() ==> (#[trigger] open[i]).key.len() == skip + 6,
        has_fact(update::with_closed(store, relation, open, skip).facts, relation, key),
        key.len() == skip + 6,
        key[skip + 4] == ValueView::Integer(i64::MAX as int),
    ensures
        has_fact(store.facts, relation, key),
        forall|i: int| 0 <= i < open.len() ==> (#[trigger] open[i]).key != key,
    decreases open.len(),
{
    if open.len() > 0 {
        let fewer = open.drop_last();
        let before = update::with_closed(store, relation, fewer, skip);
        let last = open.last().key;
        let closed = update::closed_key(last, skip, store.now);
        assert(open[open.len() - 1].key.len() == skip + 6);
        assert(closed[skip + 4] == ValueView::Integer(store.now));
        assert(closed != key);
        declare_adds_one(
            before.without_fact(relation, last).facts,
            relation,
            closed,
            update::superseded(),
            relation,
            key,
        );
        store_laws::lemma_closed_regular(store, relation, fewer, skip);
        retract_removes_one(before.facts, relation, last, relation, key);
        assert forall|i: int| 0 <= i < fewer.len() implies (#[trigger] fewer[i]).key.len() == skip
            + 6 by {
            assert(fewer[i] == open[i]);
        }
        lemma_closed(store, relation, fewer, skip, key);
        assert forall|i: int| 0 <= i < open.len() implies (#[trigger] open[i]).key != key by {
            if i < fewer.len() {
                assert(fewer[i] == open[i]);
            }
        }
    }
}

/// Whether the open rows that compete with a candidate are at most one.
pub open spec fn at_most_one_open(
    store: EngineView,
    scope: Option<Seq<char>>,
    candidate: CandidateView,
) -> bool {
    forall|a: Seq<ValueView>, b: Seq<ValueView>|
        open_rival(store, scope, candidate, a) && open_rival(store, scope, candidate, b) ==> a == b
}

/// A candidate that supersedes is the only fact of its subject and relation that is open.
pub proof fn superseding_fact_is_the_only_open_one(
    store: EngineView,
    scope: Option<Seq<char>>,
    candidate: CandidateView,
    episode: Seq<char>,
    provenance: Seq<Seq<char>>,
    key: Seq<ValueView>,
)
    requires
        store_laws::regular(store.facts),
        store.now != i64::MAX,
        update::updated(store, scope, candidate, episode, provenance).1 is Updated,
        has_fact(
            update::updated(store, scope, candidate, episode, provenance).0.facts,
            update::relation_name(scope),
            key,
        ),
        engine::fits(key, update::rival_pattern(scope, candidate)),
        key[update::prefix(scope).len() as int + 4] == ValueView::Integer(i64::MAX as int),
    ensures
        key == update::open_key(scope, candidate, store.now),
{
    let skip = update::prefix(scope).len() as int;
    let relation = update::relation_name(scope);
    let ready = update::prepared(store, scope, candidate);
    let open = update::rivals(ready, scope, candidate);
    let ann = update::assertion(candidate, episode, provenance);
    let new_key = update::open_key(scope, candidate, store.now);
    let closed = update::with_closed(ready, relation, open, skip);
    lemma_pattern(scope, candidate);
    declare_adds_one(closed.facts, relation, new_key, ann, relation, key);
    if key != new_key {
        assert forall|i: int| 0 <= i < open.len() implies (#[trigger] open[i]).key.len() == skip
            + 6 by {
            lemma_rival(ready, scope, candidate, i);
        }
        store_laws::relations_are_plain(scope);
        lemma_closed(ready, relation, open, skip, key);
        lemma_stored_holds(ready, relation, key);
        rivals_are_open_and_compete(ready, scope, candidate, key);
        let k = choose|k: int| 0 <= k < open.len() && (#[trigger] open[k]).key == key;
        assert(open[k].key != key);
    }
}

/// A subject has at most one open fact of an exclusive relation, whatever is observed of it, where
/// no rule gives open rows by itself.
pub proof fn exclusive_relation_has_one_open_fact(
    store: EngineView,
    scope: Option<Seq<char>>,
    candidate: CandidateView,
    episode: Seq<char>,
    provenance: Seq<Seq<char>>,
)
    requires
        store_laws::regular(store.facts),
        store.now != i64::MAX,
        rows::no_head(store.rules, update::relation_name(scope)),
        update::exclusive(store, candidate.pred),
        at_most_one_open(store, scope, candidate),
    ensures
        at_most_one_open(
            update::updated(store, scope, candidate, episode, provenance).0,
            scope,
            candidate,
        ),
{
    let skip = update::prefix(scope).len() as int;
    let relation = update::relation_name(scope);
    let ready = update::prepared(store, scope, candidate);
    let open = update::rivals(ready, scope, candidate);
    let ann = update::assertion(candidate, episode, provenance);
    let new_key = update::open_key(scope, candidate, store.now);
    let (after, outcome) = update::updated(store, scope, candidate, episode, provenance);
    datalog::lemma_same_store(
        store,
        ready,
        store.rules,
        RowView { pred: "exclusive"@, key: seq![ValueView::Symbol(candidate.pred)] },
    );
    assert(update::exclusive(ready, candidate.pred));
    lemma_closed_now(ready, relation, open, skip);
    assert(after.rules == store.rules);
    assert forall|a: Seq<ValueView>, b: Seq<ValueView>|
        open_rival(after, scope, candidate, a) && open_rival(after, scope, candidate, b) implies a
        == b by {
        lemma_only_stored(after, scope, a);
        lemma_only_stored(after, scope, b);
        match outcome {
            OutcomeView::Updated => {
                superseding_fact_is_the_only_open_one(
                    store,
                    scope,
                    candidate,
                    episode,
                    provenance,
                    a,
                );
                superseding_fact_is_the_only_open_one(
                    store,
                    scope,
                    candidate,
                    episode,
                    provenance,
                    b,
                );
            },
            OutcomeView::Added => {
                declare_adds_one(ready.facts, relation, new_key, ann, relation, a);
                declare_adds_one(ready.facts, relation, new_key, ann, relation, b);
                if a != new_key {
                    lemma_stored_holds(ready, relation, a);
                    rivals_are_open_and_compete(ready, scope, candidate, a);
                }
                if b != new_key {
                    lemma_stored_holds(ready, relation, b);
                    rivals_are_open_and_compete(ready, scope, candidate, b);
                }
            },
            OutcomeView::Noop => {
                noop_holds_what_held(
                    store,
                    scope,
                    candidate,
                    episode,
                    provenance,
                    RowView { pred: relation, key: a },
                );
                noop_holds_what_held(
                    store,
                    scope,
                    candidate,
                    episode,
                    provenance,
                    RowView { pred: relation, key: b },
                );
                assert(open_rival(store, scope, candidate, a));
                assert(open_rival(store, scope, candidate, b));
            },
            OutcomeView::Conflict(_) => {},
        }
    }
}

proof fn lemma_closed_others(
    store: EngineView,
    scope: Option<Seq<char>>,
    candidate: CandidateView,
    open: Seq<FactView>,
    fact: FactView,
)
    requires
        !competes(fact, scope, candidate),
        forall|i: int| 0 <= i < open.len() ==> competes(#[trigger] open[i], scope, candidate),
    ensures
        update::with_closed(
            store,
            update::relation_name(scope),
            open,
            update::prefix(scope).len() as int,
        ).facts.contains(fact) <==> store.facts.contains(fact),
    decreases open.len(),
{
    let relation = update::relation_name(scope);
    let skip = update::prefix(scope).len() as int;
    if open.len() > 0 {
        let fewer = open.drop_last();
        assert forall|i: int| 0 <= i < fewer.len() implies competes(
            #[trigger] fewer[i],
            scope,
            candidate,
        ) by {
            assert(fewer[i] == open[i]);
        }
        lemma_closed_others(store, scope, candidate, fewer, fact);
        let before = update::with_closed(store, relation, fewer, skip);
        let key = open.last().key;
        let closed = update::closed_key(key, skip, store.now);
        assert(competes(open[open.len() - 1], scope, candidate));
        lemma_pattern(scope, candidate);
        let pattern = update::rival_pattern(scope, candidate);
        assert(engine::fits(closed, pattern)) by {
            assert forall|i: int| 0 <= i < closed.len() implies ((#[trigger] pattern[i]) matches
                Some(value) ==> closed[i] == value) by {
                if i != skip + 4 {
                    assert(closed[i] == key[i]);
                }
            }
        }
        retract_keeps_others(before.facts, relation, key, fact);
        declare_keeps_others(
            before.without_fact(relation, key).facts,
            relation,
            closed,
            update::superseded(),
            fact,
        );
    }
}

/// Observing a candidate leaves every fact with another scope, subject or relation as it is.
pub proof fn other_facts_are_untouched(
    store: EngineView,
    scope: Option<Seq<char>>,
    candidate: CandidateView,
    episode: Seq<char>,
    provenance: Seq<Seq<char>>,
    fact: FactView,
)
    requires
        !competes(fact, scope, candidate),
    ensures
        update::updated(store, scope, candidate, episode, provenance).0.facts.contains(fact)
            <==> store.facts.contains(fact),
{
    let skip = update::prefix(scope).len() as int;
    let relation = update::relation_name(scope);
    let ready = update::prepared(store, scope, candidate);
    let open = update::rivals(ready, scope, candidate);
    let ann = update::assertion(candidate, episode, provenance);
    let new_key = update::open_key(scope, candidate, store.now);
    lemma_open_key(scope, candidate, store.now);
    assert forall|i: int| 0 <= i < open.len() implies competes(
        #[trigger] open[i],
        scope,
        candidate,
    ) by {
        lemma_rival(ready, scope, candidate, i);
    }
    declare_keeps_others(ready.facts, relation, new_key, ann, fact);
    lemma_same_object(open, skip, candidate.obj);
    if update::same_object(open, skip, candidate.obj) is Some {
        let same = open[update::same_object(open, skip, candidate.obj)->0];
        assert(competes(same, scope, candidate));
        declare_keeps_others(ready.facts, relation, same.key, ann, fact);
    }
    lemma_closed_others(ready, scope, candidate, open, fact);
    declare_keeps_others(
        update::with_closed(ready, relation, open, skip).facts,
        relation,
        new_key,
        ann,
        fact,
    );
}

/// The same triple in two scopes is two facts: what is observed in one scope changes nothing in
/// another.
pub proof fn scopes_are_independent(
    store: EngineView,
    scope: Seq<char>,
    other: Seq<char>,
    candidate: CandidateView,
    episode: Seq<char>,
    provenance: Seq<Seq<char>>,
    fact: FactView,
)
    requires
        scope != other,
        fact.pred == "scoped_edge"@,
        fact.key.len() == 7,
        fact.key[0] == ValueView::Symbol(other),
    ensures
        update::updated(
            store,
            Some(scope),
            candidate,
            episode,
            provenance,
        ).0.facts.contains(fact) <==> store.facts.contains(fact),
{
    lemma_pattern(Some(scope), candidate);
    let pattern = update::rival_pattern(Some(scope), candidate);
    assert(!engine::fits(fact.key, pattern)) by {
        assert(pattern[0] == Some(ValueView::Symbol(scope)));
    }
    other_facts_are_untouched(store, Some(scope), candidate, episode, provenance, fact);
}

/// A relation holds what some fact gives to it: `current` and `scoped_current` hold what the
/// facts say that are valid now.
pub proof fn relation_holds_what_facts_give(
    facts: Seq<FactView>,
    now: int,
    pred: Seq<char>,
    key: Seq<ValueView>,
)
    ensures
        has_fact(engine::relation(facts, now, pred), pred, key) <==> exists|i: int|
            0 <= i < facts.len() && engine::given(#[trigger] facts[i], now, pred) == Some(key),
    decreases facts.len(),
{
    let rows = engine::relation(facts, now, pred);
    if facts.len() > 0 {
        let fewer = facts.drop_last();
        let rest = engine::relation(fewer, now, pred);
        relation_holds_what_facts_give(fewer, now, pred, key);
        if let Some(last) = engine::given(facts.last(), now, pred) {
            declare_adds_one(rest, pred, last, facts.last().ann, pred, key);
        }
        if has_fact(rows, pred, key) {
            if has_fact(rest, pred, key) {
                let i = choose|i: int|
                    0 <= i < fewer.len() && engine::given(#[trigger] fewer[i], now, pred) == Some(
                        key,
                    );
                assert(engine::given(facts[i], now, pred) == Some(key));
            } else {
                assert(engine::given(facts[facts.len() - 1], now, pred) == Some(key));
            }
        }
        if exists|i: int|
            0 <= i < facts.len() && engine::given(#[trigger] facts[i], now, pred) == Some(key) {
            let i = choose|i: int|
                0 <= i < facts.len() && engine::given(#[trigger] facts[i], now, pred) == Some(key);
            if i < fewer.len() {
                assert(engine::given(fewer[i], now, pred) == Some(key));
            }
        }
    } else {
        assert(!has_fact(rows, pred, key));
    }
}

/// Closing facts leaves the time and the rules as they are.
proof fn lemma_closed_now(store: EngineView, relation: Seq<char>, open: Seq<FactView>, skip: int)
    ensures
        update::with_closed(store, relation, open, skip).now == store.now,
        update::with_closed(store, relation, open, skip).rules == store.rules,
    decreases open.len(),
{
    if open.len() > 0 {
        lemma_closed_now(store, relation, open.drop_last(), skip);
    }
}

/// A fact that was observed anew, in a scope or in none, is current at the time of the
/// observation, by itself and so whatever the rules are.
pub proof fn observed_fact_is_current(
    store: EngineView,
    scope: Option<Seq<char>>,
    candidate: CandidateView,
    episode: Seq<char>,
    provenance: Seq<Seq<char>>,
)
    requires
        store.now < i64::MAX,
        !(update::updated(store, scope, candidate, episode, provenance).1 is Noop),
    ensures
        ({
            let after = update::updated(store, scope, candidate, episode, provenance).0;
            &&& after.now == store.now
            &&& has_fact(
                engine::relation(after.facts, after.now, "current"@),
                "current"@,
                seq![
                    ValueView::Symbol(candidate.subj),
                    ValueView::Symbol(candidate.pred),
                    ValueView::Symbol(candidate.obj),
                ],
            )
            &&& rows::held(
                after,
                "current"@,
                seq![
                    ValueView::Symbol(candidate.subj),
                    ValueView::Symbol(candidate.pred),
                    ValueView::Symbol(candidate.obj),
                ],
            )
        }),
{
    let skip = update::prefix(scope).len() as int;
    let relation = update::relation_name(scope);
    let ready = update::prepared(store, scope, candidate);
    let open = update::rivals(ready, scope, candidate);
    let ann = update::assertion(candidate, episode, provenance);
    let new_key = update::open_key(scope, candidate, store.now);
    let after = update::updated(store, scope, candidate, episode, provenance).0;
    let triple = seq![
        ValueView::Symbol(candidate.subj),
        ValueView::Symbol(candidate.pred),
        ValueView::Symbol(candidate.obj),
    ];
    lemma_closed_now(ready, relation, open, skip);
    declare_adds_one(ready.facts, relation, new_key, ann, relation, new_key);
    declare_adds_one(
        update::with_closed(ready, relation, open, skip).facts,
        relation,
        new_key,
        ann,
        relation,
        new_key,
    );
    assert(has_fact(after.facts, relation, new_key));
    let i = choose|i: int|
        0 <= i < after.facts.len() && engine::is_fact(
            #[trigger] after.facts[i],
            relation,
            new_key,
        );
    reveal_strlit("edge");
    reveal_strlit("scoped_edge");
    reveal_strlit("current");
    assert("edge"@.len() == 4 && "scoped_edge"@.len() == 11 && "current"@.len() == 7);
    assert(new_key.subrange(skip, skip + 3) =~= triple);
    assert(skip == 0 ==> new_key.take(3) =~= triple);
    assert(engine::given(after.facts[i], after.now, "current"@) == Some(triple));
    relation_holds_what_facts_give(after.facts, after.now, "current"@, triple);
    rows::given_row_holds(after, after.rules, i, "current"@, triple);
}

} // verus!
