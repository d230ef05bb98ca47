//! The rows of a relation.
//!
//! First stand the rows that facts give, by themselves or by the default rules, in the order of the
//! facts. Behind them stand those that only follow from further rules, in the order of keys. Each
//! has the confidences and the references of the facts that it rests on.

use vstd::prelude::*;

use crate::clause::{Rule, RuleView};
use crate::clause;
use crate::datalog;
use crate::datalog::{Row, RowView};
use crate::default_laws;
use crate::defaults;
use crate::engine;
use crate::engine::{Ann, Engine, EngineView, Fact, FactView, Value};
use crate::order;
use crate::snapshot::ValueView;
use crate::support;
use crate::support::{Step, StepView};
use crate::text;
use crate::update_laws;

verus! {

/// Whether a row holds in a store, by the default rules and those that were added.
pub open spec fn held(engine: EngineView, pred: Seq<char>, key: Seq<ValueView>) -> bool {
    datalog::holds(engine, engine.rules, RowView { pred, key })
}

/// Whether a key fits a pattern and is that of a row that holds, and that no fact gives.
pub open spec fn is_extra(
    engine: EngineView,
    pred: Seq<char>,
    pattern: Seq<Option<ValueView>>,
    key: Seq<ValueView>,
) -> bool {
    &&& held(engine, pred, key)
    &&& engine::fits(key, pattern)
    &&& !update_laws::has_fact(engine::relation(engine.facts, engine.now, pred), pred, key)
}

/// Whether keys are those that no fact gives, in order.
pub open spec fn lists_extra(
    engine: EngineView,
    pred: Seq<char>,
    pattern: Seq<Option<ValueView>>,
    keys: Seq<Seq<ValueView>>,
) -> bool {
    &&& order::keys_ordered(keys)
    &&& forall|key: Seq<ValueView>|
        #[trigger] keys.contains(key) <==> is_extra(engine, pred, pattern, key)
}

/// The keys of the rows that hold, that no fact gives and that fit a pattern, in order. There is
/// one such list.
pub open spec fn extra_keys(
    engine: EngineView,
    pred: Seq<char>,
    pattern: Seq<Option<ValueView>>,
) -> Seq<Seq<ValueView>> {
    choose|keys: Seq<Seq<ValueView>>| lists_extra(engine, pred, pattern, keys)
}

/// The facts that a row rests on.
pub open spec fn row_support(
    engine: EngineView,
    added: Seq<RuleView>,
    pred: Seq<char>,
    key: Seq<ValueView>,
) -> Seq<FactView> {
    support::supporting(
        engine,
        defaults::all_rules(added),
        engine.facts,
        RowView { pred, key },
    )
}

/// A row with the confidences and the references of the facts that it rests on.
pub open spec fn held_row(
    engine: EngineView,
    pred: Seq<char>,
    key: Seq<ValueView>,
) -> FactView {
    FactView { pred, key, ann: support::ann_of(row_support(engine, engine.rules, pred, key)) }
}

/// The rows with the keys of facts.
pub open spec fn rows_of_facts(
    engine: EngineView,
    pred: Seq<char>,
    facts: Seq<FactView>,
) -> Seq<FactView> {
    facts.map_values(|fact: FactView| held_row(engine, pred, fact.key))
}

/// The rows with some keys.
pub open spec fn rows_of_keys(
    engine: EngineView,
    pred: Seq<char>,
    keys: Seq<Seq<ValueView>>,
) -> Seq<FactView> {
    keys.map_values(|key: Seq<ValueView>| held_row(engine, pred, key))
}

/// The rows of a relation that hold and fit a pattern.
pub open spec fn held_rows(
    engine: EngineView,
    pred: Seq<char>,
    pattern: Seq<Option<ValueView>>,
) -> Seq<FactView> {
    rows_of_facts(
        engine,
        pred,
        engine::fitting(engine::relation(engine.facts, engine.now, pred), pattern),
    ) + rows_of_keys(engine, pred, extra_keys(engine, pred, pattern))
}

/// Whether steps tell what a row rests on.
spec fn tells_row(
    engine: EngineView,
    steps: Seq<StepView>,
    pred: Seq<char>,
    key: Seq<ValueView>,
) -> bool {
    support::steps_tell(
        engine,
        defaults::all_rules(engine.rules),
        steps,
        RowView { pred, key },
    )
}

// ------------------------------------------------------------------- laws
/// A row that a fact gives holds, and rests on that fact.
pub proof fn given_row_holds(
    engine: EngineView,
    added: Seq<RuleView>,
    i: int,
    pred: Seq<char>,
    key: Seq<ValueView>,
)
    requires
        0 <= i < engine.facts.len(),
        engine::given(engine.facts[i], engine.now, pred) == Some(key),
    ensures
        datalog::holds(engine, added, RowView { pred, key }),
        support::rests_on(
            engine,
            defaults::all_rules(added),
            RowView { pred, key },
            RowView { pred: engine.facts[i].pred, key: engine.facts[i].key },
        ),
{
    let fact = engine.facts[i];
    let own = RowView { pred: fact.pred, key: fact.key };
    let row = RowView { pred, key };
    let rules = defaults::all_rules(added);
    assert(engine::is_fact(engine.facts[i], fact.pred, fact.key));
    assert(datalog::stated(engine, own));
    if fact.pred != pred {
        let keys = seq![fact.key, seq![ValueView::Integer(engine.now)]];
        default_laws::store_follows_the_default_rules(fact, engine.now, key);
        let j: int = if fact.pred == "edge"@ {
            0
        } else if pred == "current"@ {
            1
        } else {
            2
        };
        assert(rules[j] == defaults::default_rules()[j]);
        let rule = rules[j];
        reveal_strlit("edge");
        reveal_strlit("scoped_edge");
        reveal_strlit("current");
        reveal_strlit("scoped_current");
        assert("edge"@.len() == 4 && "scoped_edge"@.len() == 11);
        assert("current"@.len() == 7 && "scoped_current"@.len() == 14);
        assert(datalog::derives(rule, keys, row));
        let parts = support::body_rows(rule.body, keys);
        assert(parts[0] == own);
        assert(parts[1] == datalog::now_row(engine));
        assert(datalog::stated(engine, datalog::now_row(engine)));
        assert forall|n: int| 0 <= n < parts.len() implies datalog::follows(
            engine,
            rules,
            #[trigger] parts[n],
        ) by {
            assert(datalog::stated(engine, parts[n]));
        }
        assert(support::rows_follow(engine, rules, parts));
        assert(parts.contains(own));
        assert(support::rule_uses(engine, rules, rules[j], row, own));
        assert(support::uses(engine, rules, row, own));
        support::lemma_used_follows(engine, rules, row, own);
    }
}

/// The rows of the relation that facts give hold.
proof fn lemma_given_held(engine: EngineView, pred: Seq<char>, key: Seq<ValueView>)
    requires
        update_laws::has_fact(engine::relation(engine.facts, engine.now, pred), pred, key),
    ensures
        held(engine, pred, key),
{
    update_laws::relation_holds_what_facts_give(engine.facts, engine.now, pred, key);
    let i = choose|i: int|
        0 <= i < engine.facts.len() && engine::given(
            #[trigger] engine.facts[i],
            engine.now,
            pred,
        ) == Some(key);
    given_row_holds(engine, engine.rules, i, pred, key);
}

/// The rows that only rules give are listed each once, in the order of their keys.
pub proof fn rule_rows_are_in_order(
    engine: EngineView,
    pred: Seq<char>,
    pattern: Seq<Option<ValueView>>,
)
    ensures
        lists_extra(engine, pred, pattern, extra_keys(engine, pred, pattern)),
{
    let rules = defaults::all_rules(engine.rules);
    let all = Set::new(|row: RowView| datalog::follows(engine, rules, row));
    datalog::what_follows_is_finite(engine, rules);
    let key_of = |row: RowView| row.key;
    all.lemma_map_finite(key_of);
    let extra = Set::new(|key: Seq<ValueView>| is_extra(engine, pred, pattern, key));
    assert forall|key: Seq<ValueView>| extra.contains(key) implies #[trigger] all.map(
        key_of,
    ).contains(key) by {
        let row = RowView { pred, key };
        assert(all.contains(row));
        assert(key_of(row) == key);
    }
    assert(extra.subset_of(all.map(key_of)));
    vstd::set_lib::lemma_set_subset_finite(all.map(key_of), extra);
    let keys = order::lemma_listed(extra);
    assert(lists_extra(engine, pred, pattern, keys));
}

/// Keys that are listed in order are the list.
proof fn lemma_extra_is(
    engine: EngineView,
    pred: Seq<char>,
    pattern: Seq<Option<ValueView>>,
    keys: Seq<Seq<ValueView>>,
)
    requires
        lists_extra(engine, pred, pattern, keys),
    ensures
        keys == extra_keys(engine, pred, pattern),
{
    rule_rows_are_in_order(engine, pred, pattern);
    order::lemma_same_keys(keys, extra_keys(engine, pred, pattern));
}

/// Whether one of some rows has a key.
pub open spec fn has_row(rows: Seq<FactView>, key: Seq<ValueView>) -> bool {
    exists|i: int| 0 <= i < rows.len() && (#[trigger] rows[i]).key == key
}

/// The rows of the relation that facts give fit a pattern where their keys do.
proof fn lemma_fitting_has(
    facts: Seq<FactView>,
    pred: Seq<char>,
    pattern: Seq<Option<ValueView>>,
    key: Seq<ValueView>,
)
    requires
        forall|i: int| 0 <= i < facts.len() ==> (#[trigger] facts[i]).pred == pred,
    ensures
        has_row(engine::fitting(facts, pattern), key) <==> update_laws::has_fact(facts, pred, key)
            && engine::fits(key, pattern),
    decreases facts.len(),
{
    let rows = engine::fitting(facts, pattern);
    if facts.len() > 0 {
        let fewer = facts.drop_last();
        let last = facts.last();
        let rest = engine::fitting(fewer, pattern);
        assert forall|i: int| 0 <= i < fewer.len() implies (#[trigger] fewer[i]).pred == pred by {
            assert(fewer[i] == facts[i]);
        }
        assert(facts[facts.len() - 1].pred == pred);
        lemma_fitting_has(fewer, pred, pattern, key);
        assert(facts =~= fewer.push(last));
        datalog::lemma_push_has(fewer, last, pred, key);
        if has_row(rest, key) {
            let i = choose|i: int| 0 <= i < rest.len() && (#[trigger] rest[i]).key == key;
            assert(rows[i] == rest[i]);
        }
        if has_row(rows, key) {
            let i = choose|i: int| 0 <= i < rows.len() && (#[trigger] rows[i]).key == key;
            if i < rest.len() {
                assert(rest[i] == rows[i]);
            }
        }
        if engine::is_fact(last, pred, key) && engine::fits(key, pattern) {
            assert(rows[rows.len() - 1].key == key);
        }
    } else {
        assert(!has_row(rows, key));
        assert(!update_laws::has_fact(facts, pred, key));
    }
}

/// The rows of a relation are those that hold and fit the pattern.
pub proof fn rows_are_what_holds(
    engine: EngineView,
    pred: Seq<char>,
    pattern: Seq<Option<ValueView>>,
    key: Seq<ValueView>,
)
    ensures
        has_row(engine.rows(pred, pattern), key) <==> held(engine, pred, key) && engine::fits(
            key,
            pattern,
        ),
        forall|i: int|
            0 <= i < engine.rows(pred, pattern).len() ==> (#[trigger] engine.rows(
                pred,
                pattern,
            )[i]) == held_row(engine, pred, engine.rows(pred, pattern)[i].key),
{
    let relation = engine::relation(engine.facts, engine.now, pred);
    let given = engine::fitting(relation, pattern);
    let extra = extra_keys(engine, pred, pattern);
    let first = rows_of_facts(engine, pred, given);
    let more = rows_of_keys(engine, pred, extra);
    let rows = engine.rows(pred, pattern);
    rule_rows_are_in_order(engine, pred, pattern);
    lemma_relation_pred(engine.facts, engine.now, pred);
    lemma_fitting_has(relation, pred, pattern, key);
    if update_laws::has_fact(relation, pred, key) {
        lemma_given_held(engine, pred, key);
    }
    if has_row(rows, key) {
        let i = choose|i: int| 0 <= i < rows.len() && (#[trigger] rows[i]).key == key;
        if i < first.len() {
            assert(given[i].key == key);
        } else {
            assert(extra[i - first.len()] == key);
            assert(extra.contains(key));
        }
    }
    if held(engine, pred, key) && engine::fits(key, pattern) {
        if update_laws::has_fact(relation, pred, key) {
            let i = choose|i: int| 0 <= i < given.len() && (#[trigger] given[i]).key == key;
            assert(rows[i].key == key);
        } else {
            assert(extra.contains(key));
            let i = choose|i: int| 0 <= i < extra.len() && extra[i] == key;
            assert(rows[first.len() + i].key == key);
        }
    }
    assert forall|i: int| 0 <= i < rows.len() implies (#[trigger] rows[i]) == held_row(
        engine,
        pred,
        rows[i].key,
    ) by {
        if i < first.len() {
            assert(rows[i] == first[i]);
        } else {
            assert(rows[i] == more[i - first.len()]);
        }
    }
}

/// The rows of a relation have its predicate.
pub proof fn lemma_relation_pred(facts: Seq<FactView>, now: int, pred: Seq<char>)
    ensures
        forall|i: int|
            0 <= i < engine::relation(facts, now, pred).len() ==> (
            #[trigger] engine::relation(facts, now, pred)[i]).pred == pred,
    decreases facts.len(),
{
    if facts.len() > 0 {
        let rest = engine::relation(facts.drop_last(), now, pred);
        lemma_relation_pred(facts.drop_last(), now, pred);
        if let Some(key) = engine::given(facts.last(), now, pred) {
            engine::lemma_place_of(rest, pred, key);
        }
    }
}

/// Whether no two rows have one key.
pub open spec fn keys_differ(rows: Seq<FactView>) -> bool {
    forall|i: int, j: int|
        0 <= i < j < rows.len() ==> (#[trigger] rows[i]).key != (#[trigger] rows[j]).key
}

/// What facts give to a relation is there once.
proof fn lemma_relation_once(facts: Seq<FactView>, now: int, pred: Seq<char>)
    ensures
        keys_differ(engine::relation(facts, now, pred)),
    decreases facts.len(),
{
    let all = engine::relation(facts, now, pred);
    if facts.len() > 0 {
        let rest = engine::relation(facts.drop_last(), now, pred);
        lemma_relation_once(facts.drop_last(), now, pred);
        lemma_relation_pred(facts.drop_last(), now, pred);
        if let Some(key) = engine::given(facts.last(), now, pred) {
            engine::lemma_place_of(rest, pred, key);
            assert forall|i: int, j: int| 0 <= i < j < all.len() implies (#[trigger] all[i]).key
                != (#[trigger] all[j]).key by {
                assert(rest[i].pred == pred);
                assert(rest[i].key == all[i].key);
                if j < rest.len() {
                    assert(rest[j].key == all[j].key);
                } else {
                    assert(!engine::is_fact(rest[i], pred, key));
                }
            }
        }
    }
}

/// What fits a pattern is among the rows.
proof fn lemma_fitting_once(rows: Seq<FactView>, pattern: Seq<Option<ValueView>>)
    requires
        keys_differ(rows),
    ensures
        keys_differ(engine::fitting(rows, pattern)),
        forall|i: int|
            0 <= i < engine::fitting(rows, pattern).len() ==> has_row(
                rows,
                (#[trigger] engine::fitting(rows, pattern)[i]).key,
            ),
    decreases rows.len(),
{
    let found = engine::fitting(rows, pattern);
    if rows.len() > 0 {
        let fewer = rows.drop_last();
        let rest = engine::fitting(fewer, pattern);
        assert forall|i: int, j: int| 0 <= i < j < fewer.len() implies (#[trigger] fewer[i]).key
            != (#[trigger] fewer[j]).key by {
            assert(fewer[i] == rows[i] && fewer[j] == rows[j]);
        }
        lemma_fitting_once(fewer, pattern);
        assert forall|i: int| 0 <= i < found.len() implies has_row(
            rows,
            (#[trigger] found[i]).key,
        ) by {
            if i < rest.len() {
                assert(found[i] == rest[i]);
                assert(has_row(fewer, rest[i].key));
                let k = choose|k: int| 0 <= k < fewer.len() && (#[trigger] fewer[k]).key
                    == rest[i].key;
                assert(rows[k].key == found[i].key);
            } else {
                assert(rows[rows.len() - 1].key == found[i].key);
            }
        }
        assert forall|i: int, j: int| 0 <= i < j < found.len() implies (#[trigger] found[i]).key
            != (#[trigger] found[j]).key by {
            assert(found[i] == rest[i]);
            if j < rest.len() {
                assert(found[j] == rest[j]);
            } else {
                assert(has_row(fewer, rest[i].key));
                let k = choose|k: int| 0 <= k < fewer.len() && (#[trigger] fewer[k]).key
                    == rest[i].key;
                assert(rows[k] == fewer[k]);
                assert(rows[k].key != rows[rows.len() - 1].key);
            }
        }
    }
}

/// No row of a relation is listed twice.
pub proof fn rows_are_listed_once(
    engine: EngineView,
    pred: Seq<char>,
    pattern: Seq<Option<ValueView>>,
)
    ensures
        keys_differ(engine.rows(pred, pattern)),
{
    let relation = engine::relation(engine.facts, engine.now, pred);
    let given = engine::fitting(relation, pattern);
    let extra = extra_keys(engine, pred, pattern);
    let first = rows_of_facts(engine, pred, given);
    let rows = engine.rows(pred, pattern);
    lemma_relation_once(engine.facts, engine.now, pred);
    lemma_relation_pred(engine.facts, engine.now, pred);
    lemma_fitting_once(relation, pattern);
    rule_rows_are_in_order(engine, pred, pattern);
    assert forall|i: int, j: int| 0 <= i < j < rows.len() implies (#[trigger] rows[i]).key
        != (#[trigger] rows[j]).key by {
        if j < first.len() {
            assert(given[i].key != given[j].key);
        } else {
            let b = extra[j - first.len()];
            assert(extra.contains(b));
            if i < first.len() {
                lemma_fitting_has(relation, pred, pattern, given[i].key);
                assert(has_row(given, given[i].key));
            } else {
                let a = extra[i - first.len()];
                assert(order::key_before(a, b));
                order::key_order_is_irreflexive(a);
            }
        }
    }
}

/// Whether no rule has a predicate in its head.
pub open spec fn no_head(rules: Seq<RuleView>, pred: Seq<char>) -> bool {
    forall|j: int| 0 <= j < rules.len() ==> (#[trigger] rules[j]).head.pred != pred
}

/// A row whose predicate no rule has in its head follows where the store states it, and rests on
/// itself alone.
pub proof fn stored_rows_follow(
    engine: EngineView,
    rules: Seq<RuleView>,
    row: RowView,
    other: RowView,
)
    requires
        no_head(rules, row.pred),
    ensures
        datalog::follows(engine, rules, row) <==> datalog::stated(engine, row),
        !support::uses(engine, rules, row, other),
        support::rests_on(engine, rules, row, other) <==> other == row,
{
    let rows = Set::new(|r: RowView| r.pred != row.pred || datalog::stated(engine, r));
    assert(datalog::closed_under(engine, rules, rows)) by {
        assert forall|j: int, keys: Seq<Seq<ValueView>>, r: RowView|
            0 <= j < rules.len() && #[trigger] datalog::derives(rules[j], keys, r)
                && datalog::among(rows, rules[j].body, keys) implies rows.contains(r) by {
            assert(rules[j].head.pred != row.pred);
        }
    }
    assert forall|o: RowView| !support::uses(engine, rules, row, o) by {
        if support::uses(engine, rules, row, o) {
            let j = choose|j: int|
                0 <= j < rules.len() && support::rule_uses(
                    engine,
                    rules,
                    #[trigger] rules[j],
                    row,
                    o,
                );
            assert(rules[j].head.pred != row.pred);
        }
    }
    let own = Set::<RowView>::empty().insert(row);
    assert(support::closed_back(engine, rules, own));
}

// -------------------------------------------------------------- functions
/// Whether no rule has a predicate in its head.
fn check_no_head(rules: &Vec<Rule>, pred: &str) -> (yes: bool)
    ensures
        yes == no_head(clause::rule_views(rules@), pred@),
{
    let ghost all = clause::rule_views(rules@);
    for i in 0..rules.len()
        invariant
            all == clause::rule_views(rules@),
            forall|j: int| 0 <= j < i ==> (#[trigger] all[j]).head.pred != pred@,
    {
        assert(all[i as int] == rules@[i as int]@);
        if text::same_text(rules[i].head.pred.as_str(), pred) {
            assert(all[i as int].head.pred == pred@);
            return false;
        }
    }
    true
}

/// Puts a key at its place in the order, unless it is there already.
fn place_key(engine: &Engine, keys: &mut Vec<Vec<Value>>, key: Vec<Value>)
    requires
        engine.wf(),
        datalog::known_keys(engine@.names, old(keys)@),
        engine::known_key(engine@.names, key@),
        order::keys_ordered(datalog::key_views(engine@.names, old(keys)@)),
    ensures
        datalog::known_keys(engine@.names, final(keys)@),
        order::keys_ordered(datalog::key_views(engine@.names, final(keys)@)),
        forall|x: Seq<ValueView>|
            #[trigger] datalog::key_views(engine@.names, final(keys)@).contains(x)
                <==> datalog::key_views(engine@.names, old(keys)@).contains(x) || x
                == engine::key_view(engine@.names, key@),
{
    let ghost names = engine@.names;
    let ghost all = datalog::key_views(names, keys@);
    let ghost said = engine::key_view(names, key@);
    let ghost start = keys@;
    proof {
        engine.lemma_distinct();
    }
    if datalog::has_key(keys, &key, Ghost(names)) {
        return;
    }
    let mut at: usize = 0;
    while at < keys.len() && order::check_key_before(engine, &keys[at], &key)
        invariant
            engine.wf(),
            names == engine@.names,
            keys@ == start,
            datalog::known_keys(names, start),
            engine::known_key(names, key@),
            all == datalog::key_views(names, start),
            said == engine::key_view(names, key@),
            at <= start.len(),
            forall|i: int| 0 <= i < at ==> order::key_before(#[trigger] all[i], said),
        decreases start.len() - at,
    {
        assert(engine::known_key(names, keys@[at as int]@));
        assert(all[at as int] == engine::key_view(names, keys@[at as int]@));
        at = at + 1;
    }
    proof {
        if at < start.len() {
            assert(engine::known_key(names, start[at as int]@));
            assert(all[at as int] == engine::key_view(names, start[at as int]@));
            assert(all.contains(all[at as int]));
            order::key_order_is_total(all[at as int], said);
        }
        order::lemma_insert(all, said, at as int);
    }
    keys.insert(at, key);
    proof {
        assert(datalog::key_views(names, keys@) =~= all.insert(at as int, said));
        assert forall|i: int| 0 <= i < keys@.len() implies engine::known_key(
            names,
            (#[trigger] keys@[i])@,
        ) by {
            if i < at {
                assert(keys@[i] == start[i]);
            } else if i > at {
                assert(keys@[i] == start[i - 1]);
            }
        }
    }
}

/// Adds the row with a key to others.
fn push_held(
    engine: &Engine,
    steps: &Vec<Step>,
    pred: &str,
    key: &Vec<Value>,
    rows: &mut Vec<Fact>,
)
    requires
        engine.wf(),
        engine::known_key(engine@.names, key@),
        support::known_steps(engine@.names, steps@),
        tells_row(
            engine@,
            support::step_views(engine@.names, steps@),
            pred@,
            engine::key_view(engine@.names, key@),
        ),
        engine::known_facts(engine@.names, old(rows)@),
    ensures
        engine::known_facts(engine@.names, final(rows)@),
        engine::fact_views(engine@.names, final(rows)@) == engine::fact_views(
            engine@.names,
            old(rows)@,
        ).push(held_row(engine@, pred@, engine::key_view(engine@.names, key@))),
{
    let ghost names = engine@.names;
    let ghost before = engine::fact_views(names, rows@);
    let ghost rules = defaults::all_rules(engine@.rules);
    let facts: Vec<Fact> = support::find_support(engine, Ghost(rules), steps, pred, key);
    let ann: Ann = support::merge_all(&facts, Ghost(names));
    rows.push(Fact { pred: pred.to_owned(), key: engine::copy_key(key), ann });
    assert(engine::fact_views(names, rows@) =~= before.push(
        held_row(engine@, pred@, engine::key_view(names, key@)),
    ));
}

/// Lists the keys that no fact gives.
fn list_extra(
    engine: &Engine,
    derived: &Vec<Row>,
    given: &Vec<Fact>,
    pred: &str,
    pattern: &Vec<Option<Value>>,
) -> (keys: Vec<Vec<Value>>)
    requires
        engine.wf(),
        engine::known_pattern(engine@.names, pattern@),
        datalog::known_rows(engine@.names, derived@),
        engine::known_facts(engine@.names, given@),
        engine::fact_views(engine@.names, given@) == engine::fitting(
            engine::relation(engine@.facts, engine@.now, pred@),
            engine::pattern_view(engine@.names, pattern@),
        ),
        forall|key: Seq<ValueView>|
            held(engine@, pred@, key) <==> #[trigger] datalog::present(
                engine@,
                datalog::row_views(engine@.names, derived@),
                RowView { pred: pred@, key },
            ),
    ensures
        datalog::known_keys(engine@.names, keys@),
        datalog::key_views(engine@.names, keys@) == extra_keys(
            engine@,
            pred@,
            engine::pattern_view(engine@.names, pattern@),
        ),
{
    let ghost names = engine@.names;
    let ghost asked = engine::pattern_view(names, pattern@);
    let ghost rows = datalog::row_views(names, derived@);
    let ghost relation = engine::relation(engine@.facts, engine@.now, pred@);
    let ghost facts = engine::fact_views(names, given@);
    let mut known: Vec<Vec<Value>> = Vec::new();
    assert(datalog::key_views(names, known@) =~= Seq::<Seq<ValueView>>::empty());
    for i in 0..given.len()
        invariant
            engine::known_facts(names, given@),
            facts == engine::fact_views(names, given@),
            datalog::known_keys(names, known@),
            datalog::key_views(names, known@) == facts.take(i as int).map_values(
                |fact: FactView| fact.key,
            ),
    {
        let ghost before = datalog::key_views(names, known@);
        assert(engine::known_key(names, given@[i as int].key@));
        assert(facts[i as int] == engine::fact_view(names, given@[i as int]));
        datalog::push_key(&mut known, engine::copy_key(&given[i].key), Ghost(names));
        assert(datalog::key_views(names, known@) =~= facts.take(i as int + 1).map_values(
            |fact: FactView| fact.key,
        ));
    }
    let ghost given_keys = datalog::key_views(names, known@);
    proof {
        engine.lemma_distinct();
        lemma_relation_pred(engine@.facts, engine@.now, pred@);
        assert(facts.take(facts.len() as int) =~= facts);
        assert forall|key: Seq<ValueView>| #[trigger] given_keys.contains(key)
            <==> update_laws::has_fact(relation, pred@, key) && engine::fits(key, asked) by {
            lemma_fitting_has(relation, pred@, asked, key);
            if given_keys.contains(key) {
                let i = choose|i: int| 0 <= i < given_keys.len() && given_keys[i] == key;
                assert(facts[i].key == key);
            }
            if has_row(facts, key) {
                let i = choose|i: int| 0 <= i < facts.len() && (#[trigger] facts[i]).key == key;
                assert(given_keys[i] == key);
            }
        }
    }
    let arity: usize = pattern.len();
    let table: Vec<Vec<Value>> = datalog::list_keys(engine, derived, pred, arity);
    let ghost all = datalog::key_views(names, table@);
    let mut keys: Vec<Vec<Value>> = Vec::new();
    assert(datalog::key_views(names, keys@) =~= Seq::<Seq<ValueView>>::empty());
    for i in 0..table.len()
        invariant
            engine.wf(),
            names == engine@.names,
            engine::distinct(names),
            asked == engine::pattern_view(names, pattern@),
            engine::known_pattern(names, pattern@),
            datalog::known_keys(names, known@),
            given_keys == datalog::key_views(names, known@),
            datalog::known_keys(names, table@),
            all == datalog::key_views(names, table@),
            datalog::known_keys(names, keys@),
            order::keys_ordered(datalog::key_views(names, keys@)),
            forall|key: Seq<ValueView>|
                #[trigger] datalog::key_views(names, keys@).contains(key) <==> all.take(
                    i as int,
                ).contains(key) && engine::fits(key, asked) && !given_keys.contains(key),
    {
        let ghost before = datalog::key_views(names, keys@);
        let ghost key = all[i as int];
        assert(engine::known_key(names, table@[i as int]@));
        assert(key == engine::key_view(names, table@[i as int]@));
        assert(all.take(i as int + 1) =~= all.take(i as int).push(key));
        if engine::key_fits(&table[i], pattern, Ghost(names)) && !datalog::has_key(
            &known,
            &table[i],
            Ghost(names),
        ) {
            place_key(engine, &mut keys, engine::copy_key(&table[i]));
        }
        proof {
            assert forall|x: Seq<ValueView>| #[trigger]
                datalog::key_views(names, keys@).contains(x) <==> all.take(
                    i as int + 1,
                ).contains(x) && engine::fits(x, asked) && !given_keys.contains(x) by {
                datalog::lemma_push_holds(all.take(i as int), key, x);
                assert(before.contains(x) <==> all.take(i as int).contains(x) && engine::fits(
                    x,
                    asked,
                ) && !given_keys.contains(x));
            }
        }
    }
    proof {
        assert(all.take(all.len() as int) =~= all);
        let found = datalog::key_views(names, keys@);
        assert forall|key: Seq<ValueView>| #[trigger] found.contains(key) <==> is_extra(
            engine@,
            pred@,
            asked,
            key,
        ) by {
            assert(all.contains(key) <==> key.len() == arity && datalog::present(
                engine@,
                rows,
                RowView { pred: pred@, key },
            ));
            assert(given_keys.contains(key) <==> update_laws::has_fact(relation, pred@, key)
                && engine::fits(key, asked));
            assert(held(engine@, pred@, key) <==> datalog::present(
                engine@,
                rows,
                RowView { pred: pred@, key },
            ));
        }
        lemma_extra_is(engine@, pred@, asked, found);
    }
    keys
}

impl Engine {
    /// Lists the rows of a relation that hold and fit a pattern, of rows that were derived and of
    /// the steps that derived them.
    fn list_held(
        &self,
        derived: &Vec<Row>,
        steps: &Vec<Step>,
        pred: &str,
        pattern: &Vec<Option<Value>>,
    ) -> (rows: Vec<Fact>)
        requires
            self.wf(),
            engine::known_pattern(self@.names, pattern@),
            datalog::known_rows(self@.names, derived@),
            support::known_steps(self@.names, steps@),
            forall|key: Seq<ValueView>|
                held(self@, pred@, key) <==> #[trigger] datalog::present(
                    self@,
                    datalog::row_views(self@.names, derived@),
                    RowView { pred: pred@, key },
                ),
            forall|key: Seq<ValueView>|
                #[trigger] tells_row(
                    self@,
                    support::step_views(self@.names, steps@),
                    pred@,
                    key,
                ),
        ensures
            engine::known_facts(self@.names, rows@),
            engine::fact_views(self@.names, rows@) == self@.rows(
                pred@,
                engine::pattern_view(self@.names, pattern@),
            ),
    {
        let ghost names = self@.names;
        let ghost asked = engine::pattern_view(names, pattern@);
        let given: Vec<Fact> = self.given_query(pred, pattern);
        let ghost facts = engine::fact_views(names, given@);
        let extra: Vec<Vec<Value>> = list_extra(self, derived, &given, pred, pattern);
        let ghost more = datalog::key_views(names, extra@);
        let ghost first = rows_of_facts(self@, pred@, facts);
        let ghost last = rows_of_keys(self@, pred@, more);
        let mut rows: Vec<Fact> = Vec::new();
        assert(engine::fact_views(names, rows@) =~= first.take(0));
        for i in 0..given.len()
            invariant
                self.wf(),
                names == self@.names,
                engine::known_facts(names, given@),
                facts == engine::fact_views(names, given@),
                first == rows_of_facts(self@, pred@, facts),
                support::known_steps(names, steps@),
                forall|key: Seq<ValueView>|
                    #[trigger] tells_row(
                        self@,
                        support::step_views(names, steps@),
                        pred@,
                        key,
                    ),
                engine::known_facts(names, rows@),
                engine::fact_views(names, rows@) == first.take(i as int),
        {
            assert(engine::known_key(names, given@[i as int].key@));
            assert(facts[i as int] == engine::fact_view(names, given@[i as int]));
            push_held(self, steps, pred, &given[i].key, &mut rows);
            assert(first.take(i as int + 1) =~= first.take(i as int).push(first[i as int]));
        }
        assert(first.take(first.len() as int) =~= first);
        assert(first + last.take(0) =~= first);
        for i in 0..extra.len()
            invariant
                self.wf(),
                names == self@.names,
                datalog::known_keys(names, extra@),
                more == datalog::key_views(names, extra@),
                last == rows_of_keys(self@, pred@, more),
                support::known_steps(names, steps@),
                forall|key: Seq<ValueView>|
                    #[trigger] tells_row(
                        self@,
                        support::step_views(names, steps@),
                        pred@,
                        key,
                    ),
                engine::known_facts(names, rows@),
                engine::fact_views(names, rows@) == first + last.take(i as int),
        {
            assert(engine::known_key(names, extra@[i as int]@));
            assert(more[i as int] == engine::key_view(names, extra@[i as int]@));
            push_held(self, steps, pred, &extra[i], &mut rows);
            assert(first + last.take(i as int + 1) =~= (first + last.take(i as int)).push(
                last[i as int],
            ));
        }
        assert(last.take(last.len() as int) =~= last);
        rows
    }

    /// The rows of a relation that hold and fit a pattern.
    pub fn query(&self, pred: &str, pattern: &Vec<Option<Value>>) -> (rows: Vec<Fact>)
        requires
            self.wf(),
            engine::known_pattern(self@.names, pattern@),
        ensures
            engine::known_facts(self@.names, rows@),
            engine::fact_views(self@.names, rows@) == self@.rows(
                pred@,
                engine::pattern_view(self@.names, pattern@),
            ),
    {
        let ghost names = self@.names;
        let rules: Vec<Rule> = defaults::list_rules(self.rules());
        let ghost all = defaults::all_rules(self@.rules);
        proof {
            self.lemma_rules();
            datalog::lemma_all_known(names, self@.rules);
        }
        if check_no_head(&rules, pred) {
            let derived: Vec<Row> = Vec::new();
            let steps: Vec<Step> = Vec::new();
            proof {
                assert(datalog::row_views(names, derived@) =~= Seq::<RowView>::empty());
                assert(support::step_views(names, steps@) =~= Seq::<StepView>::empty());
                assert forall|key: Seq<ValueView>|
                    held(self@, pred@, key) <==> #[trigger] datalog::present(
                        self@,
                        datalog::row_views(names, derived@),
                        RowView { pred: pred@, key },
                    ) by {
                    let row = RowView { pred: pred@, key };
                    stored_rows_follow(self@, all, row, row);
                }
                assert forall|key: Seq<ValueView>|
                    #[trigger] tells_row(
                        self@,
                        support::step_views(names, steps@),
                        pred@,
                        key,
                    ) by {
                    let row = RowView { pred: pred@, key };
                    assert forall|middle: RowView, other: RowView|
                        support::rests_on(self@, all, row, middle) implies (
                    #[trigger] support::step_uses(
                        support::step_views(names, steps@),
                        middle,
                        other,
                    ) <==> support::uses(self@, all, middle, other)) by {
                        stored_rows_follow(self@, all, row, middle);
                        stored_rows_follow(self@, all, row, other);
                    }
                }
            }
            return self.list_held(&derived, &steps, pred, pattern);
        }
        let derived: Vec<Row> = datalog::derive(self, &rules);
        let steps: Vec<Step> = support::list_steps(self, &rules, &derived);
        self.list_held(&derived, &steps, pred, pattern)
    }
}

} // verus!
