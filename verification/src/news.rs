//! What was created in a memory since its last turn.

use vstd::prelude::*;

use crate::datalog;
use crate::datalog::RowView;
use crate::engine;
use crate::engine::{Engine, Fact, FactView};
use crate::persistence;
use crate::query;
use crate::snapshot;
use crate::snapshot::SnapshotValue;
use crate::text;

verus! {

/// What tells a fact apart: its predicate and its values.
#[derive(Clone, Debug, PartialEq, Eq)]
pub struct Mark {
    pub pred: String,
    pub key: Vec<SnapshotValue>,
}

impl View for Mark {
    type V = RowView;

    open spec fn view(&self) -> RowView {
        RowView { pred: self.pred@, key: snapshot::value_views(self.key@) }
    }
}

/// Marks, as rows.
pub open spec fn mark_views(marks: Seq<Mark>) -> Seq<RowView> {
    marks.map_values(|mark: Mark| mark@)
}

/// Those of some facts that were not there at a turn.
pub open spec fn created(facts: Seq<FactView>, turn: Seq<RowView>) -> Seq<FactView>
    decreases facts.len(),
{
    if facts.len() == 0 {
        seq![]
    } else {
        let rest = created(facts.drop_last(), turn);
        let last = facts.last();
        if turn.contains(RowView { pred: last.pred, key: last.key }) {
            rest
        } else {
            rest.push(last)
        }
    }
}

/// How facts are told that were not there at a turn.
pub open spec fn news(facts: Seq<FactView>, turn: Seq<RowView>) -> Seq<Seq<char>> {
    created(facts, turn).map_values(|fact: FactView| query::row_shown(fact.pred, fact.key))
}

/// What was created is what is there now and was not there at the turn.
pub proof fn created_facts_are_new(facts: Seq<FactView>, turn: Seq<RowView>, fact: FactView)
    ensures
        created(facts, turn).contains(fact) <==> facts.contains(fact) && !turn.contains(
            RowView { pred: fact.pred, key: fact.key },
        ),
    decreases facts.len(),
{
    if facts.len() > 0 {
        let fewer = facts.drop_last();
        created_facts_are_new(fewer, turn, fact);
        datalog::lemma_push_holds(fewer, facts.last(), fact);
        datalog::lemma_push_holds(created(fewer, turn), facts.last(), fact);
        assert(facts =~= fewer.push(facts.last()));
    }
}

/// At a turn nothing is new.
pub proof fn nothing_is_new_at_a_turn(facts: Seq<FactView>)
    ensures
        news(facts, datalog::fact_rows(facts)) == Seq::<Seq<char>>::empty(),
{
    let turn = datalog::fact_rows(facts);
    let found = created(facts, turn);
    if found.len() > 0 {
        let fact = found[0];
        assert(found.contains(fact));
        created_facts_are_new(facts, turn, fact);
        let i = choose|i: int| 0 <= i < facts.len() && facts[i] == fact;
        assert(turn[i] == RowView { pred: fact.pred, key: fact.key });
    }
    assert(news(facts, turn) =~= Seq::<Seq<char>>::empty());
}

// -------------------------------------------------------------- functions
/// Whether two values are one.
fn same_value(a: &SnapshotValue, b: &SnapshotValue) -> (same: bool)
    ensures
        same == (a@ == b@),
{
    match (a, b) {
        (SnapshotValue::Symbol(a), SnapshotValue::Symbol(b)) => text::same_text(
            a.as_str(),
            b.as_str(),
        ),
        (SnapshotValue::Integer(a), SnapshotValue::Integer(b)) => *a == *b,
        _ => false,
    }
}

/// Whether two marks are one.
fn same_mark(a: &Mark, b: &Mark) -> (same: bool)
    ensures
        same == (a@ == b@),
{
    let ghost first = a@.key;
    let ghost second = b@.key;
    assert(first.len() == a.key@.len() && second.len() == b.key@.len());
    if a.key.len() != b.key.len() || !text::same_text(a.pred.as_str(), b.pred.as_str()) {
        return false;
    }
    for i in 0..a.key.len()
        invariant
            first == snapshot::value_views(a.key@),
            second == snapshot::value_views(b.key@),
            a.key@.len() == b.key@.len(),
            first == a@.key,
            second == b@.key,
            forall|j: int| 0 <= j < i ==> (#[trigger] first[j]) == second[j],
    {
        assert(first[i as int] == a.key@[i as int]@);
        assert(second[i as int] == b.key@[i as int]@);
        if !same_value(&a.key[i], &b.key[i]) {
            return false;
        }
    }
    assert(first =~= second);
    true
}

/// Whether a mark is among others.
fn is_marked(marks: &Vec<Mark>, mark: &Mark) -> (yes: bool)
    ensures
        yes == mark_views(marks@).contains(mark@),
{
    let ghost all = mark_views(marks@);
    for i in 0..marks.len()
        invariant
            all == mark_views(marks@),
            forall|j: int| 0 <= j < i ==> (#[trigger] all[j]) != mark@,
    {
        assert(all[i as int] == marks@[i as int]@);
        if same_mark(&marks[i], mark) {
            return true;
        }
    }
    assert(!all.contains(mark@)) by {
        if all.contains(mark@) {
            let j = choose|j: int| 0 <= j < all.len() && all[j] == mark@;
            assert(all[j] != mark@);
        }
    }
    false
}

/// Marks a fact.
fn mark_fact(engine: &Engine, fact: &Fact) -> (mark: Mark)
    requires
        engine.wf(),
        engine::known_key(engine@.names, fact.key@),
    ensures
        mark@ == (RowView {
            pred: fact.pred@,
            key: engine::key_view(engine@.names, fact.key@),
        }),
{
    Mark {
        pred: fact.pred.as_str().to_owned(),
        key: persistence::written_values(engine, &fact.key),
    }
}

/// Marks the facts of a store.
pub fn mark_facts(engine: &Engine) -> (marks: Vec<Mark>)
    requires
        engine.wf(),
    ensures
        mark_views(marks@) == datalog::fact_rows(engine@.facts),
{
    let facts: &Vec<Fact> = engine.facts();
    let ghost names = engine@.names;
    let ghost all = datalog::fact_rows(engine@.facts);
    let mut marks: Vec<Mark> = Vec::new();
    assert(mark_views(marks@) =~= all.take(0));
    for i in 0..facts.len()
        invariant
            engine.wf(),
            names == engine@.names,
            engine::known_facts(names, facts@),
            engine@.facts == engine::fact_views(names, facts@),
            all == datalog::fact_rows(engine@.facts),
            mark_views(marks@) == all.take(i as int),
    {
        let ghost before = mark_views(marks@);
        assert(engine::known_key(names, facts@[i as int].key@));
        assert(engine@.facts[i as int] == engine::fact_view(names, facts@[i as int]));
        marks.push(mark_fact(engine, &facts[i]));
        assert(mark_views(marks@) =~= before.push(all[i as int]));
        assert(all.take(i as int + 1) =~= all.take(i as int).push(all[i as int]));
    }
    assert(all.take(all.len() as int) =~= all);
    marks
}

/// Tells the facts of a store that were not there at a turn.
pub fn tell_news(engine: &Engine, turn: &Vec<Mark>) -> (told: Vec<String>)
    requires
        engine.wf(),
    ensures
        text::texts(told@) == news(engine@.facts, mark_views(turn@)),
{
    let facts: &Vec<Fact> = engine.facts();
    let ghost names = engine@.names;
    let ghost all = engine@.facts;
    let mut told: Vec<String> = Vec::new();
    assert(text::texts(told@) =~= news(all.take(0), mark_views(turn@)));
    for i in 0..facts.len()
        invariant
            engine.wf(),
            names == engine@.names,
            engine::known_facts(names, facts@),
            all == engine::fact_views(names, facts@),
            text::texts(told@) == news(all.take(i as int), mark_views(turn@)),
    {
        let ghost before = text::texts(told@);
        assert(all.take(i as int + 1).drop_last() =~= all.take(i as int));
        assert(engine::known_key(names, facts@[i as int].key@));
        assert(all[i as int] == engine::fact_view(names, facts@[i as int]));
        if !is_marked(turn, &mark_fact(engine, &facts[i])) {
            told.push(query::show_row(engine, facts[i].pred.as_str(), &facts[i].key));
            assert(text::texts(told@) =~= before.push(
                query::row_shown(all[i as int].pred, all[i as int].key),
            ));
        }
        assert(text::texts(told@) =~= news(all.take(i as int + 1), mark_views(turn@)));
    }
    assert(all.take(all.len() as int) =~= all);
    told
}

} // verus!
