//! What the update policy does, stated over the facts before and after.

use vstd::prelude::*;

use crate::datalog;
use crate::datalog::RowView;
use crate::engine;
use crate::engine::{AnnView, EngineView, FactView};
use crate::protocol::CandidateView;
use crate::rows;
use crate::search;
use crate::snapshot::ValueView;
use crate::sorted;
use crate::store_laws;
use crate::text;
use crate::text_laws;
use crate::row_laws;
use crate::update;
use crate::update::OutcomeView;
use crate::update_laws;

verus! {

/// The relation of the facts in a scope, or of those in none.
pub open spec fn table(scope: Option<Seq<char>>) -> Seq<char> {
    if scope is Some {
        "scoped_edge"@
    } else {
        "edge"@
    }
}

/// How many values stand before the subject.
pub open spec fn lead(scope: Option<Seq<char>>) -> int {
    if scope is Some {
        1
    } else {
        0
    }
}

/// Whether a row holds with the scope, the subject and the relation of a candidate, and has no end.
pub open spec fn is_open(
    store: EngineView,
    scope: Option<Seq<char>>,
    candidate: CandidateView,
    key: Seq<ValueView>,
) -> bool {
    let at = lead(scope);
    &&& datalog::holds(store, store.rules, RowView { pred: table(scope), key })
    &&& key.len() == at + 6
    &&& scope is Some ==> key[0] == ValueView::Symbol(scope->0)
    &&& key[at] == ValueView::Symbol(candidate.subj)
    &&& key[at + 1] == ValueView::Symbol(candidate.pred)
    &&& key[at + 4] == ValueView::Integer(0x7fff_ffff_ffff_ffff)
}

/// Whether an open row has the object of a candidate.
pub open spec fn says_the_same(
    scope: Option<Seq<char>>,
    candidate: CandidateView,
    key: Seq<ValueView>,
) -> bool {
    key[lead(scope) + 2] == ValueView::Symbol(candidate.obj)
}

/// The key of the fact that a candidate makes: its scope, subject, relation and object, valid from
/// now on without end, and asserted now.
pub open spec fn new_key(scope: Option<Seq<char>>, candidate: CandidateView, now: int) -> Seq<
    ValueView,
> {
    let own = seq![
        ValueView::Symbol(candidate.subj),
        ValueView::Symbol(candidate.pred),
        ValueView::Symbol(candidate.obj),
        ValueView::Integer(now),
        ValueView::Integer(0x7fff_ffff_ffff_ffff),
        ValueView::Integer(now),
    ];
    match scope {
        None => own,
        Some(name) => seq![ValueView::Symbol(name)] + own,
    }
}

proof fn lemma_names(scope: Option<Seq<char>>, candidate: CandidateView, now: int)
    ensures
        update::relation_name(scope) == table(scope),
        update::prefix(scope).len() == lead(scope),
        update::open_key(scope, candidate, now) == new_key(scope, candidate, now),
{
    let none = Seq::<ValueView>::empty();
    assert(update::open_key(scope, candidate, now) =~= new_key(scope, candidate, now));
}

proof fn lemma_open(
    store: EngineView,
    scope: Option<Seq<char>>,
    candidate: CandidateView,
    key: Seq<ValueView>,
)
    ensures
        is_open(store, scope, candidate, key) <==> update_laws::open_rival(
            store,
            scope,
            candidate,
            key,
        ),
{
    let at = lead(scope);
    let pattern = update::rival_pattern(scope, candidate);
    lemma_names(scope, candidate, 0);
    assert(pattern.len() == at + 6);
    assert(pattern[at] == Some(ValueView::Symbol(candidate.subj)));
    assert(pattern[at + 1] == Some(ValueView::Symbol(candidate.pred)));
    assert(pattern[at + 2] is None && pattern[at + 3] is None);
    assert(pattern[at + 4] is None && pattern[at + 5] is None);
    if scope is Some {
        assert(pattern[0] == Some(ValueView::Symbol(scope->0)));
    }
    if is_open(store, scope, candidate, key) {
        assert(engine::fits(key, pattern)) by {
            assert forall|i: int| 0 <= i < key.len() implies ((#[trigger] pattern[i]) matches Some(
                value,
            ) ==> key[i] == value) by {
                if i >= at {
                    assert(i == at || i == at + 1 || i == at + 2 || i == at + 3 || i == at + 4 || i
                        == at + 5);
                }
            }
        }
    }
}

/// The rivals of a candidate are what is open.
proof fn lemma_rivals(
    store: EngineView,
    scope: Option<Seq<char>>,
    candidate: CandidateView,
    key: Seq<ValueView>,
)
    ensures
        rows::has_row(
            update::rivals(update::prepared(store, scope, candidate), scope, candidate),
            key,
        ) <==> is_open(store, scope, candidate, key),
{
    let ready = update::prepared(store, scope, candidate);
    update_laws::rivals_are_open_and_compete(ready, scope, candidate, key);
    lemma_open(store, scope, candidate, key);
    lemma_open(ready, scope, candidate, key);
    datalog::lemma_same_store(
        store,
        ready,
        store.rules,
        RowView { pred: table(scope), key },
    );
}

proof fn lemma_same(open: Seq<FactView>, at: int, object: Seq<char>)
    ensures
        match update::same_object(open, at, object) {
            Some(i) => 0 <= i < open.len() && open[i].key[at + 2] == ValueView::Symbol(object),
            None => forall|i: int|
                0 <= i < open.len() ==> (#[trigger] open[i]).key[at + 2] != ValueView::Symbol(
                    object,
                ),
        },
    decreases open.len(),
{
    if open.len() > 0 {
        let fewer = open.drop_last();
        lemma_same(fewer, at, object);
        if update::same_object(open, at, object) is None {
            assert forall|i: int| 0 <= i < open.len() implies (#[trigger] open[i]).key[at + 2]
                != ValueView::Symbol(object) by {
                if i < fewer.len() {
                    assert(fewer[i] == open[i]);
                }
            }
        }
    }
}

/// What a candidate comes to is decided by what is open of its subject and relation: nothing, and it
/// is added; what says the same, and nothing is to be done; something else, and it supersedes where
/// the relation is exclusive, and conflicts where it is not.
pub proof fn outcome_is_decided_by_what_is_open(
    store: EngineView,
    scope: Option<Seq<char>>,
    candidate: CandidateView,
    episode: Seq<char>,
    provenance: Seq<Seq<char>>,
)
    ensures
        ({
            let outcome = update::updated(store, scope, candidate, episode, provenance).1;
            let any = exists|key: Seq<ValueView>| #[trigger]
                is_open(store, scope, candidate, key);
            let same = exists|key: Seq<ValueView>| #[trigger]
                is_open(store, scope, candidate, key) && says_the_same(scope, candidate, key);
            let exclusive = datalog::holds(
                store,
                store.rules,
                RowView { pred: "exclusive"@, key: seq![ValueView::Symbol(candidate.pred)] },
            );
            &&& outcome is Added <==> !any
            &&& outcome is Noop <==> same
            &&& outcome is Updated <==> any && !same && exclusive
            &&& outcome is Conflict <==> any && !same && !exclusive
        }),
{
    let ready = update::prepared(store, scope, candidate);
    let open = update::rivals(ready, scope, candidate);
    let at = lead(scope);
    lemma_names(scope, candidate, store.now);
    lemma_same(open, at, candidate.obj);
    datalog::lemma_same_store(
        store,
        ready,
        store.rules,
        RowView { pred: "exclusive"@, key: seq![ValueView::Symbol(candidate.pred)] },
    );
    if open.len() > 0 {
        lemma_rivals(store, scope, candidate, open[0].key);
        assert(is_open(store, scope, candidate, open[0].key));
    }
    if let Some(i) = update::same_object(open, at, candidate.obj) {
        lemma_rivals(store, scope, candidate, open[i].key);
        assert(is_open(store, scope, candidate, open[i].key));
    }
    if exists|key: Seq<ValueView>| #[trigger] is_open(store, scope, candidate, key) {
        let key = choose|key: Seq<ValueView>| #[trigger] is_open(store, scope, candidate, key);
        lemma_rivals(store, scope, candidate, key);
        assert(open.len() > 0);
    }
    if exists|key: Seq<ValueView>| #[trigger]
        is_open(store, scope, candidate, key) && says_the_same(scope, candidate, key) {
        let key = choose|key: Seq<ValueView>| #[trigger]
            is_open(store, scope, candidate, key) && says_the_same(scope, candidate, key);
        lemma_rivals(store, scope, candidate, key);
        let k = choose|k: int| 0 <= k < open.len() && (#[trigger] open[k]).key == key;
        assert(open[k].key[at + 2] == ValueView::Symbol(candidate.obj));
    }
}

/// Whether a key is the one that an update asserts: that of an open row that says the same, where
/// there is one, and else the new one.
pub open spec fn is_asserted(
    store: EngineView,
    scope: Option<Seq<char>>,
    candidate: CandidateView,
    outcome: OutcomeView,
    key: Seq<ValueView>,
) -> bool {
    if outcome is Noop {
        is_open(store, scope, candidate, key) && says_the_same(scope, candidate, key)
    } else {
        key == new_key(scope, candidate, store.now)
    }
}

proof fn lemma_asserted_key(
    store: EngineView,
    scope: Option<Seq<char>>,
    candidate: CandidateView,
    episode: Seq<char>,
    provenance: Seq<Seq<char>>,
) -> (key: Seq<ValueView>)
    ensures
        ({
            let ready = update::prepared(store, scope, candidate);
            let open = update::rivals(ready, scope, candidate);
            let (after, outcome) = update::updated(store, scope, candidate, episode, provenance);
            let ann = update::assertion(candidate, episode, provenance);
            &&& is_asserted(store, scope, candidate, outcome, key)
            &&& !(outcome is Updated) ==> after.facts == engine::declared(
                store.facts,
                table(scope),
                key,
                ann,
            )
            &&& outcome is Updated ==> after.facts == engine::declared(
                update::with_closed(ready, table(scope), open, lead(scope)).facts,
                table(scope),
                key,
                ann,
            )
        }),
{
    let ready = update::prepared(store, scope, candidate);
    let open = update::rivals(ready, scope, candidate);
    let at = lead(scope);
    let (after, outcome) = update::updated(store, scope, candidate, episode, provenance);
    lemma_names(scope, candidate, store.now);
    lemma_same(open, at, candidate.obj);
    if outcome is Noop {
        let i = update::same_object(open, at, candidate.obj)->0;
        lemma_rivals(store, scope, candidate, open[i].key);
        assert(rows::has_row(open, open[i].key));
        open[i].key
    } else {
        new_key(scope, candidate, store.now)
    }
}

/// Facts are closed by supersession alone: where a candidate is added, is there already or
/// conflicts, every fact stays as it was, with its key and its annotation, but for the one that is
/// asserted; and no other fact comes.
pub proof fn only_supersession_closes_facts(
    store: EngineView,
    scope: Option<Seq<char>>,
    candidate: CandidateView,
    episode: Seq<char>,
    provenance: Seq<Seq<char>>,
    fact: FactView,
)
    ensures
        ({
            let (after, outcome) = update::updated(store, scope, candidate, episode, provenance);
            !(outcome is Updated) ==> exists|key: Seq<ValueView>|
                #[trigger] is_asserted(store, scope, candidate, outcome, key) && (fact.pred
                    == table(scope) && fact.key == key || (after.facts.contains(fact)
                    <==> store.facts.contains(fact)))
        }),
        ({
            let (after, outcome) = update::updated(store, scope, candidate, episode, provenance);
            outcome is Added || outcome is Conflict ==> (store.facts.contains(fact) && !(fact.pred
                == table(scope) && fact.key == new_key(scope, candidate, store.now))
                ==> after.facts.contains(fact))
        }),
{
    let (after, outcome) = update::updated(store, scope, candidate, episode, provenance);
    let key = lemma_asserted_key(store, scope, candidate, episode, provenance);
    let ann = update::assertion(candidate, episode, provenance);
    assert(is_asserted(store, scope, candidate, outcome, key));
    if !(fact.pred == table(scope) && fact.key == key) {
        update_laws::declare_keeps_others(store.facts, table(scope), key, ann, fact);
    }
}

/// A key that ends at a time.
pub open spec fn ended(scope: Option<Seq<char>>, key: Seq<ValueView>, now: int) -> Seq<ValueView> {
    key.update(lead(scope) + 4, ValueView::Integer(now))
}

proof fn lemma_closed_keeps(
    store: EngineView,
    scope: Option<Seq<char>>,
    open: Seq<FactView>,
    fact: FactView,
)
    requires
        forall|i: int|
            0 <= i < open.len() ==> !engine::is_fact(
                fact,
                table(scope),
                (#[trigger] open[i]).key,
            ) && !engine::is_fact(fact, table(scope), ended(scope, open[i].key, store.now)),
    ensures
        update::with_closed(store, table(scope), open, lead(scope)).facts.contains(fact)
            <==> store.facts.contains(fact),
    decreases open.len(),
{
    if open.len() > 0 {
        let fewer = open.drop_last();
        let at = lead(scope);
        let before = update::with_closed(store, table(scope), fewer, at);
        let key = open.last().key;
        assert(open[open.len() - 1].key == key);
        assert forall|i: int| 0 <= i < fewer.len() implies !engine::is_fact(
            fact,
            table(scope),
            (#[trigger] fewer[i]).key,
        ) && !engine::is_fact(fact, table(scope), ended(scope, fewer[i].key, store.now)) by {
            assert(fewer[i] == open[i]);
        }
        lemma_closed_keeps(store, scope, fewer, fact);
        update_laws::retract_keeps_others(before.facts, table(scope), key, fact);
        update_laws::declare_keeps_others(
            before.without_fact(table(scope), key).facts,
            table(scope),
            update::closed_key(key, at, store.now),
            update::superseded(),
            fact,
        );
    }
}

/// Closed facts are gone, and stand there with their end.
proof fn lemma_closed_gone(
    store: EngineView,
    scope: Option<Seq<char>>,
    open: Seq<FactView>,
    n: int,
)
    requires
        store_laws::regular(store.facts),
        store.now != 0x7fff_ffff_ffff_ffff,
        0 <= n < open.len(),
        forall|i: int|
            0 <= i < open.len() ==> (#[trigger] open[i]).key.len() == lead(scope) + 6
                && open[i].key[lead(scope) + 4] == ValueView::Integer(0x7fff_ffff_ffff_ffff),
    ensures
        ({
            let after = update::with_closed(store, table(scope), open, lead(scope)).facts;
            &&& !update_laws::has_fact(after, table(scope), open[n].key)
            &&& exists|i: int|
                0 <= i < after.len() && engine::is_fact(
                    #[trigger] after[i],
                    table(scope),
                    ended(scope, open[n].key, store.now),
                ) && closed_with(
                    store.facts,
                    table(scope),
                    ended(scope, open[n].key, store.now),
                    after[i].ann,
                )
        }),
    decreases open.len(), 1int,
{
    let fewer = open.drop_last();
    let at = lead(scope);
    let before = update::with_closed(store, table(scope), fewer, at);
    let key = open.last().key;
    let closed = ended(scope, key, store.now);
    let mid = before.without_fact(table(scope), key).facts;
    let after = update::with_closed(store, table(scope), open, at).facts;
    store_laws::relations_are_plain(scope);
    lemma_names(scope, CandidateView { subj: seq![], pred: seq![], obj: seq![], confidence: seq![] }, 0);
    store_laws::lemma_closed_regular(store, table(scope), fewer, at);
    store_laws::retract_keeps_regular(before.facts, table(scope), key);
    assert(open[open.len() - 1].key == key);
    assert(closed[at + 4] == ValueView::Integer(store.now));
    let mine = open[n].key;
    let done = ended(scope, mine, store.now);
    assert(mine[at + 4] != closed[at + 4]);
    update_laws::retract_removes_one(before.facts, table(scope), key, table(scope), mine);
    update_laws::declare_adds_one(
        mid,
        table(scope),
        closed,
        update::superseded(),
        table(scope),
        mine,
    );
    if n < fewer.len() {
        assert forall|i: int| 0 <= i < fewer.len() implies (#[trigger] fewer[i]).key.len() == at + 6
            && fewer[i].key[at + 4] == ValueView::Integer(0x7fff_ffff_ffff_ffff) by {
            assert(fewer[i] == open[i]);
        }
        lemma_closed_gone(store, scope, fewer, n);
        assert(fewer[n] == open[n]);
        let i = choose|i: int|
            0 <= i < before.facts.len() && engine::is_fact(
                #[trigger] before.facts[i],
                table(scope),
                done,
            ) && closed_with(store.facts, table(scope), done, before.facts[i].ann);
        let fact = before.facts[i];
        assert(before.facts.contains(fact));
        assert(done[at + 4] == ValueView::Integer(store.now));
        assert(done[at + 4] != key[at + 4]);
        update_laws::retract_keeps_others(before.facts, table(scope), key, fact);
        if done == closed {
            lemma_closed_again(store, scope, open);
        } else {
            update_laws::declare_keeps_others(
                mid,
                table(scope),
                closed,
                update::superseded(),
                fact,
            );
            let k = choose|k: int| 0 <= k < after.len() && after[k] == fact;
            assert(engine::is_fact(after[k], table(scope), done));
        }
    } else {
        lemma_closed_again(store, scope, open);
    }
}

/// Whether an annotation is that of a fact that was ended: it is said to be superseded, with the
/// default confidence, beside what the fact with that end had before.
pub open spec fn closed_with(
    facts: Seq<FactView>,
    pred: Seq<char>,
    key: Seq<ValueView>,
    ann: AnnView,
) -> bool {
    &&& forall|x: Seq<char>|
        #[trigger] ann.conf.contains(x) <==> x == "0.9"@ || earlier(facts, pred, key, x, true)
    &&& forall|x: Seq<char>|
        #[trigger] ann.prov.contains(x) <==> x == "superseded"@ || earlier(
            facts,
            pred,
            key,
            x,
            false,
        )
}

proof fn lemma_earlier_same(
    a: Seq<FactView>,
    b: Seq<FactView>,
    pred: Seq<char>,
    key: Seq<ValueView>,
    x: Seq<char>,
    confidence: bool,
)
    requires
        forall|fact: FactView|
            engine::is_fact(fact, pred, key) ==> (a.contains(fact) <==> #[trigger] b.contains(
                fact,
            )),
    ensures
        earlier(a, pred, key, x, confidence) <==> earlier(b, pred, key, x, confidence),
{
    if earlier(a, pred, key, x, confidence) {
        let j = choose|j: int|
            0 <= j < a.len() && engine::is_fact(#[trigger] a[j], pred, key) && (if confidence {
                a[j].ann.conf.contains(x)
            } else {
                a[j].ann.prov.contains(x)
            });
        assert(a.contains(a[j]));
        assert(b.contains(a[j]));
        let k = choose|k: int| 0 <= k < b.len() && b[k] == a[j];
        assert(engine::is_fact(b[k], pred, key));
    }
    if earlier(b, pred, key, x, confidence) {
        let j = choose|j: int|
            0 <= j < b.len() && engine::is_fact(#[trigger] b[j], pred, key) && (if confidence {
                b[j].ann.conf.contains(x)
            } else {
                b[j].ann.prov.contains(x)
            });
        assert(b.contains(b[j]));
        assert(a.contains(b[j]));
        let k = choose|k: int| 0 <= k < a.len() && a[k] == b[j];
        assert(engine::is_fact(a[k], pred, key));
    }
}

/// The last of some facts that are closed stands there with its end, and with what it had.
proof fn lemma_closed_again(store: EngineView, scope: Option<Seq<char>>, open: Seq<FactView>)
    requires
        store_laws::regular(store.facts),
        store.now != 0x7fff_ffff_ffff_ffff,
        0 < open.len(),
        forall|i: int|
            0 <= i < open.len() ==> (#[trigger] open[i]).key.len() == lead(scope) + 6
                && open[i].key[lead(scope) + 4] == ValueView::Integer(0x7fff_ffff_ffff_ffff),
    ensures
        ({
            let after = update::with_closed(store, table(scope), open, lead(scope)).facts;
            let done = ended(scope, open.last().key, store.now);
            exists|i: int|
                0 <= i < after.len() && engine::is_fact(#[trigger] after[i], table(scope), done)
                    && closed_with(store.facts, table(scope), done, after[i].ann)
        }),
    decreases open.len(), 0int,
{
    let fewer = open.drop_last();
    let at = lead(scope);
    let before = update::with_closed(store, table(scope), fewer, at);
    let key = open.last().key;
    let closed = ended(scope, key, store.now);
    let mid = before.without_fact(table(scope), key).facts;
    let after = update::with_closed(store, table(scope), open, at).facts;
    store_laws::relations_are_plain(scope);
    lemma_names(scope, CandidateView { subj: seq![], pred: seq![], obj: seq![], confidence: seq![] }, 0);
    store_laws::lemma_closed_regular(store, table(scope), fewer, at);
    store_laws::retract_keeps_regular(before.facts, table(scope), key);
    assert(open[open.len() - 1].key == key);
    assert(closed[at + 4] == ValueView::Integer(store.now));
    assert(closed[at + 4] != key[at + 4]);
    assert forall|i: int| 0 <= i < fewer.len() implies (#[trigger] fewer[i]).key.len() == at + 6
        && fewer[i].key[at + 4] == ValueView::Integer(0x7fff_ffff_ffff_ffff) by {
        assert(fewer[i] == open[i]);
    }
    lemma_declared(mid, table(scope), closed, update::superseded());
    lemma_superseded();
    let i = choose|i: int|
        0 <= i < after.len() && engine::is_fact(#[trigger] after[i], table(scope), closed)
            && annotated(mid, table(scope), closed, update::superseded(), after[i].ann);
    assert forall|fact: FactView| engine::is_fact(fact, table(scope), closed) implies (
    mid.contains(fact) <==> #[trigger] before.facts.contains(fact)) by {
        update_laws::retract_keeps_others(before.facts, table(scope), key, fact);
    }
    assert forall|x: Seq<char>, confidence: bool| (#[trigger] earlier(
        mid,
        table(scope),
        closed,
        x,
        confidence,
    ) ==> earlier(store.facts, table(scope), closed, x, confidence) || x == (if confidence {
        "0.9"@
    } else {
        "superseded"@
    })) && (earlier(store.facts, table(scope), closed, x, confidence) ==> earlier(
        mid,
        table(scope),
        closed,
        x,
        confidence,
    )) by {
        lemma_earlier_same(mid, before.facts, table(scope), closed, x, confidence);
        if exists|m: int|
            0 <= m < fewer.len() && ended(scope, (#[trigger] fewer[m]).key, store.now) == closed {
            let m = choose|m: int|
                0 <= m < fewer.len() && ended(scope, (#[trigger] fewer[m]).key, store.now)
                    == closed;
            lemma_closed_gone(store, scope, fewer, m);
            let k = choose|k: int|
                0 <= k < before.facts.len() && engine::is_fact(
                    #[trigger] before.facts[k],
                    table(scope),
                    closed,
                ) && closed_with(store.facts, table(scope), closed, before.facts[k].ann);
            lemma_earlier(before.facts, table(scope), closed, k, x, confidence);
        } else {
            assert forall|fact: FactView| engine::is_fact(fact, table(scope), closed) implies (
            before.facts.contains(fact) <==> #[trigger] store.facts.contains(fact)) by {
                assert forall|m: int| 0 <= m < fewer.len() implies !engine::is_fact(
                    fact,
                    table(scope),
                    (#[trigger] fewer[m]).key,
                ) && !engine::is_fact(
                    fact,
                    table(scope),
                    ended(scope, fewer[m].key, store.now),
                ) by {
                    assert(fewer[m].key[at + 4] != closed[at + 4]);
                }
                lemma_closed_keeps(store, scope, fewer, fact);
            }
            lemma_earlier_same(before.facts, store.facts, table(scope), closed, x, confidence);
        }
    }
    assert(closed_with(store.facts, table(scope), closed, after[i].ann));
}

proof fn lemma_superseded()
    ensures
        forall|x: Seq<char>| #[trigger]
            update::superseded().prov.contains(x) <==> x == "superseded"@,
        forall|x: Seq<char>| #[trigger] update::superseded().conf.contains(x) <==> x == "0.9"@,
{
    assert(sorted::ordered(Seq::<Seq<char>>::empty()));
    sorted::lemma_placed_all(seq![], seq!["superseded"@]);
    assert(seq!["superseded"@][0] == "superseded"@);
    assert(seq!["0.9"@][0] == "0.9"@);
    assert(update::superseded().conf =~= seq!["0.9"@]);
}

pub proof fn lemma_joined(list: Seq<Seq<char>>, more: Seq<Seq<char>>, x: Seq<char>)
    ensures
        engine::joined(list, more).contains(x) <==> list.contains(x) || more.contains(x),
    decreases more.len(),
{
    if more.len() > 0 {
        let fewer = more.drop_last();
        lemma_joined(list, fewer, x);
        datalog::lemma_push_holds(fewer, more.last(), x);
        assert(more =~= fewer.push(more.last()));
        datalog::lemma_push_holds(engine::joined(list, fewer), more.last(), x);
    }
}

/// The annotation of an asserted fact holds what was asserted and, where the fact was there, what
/// it had, and nothing else.
proof fn lemma_declared(
    facts: Seq<FactView>,
    pred: Seq<char>,
    key: Seq<ValueView>,
    ann: AnnView,
)
    requires
        store_laws::regular(facts),
    ensures
        ({
            let after = engine::declared(facts, pred, key, ann);
            exists|i: int|
                0 <= i < after.len() && engine::is_fact(#[trigger] after[i], pred, key)
                    && annotated(facts, pred, key, ann, after[i].ann)
        }),
        ({
            let after = engine::declared(facts, pred, key, ann);
            exists|i: int|
                0 <= i < after.len() && engine::is_fact(#[trigger] after[i], pred, key) && forall|
                    x: Seq<char>,
                |
                    ann.prov.contains(x) ==> after[i].ann.prov.contains(x)
        }),
{
    let after = engine::declared(facts, pred, key, ann);
    engine::lemma_place_of(facts, pred, key);
    match engine::place_of(facts, pred, key) {
        Some(i) => {
            let had = facts[i].ann;
            let has = after[i].ann;
            assert(store_laws::regular_fact(facts[i]));
            assert forall|x: Seq<char>| #[trigger] has.conf.contains(x) <==> ann.conf.contains(x)
                || earlier(facts, pred, key, x, true) by {
                lemma_joined(had.conf, ann.conf, x);
                lemma_earlier(facts, pred, key, i, x, true);
            }
            sorted::lemma_placed_all(had.prov, ann.prov);
            assert forall|x: Seq<char>| #[trigger] has.prov.contains(x) <==> ann.prov.contains(x)
                || earlier(facts, pred, key, x, false) by {
                lemma_earlier(facts, pred, key, i, x, false);
            }
            assert(engine::is_fact(after[i], pred, key));
            assert(annotated(facts, pred, key, ann, after[i].ann));
        },
        None => {
            let i = facts.len() as int;
            assert(engine::is_fact(after[i], pred, key));
            assert(annotated(facts, pred, key, ann, after[i].ann));
        },
    }
}

/// Whether a fact of a predicate and a key had a confidence or a reference.
pub open spec fn earlier(
    facts: Seq<FactView>,
    pred: Seq<char>,
    key: Seq<ValueView>,
    x: Seq<char>,
    confidence: bool,
) -> bool {
    exists|j: int|
        0 <= j < facts.len() && engine::is_fact(#[trigger] facts[j], pred, key) && (if confidence {
            facts[j].ann.conf.contains(x)
        } else {
            facts[j].ann.prov.contains(x)
        })
}

proof fn lemma_earlier(
    facts: Seq<FactView>,
    pred: Seq<char>,
    key: Seq<ValueView>,
    i: int,
    x: Seq<char>,
    confidence: bool,
)
    requires
        store_laws::unique(facts),
        0 <= i < facts.len(),
        engine::is_fact(facts[i], pred, key),
    ensures
        earlier(facts, pred, key, x, confidence) <==> (if confidence {
            facts[i].ann.conf.contains(x)
        } else {
            facts[i].ann.prov.contains(x)
        }),
{
    if earlier(facts, pred, key, x, confidence) {
        let j = choose|j: int|
            0 <= j < facts.len() && engine::is_fact(#[trigger] facts[j], pred, key) && (
            if confidence {
                facts[j].ann.conf.contains(x)
            } else {
                facts[j].ann.prov.contains(x)
            });
        if j < i {
            assert(!engine::is_fact(facts[j], facts[i].pred, facts[i].key));
        } else if i < j {
            assert(!engine::is_fact(facts[i], facts[j].pred, facts[j].key));
        }
    }
}

/// Whether an annotation holds what was asserted and what a fact had before.
pub open spec fn annotated(
    facts: Seq<FactView>,
    pred: Seq<char>,
    key: Seq<ValueView>,
    ann: AnnView,
    has: AnnView,
) -> bool {
    &&& forall|x: Seq<char>|
        #[trigger] has.conf.contains(x) <==> ann.conf.contains(x) || earlier(
            facts,
            pred,
            key,
            x,
            true,
        )
    &&& forall|x: Seq<char>|
        #[trigger] has.prov.contains(x) <==> ann.prov.contains(x) || earlier(
            facts,
            pred,
            key,
            x,
            false,
        )
}

/// A candidate that supersedes ends each open fact of its subject and relation now: it is there no
/// more, and stands there with its end, with the default confidence, and refers to nothing but that it
/// was superseded, beside what a fact with that end had before.
pub proof fn supersession_ends_what_is_open(
    store: EngineView,
    scope: Option<Seq<char>>,
    candidate: CandidateView,
    episode: Seq<char>,
    provenance: Seq<Seq<char>>,
    key: Seq<ValueView>,
)
    requires
        store_laws::regular(store.facts),
        store.now != 0x7fff_ffff_ffff_ffff,
        update::updated(store, scope, candidate, episode, provenance).1 is Updated,
        is_open(store, scope, candidate, key),
    ensures
        ({
            let after = update::updated(store, scope, candidate, episode, provenance).0.facts;
            &&& !update_laws::has_fact(after, table(scope), key)
            &&& exists|i: int|
                0 <= i < after.len() && engine::is_fact(
                    #[trigger] after[i],
                    table(scope),
                    key.update(lead(scope) + 4, ValueView::Integer(store.now)),
                ) && closed_with(
                    store.facts,
                    table(scope),
                    key.update(lead(scope) + 4, ValueView::Integer(store.now)),
                    after[i].ann,
                )
        }),
{
    let ready = update::prepared(store, scope, candidate);
    let open = update::rivals(ready, scope, candidate);
    let at = lead(scope);
    let after = update::updated(store, scope, candidate, episode, provenance).0.facts;
    let ann = update::assertion(candidate, episode, provenance);
    let fresh = lemma_asserted_key(store, scope, candidate, episode, provenance);
    lemma_rivals(store, scope, candidate, key);
    let n = choose|n: int| 0 <= n < open.len() && (#[trigger] open[n]).key == key;
    assert forall|i: int| 0 <= i < open.len() implies (#[trigger] open[i]).key.len() == at + 6
        && open[i].key[at + 4] == ValueView::Integer(0x7fff_ffff_ffff_ffff) by {
        lemma_rivals(store, scope, candidate, open[i].key);
        assert(rows::has_row(open, open[i].key));
    }
    lemma_closed_gone(ready, scope, open, n);
    outcome_is_decided_by_what_is_open(store, scope, candidate, episode, provenance);
    let mid = update::with_closed(ready, table(scope), open, at).facts;
    assert(fresh != key) by {
        if fresh == key {
            assert(key[at + 2] == ValueView::Symbol(candidate.obj));
            assert(says_the_same(scope, candidate, key));
        }
    }
    update_laws::declare_adds_one(mid, table(scope), fresh, ann, table(scope), key);
    let done = ended(scope, key, store.now);
    let i = choose|i: int|
        0 <= i < mid.len() && engine::is_fact(#[trigger] mid[i], table(scope), done)
            && closed_with(store.facts, table(scope), done, mid[i].ann);
    let fact = mid[i];
    assert(mid.contains(fact));
    assert(done[at + 4] == ValueView::Integer(store.now));
    assert(fresh[at + 4] == ValueView::Integer(0x7fff_ffff_ffff_ffff));
    update_laws::declare_keeps_others(mid, table(scope), fresh, ann, fact);
    let k = choose|k: int| 0 <= k < after.len() && after[k] == fact;
    assert(engine::is_fact(after[k], table(scope), done));
}

/// A candidate that supersedes leaves every fact as it was that is neither open of its subject and
/// relation, nor one with the end that these get, nor the new one.
pub proof fn supersession_leaves_the_others(
    store: EngineView,
    scope: Option<Seq<char>>,
    candidate: CandidateView,
    episode: Seq<char>,
    provenance: Seq<Seq<char>>,
    fact: FactView,
)
    requires
        update::updated(store, scope, candidate, episode, provenance).1 is Updated,
        !(fact.pred == table(scope) && fact.key == new_key(scope, candidate, store.now)),
        forall|key: Seq<ValueView>| #[trigger]
            is_open(store, scope, candidate, key) ==> !(fact.pred == table(scope) && (fact.key
                == key || fact.key == key.update(
                lead(scope) + 4,
                ValueView::Integer(store.now),
            ))),
    ensures
        update::updated(store, scope, candidate, episode, provenance).0.facts.contains(fact)
            <==> store.facts.contains(fact),
{
    let ready = update::prepared(store, scope, candidate);
    let open = update::rivals(ready, scope, candidate);
    let at = lead(scope);
    let ann = update::assertion(candidate, episode, provenance);
    let fresh = lemma_asserted_key(store, scope, candidate, episode, provenance);
    assert forall|i: int| 0 <= i < open.len() implies !engine::is_fact(
        fact,
        table(scope),
        (#[trigger] open[i]).key,
    ) && !engine::is_fact(fact, table(scope), ended(scope, open[i].key, ready.now)) by {
        lemma_rivals(store, scope, candidate, open[i].key);
        assert(rows::has_row(open, open[i].key));
        assert(is_open(store, scope, candidate, open[i].key));
    }
    lemma_closed_keeps(ready, scope, open, fact);
    update_laws::declare_keeps_others(
        update::with_closed(ready, table(scope), open, at).facts,
        table(scope),
        fresh,
        ann,
        fact,
    );
}

/// The fact that an update asserts has the confidence of the candidate, and refers to the episode
/// and to all that the caller gave. It keeps the confidences and the references that it had, and
/// has no others.
pub proof fn asserted_fact_has_its_references(
    store: EngineView,
    scope: Option<Seq<char>>,
    candidate: CandidateView,
    episode: Seq<char>,
    provenance: Seq<Seq<char>>,
)
    requires
        store_laws::regular(store.facts),
        !(update::updated(store, scope, candidate, episode, provenance).1 is Updated),
    ensures
        ({
            let (after, outcome) = update::updated(store, scope, candidate, episode, provenance);
            exists|i: int|
                0 <= i < after.facts.len() && (#[trigger] after.facts[i]).pred == table(scope)
                    && is_asserted(store, scope, candidate, outcome, after.facts[i].key) && {
                    let fact = after.facts[i];
                    &&& forall|x: Seq<char>|
                        #[trigger] fact.ann.conf.contains(x) <==> x == candidate.confidence
                            || earlier(store.facts, table(scope), fact.key, x, true)
                    &&& forall|x: Seq<char>|
                        #[trigger] fact.ann.prov.contains(x) <==> x == episode
                            || provenance.contains(x) || earlier(
                            store.facts,
                            table(scope),
                            fact.key,
                            x,
                            false,
                        )
                }
        }),
{
    let (after, outcome) = update::updated(store, scope, candidate, episode, provenance);
    let ann = update::assertion(candidate, episode, provenance);
    let key = lemma_asserted_key(store, scope, candidate, episode, provenance);
    lemma_declared(store.facts, table(scope), key, ann);
    lemma_assertion(candidate, episode, provenance);
    let i = choose|i: int|
        0 <= i < after.facts.len() && engine::is_fact(#[trigger] after.facts[i], table(scope), key)
            && annotated(store.facts, table(scope), key, ann, after.facts[i].ann);
    let fact = after.facts[i];
    assert forall|x: Seq<char>| #[trigger] fact.ann.conf.contains(x) <==> x == candidate.confidence
        || earlier(store.facts, table(scope), fact.key, x, true) by {
        assert(ann.conf.contains(x) <==> x == candidate.confidence);
    }
    assert forall|x: Seq<char>| #[trigger] fact.ann.prov.contains(x) <==> x == episode
        || provenance.contains(x) || earlier(store.facts, table(scope), fact.key, x, false) by {
        assert(ann.prov.contains(x) <==> x == episode || provenance.contains(x));
    }
}

/// The fact of a candidate that supersedes has the confidence of the candidate, and refers to the
/// episode and to all that the caller gave, and to nothing else.
pub proof fn superseding_fact_has_its_references(
    store: EngineView,
    scope: Option<Seq<char>>,
    candidate: CandidateView,
    episode: Seq<char>,
    provenance: Seq<Seq<char>>,
)
    requires
        store_laws::regular(store.facts),
        store.now != 0x7fff_ffff_ffff_ffff,
        update::updated(store, scope, candidate, episode, provenance).1 is Updated,
    ensures
        ({
            let after = update::updated(store, scope, candidate, episode, provenance).0;
            exists|i: int|
                0 <= i < after.facts.len() && (#[trigger] after.facts[i]).pred == table(scope)
                    && after.facts[i].key == new_key(scope, candidate, store.now) && {
                    let ann = after.facts[i].ann;
                    &&& forall|x: Seq<char>|
                        #[trigger] ann.conf.contains(x) <==> x == candidate.confidence
                    &&& forall|x: Seq<char>|
                        #[trigger] ann.prov.contains(x) <==> x == episode || provenance.contains(x)
                }
        }),
{
    let ready = update::prepared(store, scope, candidate);
    let open = update::rivals(ready, scope, candidate);
    let at = lead(scope);
    let mid = update::with_closed(ready, table(scope), open, at).facts;
    let after = update::updated(store, scope, candidate, episode, provenance).0;
    let ann = update::assertion(candidate, episode, provenance);
    let key = lemma_asserted_key(store, scope, candidate, episode, provenance);
    lemma_names(scope, candidate, store.now);
    store_laws::relations_are_plain(scope);
    store_laws::lemma_closed_regular(ready, table(scope), open, at);
    lemma_declared(mid, table(scope), key, ann);
    lemma_assertion(candidate, episode, provenance);
    let i = choose|i: int|
        0 <= i < after.facts.len() && engine::is_fact(#[trigger] after.facts[i], table(scope), key)
            && annotated(mid, table(scope), key, ann, after.facts[i].ann);
    assert forall|x: Seq<char>, confidence: bool| !#[trigger] earlier(
        mid,
        table(scope),
        key,
        x,
        confidence,
    ) by {
        if earlier(mid, table(scope), key, x, confidence) {
            let j = choose|j: int|
                0 <= j < mid.len() && engine::is_fact(#[trigger] mid[j], table(scope), key);
            lemma_new_key_is_new(store, scope, candidate, episode, provenance, mid[j]);
            assert(mid.contains(mid[j]));
        }
    }
    let ann_after = after.facts[i].ann;
    assert forall|x: Seq<char>| #[trigger] ann_after.conf.contains(x) <==> x
        == candidate.confidence by {
        assert(!earlier(mid, table(scope), key, x, true));
        assert(ann.conf.contains(x) <==> x == candidate.confidence);
    }
    assert forall|x: Seq<char>| #[trigger] ann_after.prov.contains(x) <==> x == episode
        || provenance.contains(x) by {
        assert(!earlier(mid, table(scope), key, x, false));
        assert(ann.prov.contains(x) <==> x == episode || provenance.contains(x));
    }
}

/// Where a candidate supersedes, no fact had its key.
proof fn lemma_new_key_is_new(
    store: EngineView,
    scope: Option<Seq<char>>,
    candidate: CandidateView,
    episode: Seq<char>,
    provenance: Seq<Seq<char>>,
    fact: FactView,
)
    requires
        store.now != 0x7fff_ffff_ffff_ffff,
        update::updated(store, scope, candidate, episode, provenance).1 is Updated,
        engine::is_fact(fact, table(scope), new_key(scope, candidate, store.now)),
    ensures
        ({
            let ready = update::prepared(store, scope, candidate);
            !update::with_closed(
                ready,
                table(scope),
                update::rivals(ready, scope, candidate),
                lead(scope),
            ).facts.contains(fact)
        }),
{
    let ready = update::prepared(store, scope, candidate);
    let open = update::rivals(ready, scope, candidate);
    let at = lead(scope);
    let key = new_key(scope, candidate, store.now);
    let row = RowView { pred: table(scope), key };
    outcome_is_decided_by_what_is_open(store, scope, candidate, episode, provenance);
    assert(key[at + 4] == ValueView::Integer(0x7fff_ffff_ffff_ffff));
    assert(key[at + 2] == ValueView::Symbol(candidate.obj));
    assert(says_the_same(scope, candidate, key));
    assert(!is_open(store, scope, candidate, key));
    assert forall|i: int| 0 <= i < open.len() implies !engine::is_fact(
        fact,
        table(scope),
        (#[trigger] open[i]).key,
    ) && !engine::is_fact(fact, table(scope), ended(scope, open[i].key, ready.now)) by {
        lemma_rivals(store, scope, candidate, open[i].key);
        assert(rows::has_row(open, open[i].key));
        assert(is_open(store, scope, candidate, open[i].key));
        assert(ended(scope, open[i].key, ready.now)[at + 4] == ValueView::Integer(store.now));
    }
    lemma_closed_keeps(ready, scope, open, fact);
    if store.facts.contains(fact) {
        let j = choose|j: int| 0 <= j < store.facts.len() && store.facts[j] == fact;
        assert(engine::is_fact(store.facts[j], table(scope), key));
        assert(datalog::stated(store, row));
        assert(datalog::holds(store, store.rules, row));
        assert(is_open(store, scope, candidate, key));
    }
}

proof fn lemma_assertion(
    candidate: CandidateView,
    episode: Seq<char>,
    provenance: Seq<Seq<char>>,
)
    ensures
        ({
            let ann = update::assertion(candidate, episode, provenance);
            &&& forall|x: Seq<char>|
                #[trigger] ann.conf.contains(x) <==> x == candidate.confidence
            &&& forall|x: Seq<char>|
                #[trigger] ann.prov.contains(x) <==> x == episode || provenance.contains(x)
        }),
{
    let ann = update::assertion(candidate, episode, provenance);
    let list = update::supports(episode, provenance);
    assert(sorted::ordered(Seq::<Seq<char>>::empty()));
    sorted::lemma_placed_all(seq![], list);
    assert(ann.conf =~= seq![candidate.confidence]);
    assert(ann.conf[0] == candidate.confidence);
    assert forall|x: Seq<char>| #[trigger] ann.prov.contains(x) <==> x == episode
        || provenance.contains(x) by {
        assert(list[0] == episode);
        if provenance.contains(x) {
            let j = choose|j: int| 0 <= j < provenance.len() && provenance[j] == x;
            assert(list[j + 1] == x);
        }
        if list.contains(x) {
            let j = choose|j: int| 0 <= j < list.len() && list[j] == x;
            if j > 0 {
                assert(provenance[j - 1] == x);
            }
        }
    }
}

/// A conflict is told with the scope, the fact, the episode and each object that is open.
pub proof fn conflict_names_what_is_open(
    store: EngineView,
    scope: Option<Seq<char>>,
    candidate: CandidateView,
    episode: Seq<char>,
    provenance: Seq<Seq<char>>,
    key: Seq<ValueView>,
)
    requires
        is_open(store, scope, candidate, key),
    ensures
        ({
            let outcome = update::updated(store, scope, candidate, episode, provenance).1;
            let first = (match scope {
                None => "conflict: "@,
                Some(name) => "conflict in "@ + name + ": "@,
            }) + candidate.subj + " --"@ + candidate.pred + "--> "@ + candidate.obj
                + " asserted in "@ + episode + ", but "@ + candidate.pred + " also open ("@;
            outcome matches OutcomeView::Conflict(told) ==> {
                &&& first.len() < told.len()
                &&& told.take(first.len() as int) == first
                &&& told.last() == ')'
                &&& text::contains_text(
                    told.skip(first.len() as int),
                    search::shown(key[lead(scope) + 2]),
                )
            }
        }),
{
    let ready = update::prepared(store, scope, candidate);
    let open = update::rivals(ready, scope, candidate);
    let at = lead(scope);
    let outcome = update::updated(store, scope, candidate, episode, provenance).1;
    lemma_names(scope, candidate, store.now);
    if let OutcomeView::Conflict(told) = outcome {
        let first = (match scope {
            None => "conflict: "@,
            Some(name) => "conflict in "@ + name + ": "@,
        }) + candidate.subj + " --"@ + candidate.pred + "--> "@ + candidate.obj + " asserted in "@
            + episode + ", but "@ + candidate.pred + " also open ("@;
        let parts = update::objects(open, at);
        let list = text::join(parts, ", "@);
        reveal_strlit(")");
        assert(told =~= first + (list + ")"@));
        assert(told.take(first.len() as int) =~= first);
        assert(told.skip(first.len() as int) =~= Seq::<char>::empty() + list + ")"@);
        lemma_rivals(store, scope, candidate, key);
        let n = choose|n: int| 0 <= n < open.len() && (#[trigger] open[n]).key == key;
        assert(parts[n] == search::shown(key[at + 2]));
        row_laws::parts_stand_in_their_join(parts, ", "@, n);
        text_laws::lemma_contained_in(Seq::<char>::empty(), list, ")"@, parts[n]);
    }
}

} // verus!
