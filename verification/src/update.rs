//! The update policy: what observing a candidate does to the store.
//!
//! A fact is open while its validity has no end; what rules say is open counts like a fact. A
//! candidate whose subject and relation have no open fact is added. One that is open already is merged into the open fact. One with another
//! object supersedes the open facts where the relation is exclusive; elsewhere it is added, and
//! the conflict is told.

use vstd::prelude::*;

use crate::datalog;
use crate::datalog::RowView;
use crate::engine;
use crate::engine::{Ann, AnnView, Engine, EngineView, Fact, FactView, Value};
use crate::number;
use crate::protocol::{CandidateFact, CandidateView, DEFAULT_CONFIDENCE};
use crate::rows;
use crate::search;
use crate::snapshot::ValueView;
use crate::store_laws;
use crate::text;

verus! {

/// What a candidate came to.
#[derive(Clone, Debug, PartialEq, Eq)]
pub enum Outcome {
    /// It is a new fact.
    Added,
    /// It was open already.
    Noop,
    /// It superseded what was open.
    Updated,
    /// It is a new fact beside others that are open; the text tells the conflict.
    Conflict(String),
}

/// What a candidate came to, as a view.
pub enum OutcomeView {
    Added,
    Noop,
    Updated,
    Conflict(Seq<char>),
}

impl View for Outcome {
    type V = OutcomeView;

    open spec fn view(&self) -> OutcomeView {
        match self {
            Outcome::Added => OutcomeView::Added,
            Outcome::Noop => OutcomeView::Noop,
            Outcome::Updated => OutcomeView::Updated,
            Outcome::Conflict(text) => OutcomeView::Conflict(text@),
        }
    }
}

/// The relation that holds the facts of a scope; facts without a scope have their own.
pub open spec fn relation_name(scope: Option<Seq<char>>) -> Seq<char> {
    match scope {
        None => "edge"@,
        Some(_) => "scoped_edge"@,
    }
}

/// The value before subject, relation and object in the keys of a scope.
pub open spec fn prefix(scope: Option<Seq<char>>) -> Seq<ValueView> {
    match scope {
        None => seq![],
        Some(name) => seq![ValueView::Symbol(name)],
    }
}

/// The store in which the symbols of a candidate are interned.
pub open spec fn prepared(
    engine: EngineView,
    scope: Option<Seq<char>>,
    candidate: CandidateView,
) -> EngineView {
    let scoped = match scope {
        None => engine,
        Some(name) => engine.with_name(name),
    };
    scoped.with_name(candidate.subj).with_name(candidate.pred).with_name(candidate.obj)
}

/// The pattern of the facts with the subject and the relation of a candidate.
pub open spec fn rival_pattern(scope: Option<Seq<char>>, candidate: CandidateView) -> Seq<
    Option<ValueView>,
> {
    let start = prefix(scope).map_values(|value: ValueView| Some(value));
    start + seq![
        Some(ValueView::Symbol(candidate.subj)),
        Some(ValueView::Symbol(candidate.pred)),
        None,
        None,
        None,
        None,
    ]
}

/// Whether a fact is open.
pub open spec fn is_open(fact: FactView, skip: int) -> bool {
    fact.key[skip + 4] == ValueView::Integer(i64::MAX as int)
}

/// The open ones of some facts.
pub open spec fn open_ones(facts: Seq<FactView>, skip: int) -> Seq<FactView>
    decreases facts.len(),
{
    if facts.len() == 0 {
        seq![]
    } else {
        let rows = open_ones(facts.drop_last(), skip);
        if is_open(facts.last(), skip) {
            rows.push(facts.last())
        } else {
            rows
        }
    }
}

/// What is open with the subject and the relation of a candidate, by a fact or by the rules.
pub open spec fn rivals(
    engine: EngineView,
    scope: Option<Seq<char>>,
    candidate: CandidateView,
) -> Seq<FactView> {
    open_ones(
        engine.rows(relation_name(scope), rival_pattern(scope, candidate)),
        prefix(scope).len() as int,
    )
}

/// The key of the open fact that a candidate makes at a time.
pub open spec fn open_key(scope: Option<Seq<char>>, candidate: CandidateView, now: int) -> Seq<
    ValueView,
> {
    prefix(scope) + seq![
        ValueView::Symbol(candidate.subj),
        ValueView::Symbol(candidate.pred),
        ValueView::Symbol(candidate.obj),
        ValueView::Integer(now),
        ValueView::Integer(i64::MAX as int),
        ValueView::Integer(now),
    ]
}

/// The references that support a fact: the episode and what the caller gave.
pub open spec fn supports(episode: Seq<char>, provenance: Seq<Seq<char>>) -> Seq<Seq<char>> {
    seq![episode] + provenance
}

/// The annotation of the assertion of a candidate.
pub open spec fn assertion(
    candidate: CandidateView,
    episode: Seq<char>,
    provenance: Seq<Seq<char>>,
) -> AnnView {
    AnnView::base(candidate.confidence, supports(episode, provenance))
}

/// Which of some facts is the first with the object of a candidate.
pub open spec fn same_object(
    facts: Seq<FactView>,
    skip: int,
    object: Seq<char>,
) -> Option<int>
    decreases facts.len(),
{
    if facts.len() == 0 {
        None
    } else {
        match same_object(facts.drop_last(), skip, object) {
            Some(i) => Some(i),
            None => if facts.last().key[skip + 2] == ValueView::Symbol(object) {
                Some(facts.len() - 1)
            } else {
                None
            },
        }
    }
}

/// Whether a relation is exclusive, by a fact or by the rules: a subject has one object at a time.
pub open spec fn exclusive(engine: EngineView, relation: Seq<char>) -> bool {
    datalog::holds(
        engine,
        engine.rules,
        RowView { pred: "exclusive"@, key: seq![ValueView::Symbol(relation)] },
    )
}

/// The annotation of a fact that was superseded.
pub open spec fn superseded() -> AnnView {
    AnnView::base(DEFAULT_CONFIDENCE@, seq!["superseded"@])
}

/// The key of a fact that ends at a time.
pub open spec fn closed_key(key: Seq<ValueView>, skip: int, now: int) -> Seq<ValueView> {
    key.update(skip + 4, ValueView::Integer(now))
}

/// The store after open facts were closed.
pub open spec fn with_closed(
    engine: EngineView,
    relation: Seq<char>,
    open: Seq<FactView>,
    skip: int,
) -> EngineView
    decreases open.len(),
{
    if open.len() == 0 {
        engine
    } else {
        let before = with_closed(engine, relation, open.drop_last(), skip);
        let key = open.last().key;
        before.without_fact(relation, key).with_fact(
            relation,
            closed_key(key, skip, engine.now),
            superseded(),
        )
    }
}

/// The objects of facts, as they are shown.
pub open spec fn objects(facts: Seq<FactView>, skip: int) -> Seq<Seq<char>> {
    facts.map_values(|fact: FactView| search::shown(fact.key[skip + 2]))
}

/// How a conflict is told.
pub open spec fn conflict_text(
    scope: Option<Seq<char>>,
    candidate: CandidateView,
    episode: Seq<char>,
    open: Seq<FactView>,
) -> Seq<char> {
    let place = match scope {
        None => "conflict: "@,
        Some(name) => "conflict in "@ + name + ": "@,
    };
    place + candidate.subj + " --"@ + candidate.pred + "--> "@ + candidate.obj + " asserted in "@
        + episode + ", but "@ + candidate.pred + " also open ("@ + text::join(
        objects(open, prefix(scope).len() as int),
        ", "@,
    ) + ")"@
}

/// What observing a candidate in an episode does to the store, and what it came to.
pub open spec fn updated(
    engine: EngineView,
    scope: Option<Seq<char>>,
    candidate: CandidateView,
    episode: Seq<char>,
    provenance: Seq<Seq<char>>,
) -> (EngineView, OutcomeView) {
    let relation = relation_name(scope);
    let skip = prefix(scope).len() as int;
    let ready = prepared(engine, scope, candidate);
    let open = rivals(ready, scope, candidate);
    let ann = assertion(candidate, episode, provenance);
    let key = open_key(scope, candidate, engine.now);
    if open.len() == 0 {
        (ready.with_fact(relation, key, ann), OutcomeView::Added)
    } else if same_object(open, skip, candidate.obj) is Some {
        let same = open[same_object(open, skip, candidate.obj)->0];
        (ready.with_fact(relation, same.key, ann), OutcomeView::Noop)
    } else if exclusive(ready, candidate.pred) {
        (
            with_closed(ready, relation, open, skip).with_fact(relation, key, ann),
            OutcomeView::Updated,
        )
    } else {
        (
            ready.with_fact(relation, key, ann),
            OutcomeView::Conflict(conflict_text(scope, candidate, episode, open)),
        )
    }
}

/// A scope that may be missing, as a view.
pub open spec fn scope_view(scope: Option<&str>) -> Option<Seq<char>> {
    match scope {
        Some(name) => Some(name@),
        None => None,
    }
}

// -------------------------------------------------------------- functions
/// The open facts that fit a pattern.
fn find_open(
    engine: &Engine,
    relation: &str,
    pattern: &Vec<Option<Value>>,
    skip: usize,
) -> (open: Vec<Fact>)
    requires
        engine.wf(),
        engine::known_pattern(engine@.names, pattern@),
        skip <= 1,
        skip + 6 == pattern@.len(),
    ensures
        engine::known_facts(engine@.names, open@),
        engine::fact_views(engine@.names, open@) == open_ones(
            engine@.rows(relation@, engine::pattern_view(engine@.names, pattern@)),
            skip as int,
        ),
        forall|i: int| 0 <= i < open@.len() ==> (#[trigger] open@[i]).key@.len() == skip + 6,
{
    let ghost names = engine@.names;
    let ghost asked = engine::pattern_view(names, pattern@);
    let rows: Vec<Fact> = engine.query(relation, pattern);
    let ghost all = engine::fact_views(names, rows@);
    let mut open: Vec<Fact> = Vec::new();
    assert(engine::fact_views(names, open@) =~= seq![]);
    for i in 0..rows.len()
        invariant
            names == engine@.names,
            asked == engine::pattern_view(names, pattern@),
            skip <= 1,
            skip + 6 == pattern@.len(),
            all == engine::fact_views(names, rows@),
            all == engine@.rows(relation@, asked),
            engine::known_facts(names, rows@),
            engine::known_facts(names, open@),
            engine::fact_views(names, open@) == open_ones(all.take(i as int), skip as int),
            forall|j: int| 0 <= j < open@.len() ==> (#[trigger] open@[j]).key@.len() == skip + 6,
    {
        proof {
            assert(all.take(i as int + 1).drop_last() =~= all.take(i as int));
            rows::rows_are_what_holds(engine@, relation@, asked, all[i as int].key);
            assert(all[i as int] == engine::fact_view(names, rows@[i as int]));
            assert(rows@[i as int].key@.len() == skip + 6);
            assert(engine::known_key(names, rows@[i as int].key@));
        }
        if rows[i].key[skip + 4] == Value::Int(i64::MAX) {
            let ghost before = engine::fact_views(names, open@);
            open.push(rows[i].copy());
            assert(engine::fact_views(names, open@) =~= before.push(all[i as int]));
        }
    }
    assert(all.take(all.len() as int) =~= all);
    open
}

/// Which of some facts is the first with an object.
fn find_object(
    facts: &Vec<Fact>,
    skip: usize,
    object: Value,
    Ghost(names): Ghost<Seq<Seq<char>>>,
) -> (index: Option<usize>)
    requires
        engine::distinct(names),
        engine::known_facts(names, facts@),
        engine::known(names, object),
        object is Sym,
        skip <= 1,
        forall|i: int| 0 <= i < facts@.len() ==> (#[trigger] facts@[i]).key@.len() == skip + 6,
    ensures
        ({
            let found = same_object(
                engine::fact_views(names, facts@),
                skip as int,
                engine::value_view(names, object)->Symbol_0,
            );
            match index {
                Some(i) => i < facts@.len() && found == Some(i as int),
                None => found is None,
            }
        }),
{
    let ghost all = engine::fact_views(names, facts@);
    let ghost name = engine::value_view(names, object)->Symbol_0;
    for i in 0..facts.len()
        invariant
            engine::distinct(names),
            engine::known_facts(names, facts@),
            engine::known(names, object),
            object is Sym,
            name == engine::value_view(names, object)->Symbol_0,
            skip <= 1,
            forall|j: int| 0 <= j < facts@.len() ==> (#[trigger] facts@[j]).key@.len() == skip + 6,
            all == engine::fact_views(names, facts@),
            same_object(all.take(i as int), skip as int, name) is None,
    {
        proof {
            assert(all.take(i as int + 1).drop_last() =~= all.take(i as int));
            assert(engine::known_key(names, facts@[i as int].key@));
            assert(facts@[i as int].key@.len() == skip + 6);
            assert(engine::known(names, facts@[i as int].key@[skip + 2]));
            engine::lemma_values(names, facts@[i as int].key@[skip + 2], object);
            assert(all[i as int] == engine::fact_view(names, facts@[i as int]));
        }
        if facts[i].key[skip + 2] == object {
            proof {
                lemma_same_object(all, skip as int, name, i as int + 1);
            }
            return Some(i);
        }
    }
    assert(all.take(all.len() as int) =~= all);
    None
}

/// What is first among the first facts is first among all.
proof fn lemma_same_object(facts: Seq<FactView>, skip: int, object: Seq<char>, n: int)
    requires
        0 <= n <= facts.len(),
        same_object(facts.take(n), skip, object) is Some,
    ensures
        same_object(facts, skip, object) == same_object(facts.take(n), skip, object),
    decreases facts.len(),
{
    if n < facts.len() {
        assert(facts.drop_last().take(n) =~= facts.take(n));
        lemma_same_object(facts.drop_last(), skip, object, n);
    } else {
        assert(facts.take(n) =~= facts);
    }
}

/// The objects of facts, as they are shown, with commas between them.
fn list_objects(engine: &Engine, facts: &Vec<Fact>, skip: usize) -> (list: String)
    requires
        engine.wf(),
        engine::known_facts(engine@.names, facts@),
        skip <= 1,
        forall|i: int| 0 <= i < facts@.len() ==> (#[trigger] facts@[i]).key@.len() == skip + 6,
    ensures
        list@ == text::join(
            objects(engine::fact_views(engine@.names, facts@), skip as int),
            ", "@,
        ),
{
    let ghost names = engine@.names;
    let ghost all = objects(engine::fact_views(names, facts@), skip as int);
    let mut shown: Vec<String> = Vec::new();
    assert(text::texts(shown@) =~= all.take(0));
    for i in 0..facts.len()
        invariant
            engine.wf(),
            names == engine@.names,
            engine::known_facts(names, facts@),
            skip <= 1,
            forall|j: int| 0 <= j < facts@.len() ==> (#[trigger] facts@[j]).key@.len() == skip + 6,
            all == objects(engine::fact_views(names, facts@), skip as int),
            text::texts(shown@) == all.take(i as int),
    {
        proof {
            assert(engine::known_key(names, facts@[i as int].key@));
            assert(facts@[i as int].key@.len() == skip + 6);
            assert(engine::known(names, facts@[i as int].key@[skip + 2]));
        }
        let ghost before = text::texts(shown@);
        shown.push(engine.display(&facts[i].key[skip + 2]));
        assert(text::texts(shown@) =~= before.push(all[i as int]));
        assert(all.take(i as int + 1) =~= all.take(i as int).push(all[i as int]));
    }
    assert(all.take(all.len() as int) =~= all);
    text::join_strings(&shown, ", ")
}

/// Tells a conflict.
fn tell_conflict(
    scope: Option<&str>,
    candidate: &CandidateFact,
    episode: &str,
    engine: &Engine,
    open: &Vec<Fact>,
    skip: usize,
) -> (told: String)
    requires
        engine.wf(),
        engine::known_facts(engine@.names, open@),
        skip == prefix(scope_view(scope)).len(),
        skip <= 1,
        forall|i: int| 0 <= i < open@.len() ==> (#[trigger] open@[i]).key@.len() == skip + 6,
    ensures
        told@ == conflict_text(
            scope_view(scope),
            candidate@,
            episode@,
            engine::fact_views(engine@.names, open@),
        ),
{
    let mut told: String = match scope {
        None => "conflict: ".to_owned(),
        Some(name) => {
            let mut place: String = "conflict in ".to_owned();
            place.append(name);
            place.append(": ");
            place
        },
    };
    told.append(candidate.subj.as_str());
    told.append(" --");
    told.append(candidate.pred.as_str());
    told.append("--> ");
    told.append(candidate.obj.as_str());
    told.append(" asserted in ");
    told.append(episode);
    told.append(", but ");
    told.append(candidate.pred.as_str());
    told.append(" also open (");
    told.append(list_objects(engine, open, skip).as_str());
    told.append(")");
    told
}

/// The references that support a fact.
fn list_supports(episode: &str, provenance: &Vec<String>) -> (list: Vec<String>)
    ensures
        text::texts(list@) == supports(episode@, text::texts(provenance@)),
{
    let mut list: Vec<String> = Vec::new();
    list.push(episode.to_owned());
    let ghost all = text::texts(provenance@);
    assert(text::texts(list@) =~= supports(episode@, all.take(0)));
    for i in 0..provenance.len()
        invariant
            all == text::texts(provenance@),
            text::texts(list@) == supports(episode@, all.take(i as int)),
    {
        let ghost before = text::texts(list@);
        list.push(provenance[i].as_str().to_owned());
        assert(text::texts(list@) =~= before.push(all[i as int]));
        assert(supports(episode@, all.take(i as int + 1)) =~= before.push(all[i as int]));
    }
    assert(all.take(all.len() as int) =~= all);
    list
}

/// Closes open facts at the present time.
fn close_all(engine: &mut Engine, relation: &str, open: &Vec<Fact>, skip: usize)
    requires
        old(engine).wf(),
        engine::known_facts(old(engine)@.names, open@),
        skip <= 1,
        store_laws::plain(relation@),
        forall|i: int| 0 <= i < open@.len() ==> (#[trigger] open@[i]).key@.len() == skip + 6,
    ensures
        final(engine).wf(),
        final(engine)@ == with_closed(
            old(engine)@,
            relation@,
            engine::fact_views(old(engine)@.names, open@),
            skip as int,
        ),
        final(engine)@.names == old(engine)@.names,
        final(engine)@.now == old(engine)@.now,
{
    let ghost start = engine@;
    let ghost names = engine@.names;
    let ghost all = engine::fact_views(names, open@);
    for i in 0..open.len()
        invariant
            engine.wf(),
            names == start.names,
            engine@.names == names,
            engine@.now == start.now,
            engine::known_facts(names, open@),
            skip <= 1,
            store_laws::plain(relation@),
            forall|j: int| 0 <= j < open@.len() ==> (#[trigger] open@[j]).key@.len() == skip + 6,
            all == engine::fact_views(names, open@),
            engine@ == with_closed(start, relation@, all.take(i as int), skip as int),
    {
        proof {
            assert(all.take(i as int + 1).drop_last() =~= all.take(i as int));
            assert(engine::known_key(names, open@[i as int].key@));
            assert(open@[i as int].key@.len() == skip + 6);
        }
        let now: i64 = engine.now();
        let mut closed: Vec<Value> = engine::copy_key(&open[i].key);
        closed.set(skip + 4, Value::Int(now));
        let mut references: Vec<String> = Vec::new();
        references.push("superseded".to_owned());
        proof {
            store_laws::default_is_real();
            assert(text::texts(references@) =~= seq!["superseded"@]);
            assert forall|j: int| 0 <= j < closed@.len() implies engine::known(
                names,
                #[trigger] closed@[j],
            ) by {
                assert(engine::known(names, open@[i as int].key@[j]));
            }
            assert(engine::key_view(names, closed@) =~= closed_key(
                all[i as int].key,
                skip as int,
                start.now,
            ));
        }
        engine.retract(relation, &open[i].key);
        engine.declare(relation, &closed, Ann::base(DEFAULT_CONFIDENCE, &references));
    }
    assert(all.take(all.len() as int) =~= all);
}

/// The pattern of the facts with a subject and a relation.
fn make_pattern(scope: Option<Value>, subject: Value, relation: Value) -> (pattern: Vec<
    Option<Value>,
>)
    ensures
        pattern@ == (match scope {
            None => Seq::<Option<Value>>::empty(),
            Some(_) => seq![scope],
        }) + seq![Some(subject), Some(relation), None, None, None, None],
{
    let mut pattern: Vec<Option<Value>> = Vec::new();
    if scope.is_some() {
        pattern.push(scope);
    }
    pattern.push(Some(subject));
    pattern.push(Some(relation));
    pattern.push(None);
    pattern.push(None);
    pattern.push(None);
    pattern.push(None);
    assert(pattern@ =~= (match scope {
        None => Seq::<Option<Value>>::empty(),
        Some(_) => seq![scope],
    }) + seq![Some(subject), Some(relation), None, None, None, None]);
    pattern
}

/// The key of a fact that is open from a time on.
fn make_key(
    scope: Option<Value>,
    subject: Value,
    relation: Value,
    object: Value,
    now: i64,
) -> (key: Vec<Value>)
    ensures
        key@ == (match scope {
            None => Seq::<Value>::empty(),
            Some(value) => seq![value],
        }) + seq![
            subject,
            relation,
            object,
            Value::Int(now),
            Value::Int(i64::MAX),
            Value::Int(now),
        ],
{
    let mut key: Vec<Value> = Vec::new();
    if let Some(value) = scope {
        key.push(value);
    }
    key.push(subject);
    key.push(relation);
    key.push(object);
    key.push(Value::Int(now));
    key.push(Value::Int(i64::MAX));
    key.push(Value::Int(now));
    assert(key@ =~= (match scope {
        None => Seq::<Value>::empty(),
        Some(value) => seq![value],
    }) + seq![
        subject,
        relation,
        object,
        Value::Int(now),
        Value::Int(i64::MAX),
        Value::Int(now),
    ]);
    key
}

/// The symbols of a candidate: scope, subject, relation and object.
struct Symbols {
    scope: Option<Value>,
    subject: Value,
    relation: Value,
    object: Value,
}

impl Symbols {
    /// Whether these are the symbols of a candidate.
    spec fn name(
        self,
        names: Seq<Seq<char>>,
        scope: Option<Seq<char>>,
        candidate: CandidateView,
    ) -> bool {
        &&& match (self.scope, scope) {
            (None, None) => true,
            (Some(value), Some(name)) => engine::known(names, value) && engine::value_view(
                names,
                value,
            ) == ValueView::Symbol(name),
            _ => false,
        }
        &&& engine::known(names, self.subject)
        &&& engine::value_view(names, self.subject) == ValueView::Symbol(candidate.subj)
        &&& engine::known(names, self.relation)
        &&& engine::value_view(names, self.relation) == ValueView::Symbol(candidate.pred)
        &&& engine::known(names, self.object)
        &&& engine::value_view(names, self.object) == ValueView::Symbol(candidate.obj)
    }
}

/// Interns the symbols of a candidate.
fn prepare(engine: &mut Engine, scope: Option<&str>, candidate: &CandidateFact) -> (symbols:
    Symbols)
    requires
        old(engine).wf(),
    ensures
        final(engine).wf(),
        final(engine)@ == prepared(old(engine)@, scope_view(scope), candidate@),
        final(engine)@.now == old(engine)@.now,
        symbols.name(final(engine)@.names, scope_view(scope), candidate@),
{
    let scope_value: Option<Value> = match scope {
        None => None,
        Some(name) => Some(engine.sym(name)),
    };
    let ghost n0 = engine@.names;
    let subject: Value = engine.sym(candidate.subj.as_str());
    let ghost n1 = engine@.names;
    let relation: Value = engine.sym(candidate.pred.as_str());
    let ghost n2 = engine@.names;
    let object: Value = engine.sym(candidate.obj.as_str());
    let ghost n3 = engine@.names;
    proof {
        engine::lemma_interned(n0, candidate.subj@);
        engine::lemma_interned(n1, candidate.pred@);
        engine::lemma_interned(n2, candidate.obj@);
        if let Some(value) = scope_value {
            engine::lemma_more_names_value(n0, n1, value);
            engine::lemma_more_names_value(n1, n2, value);
            engine::lemma_more_names_value(n2, n3, value);
        }
        engine::lemma_more_names_value(n1, n2, subject);
        engine::lemma_more_names_value(n2, n3, subject);
        engine::lemma_more_names_value(n2, n3, relation);
    }
    Symbols { scope: scope_value, subject, relation, object }
}

/// The key of the fact without a scope that a candidate would make now.
pub fn candidate_key(engine: &mut Engine, candidate: &CandidateFact) -> (key: Vec<Value>)
    requires
        old(engine).wf(),
    ensures
        final(engine).wf(),
        final(engine)@ == prepared(old(engine)@, None, candidate@),
        final(engine)@.now == old(engine)@.now,
        old(engine)@.names.is_prefix_of(final(engine)@.names),
        engine::known_key(final(engine)@.names, key@),
        engine::key_view(final(engine)@.names, key@) == open_key(
            None,
            candidate@,
            old(engine)@.now,
        ),
{
    let ghost before = engine@;
    let symbols = prepare(engine, None, candidate);
    let now: i64 = engine.now();
    let key: Vec<Value> = make_key(
        symbols.scope,
        symbols.subject,
        symbols.relation,
        symbols.object,
        now,
    );
    proof {
        let n0 = before.names;
        let n1 = engine::interned(n0, candidate.subj@);
        let n2 = engine::interned(n1, candidate.pred@);
        engine::lemma_interned(n0, candidate.subj@);
        engine::lemma_interned(n1, candidate.pred@);
        engine::lemma_interned(n2, candidate.obj@);
        assert(n0.is_prefix_of(engine@.names));
        assert(engine::key_view(engine@.names, key@) =~= open_key(None, candidate@, before.now));
    }
    key
}

/// Whether a relation is exclusive.
fn is_exclusive(engine: &Engine, relation: Value) -> (yes: bool)
    requires
        engine.wf(),
        engine::known(engine@.names, relation),
        relation is Sym,
    ensures
        yes == exclusive(engine@, engine::value_view(engine@.names, relation)->Symbol_0),
{
    let ghost names = engine@.names;
    let ghost name = engine::value_view(names, relation)->Symbol_0;
    let ghost key = seq![ValueView::Symbol(name)];
    let pattern: Vec<Option<Value>> = vec![Some(relation)];
    let ghost asked = seq![Some(ValueView::Symbol(name))];
    assert(engine::pattern_view(names, pattern@) =~= asked);
    let rows: Vec<Fact> = engine.query("exclusive", &pattern);
    let ghost all = engine::fact_views(names, rows@);
    proof {
        assert(all.len() == rows@.len());
        rows::rows_are_what_holds(engine@, "exclusive"@, asked, key);
        assert(engine::fits(key, asked));
        if all.len() > 0 {
            rows::rows_are_what_holds(engine@, "exclusive"@, asked, all[0].key);
            assert(rows::has_row(all, all[0].key));
            assert(asked[0] == Some(ValueView::Symbol(name)));
            assert(all[0].key =~= key);
        }
        if rows::has_row(all, key) {
            let i = choose|i: int| 0 <= i < all.len() && (#[trigger] all[i]).key == key;
            assert(all.len() > 0);
        }
    }
    rows.len() > 0
}

/// Observes a candidate in an episode.
pub fn apply_candidate(
    engine: &mut Engine,
    scope: Option<&str>,
    candidate: &CandidateFact,
    episode: &str,
    provenance: &Vec<String>,
) -> (outcome: Outcome)
    requires
        old(engine).wf(),
        number::real_text(candidate.confidence@),
    ensures
        final(engine).wf(),
        (final(engine)@, outcome@) == updated(
            old(engine)@,
            scope_view(scope),
            candidate@,
            episode@,
            text::texts(provenance@),
        ),
{
    let ghost place = scope_view(scope);
    let ghost said = candidate@;
    let relation: &str = if scope.is_some() {
        "scoped_edge"
    } else {
        "edge"
    };
    let skip: usize = if scope.is_some() {
        1
    } else {
        0
    };
    proof {
        store_laws::relations_are_plain(place);
    }
    let symbols = prepare(engine, scope, candidate);
    let ghost ready = engine@;
    let ghost names = engine@.names;
    let pattern: Vec<Option<Value>> = make_pattern(
        symbols.scope,
        symbols.subject,
        symbols.relation,
    );
    let now: i64 = engine.now();
    let key: Vec<Value> = make_key(
        symbols.scope,
        symbols.subject,
        symbols.relation,
        symbols.object,
        now,
    );
    proof {
        engine.lemma_distinct();
        assert(engine::known_pattern(names, pattern@));
        assert(engine::pattern_view(names, pattern@) =~= rival_pattern(place, said));
        assert(engine::known_key(names, key@));
        assert(engine::key_view(names, key@) =~= open_key(place, said, ready.now));
    }
    let open: Vec<Fact> = find_open(engine, relation, &pattern, skip);
    let ann: Ann = Ann::base(
        candidate.confidence.as_str(),
        &list_supports(episode, provenance),
    );
    if open.len() == 0 {
        engine.declare(relation, &key, ann);
        return Outcome::Added;
    }
    if let Some(i) = find_object(&open, skip, symbols.object, Ghost(names)) {
        assert(engine::known_key(names, open@[i as int].key@));
        engine.declare(relation, &open[i].key, ann);
        return Outcome::Noop;
    }
    if is_exclusive(engine, symbols.relation) {
        close_all(engine, relation, &open, skip);
        engine.declare(relation, &key, ann);
        Outcome::Updated
    } else {
        let told: String = tell_conflict(scope, candidate, episode, engine, &open, skip);
        engine.declare(relation, &key, ann);
        Outcome::Conflict(told)
    }
}

} // verus!
