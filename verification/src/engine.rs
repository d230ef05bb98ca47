//! The store of base facts, and what holds of them now.
//!
//! A fact is a predicate, a key of values and an annotation: the confidences that it was asserted
//! with and the references that support it. Symbols are interned. What the default rules derive
//! from the base facts is computed when it is asked for; the rules that were added are kept, and
//! followed where rows are asked for that hold.

use vstd::prelude::*;

use crate::clause;
use crate::clause::{Rule, RuleView};
use crate::codec_laws;
use crate::datalog;
use crate::number;
use crate::rows;
use crate::search;
use crate::snapshot::ValueView;
use crate::sorted;
use crate::store_laws;
use crate::text;

verus! {

// ----------------------------------------------------------------- values
/// A value: an interned symbol or an integer.
#[derive(Clone, Copy, Debug, PartialEq, Eq, Structural)]
pub enum Value {
    Sym(usize),
    Int(i64),
}

/// A term of a pattern: a symbol, an integer or a variable.
#[derive(Clone, Debug, PartialEq, Eq)]
pub enum Term {
    Sym(String),
    Int(i64),
    Var(String),
}

/// The integer that stands for a symbol that is not known.
pub const UNKNOWN: i64 = i64::MIN;

/// What a value stands for.
pub open spec fn value_view(names: Seq<Seq<char>>, value: Value) -> ValueView {
    match value {
        Value::Sym(i) => ValueView::Symbol(names[i as int]),
        Value::Int(i) => ValueView::Integer(i as int),
    }
}

/// Whether a value is an integer or a symbol with a name.
pub open spec fn known(names: Seq<Seq<char>>, value: Value) -> bool {
    value matches Value::Sym(i) ==> i < names.len()
}

/// What the values of a key stand for.
pub open spec fn key_view(names: Seq<Seq<char>>, key: Seq<Value>) -> Seq<ValueView> {
    key.map_values(|value: Value| value_view(names, value))
}

/// Whether all values of a key are known.
pub open spec fn known_key(names: Seq<Seq<char>>, key: Seq<Value>) -> bool {
    forall|i: int| 0 <= i < key.len() ==> known(names, #[trigger] key[i])
}

/// Whether no two names are equal.
pub open spec fn distinct(names: Seq<Seq<char>>) -> bool {
    forall|i: int, j: int|
        0 <= i < j < names.len() ==> #[trigger] names[i] != #[trigger] names[j]
}

/// The names after one more symbol was interned.
pub open spec fn interned(names: Seq<Seq<char>>, name: Seq<char>) -> Seq<Seq<char>> {
    if names.contains(name) {
        names
    } else {
        names.push(name)
    }
}

/// Two known values are equal where they stand for the same.
pub proof fn lemma_values(names: Seq<Seq<char>>, a: Value, b: Value)
    requires
        distinct(names),
        known(names, a),
        known(names, b),
    ensures
        a == b <==> value_view(names, a) == value_view(names, b),
{
    if let (Value::Sym(i), Value::Sym(j)) = (a, b) {
        if i < j {
            assert(names[i as int] != names[j as int]);
        }
        if j < i {
            assert(names[j as int] != names[i as int]);
        }
    }
}

/// Interning a symbol leaves the names before it as they are.
pub proof fn lemma_interned(names: Seq<Seq<char>>, name: Seq<char>)
    ensures
        names.is_prefix_of(interned(names, name)),
{
    assert(names.push(name).subrange(0, names.len() as int) =~= names);
    assert(names.subrange(0, names.len() as int) =~= names);
}

/// More names leave what a known value stands for as it is.
pub proof fn lemma_more_names_value(names: Seq<Seq<char>>, more: Seq<Seq<char>>, value: Value)
    requires
        names.is_prefix_of(more),
        known(names, value),
    ensures
        known(more, value),
        value_view(more, value) == value_view(names, value),
{
    if let Value::Sym(j) = value {
        assert(more.subrange(0, names.len() as int)[j as int] == more[j as int]);
    }
}

/// The names of the symbols.
pub struct Interner {
    names: Vec<String>,
}

impl View for Interner {
    type V = Seq<Seq<char>>;

    closed spec fn view(&self) -> Seq<Seq<char>> {
        text::texts(self.names@)
    }
}

impl Interner {
    /// No symbols.
    pub fn new() -> (interner: Interner)
        ensures
            interner@ == Seq::<Seq<char>>::empty(),
    {
        let interner = Interner { names: Vec::new() };
        assert(interner@ =~= seq![]);
        interner
    }

    /// The symbol with a name, where there is one.
    pub fn lookup(&self, name: &str) -> (symbol: Option<usize>)
        ensures
            match symbol {
                Some(i) => i < self@.len() && self@[i as int] == name@,
                None => !self@.contains(name@),
            },
    {
        for i in 0..self.names.len()
            invariant
                forall|j: int| 0 <= j < i ==> self@[j] != name@,
        {
            if text::same_text(self.names[i].as_str(), name) {
                return Some(i);
            }
        }
        None
    }

    /// The symbol with a name, which is new where there was none.
    pub fn intern(&mut self, name: &str) -> (symbol: usize)
        requires
            distinct(old(self)@),
        ensures
            final(self)@ == interned(old(self)@, name@),
            distinct(final(self)@),
            symbol < final(self)@.len(),
            final(self)@[symbol as int] == name@,
    {
        match self.lookup(name) {
            Some(symbol) => symbol,
            None => {
                let ghost names = self@;
                let symbol: usize = self.names.len();
                self.names.push(name.to_owned());
                assert(self@ =~= names.push(name@));
                symbol
            },
        }
    }

    /// The name of a symbol.
    pub fn resolve(&self, symbol: usize) -> (name: &str)
        requires
            symbol < self@.len(),
        ensures
            name@ == self@[symbol as int],
    {
        self.names[symbol].as_str()
    }

    /// Shows a value.
    pub fn display(&self, value: &Value) -> (form: String)
        requires
            known(self@, *value),
        ensures
            form@ == search::shown(value_view(self@, *value)),
    {
        match value {
            Value::Sym(symbol) => self.resolve(*symbol).to_owned(),
            Value::Int(i) => number::int_text(*i),
        }
    }
}

// ------------------------------------------------------------ annotations
/// The annotation of a fact: the different confidences that it was asserted with, as they were
/// written, and the references that support it, in order.
#[derive(Clone, Debug, PartialEq, Eq)]
pub struct Ann {
    pub conf: Vec<String>,
    pub prov: Vec<String>,
}

/// What an annotation holds.
#[verifier::ext_equal]
pub struct AnnView {
    pub conf: Seq<Seq<char>>,
    pub prov: Seq<Seq<char>>,
}

impl View for Ann {
    type V = AnnView;

    open spec fn view(&self) -> AnnView {
        AnnView { conf: text::texts(self.conf@), prov: text::texts(self.prov@) }
    }
}

/// A list with those of `more` at its end that it does not hold.
pub open spec fn joined(list: Seq<Seq<char>>, more: Seq<Seq<char>>) -> Seq<Seq<char>>
    decreases more.len(),
{
    if more.len() == 0 {
        list
    } else {
        interned(joined(list, more.drop_last()), more.last())
    }
}

impl AnnView {
    /// The annotation of one assertion.
    pub open spec fn base(confidence: Seq<char>, provenance: Seq<Seq<char>>) -> AnnView {
        AnnView { conf: seq![confidence], prov: sorted::placed_all(seq![], provenance) }
    }

    /// The annotation of a fact that was asserted with both.
    pub open spec fn merged(self, other: AnnView) -> AnnView {
        AnnView {
            conf: joined(self.conf, other.conf),
            prov: sorted::placed_all(self.prov, other.prov),
        }
    }
}

/// Copies a list of texts.
pub fn copy_strings(strings: &Vec<String>) -> (copy: Vec<String>)
    ensures
        text::texts(copy@) == text::texts(strings@),
{
    let mut copy: Vec<String> = Vec::new();
    for i in 0..strings.len()
        invariant
            text::texts(copy@) == text::texts(strings@).take(i as int),
    {
        let ghost before = text::texts(copy@);
        copy.push(strings[i].as_str().to_owned());
        assert(text::texts(copy@) =~= before.push(strings@[i as int]@));
        assert(text::texts(strings@).take(i as int + 1) =~= before.push(strings@[i as int]@));
    }
    assert(text::texts(strings@).take(strings@.len() as int) =~= text::texts(strings@));
    copy
}

impl Ann {
    /// The annotation of one assertion.
    pub fn base(confidence: &str, provenance: &Vec<String>) -> (ann: Ann)
        requires
            number::real_text(confidence@),
        ensures
            ann@ == AnnView::base(confidence@, text::texts(provenance@)),
            store_laws::regular_ann(ann@),
    {
        proof {
            store_laws::base_is_regular(confidence@, text::texts(provenance@));
        }
        let mut conf: Vec<String> = Vec::new();
        conf.push(confidence.to_owned());
        assert(text::texts(conf@) =~= seq![confidence@]);
        let mut prov: Vec<String> = Vec::new();
        assert(text::texts(prov@) =~= seq![]);
        place_all(&mut prov, provenance);
        Ann { conf, prov }
    }

    /// Adds what another annotation holds.
    pub fn merge(&mut self, other: &Ann)
        ensures
            final(self)@ == old(self)@.merged(other@),
    {
        let ghost start = text::texts(self.conf@);
        let ghost more = text::texts(other.conf@);
        let ghost prov = self.prov@;
        for i in 0..other.conf.len()
            invariant
                more == text::texts(other.conf@),
                text::texts(self.conf@) == joined(start, more.take(i as int)),
                self.prov@ == prov,
        {
            assert(more.take(i as int + 1).drop_last() =~= more.take(i as int));
            let ghost before = text::texts(self.conf@);
            if !sorted::has(&self.conf, other.conf[i].as_str()) {
                self.conf.push(other.conf[i].as_str().to_owned());
                assert(text::texts(self.conf@) =~= before.push(more[i as int]));
            }
        }
        assert(more.take(more.len() as int) =~= more);
        place_all(&mut self.prov, &other.prov);
    }

    /// Copies an annotation.
    pub fn copy(&self) -> (ann: Ann)
        ensures
            ann@ == self@,
    {
        Ann { conf: copy_strings(&self.conf), prov: copy_strings(&self.prov) }
    }
}

/// Places texts in a list.
fn place_all(rows: &mut Vec<String>, more: &Vec<String>)
    ensures
        text::texts(final(rows)@) == sorted::placed_all(
            text::texts(old(rows)@),
            text::texts(more@),
        ),
{
    let ghost start = text::texts(rows@);
    let ghost all = text::texts(more@);
    for i in 0..more.len()
        invariant
            all == text::texts(more@),
            text::texts(rows@) == sorted::placed_all(start, all.take(i as int)),
    {
        assert(all.take(i as int + 1).drop_last() =~= all.take(i as int));
        sorted::place(rows, more[i].as_str().to_owned());
    }
    assert(all.take(all.len() as int) =~= all);
}

// ------------------------------------------------------------------ facts
/// A fact.
#[derive(Clone, Debug, PartialEq, Eq)]
pub struct Fact {
    pub pred: String,
    pub key: Vec<Value>,
    pub ann: Ann,
}

/// What a fact says.
#[verifier::ext_equal]
pub struct FactView {
    pub pred: Seq<char>,
    pub key: Seq<ValueView>,
    pub ann: AnnView,
}

/// What a fact says, where the symbols have the given names.
pub open spec fn fact_view(names: Seq<Seq<char>>, fact: Fact) -> FactView {
    FactView { pred: fact.pred@, key: key_view(names, fact.key@), ann: fact.ann@ }
}

/// What facts say.
pub open spec fn fact_views(names: Seq<Seq<char>>, facts: Seq<Fact>) -> Seq<FactView> {
    facts.map_values(|fact: Fact| fact_view(names, fact))
}

/// Whether all symbols of facts are known.
pub open spec fn known_facts(names: Seq<Seq<char>>, facts: Seq<Fact>) -> bool {
    forall|i: int| 0 <= i < facts.len() ==> known_key(names, (#[trigger] facts[i]).key@)
}

/// Whether a fact has the given predicate and key.
pub open spec fn is_fact(fact: FactView, pred: Seq<char>, key: Seq<ValueView>) -> bool {
    fact.pred == pred && fact.key == key
}

/// Where the fact with the given predicate and key stands.
pub open spec fn place_of(
    facts: Seq<FactView>,
    pred: Seq<char>,
    key: Seq<ValueView>,
) -> Option<int>
    decreases facts.len(),
{
    if facts.len() == 0 {
        None
    } else {
        match place_of(facts.drop_last(), pred, key) {
            Some(i) => Some(i),
            None => if is_fact(facts.last(), pred, key) {
                Some(facts.len() - 1)
            } else {
                None
            },
        }
    }
}

/// The facts after an assertion: a fact that is there keeps its place and its annotation is
/// merged; one that is not comes last.
pub open spec fn declared(
    facts: Seq<FactView>,
    pred: Seq<char>,
    key: Seq<ValueView>,
    ann: AnnView,
) -> Seq<FactView> {
    match place_of(facts, pred, key) {
        Some(i) => facts.update(i, FactView { pred, key, ann: facts[i].ann.merged(ann) }),
        None => facts.push(FactView { pred, key, ann }),
    }
}

/// The facts without the one with the given predicate and key.
pub open spec fn retracted(
    facts: Seq<FactView>,
    pred: Seq<char>,
    key: Seq<ValueView>,
) -> Seq<FactView> {
    match place_of(facts, pred, key) {
        Some(i) => facts.remove(i),
        None => facts,
    }
}

/// A fact stands where it is said to, and none of its kind before it.
pub proof fn lemma_place_of(facts: Seq<FactView>, pred: Seq<char>, key: Seq<ValueView>)
    ensures
        match place_of(facts, pred, key) {
            Some(i) => {
                &&& 0 <= i < facts.len()
                &&& is_fact(facts[i], pred, key)
                &&& forall|j: int| 0 <= j < i ==> !is_fact(#[trigger] facts[j], pred, key)
            },
            None => forall|j: int|
                0 <= j < facts.len() ==> !is_fact(#[trigger] facts[j], pred, key),
        },
    decreases facts.len(),
{
    if facts.len() > 0 {
        let fewer = facts.drop_last();
        lemma_place_of(fewer, pred, key);
        assert forall|j: int| 0 <= j < fewer.len() implies #[trigger] facts[j] == fewer[j] by {}
        if place_of(fewer, pred, key) is None {
            assert forall|j: int| 0 <= j < fewer.len() implies !is_fact(
                #[trigger] facts[j],
                pred,
                key,
            ) by {
                assert(!is_fact(fewer[j], pred, key));
            }
        } else {
            let i = place_of(fewer, pred, key)->0;
            assert forall|j: int| 0 <= j < i implies !is_fact(#[trigger] facts[j], pred, key) by {
                assert(!is_fact(fewer[j], pred, key));
            }
        }
    }
}

/// The first fact with a predicate and a key is the one that is found.
pub proof fn lemma_place_is(facts: Seq<FactView>, pred: Seq<char>, key: Seq<ValueView>, i: int)
    requires
        0 <= i < facts.len(),
        is_fact(facts[i], pred, key),
        forall|j: int| 0 <= j < i ==> !is_fact(#[trigger] facts[j], pred, key),
    ensures
        place_of(facts, pred, key) == Some(i),
{
    lemma_place_of(facts, pred, key);
}

/// Copies a key.
pub fn copy_key(key: &Vec<Value>) -> (copy: Vec<Value>)
    ensures
        copy@ == key@,
{
    let mut copy: Vec<Value> = Vec::new();
    for i in 0..key.len()
        invariant
            copy@ == key@.take(i as int),
    {
        copy.push(key[i]);
        assert(key@.take(i as int + 1) =~= key@.take(i as int).push(key@[i as int]));
    }
    assert(key@.take(key@.len() as int) =~= key@);
    copy
}

/// Whether two keys are the same.
pub fn same_key(a: &Vec<Value>, b: &Vec<Value>) -> (same: bool)
    ensures
        same == (a@ == b@),
{
    if a.len() != b.len() {
        return false;
    }
    for i in 0..a.len()
        invariant
            a@.len() == b@.len(),
            forall|j: int| 0 <= j < i ==> a@[j] == b@[j],
    {
        if a[i] != b[i] {
            return false;
        }
    }
    assert(a@ =~= b@);
    true
}

/// Two keys of known values are equal where they stand for the same.
pub proof fn lemma_keys(names: Seq<Seq<char>>, a: Seq<Value>, b: Seq<Value>)
    requires
        distinct(names),
        known_key(names, a),
        known_key(names, b),
    ensures
        a == b <==> key_view(names, a) == key_view(names, b),
{
    if key_view(names, a) == key_view(names, b) {
        assert(key_view(names, a).len() == key_view(names, b).len());
        assert forall|i: int| 0 <= i < a.len() implies a[i] == b[i] by {
            assert(key_view(names, a)[i] == key_view(names, b)[i]);
            assert(known(names, a[i]) && known(names, b[i]));
            lemma_values(names, a[i], b[i]);
        }
        assert(a =~= b);
    }
}

/// More names leave what known values stand for as it is.
pub proof fn lemma_more_names(names: Seq<Seq<char>>, more: Seq<Seq<char>>, facts: Seq<Fact>)
    requires
        names.is_prefix_of(more),
        known_facts(names, facts),
    ensures
        known_facts(more, facts),
        fact_views(more, facts) == fact_views(names, facts),
{
    assert forall|i: int| 0 <= i < facts.len() implies {
        &&& known_key(more, (#[trigger] facts[i]).key@)
        &&& fact_view(more, facts[i]) == fact_view(names, facts[i])
    } by {
        lemma_more_names_key(names, more, facts[i].key@);
    }
    assert(fact_views(more, facts) =~= fact_views(names, facts));
}

/// More names leave what a known key stands for as it is.
pub proof fn lemma_more_names_key(names: Seq<Seq<char>>, more: Seq<Seq<char>>, key: Seq<Value>)
    requires
        names.is_prefix_of(more),
        known_key(names, key),
    ensures
        known_key(more, key),
        key_view(more, key) == key_view(names, key),
{
    assert forall|i: int| 0 <= i < key.len() implies {
        &&& known(more, #[trigger] key[i])
        &&& value_view(more, key[i]) == value_view(names, key[i])
    } by {
        assert(known(names, key[i]));
        if let Value::Sym(j) = key[i] {
            assert(more[j as int] == names[j as int]);
        }
    }
    assert(key_view(more, key) =~= key_view(names, key));
}

// ------------------------------------------------------------- what holds
/// Whether a key fits a pattern: it has as many values, and those that are asked for.
pub open spec fn fits(key: Seq<ValueView>, pattern: Seq<Option<ValueView>>) -> bool {
    &&& key.len() == pattern.len()
    &&& forall|i: int|
        0 <= i < key.len() ==> ((#[trigger] pattern[i]) matches Some(value) ==> key[i] == value)
}

/// The key that a fact gives to a relation: its own where it is one of the relation, and what
/// the default rules derive from it where it holds now.
pub open spec fn given(fact: FactView, now: int, pred: Seq<char>) -> Option<Seq<ValueView>> {
    if fact.pred == pred {
        Some(fact.key)
    } else if pred == "current"@ && fact.pred == "edge"@ && fact.key.len() == 6
        && search::valid_at(fact.key, 3, 4, now) {
        Some(fact.key.take(3))
    } else if pred == "current"@ && fact.pred == "scoped_edge"@ && fact.key.len() == 7
        && search::valid_at(fact.key, 4, 5, now) {
        Some(fact.key.subrange(1, 4))
    } else if pred == "scoped_current"@ && fact.pred == "scoped_edge"@ && fact.key.len() == 7
        && search::valid_at(fact.key, 4, 5, now) {
        Some(fact.key.take(4))
    } else {
        None
    }
}

/// The rows of a relation, each with the annotations of all facts that give it.
pub open spec fn relation(facts: Seq<FactView>, now: int, pred: Seq<char>) -> Seq<FactView>
    decreases facts.len(),
{
    if facts.len() == 0 {
        seq![]
    } else {
        let rows = relation(facts.drop_last(), now, pred);
        match given(facts.last(), now, pred) {
            Some(key) => declared(rows, pred, key, facts.last().ann),
            None => rows,
        }
    }
}

/// Those of some facts whose keys fit a pattern.
pub open spec fn fitting(
    facts: Seq<FactView>,
    pattern: Seq<Option<ValueView>>,
) -> Seq<FactView>
    decreases facts.len(),
{
    if facts.len() == 0 {
        seq![]
    } else {
        let rows = fitting(facts.drop_last(), pattern);
        if fits(facts.last().key, pattern) {
            rows.push(facts.last())
        } else {
            rows
        }
    }
}

/// What fits a pattern of rows to which one was asserted is what fits it of the rows, to which it was
/// asserted where it fits.
proof fn lemma_fitting_declared(
    rows: Seq<FactView>,
    pattern: Seq<Option<ValueView>>,
    pred: Seq<char>,
    key: Seq<ValueView>,
    ann: AnnView,
)
    ensures
        fitting(declared(rows, pred, key, ann), pattern) == if fits(key, pattern) {
            declared(fitting(rows, pattern), pred, key, ann)
        } else {
            fitting(rows, pattern)
        },
        place_of(fitting(rows, pattern), pred, key) is Some <==> place_of(rows, pred, key) is Some
            && fits(key, pattern),
    decreases rows.len(),
{
    let after = declared(rows, pred, key, ann);
    let found = fitting(rows, pattern);
    lemma_place_of(rows, pred, key);
    if rows.len() == 0 {
        assert(after.drop_last() =~= rows);
    } else {
        let fewer = rows.drop_last();
        let last = rows.last();
        let rest = fitting(fewer, pattern);
        lemma_fitting_declared(fewer, pattern, pred, key, ann);
        lemma_place_of(fewer, pred, key);
        lemma_place_of(rest, pred, key);
        if fits(last.key, pattern) {
            assert(found.drop_last() =~= rest);
        }
        if let Some(i) = place_of(fewer, pred, key) {
            assert(after =~= declared(fewer, pred, key, ann).push(last));
            assert(after.drop_last() =~= declared(fewer, pred, key, ann));
            if fits(key, pattern) {
                assert(place_of(found, pred, key) == place_of(rest, pred, key));
                if fits(last.key, pattern) {
                    assert(declared(found, pred, key, ann) =~= declared(
                        rest,
                        pred,
                        key,
                        ann,
                    ).push(last));
                }
            }
        } else if is_fact(last, pred, key) {
            let merged = FactView { pred, key, ann: last.ann.merged(ann) };
            assert(after =~= fewer.push(merged));
            assert(after.drop_last() =~= fewer);
            if fits(key, pattern) {
                assert(declared(found, pred, key, ann) =~= rest.push(merged));
            }
        } else {
            assert(after.drop_last() =~= rows);
        }
    }
}

/// The values that a pattern asks for.
pub open spec fn pattern_view(
    names: Seq<Seq<char>>,
    pattern: Seq<Option<Value>>,
) -> Seq<Option<ValueView>> {
    pattern.map_values(
        |value: Option<Value>|
            match value {
                Some(value) => Some(value_view(names, value)),
                None => None,
            },
    )
}

/// Whether the values that a pattern asks for are known.
pub open spec fn known_pattern(names: Seq<Seq<char>>, pattern: Seq<Option<Value>>) -> bool {
    forall|i: int|
        0 <= i < pattern.len() ==> ((#[trigger] pattern[i]) matches Some(value) ==> known(
            names,
            value,
        ))
}

/// The store of facts.
pub struct Engine {
    interner: Interner,
    facts: Vec<Fact>,
    now: i64,
    rules: Vec<Rule>,
}

/// What the store holds.
#[verifier::ext_equal]
pub struct EngineView {
    /// The names of the symbols.
    pub names: Seq<Seq<char>>,
    /// The facts, in the order in which they were first asserted.
    pub facts: Seq<FactView>,
    /// The time.
    pub now: int,
    /// The clauses of the program that was added to the default rules.
    pub rules: Seq<RuleView>,
}

impl View for Engine {
    type V = EngineView;

    closed spec fn view(&self) -> EngineView {
        EngineView {
            names: self.interner@,
            facts: fact_views(self.interner@, self.facts@),
            now: self.now as int,
            rules: clause::rule_views(self.rules@),
        }
    }
}

impl EngineView {
    /// The store after a symbol was interned.
    pub open spec fn with_name(self, name: Seq<char>) -> EngineView {
        EngineView { names: interned(self.names, name), ..self }
    }

    /// The store after an assertion.
    pub open spec fn with_fact(
        self,
        pred: Seq<char>,
        key: Seq<ValueView>,
        ann: AnnView,
    ) -> EngineView {
        EngineView { facts: declared(self.facts, pred, key, ann), ..self }
    }

    /// The store without a fact.
    pub open spec fn without_fact(self, pred: Seq<char>, key: Seq<ValueView>) -> EngineView {
        EngineView { facts: retracted(self.facts, pred, key), ..self }
    }

    /// The rows of a relation that hold and fit a pattern.
    pub open spec fn rows(
        self,
        pred: Seq<char>,
        pattern: Seq<Option<ValueView>>,
    ) -> Seq<FactView> {
        rows::held_rows(self, pred, pattern)
    }
}

impl Engine {
    /// Whether no two symbols have one name, the symbols of all facts and rules have one, and the
    /// facts are regular: each is there once, and can be written.
    pub closed spec fn wf(&self) -> bool {
        &&& distinct(self.interner@)
        &&& known_facts(self.interner@, self.facts@)
        &&& store_laws::regular(self@.facts)
        &&& datalog::known_rules(self.interner@, self@.rules)
    }

    /// The symbols of the rules have names.
    pub proof fn lemma_rules(&self)
        requires
            self.wf(),
        ensures
            datalog::known_rules(self@.names, self@.rules),
    {
    }

    /// The facts are regular, and their integers are of 64 bits.
    pub proof fn lemma_regular(&self)
        requires
            self.wf(),
        ensures
            store_laws::regular(self@.facts),
            i64::MIN <= self@.now <= i64::MAX,
            forall|i: int|
                0 <= i < self@.facts.len() ==> codec_laws::values_fit(
                    (#[trigger] self@.facts[i]).key,
                ),
    {
        assert forall|i: int| 0 <= i < self@.facts.len() implies codec_laws::values_fit(
            (#[trigger] self@.facts[i]).key,
        ) by {
            let key = self@.facts[i].key;
            assert forall|k: int| 0 <= k < key.len() implies codec_laws::value_fits(
                #[trigger] key[k],
            ) by {
                assert(key[k] == value_view(self.interner@, self.facts@[i].key@[k]));
            }
        }
    }

    /// No two symbols have one name.
    pub proof fn lemma_distinct(&self)
        requires
            self.wf(),
        ensures
            distinct(self@.names),
    {
    }

    /// An empty store.
    pub fn new() -> (engine: Engine)
        ensures
            engine.wf(),
            engine@ == (EngineView { names: seq![], facts: seq![], now: 0, rules: seq![] }),
    {
        let engine = Engine {
            interner: Interner::new(),
            facts: Vec::new(),
            now: 0,
            rules: Vec::new(),
        };
        assert(engine@.facts =~= seq![]);
        assert(engine@.rules =~= seq![]);
        engine
    }

    /// The time.
    pub fn now(&self) -> (now: i64)
        ensures
            now == self@.now,
    {
        self.now
    }

    /// Sets the time.
    pub fn set_now(&mut self, now: i64)
        requires
            old(self).wf(),
        ensures
            final(self).wf(),
            final(self)@ == (EngineView { now: now as int, ..old(self)@ }),
    {
        self.now = now;
    }

    /// The symbol with a name, which is new where there was none.
    pub fn sym(&mut self, name: &str) -> (value: Value)
        requires
            old(self).wf(),
        ensures
            final(self).wf(),
            final(self)@ == old(self)@.with_name(name@),
            known(final(self)@.names, value),
            value_view(final(self)@.names, value) == ValueView::Symbol(name@),
    {
        let ghost names = self.interner@;
        let symbol: usize = self.interner.intern(name);
        proof {
            lemma_more_names(names, self.interner@, self.facts@);
            assert(self@.facts == old(self)@.facts);
            datalog::lemma_rules_known(names, self.interner@, self@.rules);
        }
        Value::Sym(symbol)
    }

    /// The symbol with a name; where there is none, a value that is no symbol.
    pub fn sym_of(&self, name: &str) -> (value: Value)
        requires
            self.wf(),
        ensures
            known(self@.names, value),
            value_view(self@.names, value) == if self@.names.contains(name@) {
                ValueView::Symbol(name@)
            } else {
                ValueView::Integer(UNKNOWN as int)
            },
    {
        match self.interner.lookup(name) {
            Some(symbol) => Value::Sym(symbol),
            None => Value::Int(UNKNOWN),
        }
    }

    /// The clauses of the program that was added to the default rules.
    pub fn rules(&self) -> (rules: &Vec<Rule>)
        ensures
            clause::rule_views(rules@) == self@.rules,
    {
        &self.rules
    }

    /// Adds the rules of a program to the default rules, in place of those that were added, and
    /// interns their symbols. What facts the program states is not asserted.
    pub fn set_rules(&mut self, rules: Vec<Rule>)
        requires
            old(self).wf(),
        ensures
            final(self).wf(),
            final(self)@ == (EngineView {
                names: datalog::with_rule_names(old(self)@.names, clause::rule_views(rules@)),
                rules: clause::rule_views(rules@),
                ..old(self)@
            }),
    {
        datalog::intern_rules(self, &rules);
        self.rules = rules;
    }

    /// The facts, in the order in which they were first asserted.
    pub fn facts(&self) -> (facts: &Vec<Fact>)
        requires
            self.wf(),
        ensures
            known_facts(self@.names, facts@),
            fact_views(self@.names, facts@) == self@.facts,
    {
        &self.facts
    }

    /// Shows a value.
    pub fn display(&self, value: &Value) -> (form: String)
        requires
            self.wf(),
            known(self@.names, *value),
        ensures
            form@ == search::shown(value_view(self@.names, *value)),
    {
        self.interner.display(value)
    }
}

/// Where the fact with a predicate and a key stands.
fn find_fact(
    facts: &Vec<Fact>,
    pred: &str,
    key: &Vec<Value>,
    Ghost(names): Ghost<Seq<Seq<char>>>,
) -> (place: Option<usize>)
    requires
        distinct(names),
        known_facts(names, facts@),
        known_key(names, key@),
    ensures
        match place {
            Some(i) => i < facts@.len() && place_of(
                fact_views(names, facts@),
                pred@,
                key_view(names, key@),
            ) == Some(i as int),
            None => place_of(
                fact_views(names, facts@),
                pred@,
                key_view(names, key@),
            ) is None,
        },
{
    let ghost views = fact_views(names, facts@);
    let ghost wanted = key_view(names, key@);
    for i in 0..facts.len()
        invariant
            distinct(names),
            known_facts(names, facts@),
            known_key(names, key@),
            views == fact_views(names, facts@),
            wanted == key_view(names, key@),
            forall|j: int| 0 <= j < i ==> !is_fact(#[trigger] views[j], pred@, wanted),
    {
        proof {
            assert(known_key(names, facts@[i as int].key@));
            lemma_keys(names, facts@[i as int].key@, key@);
            assert(views[i as int] == fact_view(names, facts@[i as int]));
        }
        if same_key(&facts[i].key, key) && text::same_text(facts[i].pred.as_str(), pred) {
            proof {
                lemma_place_is(views, pred@, wanted, i as int);
            }
            return Some(i);
        }
    }
    proof {
        lemma_place_of(views, pred@, wanted);
    }
    None
}

/// Asserts a fact.
fn declare_in(
    facts: &mut Vec<Fact>,
    pred: &str,
    key: &Vec<Value>,
    ann: Ann,
    Ghost(names): Ghost<Seq<Seq<char>>>,
)
    requires
        distinct(names),
        known_facts(names, old(facts)@),
        known_key(names, key@),
    ensures
        known_facts(names, final(facts)@),
        fact_views(names, final(facts)@) == declared(
            fact_views(names, old(facts)@),
            pred@,
            key_view(names, key@),
            ann@,
        ),
{
    let ghost before = facts@;
    let ghost views = fact_views(names, facts@);
    let ghost wanted = key_view(names, key@);
    match find_fact(facts, pred, key, Ghost(names)) {
        Some(i) => {
            proof {
                lemma_place_of(views, pred@, wanted);
                assert(views[i as int] == fact_view(names, facts@[i as int]));
            }
            let mut fact = facts.remove(i);
            fact.ann.merge(&ann);
            let ghost merged = fact;
            facts.insert(i, fact);
            proof {
                assert(facts@ =~= before.update(i as int, merged));
                assert forall|j: int| 0 <= j < facts@.len() implies known_key(
                    names,
                    (#[trigger] facts@[j]).key@,
                ) by {
                    assert(known_key(names, before[j].key@));
                }
                assert(fact_views(names, facts@) =~= declared(views, pred@, wanted, ann@));
            }
        },
        None => {
            let fact = Fact { pred: pred.to_owned(), key: copy_key(key), ann };
            let ghost last = fact;
            facts.push(fact);
            proof {
                assert forall|j: int| 0 <= j < facts@.len() implies known_key(
                    names,
                    (#[trigger] facts@[j]).key@,
                ) by {
                    if j < before.len() {
                        assert(known_key(names, before[j].key@));
                    }
                }
                assert(fact_views(names, facts@) =~= views.push(fact_view(names, last)));
            }
        },
    }
}

/// Whether a key fits a pattern.
pub fn key_fits(
    key: &Vec<Value>,
    pattern: &Vec<Option<Value>>,
    Ghost(names): Ghost<Seq<Seq<char>>>,
) -> (yes: bool)
    requires
        distinct(names),
        known_key(names, key@),
        known_pattern(names, pattern@),
    ensures
        yes == fits(key_view(names, key@), pattern_view(names, pattern@)),
{
    let ghost shown = key_view(names, key@);
    let ghost asked = pattern_view(names, pattern@);
    if key.len() != pattern.len() {
        return false;
    }
    for i in 0..key.len()
        invariant
            distinct(names),
            known_key(names, key@),
            known_pattern(names, pattern@),
            shown == key_view(names, key@),
            asked == pattern_view(names, pattern@),
            key@.len() == pattern@.len(),
            forall|j: int|
                0 <= j < i ==> ((#[trigger] asked[j]) matches Some(value) ==> shown[j] == value),
    {
        assert(asked[i as int] == match pattern@[i as int] {
            Some(value) => Some(value_view(names, value)),
            None => None,
        });
        if let Some(value) = pattern[i] {
            proof {
                assert(known(names, key@[i as int]));
                assert(known(names, pattern@[i as int]->0));
                lemma_values(names, key@[i as int], value);
            }
            if key[i] != value {
                assert(shown[i as int] != asked[i as int]->0);
                return false;
            }
        }
    }
    true
}

impl Fact {
    /// Copies a fact.
    pub fn copy(&self) -> (copy: Fact)
        ensures
            copy.pred@ == self.pred@,
            copy.key@ == self.key@,
            copy.ann@ == self.ann@,
    {
        Fact {
            pred: self.pred.as_str().to_owned(),
            key: copy_key(&self.key),
            ann: self.ann.copy(),
        }
    }
}

/// Whether `now` lies between two values of a key.
fn holds_at(key: &Vec<Value>, from: usize, to: usize, now: i64, Ghost(names): Ghost<
    Seq<Seq<char>>,
>) -> (yes: bool)
    requires
        from < key@.len(),
        to < key@.len(),
    ensures
        yes == search::valid_at(key_view(names, key@), from as int, to as int, now as int),
{
    match (key[from], key[to]) {
        (Value::Int(valid_from), Value::Int(valid_to)) => valid_from <= now && now < valid_to,
        _ => false,
    }
}

/// Some values of a key.
fn key_part(key: &Vec<Value>, from: usize, to: usize) -> (part: Vec<Value>)
    requires
        from <= to <= key@.len(),
    ensures
        part@ == key@.subrange(from as int, to as int),
{
    let mut part: Vec<Value> = Vec::new();
    for i in from..to
        invariant
            from <= to <= key@.len(),
            part@ == key@.subrange(from as int, i as int),
    {
        part.push(key[i]);
        assert(key@.subrange(from as int, i as int + 1) =~= key@.subrange(
            from as int,
            i as int,
        ).push(key@[i as int]));
    }
    part
}

/// The key that a fact gives to a relation.
fn give(fact: &Fact, now: i64, pred: &str, Ghost(names): Ghost<Seq<Seq<char>>>) -> (key: Option<
    Vec<Value>,
>)
    requires
        known_key(names, fact.key@),
    ensures
        match key {
            Some(key) => known_key(names, key@) && given(
                fact_view(names, *fact),
                now as int,
                pred@,
            ) == Some(key_view(names, key@)),
            None => given(fact_view(names, *fact), now as int, pred@) is None,
        },
{
    let ghost whole = key_view(names, fact.key@);
    if text::same_text(fact.pred.as_str(), pred) {
        return Some(copy_key(&fact.key));
    }
    let current: bool = text::same_text(pred, "current");
    let scoped: bool = text::same_text(pred, "scoped_current");
    if current && text::same_text(fact.pred.as_str(), "edge") && fact.key.len() == 6 && holds_at(
        &fact.key,
        3,
        4,
        now,
        Ghost(names),
    ) {
        let part: Vec<Value> = key_part(&fact.key, 0, 3);
        assert(key_view(names, part@) =~= whole.take(3));
        return Some(part);
    }
    if text::same_text(fact.pred.as_str(), "scoped_edge") && fact.key.len() == 7 && holds_at(
        &fact.key,
        4,
        5,
        now,
        Ghost(names),
    ) {
        if current {
            let part: Vec<Value> = key_part(&fact.key, 1, 4);
            assert(key_view(names, part@) =~= whole.subrange(1, 4));
            return Some(part);
        }
        if scoped {
            let part: Vec<Value> = key_part(&fact.key, 0, 4);
            assert(key_view(names, part@) =~= whole.take(4));
            return Some(part);
        }
    }
    None
}

/// What a term is.
pub enum TermView {
    Sym(Seq<char>),
    Int(int),
    Var(Seq<char>),
}

impl View for Term {
    type V = TermView;

    open spec fn view(&self) -> TermView {
        match self {
            Term::Sym(name) => TermView::Sym(name@),
            Term::Int(i) => TermView::Int(*i as int),
            Term::Var(name) => TermView::Var(name@),
        }
    }
}

/// What terms are.
pub open spec fn term_views(terms: Seq<Term>) -> Seq<TermView> {
    terms.map_values(|term: Term| term@)
}

/// Whether a term stands for a value: it is an integer or a symbol that is known.
pub open spec fn grounded(names: Seq<Seq<char>>, term: TermView) -> bool {
    match term {
        TermView::Sym(name) => names.contains(name),
        TermView::Int(_) => true,
        TermView::Var(_) => false,
    }
}

/// The value that a term stands for.
pub open spec fn ground(term: TermView) -> ValueView {
    match term {
        TermView::Sym(name) => ValueView::Symbol(name),
        TermView::Int(i) => ValueView::Integer(i),
        TermView::Var(name) => ValueView::Symbol(name),
    }
}

impl Engine {
    /// Asserts a fact.
    pub fn declare(&mut self, pred: &str, key: &Vec<Value>, ann: Ann)
        requires
            old(self).wf(),
            known_key(old(self)@.names, key@),
            store_laws::regular_ann(ann@),
            store_laws::plain(pred@),
        ensures
            final(self).wf(),
            final(self)@ == old(self)@.with_fact(
                pred@,
                key_view(old(self)@.names, key@),
                ann@,
            ),
    {
        let ghost names = self.interner@;
        proof {
            store_laws::declare_keeps_regular(
                self@.facts,
                pred@,
                key_view(names, key@),
                ann@,
            );
        }
        declare_in(&mut self.facts, pred, key, ann, Ghost(names));
    }

    /// Takes a fact back.
    pub fn retract(&mut self, pred: &str, key: &Vec<Value>)
        requires
            old(self).wf(),
            known_key(old(self)@.names, key@),
        ensures
            final(self).wf(),
            final(self)@ == old(self)@.without_fact(pred@, key_view(old(self)@.names, key@)),
    {
        let ghost names = self.interner@;
        let ghost before = self.facts@;
        proof {
            store_laws::retract_keeps_regular(self@.facts, pred@, key_view(names, key@));
        }
        if let Some(i) = find_fact(&self.facts, pred, key, Ghost(names)) {
            let _ = self.facts.remove(i);
            proof {
                assert forall|j: int| 0 <= j < self.facts@.len() implies known_key(
                    names,
                    (#[trigger] self.facts@[j]).key@,
                ) by {
                    let k = if j < i {
                        j
                    } else {
                        j + 1
                    };
                    assert(known_key(names, before[k].key@));
                }
                assert(self@.facts =~= fact_views(names, before).remove(i as int));
            }
        }
    }

    /// The rows that the facts give to a relation, by themselves or by the default rules, and that
    /// fit a pattern.
    pub fn given_query(&self, pred: &str, pattern: &Vec<Option<Value>>) -> (rows: Vec<Fact>)
        requires
            self.wf(),
            known_pattern(self@.names, pattern@),
        ensures
            known_facts(self@.names, rows@),
            fact_views(self@.names, rows@) == fitting(
                relation(self@.facts, self@.now, pred@),
                pattern_view(self@.names, pattern@),
            ),
    {
        let ghost names = self.interner@;
        let ghost all = fact_views(names, self.facts@);
        let ghost asked = pattern_view(names, pattern@);
        let mut rows: Vec<Fact> = Vec::new();
        assert(fact_views(names, rows@) =~= seq![]);
        for i in 0..self.facts.len()
            invariant
                self.wf(),
                names == self.interner@,
                all == fact_views(names, self.facts@),
                known_pattern(names, pattern@),
                asked == pattern_view(names, pattern@),
                known_facts(names, rows@),
                fact_views(names, rows@) == fitting(
                    relation(all.take(i as int), self.now as int, pred@),
                    asked,
                ),
        {
            assert(all.take(i as int + 1).drop_last() =~= all.take(i as int));
            assert(known_key(names, self.facts@[i as int].key@));
            assert(all[i as int] == fact_view(names, self.facts@[i as int]));
            if let Some(key) = give(&self.facts[i], self.now, pred, Ghost(names)) {
                proof {
                    lemma_fitting_declared(
                        relation(all.take(i as int), self.now as int, pred@),
                        asked,
                        pred@,
                        key_view(names, key@),
                        all[i as int].ann,
                    );
                }
                if key_fits(&key, pattern, Ghost(names)) {
                    let ann: Ann = self.facts[i].ann.copy();
                    declare_in(&mut rows, pred, &key, ann, Ghost(names));
                }
            }
        }
        assert(all.take(all.len() as int) =~= all);
        rows
    }

    /// Copies the store.
    pub fn copy(&self) -> (copy: Engine)
        requires
            self.wf(),
        ensures
            copy.wf(),
            copy@ == self@,
    {
        let ghost names = self.interner@;
        let ghost all = fact_views(names, self.facts@);
        let mut facts: Vec<Fact> = Vec::new();
        assert(fact_views(names, facts@) =~= all.take(0));
        for i in 0..self.facts.len()
            invariant
                self.wf(),
                names == self.interner@,
                all == fact_views(names, self.facts@),
                known_facts(names, facts@),
                fact_views(names, facts@) == all.take(i as int),
        {
            let ghost before = fact_views(names, facts@);
            assert(known_key(names, self.facts@[i as int].key@));
            facts.push(self.facts[i].copy());
            assert(fact_views(names, facts@) =~= before.push(all[i as int]));
            assert(all.take(i as int + 1) =~= all.take(i as int).push(all[i as int]));
        }
        assert(all.take(all.len() as int) =~= all);
        let interner = Interner { names: copy_strings(&self.interner.names) };
        assert(interner@ =~= names);
        Engine { interner, facts, now: self.now, rules: clause::copy_rules(&self.rules) }
    }

    /// The values that terms stand for, where each stands for one.
    pub fn ground_values(&self, pattern: &Vec<Term>) -> (values: Option<Vec<Value>>)
        requires
            self.wf(),
        ensures
            match values {
                Some(values) => {
                    &&& forall|i: int|
                        0 <= i < pattern@.len() ==> grounded(
                            self@.names,
                            (#[trigger] pattern@[i])@,
                        )
                    &&& known_key(self@.names, values@)
                    &&& key_view(self@.names, values@) == term_views(pattern@).map_values(
                        |term: TermView| ground(term),
                    )
                },
                None => exists|i: int|
                    0 <= i < pattern@.len() && !grounded(self@.names, (#[trigger] pattern@[i])@),
            },
    {
        let ghost all = term_views(pattern@).map_values(|term: TermView| ground(term));
        let mut values: Vec<Value> = Vec::new();
        assert(key_view(self@.names, values@) =~= all.take(0));
        for i in 0..pattern.len()
            invariant
                self.wf(),
                all == term_views(pattern@).map_values(|term: TermView| ground(term)),
                known_key(self@.names, values@),
                key_view(self@.names, values@) == all.take(i as int),
                forall|j: int|
                    0 <= j < i ==> grounded(self@.names, (#[trigger] pattern@[j])@),
        {
            let value: Value = match &pattern[i] {
                Term::Sym(name) => match self.interner.lookup(name.as_str()) {
                    Some(symbol) => Value::Sym(symbol),
                    None => {
                        assert(!grounded(self@.names, pattern@[i as int]@));
                        return None;
                    },
                },
                Term::Int(i) => Value::Int(*i),
                Term::Var(_) => {
                    assert(!grounded(self@.names, pattern@[i as int]@));
                    return None;
                },
            };
            let ghost before = values@;
            values.push(value);
            proof {
                assert(grounded(self@.names, pattern@[i as int]@));
                assert(value_view(self@.names, value) == all[i as int]);
                assert(key_view(self@.names, values@) =~= key_view(self@.names, before).push(
                    all[i as int],
                ));
                assert(all.take(i as int + 1) =~= all.take(i as int).push(all[i as int]));
            }
        }
        assert(all.take(all.len() as int) =~= all);
        Some(values)
    }
}

// ----------------------------------------------------------------- scopes
/// Whether a fact is one of a scope that is not among the given ones.
pub open spec fn out_of_scope(fact: FactView, scopes: Seq<Seq<char>>) -> bool {
    &&& fact.pred == "scoped_edge"@
    &&& fact.key.len() == 7
    &&& match fact.key[0] {
        ValueView::Symbol(scope) => !scopes.contains(scope),
        ValueView::Integer(_) => true,
    }
}

/// The facts without those of other scopes.
pub open spec fn in_scopes(facts: Seq<FactView>, scopes: Seq<Seq<char>>) -> Seq<FactView>
    decreases facts.len(),
{
    if facts.len() == 0 {
        seq![]
    } else {
        let rest = in_scopes(facts.drop_last(), scopes);
        if out_of_scope(facts.last(), scopes) {
            rest
        } else {
            rest.push(facts.last())
        }
    }
}

/// Whether a fact is one without a scope.
pub open spec fn unscoped(fact: FactView) -> bool {
    fact.pred == "edge"@ && fact.key.len() == 6
}

/// The facts without those that have no scope.
pub open spec fn without_unscoped(facts: Seq<FactView>) -> Seq<FactView>
    decreases facts.len(),
{
    if facts.len() == 0 {
        seq![]
    } else {
        let rest = without_unscoped(facts.drop_last());
        if unscoped(facts.last()) {
            rest
        } else {
            rest.push(facts.last())
        }
    }
}

impl Engine {
    /// Takes back the facts of all scopes but the given ones, whose names are interned.
    pub fn retain_scopes(&mut self, scopes: &Vec<String>)
        requires
            old(self).wf(),
        ensures
            final(self).wf(),
            final(self)@ == (EngineView {
                names: joined(old(self)@.names, text::texts(scopes@)),
                facts: in_scopes(old(self)@.facts, text::texts(scopes@)),
                ..old(self)@
            }),
    {
        let ghost start = self@;
        let ghost listed = text::texts(scopes@);
        for i in 0..scopes.len()
            invariant
                listed == text::texts(scopes@),
                self.wf(),
                self@ == (EngineView {
                    names: joined(start.names, listed.take(i as int)),
                    ..start
                }),
        {
            assert(listed.take(i as int + 1).drop_last() =~= listed.take(i as int));
            let _ = self.sym(scopes[i].as_str());
        }
        assert(listed.take(listed.len() as int) =~= listed);
        let ghost names = self.interner@;
        let ghost all = fact_views(names, self.facts@);
        let mut facts: Vec<Fact> = Vec::new();
        assert(fact_views(names, facts@) =~= seq![]);
        for i in 0..self.facts.len()
            invariant
                listed == text::texts(scopes@),
                names == self.interner@,
                known_facts(names, self.facts@),
                all == fact_views(names, self.facts@),
                known_facts(names, facts@),
                fact_views(names, facts@) == in_scopes(all.take(i as int), listed),
        {
            assert(all.take(i as int + 1).drop_last() =~= all.take(i as int));
            assert(known_key(names, self.facts@[i as int].key@));
            assert(all[i as int] == fact_view(names, self.facts@[i as int]));
            let fact = &self.facts[i];
            let mut keep: bool = true;
            if text::same_text(fact.pred.as_str(), "scoped_edge") && fact.key.len() == 7 {
                assert(known(names, fact.key@[0]));
                keep = match fact.key[0] {
                    Value::Sym(symbol) => sorted::has(scopes, self.interner.resolve(symbol)),
                    Value::Int(_) => false,
                };
            }
            if keep {
                let ghost before = fact_views(names, facts@);
                facts.push(fact.copy());
                assert(fact_views(names, facts@) =~= before.push(all[i as int]));
            }
        }
        assert(all.take(all.len() as int) =~= all);
        proof {
            store_laws::restriction_keeps_regular(all, listed);
        }
        self.facts = facts;
    }

    /// Takes back the facts that have no scope.
    pub fn remove_unscoped_facts(&mut self)
        requires
            old(self).wf(),
        ensures
            final(self).wf(),
            final(self)@ == (EngineView {
                facts: without_unscoped(old(self)@.facts),
                ..old(self)@
            }),
    {
        let ghost names = self.interner@;
        let ghost all = fact_views(names, self.facts@);
        let mut facts: Vec<Fact> = Vec::new();
        assert(fact_views(names, facts@) =~= seq![]);
        for i in 0..self.facts.len()
            invariant
                names == self.interner@,
                known_facts(names, self.facts@),
                all == fact_views(names, self.facts@),
                known_facts(names, facts@),
                fact_views(names, facts@) == without_unscoped(all.take(i as int)),
        {
            assert(all.take(i as int + 1).drop_last() =~= all.take(i as int));
            assert(known_key(names, self.facts@[i as int].key@));
            assert(all[i as int] == fact_view(names, self.facts@[i as int]));
            let fact = &self.facts[i];
            if !(text::same_text(fact.pred.as_str(), "edge") && fact.key.len() == 6) {
                let ghost before = fact_views(names, facts@);
                facts.push(fact.copy());
                assert(fact_views(names, facts@) =~= before.push(all[i as int]));
            }
        }
        assert(all.take(all.len() as int) =~= all);
        proof {
            store_laws::removal_keeps_regular(all);
        }
        self.facts = facts;
    }
}

} // verus!
