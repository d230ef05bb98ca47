//! What rules give of the facts in a store.
//!
//! The rows that hold are those of the least set that has the facts of the store and the time and,
//! with the rows that the body of a rule asks for, the row of its head. The rules are the default
//! rules and those that were added. The rows are found by adding what the rules give until nothing
//! new comes. There are finitely many rows that hold.

use vstd::prelude::*;
use vstd::set_lib::*;

use crate::clause;
use crate::clause::{Atom, AtomView, Comparison, Guard, GuardView, Rule, RuleView};
use crate::defaults;
use crate::engine;
use crate::engine::{Engine, EngineView, FactView, Term, TermView, Value};
use crate::snapshot::ValueView;
use crate::text;
use crate::update_laws;

verus! {

// --------------------------------------------------------------- bindings
/// What a variable stands for.
#[verifier::ext_equal]
pub struct BindingView {
    pub name: Seq<char>,
    pub value: ValueView,
}

/// The value that a variable was given.
pub open spec fn bound(bindings: Seq<BindingView>, name: Seq<char>) -> Option<ValueView>
    decreases bindings.len(),
{
    if bindings.len() == 0 {
        None
    } else if bindings.last().name == name {
        Some(bindings.last().value)
    } else {
        bound(bindings.drop_last(), name)
    }
}

/// The bindings under which a term stands for a value, if it can: a constant stands for itself,
/// a variable for one value, and `_` for any.
pub open spec fn with_term(
    bindings: Seq<BindingView>,
    term: TermView,
    value: ValueView,
) -> Option<Seq<BindingView>> {
    match term {
        TermView::Sym(name) => if value == ValueView::Symbol(name) {
            Some(bindings)
        } else {
            None
        },
        TermView::Int(i) => if value == ValueView::Integer(i) {
            Some(bindings)
        } else {
            None
        },
        TermView::Var(name) => if name == "_"@ {
            Some(bindings)
        } else {
            match bound(bindings, name) {
                None => Some(bindings.push(BindingView { name, value })),
                Some(before) => if before == value {
                    Some(bindings)
                } else {
                    None
                },
            }
        },
    }
}

/// The bindings under which terms stand for the values of a key, if they can.
pub open spec fn with_terms(
    bindings: Seq<BindingView>,
    terms: Seq<TermView>,
    key: Seq<ValueView>,
) -> Option<Seq<BindingView>>
    decreases terms.len(),
{
    if terms.len() != key.len() {
        None
    } else if terms.len() == 0 {
        Some(bindings)
    } else {
        match with_terms(bindings, terms.drop_last(), key.drop_last()) {
            None => None,
            Some(more) => with_term(more, terms.last(), key.last()),
        }
    }
}

/// The bindings under which atoms stand for rows with the given keys, if they can.
pub open spec fn bound_all(atoms: Seq<AtomView>, keys: Seq<Seq<ValueView>>) -> Option<
    Seq<BindingView>,
>
    decreases atoms.len(),
{
    if atoms.len() != keys.len() {
        None
    } else if atoms.len() == 0 {
        Some(seq![])
    } else {
        match bound_all(atoms.drop_last(), keys.drop_last()) {
            None => None,
            Some(bindings) => with_terms(bindings, atoms.last().args, keys.last()),
        }
    }
}

/// The value that a term stands for.
pub open spec fn term_value(bindings: Seq<BindingView>, term: TermView) -> Option<ValueView> {
    match term {
        TermView::Sym(name) => Some(ValueView::Symbol(name)),
        TermView::Int(i) => Some(ValueView::Integer(i)),
        TermView::Var(name) => bound(bindings, name),
    }
}

/// Whether two values compare as asked for: any two can be equal or differ, and integers have an
/// order.
pub open spec fn compares(comparison: Comparison, a: ValueView, b: ValueView) -> bool {
    match comparison {
        Comparison::Equals => a == b,
        Comparison::Differs => a != b,
        _ => match (a, b) {
            (ValueView::Integer(i), ValueView::Integer(j)) => match comparison {
                Comparison::AtMost => i <= j,
                Comparison::AtLeast => i >= j,
                Comparison::Below => i < j,
                _ => i > j,
            },
            _ => false,
        },
    }
}

/// Whether a comparison holds.
pub open spec fn guard_holds(bindings: Seq<BindingView>, guard: GuardView) -> bool {
    match (term_value(bindings, guard.left), term_value(bindings, guard.right)) {
        (Some(a), Some(b)) => compares(guard.comparison, a, b),
        _ => false,
    }
}

/// Whether all comparisons hold.
pub open spec fn guards_hold(bindings: Seq<BindingView>, guards: Seq<GuardView>) -> bool {
    forall|i: int| 0 <= i < guards.len() ==> guard_holds(bindings, #[trigger] guards[i])
}

/// The values that terms stand for, where each stands for one.
pub open spec fn values_of(bindings: Seq<BindingView>, terms: Seq<TermView>) -> Option<
    Seq<ValueView>,
>
    decreases terms.len(),
{
    if terms.len() == 0 {
        Some(seq![])
    } else {
        match (values_of(bindings, terms.drop_last()), term_value(bindings, terms.last())) {
            (Some(values), Some(value)) => Some(values.push(value)),
            _ => None,
        }
    }
}

// ------------------------------------------------------------- least rows
/// A predicate and a key.
#[verifier::ext_equal]
pub struct RowView {
    pub pred: Seq<char>,
    pub key: Seq<ValueView>,
}

/// Whether a rule gives a row of rows with the given keys, one for each atom of its body. A fact
/// gives none: it is asserted.
pub open spec fn derives(rule: RuleView, keys: Seq<Seq<ValueView>>, row: RowView) -> bool {
    match bound_all(rule.body, keys) {
        None => false,
        Some(bindings) => {
            &&& !rule.is_fact()
            &&& guards_hold(bindings, rule.guards)
            &&& row.pred == rule.head.pred
            &&& values_of(bindings, rule.head.args) == Some(row.key)
        },
    }
}

/// The row that tells the time.
pub open spec fn now_row(engine: EngineView) -> RowView {
    RowView { pred: "now"@, key: seq![ValueView::Integer(engine.now)] }
}

/// Whether a row is one of the store: a fact, or the time.
pub open spec fn stated(engine: EngineView, row: RowView) -> bool {
    update_laws::has_fact(engine.facts, row.pred, row.key) || row == now_row(engine)
}

/// Whether the rows that a body asks for with the given keys are among some rows.
pub open spec fn among(rows: Set<RowView>, body: Seq<AtomView>, keys: Seq<Seq<ValueView>>) -> bool {
    forall|i: int|
        0 <= i < body.len() ==> rows.contains(RowView { pred: body[i].pred, key: #[trigger] keys[i] })
}

/// Whether some rows have those of the store, and what the rules give of them.
pub open spec fn closed_under(
    engine: EngineView,
    rules: Seq<RuleView>,
    rows: Set<RowView>,
) -> bool {
    &&& forall|row: RowView| #[trigger] stated(engine, row) ==> rows.contains(row)
    &&& forall|j: int, keys: Seq<Seq<ValueView>>, row: RowView|
        0 <= j < rules.len() && #[trigger] derives(rules[j], keys, row) && among(
            rows,
            rules[j].body,
            keys,
        ) ==> rows.contains(row)
}

/// Whether a row follows from the store by some rules: it is in every set that has the rows of the
/// store and what the rules give of its rows, and so in the least such set.
pub open spec fn follows(engine: EngineView, rules: Seq<RuleView>, row: RowView) -> bool {
    forall|rows: Set<RowView>| #[trigger] closed_under(engine, rules, rows) ==> rows.contains(row)
}

/// Whether a row holds: it follows from the store by the default rules and those that were added.
pub open spec fn holds(engine: EngineView, added: Seq<RuleView>, row: RowView) -> bool {
    follows(engine, defaults::all_rules(added), row)
}

/// Whether a row is one of the store or among some rows.
pub open spec fn present(engine: EngineView, derived: Seq<RowView>, row: RowView) -> bool {
    stated(engine, row) || derived.contains(row)
}

/// Whether the rows that a body asks for with the given keys are present.
pub open spec fn all_present(
    engine: EngineView,
    derived: Seq<RowView>,
    body: Seq<AtomView>,
    keys: Seq<Seq<ValueView>>,
) -> bool {
    forall|i: int|
        0 <= i < body.len() ==> present(
            engine,
            derived,
            RowView { pred: body[i].pred, key: #[trigger] keys[i] },
        )
}

/// Whether keys are those with which an atom of a predicate and a number of terms is present.
pub open spec fn is_table(
    engine: EngineView,
    derived: Seq<RowView>,
    pred: Seq<char>,
    arity: int,
    keys: Seq<Seq<ValueView>>,
) -> bool {
    forall|key: Seq<ValueView>|
        #[trigger] keys.contains(key) <==> key.len() == arity && present(
            engine,
            derived,
            RowView { pred, key },
        )
}

// ------------------------------------------------------------------- rows
/// A predicate and a key.
pub struct Row {
    pub pred: String,
    pub key: Vec<Value>,
}

/// A row, as a view.
pub open spec fn row_view(names: Seq<Seq<char>>, row: Row) -> RowView {
    RowView { pred: row.pred@, key: engine::key_view(names, row.key@) }
}

/// Rows, as views.
pub open spec fn row_views(names: Seq<Seq<char>>, rows: Seq<Row>) -> Seq<RowView> {
    rows.map_values(|row: Row| row_view(names, row))
}

/// Whether the values of all rows are known.
pub open spec fn known_rows(names: Seq<Seq<char>>, rows: Seq<Row>) -> bool {
    forall|i: int| 0 <= i < rows.len() ==> engine::known_key(names, (#[trigger] rows[i]).key@)
}

/// Keys, as views.
pub open spec fn key_views(names: Seq<Seq<char>>, keys: Seq<Vec<Value>>) -> Seq<Seq<ValueView>> {
    keys.map_values(|key: Vec<Value>| engine::key_view(names, key@))
}

/// Whether the values of all keys are known.
pub open spec fn known_keys(names: Seq<Seq<char>>, keys: Seq<Vec<Value>>) -> bool {
    forall|i: int| 0 <= i < keys.len() ==> engine::known_key(names, (#[trigger] keys[i])@)
}

/// What a variable stands for.
pub struct Binding {
    pub name: String,
    pub value: Value,
}

/// Bindings, as views.
pub open spec fn binding_views(
    names: Seq<Seq<char>>,
    bindings: Seq<Binding>,
) -> Seq<BindingView> {
    bindings.map_values(
        |binding: Binding|
            BindingView { name: binding.name@, value: engine::value_view(names, binding.value) },
    )
}

/// Whether the values of bindings are known.
pub open spec fn known_bindings(names: Seq<Seq<char>>, bindings: Seq<Binding>) -> bool {
    forall|i: int|
        0 <= i < bindings.len() ==> engine::known(names, (#[trigger] bindings[i]).value)
}

/// Copies bindings.
fn copy_bindings(bindings: &Vec<Binding>, Ghost(names): Ghost<Seq<Seq<char>>>) -> (copy: Vec<
    Binding,
>)
    requires
        known_bindings(names, bindings@),
    ensures
        known_bindings(names, copy@),
        binding_views(names, copy@) == binding_views(names, bindings@),
{
    let ghost all = binding_views(names, bindings@);
    let mut copy: Vec<Binding> = Vec::new();
    assert(binding_views(names, copy@) =~= all.take(0));
    for i in 0..bindings.len()
        invariant
            all == binding_views(names, bindings@),
            known_bindings(names, bindings@),
            known_bindings(names, copy@),
            binding_views(names, copy@) == all.take(i as int),
    {
        let ghost before = binding_views(names, copy@);
        copy.push(Binding { name: bindings[i].name.as_str().to_owned(), value: bindings[i].value });
        assert(binding_views(names, copy@) =~= before.push(all[i as int]));
        assert(all.take(i as int + 1) =~= all.take(i as int).push(all[i as int]));
    }
    assert(all.take(all.len() as int) =~= all);
    copy
}

/// Finds the value that a variable was given.
pub fn find_bound(bindings: &Vec<Binding>, name: &str, Ghost(names): Ghost<Seq<Seq<char>>>) -> (value:
    Option<Value>)
    requires
        known_bindings(names, bindings@),
    ensures
        match value {
            Some(value) => engine::known(names, value) && bound(
                binding_views(names, bindings@),
                name@,
            ) == Some(engine::value_view(names, value)),
            None => bound(binding_views(names, bindings@), name@) is None,
        },
{
    let ghost all = binding_views(names, bindings@);
    let mut end: usize = bindings.len();
    assert(all.take(all.len() as int) =~= all);
    while end > 0
        invariant
            end <= bindings@.len(),
            known_bindings(names, bindings@),
            all == binding_views(names, bindings@),
            bound(all.take(end as int), name@) == bound(all, name@),
        decreases end,
    {
        assert(all.take(end as int).drop_last() =~= all.take(end as int - 1));
        if text::same_text(bindings[end - 1].name.as_str(), name) {
            return Some(bindings[end - 1].value);
        }
        end = end - 1;
    }
    None
}

/// Lets a term stand for a value.
fn bind_term(engine: &Engine, bindings: &mut Vec<Binding>, term: &Term, value: &Value) -> (done:
    bool)
    requires
        engine.wf(),
        engine::known(engine@.names, *value),
        known_bindings(engine@.names, old(bindings)@),
    ensures
        known_bindings(engine@.names, final(bindings)@),
        match with_term(
            binding_views(engine@.names, old(bindings)@),
            term@,
            engine::value_view(engine@.names, *value),
        ) {
            Some(more) => done && binding_views(engine@.names, final(bindings)@) == more,
            None => !done,
        },
{
    let ghost names = engine@.names;
    match term {
        Term::Sym(name) => match value {
            Value::Sym(_) => text::same_text(engine.display(value).as_str(), name.as_str()),
            Value::Int(_) => false,
        },
        Term::Int(i) => match value {
            Value::Sym(_) => false,
            Value::Int(j) => *i == *j,
        },
        Term::Var(name) => {
            if text::same_text(name.as_str(), "_") {
                return true;
            }
            match find_bound(bindings, name.as_str(), Ghost(names)) {
                Some(before) => {
                    proof {
                        engine.lemma_distinct();
                        engine::lemma_values(names, before, *value);
                    }
                    before == *value
                },
                None => {
                    let ghost before = binding_views(names, bindings@);
                    bindings.push(Binding { name: name.as_str().to_owned(), value: *value });
                    assert(binding_views(names, bindings@) =~= before.push(
                        BindingView { name: name@, value: engine::value_view(names, *value) },
                    ));
                    true
                },
            }
        },
    }
}

proof fn lemma_terms_fail(
    bindings: Seq<BindingView>,
    terms: Seq<TermView>,
    key: Seq<ValueView>,
    n: int,
)
    requires
        terms.len() == key.len(),
        0 <= n <= terms.len(),
        with_terms(bindings, terms.take(n), key.take(n)) is None,
    ensures
        with_terms(bindings, terms, key) is None,
    decreases terms.len(),
{
    if n == terms.len() {
        assert(terms.take(n) =~= terms);
        assert(key.take(n) =~= key);
    } else {
        assert(terms.drop_last().take(n) =~= terms.take(n));
        assert(key.drop_last().take(n) =~= key.take(n));
        lemma_terms_fail(bindings, terms.drop_last(), key.drop_last(), n);
    }
}

/// Lets terms stand for the values of a key.
pub fn bind_terms(engine: &Engine, bindings: &Vec<Binding>, terms: &Vec<Term>, key: &Vec<Value>) -> (
more: Option<Vec<Binding>>)
    requires
        engine.wf(),
        engine::known_key(engine@.names, key@),
        known_bindings(engine@.names, bindings@),
    ensures
        match more {
            Some(more) => known_bindings(engine@.names, more@) && with_terms(
                binding_views(engine@.names, bindings@),
                engine::term_views(terms@),
                engine::key_view(engine@.names, key@),
            ) == Some(binding_views(engine@.names, more@)),
            None => with_terms(
                binding_views(engine@.names, bindings@),
                engine::term_views(terms@),
                engine::key_view(engine@.names, key@),
            ) is None,
        },
{
    let ghost names = engine@.names;
    let ghost start = binding_views(names, bindings@);
    let ghost wanted = engine::term_views(terms@);
    let ghost values = engine::key_view(names, key@);
    if terms.len() != key.len() {
        return None;
    }
    let mut more: Vec<Binding> = copy_bindings(bindings, Ghost(names));
    for i in 0..terms.len()
        invariant
            engine.wf(),
            names == engine@.names,
            engine::known_key(names, key@),
            terms@.len() == key@.len(),
            start == binding_views(names, bindings@),
            wanted == engine::term_views(terms@),
            values == engine::key_view(names, key@),
            known_bindings(names, more@),
            with_terms(start, wanted.take(i as int), values.take(i as int)) == Some(
                binding_views(names, more@),
            ),
    {
        assert(wanted.take(i as int + 1).drop_last() =~= wanted.take(i as int));
        assert(values.take(i as int + 1).drop_last() =~= values.take(i as int));
        assert(values[i as int] == engine::value_view(names, key@[i as int]));
        if !bind_term(engine, &mut more, &terms[i], &key[i]) {
            proof {
                lemma_terms_fail(start, wanted, values, i as int + 1);
            }
            return None;
        }
    }
    assert(wanted.take(wanted.len() as int) =~= wanted);
    assert(values.take(values.len() as int) =~= values);
    Some(more)
}

// ------------------------------------------------------------- evaluation
/// Whether a term is no symbol, or one that is known.
pub open spec fn known_term(names: Seq<Seq<char>>, term: TermView) -> bool {
    term matches TermView::Sym(name) ==> names.contains(name)
}

/// Whether the symbols of terms are known.
pub open spec fn known_terms(names: Seq<Seq<char>>, terms: Seq<TermView>) -> bool {
    forall|i: int| 0 <= i < terms.len() ==> known_term(names, #[trigger] terms[i])
}

/// Whether the symbols of comparisons are known.
pub open spec fn known_guards(names: Seq<Seq<char>>, guards: Seq<GuardView>) -> bool {
    forall|i: int|
        0 <= i < guards.len() ==> known_term(names, (#[trigger] guards[i]).left) && known_term(
            names,
            guards[i].right,
        )
}

/// Whether the symbols of the heads and the comparisons of rules are known.
pub open spec fn known_rules(names: Seq<Seq<char>>, rules: Seq<RuleView>) -> bool {
    forall|i: int|
        0 <= i < rules.len() ==> known_terms(names, (#[trigger] rules[i]).head.args)
            && known_guards(names, rules[i].guards)
}

/// Finds the value that a term stands for.
fn find_value(engine: &Engine, bindings: &Vec<Binding>, term: &Term) -> (value: Option<Value>)
    requires
        engine.wf(),
        known_bindings(engine@.names, bindings@),
        known_term(engine@.names, term@),
    ensures
        match value {
            Some(value) => engine::known(engine@.names, value) && term_value(
                binding_views(engine@.names, bindings@),
                term@,
            ) == Some(engine::value_view(engine@.names, value)),
            None => term_value(binding_views(engine@.names, bindings@), term@) is None,
        },
{
    match term {
        Term::Sym(name) => Some(engine.sym_of(name.as_str())),
        Term::Int(i) => Some(Value::Int(*i)),
        Term::Var(name) => find_bound(bindings, name.as_str(), Ghost(engine@.names)),
    }
}

/// Whether two values compare as asked for.
fn check_compared(
    comparison: Comparison,
    a: &Value,
    b: &Value,
    Ghost(names): Ghost<Seq<Seq<char>>>,
) -> (yes: bool)
    requires
        engine::distinct(names),
        engine::known(names, *a),
        engine::known(names, *b),
    ensures
        yes == compares(
            comparison,
            engine::value_view(names, *a),
            engine::value_view(names, *b),
        ),
{
    proof {
        engine::lemma_values(names, *a, *b);
    }
    match comparison {
        Comparison::Equals => *a == *b,
        Comparison::Differs => *a != *b,
        _ => match (a, b) {
            (Value::Int(i), Value::Int(j)) => match comparison {
                Comparison::AtMost => *i <= *j,
                Comparison::AtLeast => *i >= *j,
                Comparison::Below => *i < *j,
                _ => *i > *j,
            },
            _ => false,
        },
    }
}

/// Whether all comparisons hold.
fn check_guards(engine: &Engine, bindings: &Vec<Binding>, guards: &Vec<Guard>) -> (yes: bool)
    requires
        engine.wf(),
        known_bindings(engine@.names, bindings@),
        known_guards(engine@.names, clause::guard_views(guards@)),
    ensures
        yes == guards_hold(
            binding_views(engine@.names, bindings@),
            clause::guard_views(guards@),
        ),
{
    let ghost names = engine@.names;
    let ghost start = binding_views(names, bindings@);
    let ghost all = clause::guard_views(guards@);
    for i in 0..guards.len()
        invariant
            engine.wf(),
            names == engine@.names,
            known_bindings(names, bindings@),
            start == binding_views(names, bindings@),
            all == clause::guard_views(guards@),
            known_guards(names, all),
            forall|j: int| 0 <= j < i ==> guard_holds(start, #[trigger] all[j]),
    {
        assert(all[i as int] == guards@[i as int]@);
        let left: Option<Value> = find_value(engine, bindings, &guards[i].left);
        let right: Option<Value> = find_value(engine, bindings, &guards[i].right);
        let held: bool = match (left, right) {
            (Some(a), Some(b)) => {
                proof {
                    engine.lemma_distinct();
                }
                check_compared(guards[i].comparison, &a, &b, Ghost(names))
            },
            _ => false,
        };
        assert(held == guard_holds(start, all[i as int]));
        if !held {
            return false;
        }
    }
    true
}

/// Terms stand for values only where the first of them do.
proof fn lemma_values_fail(bindings: Seq<BindingView>, terms: Seq<TermView>, n: int)
    requires
        0 <= n <= terms.len(),
        values_of(bindings, terms.take(n)) is None,
    ensures
        values_of(bindings, terms) is None,
    decreases terms.len(),
{
    if n == terms.len() {
        assert(terms.take(n) =~= terms);
    } else {
        assert(terms.drop_last().take(n) =~= terms.take(n));
        lemma_values_fail(bindings, terms.drop_last(), n);
    }
}

/// Finds the values that terms stand for.
fn find_values(engine: &Engine, bindings: &Vec<Binding>, terms: &Vec<Term>) -> (values: Option<
    Vec<Value>,
>)
    requires
        engine.wf(),
        known_bindings(engine@.names, bindings@),
        known_terms(engine@.names, engine::term_views(terms@)),
    ensures
        match values {
            Some(values) => {
                &&& engine::known_key(engine@.names, values@)
                &&& values@.len() == terms@.len()
                &&& values_of(
                    binding_views(engine@.names, bindings@),
                    engine::term_views(terms@),
                ) == Some(engine::key_view(engine@.names, values@))
            },
            None => values_of(
                binding_views(engine@.names, bindings@),
                engine::term_views(terms@),
            ) is None,
        },
{
    let ghost names = engine@.names;
    let ghost start = binding_views(names, bindings@);
    let ghost all = engine::term_views(terms@);
    let mut values: Vec<Value> = Vec::new();
    assert(engine::key_view(names, values@) =~= seq![]);
    for i in 0..terms.len()
        invariant
            engine.wf(),
            names == engine@.names,
            known_bindings(names, bindings@),
            start == binding_views(names, bindings@),
            all == engine::term_views(terms@),
            known_terms(names, all),
            values@.len() == i,
            engine::known_key(names, values@),
            values_of(start, all.take(i as int)) == Some(engine::key_view(names, values@)),
    {
        assert(all.take(i as int + 1).drop_last() =~= all.take(i as int));
        assert(all[i as int] == terms@[i as int]@);
        match find_value(engine, bindings, &terms[i]) {
            Some(value) => {
                let ghost before = engine::key_view(names, values@);
                values.push(value);
                assert(engine::key_view(names, values@) =~= before.push(
                    engine::value_view(names, value),
                ));
            },
            None => {
                proof {
                    lemma_values_fail(start, all, i as int + 1);
                }
                return None;
            },
        }
    }
    assert(all.take(all.len() as int) =~= all);
    Some(values)
}

/// Whether a key is one of some keys.
pub fn has_key(keys: &Vec<Vec<Value>>, key: &Vec<Value>, Ghost(names): Ghost<Seq<Seq<char>>>) -> (yes:
    bool)
    requires
        engine::distinct(names),
        known_keys(names, keys@),
        engine::known_key(names, key@),
    ensures
        yes == key_views(names, keys@).contains(engine::key_view(names, key@)),
{
    let ghost all = key_views(names, keys@);
    let ghost wanted = engine::key_view(names, key@);
    for i in 0..keys.len()
        invariant
            engine::distinct(names),
            known_keys(names, keys@),
            engine::known_key(names, key@),
            all == key_views(names, keys@),
            wanted == engine::key_view(names, key@),
            forall|j: int| 0 <= j < i ==> all[j] != wanted,
    {
        assert(engine::known_key(names, keys@[i as int]@));
        assert(all[i as int] == engine::key_view(names, keys@[i as int]@));
        proof {
            engine::lemma_keys(names, keys@[i as int]@, key@);
        }
        if engine::same_key(&keys[i], key) {
            assert(all.contains(wanted));
            return true;
        }
    }
    false
}

/// A list with one more element holds it, and what it held before.
pub proof fn lemma_push_holds<A>(list: Seq<A>, last: A, x: A)
    ensures
        list.push(last).contains(x) <==> list.contains(x) || x == last,
{
    let longer = list.push(last);
    if list.contains(x) {
        let i = choose|i: int| 0 <= i < list.len() && list[i] == x;
        assert(longer[i] == x);
    }
    assert(longer[list.len() as int] == last);
    if longer.contains(x) {
        let i = choose|i: int| 0 <= i < longer.len() && longer[i] == x;
        if i < list.len() {
            assert(list[i] == x);
        }
    }
}

/// Adds a key to some keys.
pub fn push_key(keys: &mut Vec<Vec<Value>>, key: Vec<Value>, Ghost(names): Ghost<Seq<Seq<char>>>)
    requires
        known_keys(names, old(keys)@),
        engine::known_key(names, key@),
    ensures
        known_keys(names, final(keys)@),
        key_views(names, final(keys)@) == key_views(names, old(keys)@).push(
            engine::key_view(names, key@),
        ),
{
    let ghost before = key_views(names, keys@);
    let ghost last = engine::key_view(names, key@);
    keys.push(key);
    assert(key_views(names, keys@) =~= before.push(last));
}

/// Lists the keys with which an atom of a predicate and a number of terms is present.
pub fn list_keys(engine: &Engine, derived: &Vec<Row>, pred: &str, arity: usize) -> (keys: Vec<
    Vec<Value>,
>)
    requires
        engine.wf(),
        known_rows(engine@.names, derived@),
    ensures
        known_keys(engine@.names, keys@),
        is_table(
            engine@,
            row_views(engine@.names, derived@),
            pred@,
            arity as int,
            key_views(engine@.names, keys@),
        ),
{
    let ghost names = engine@.names;
    let ghost rows = row_views(names, derived@);
    let ghost stored = engine@.facts;
    let facts = engine.facts();
    let mut keys: Vec<Vec<Value>> = Vec::new();
    assert(key_views(names, keys@) =~= Seq::<Seq<ValueView>>::empty());
    for i in 0..facts.len()
        invariant
            names == engine@.names,
            stored == engine@.facts,
            engine::known_facts(names, facts@),
            stored == engine::fact_views(names, facts@),
            known_keys(names, keys@),
            forall|key: Seq<ValueView>|
                #[trigger] key_views(names, keys@).contains(key) <==> key.len() == arity
                    && update_laws::has_fact(stored.take(i as int), pred@, key),
    {
        let ghost before = key_views(names, keys@);
        let ghost fact = stored[i as int];
        assert(engine::known_key(names, facts@[i as int].key@));
        assert(fact == engine::fact_view(names, facts@[i as int]));
        assert(stored.take(i as int + 1) =~= stored.take(i as int).push(fact));
        let same: bool = text::same_text(facts[i].pred.as_str(), pred);
        if same && facts[i].key.len() == arity {
            push_key(&mut keys, engine::copy_key(&facts[i].key), Ghost(names));
        }
        proof {
            assert forall|key: Seq<ValueView>| #[trigger]
                key_views(names, keys@).contains(key) <==> key.len() == arity
                    && update_laws::has_fact(stored.take(i as int + 1), pred@, key) by {
                lemma_push_holds(before, fact.key, key);
                lemma_push_has(stored.take(i as int), fact, pred@, key);
                assert(before.contains(key) <==> key.len() == arity && update_laws::has_fact(
                    stored.take(i as int),
                    pred@,
                    key,
                ));
            }
        }
    }
    assert(stored.take(stored.len() as int) =~= stored);
    for i in 0..derived.len()
        invariant
            names == engine@.names,
            stored == engine@.facts,
            rows == row_views(names, derived@),
            known_rows(names, derived@),
            known_keys(names, keys@),
            forall|key: Seq<ValueView>|
                #[trigger] key_views(names, keys@).contains(key) <==> key.len() == arity && (
                update_laws::has_fact(stored, pred@, key) || rows.take(i as int).contains(
                    RowView { pred: pred@, key },
                )),
    {
        let ghost before = key_views(names, keys@);
        assert(engine::known_key(names, derived@[i as int].key@));
        assert(rows[i as int] == row_view(names, derived@[i as int]));
        assert(rows.take(i as int + 1) =~= rows.take(i as int).push(rows[i as int]));
        let same: bool = text::same_text(derived[i].pred.as_str(), pred);
        if same && derived[i].key.len() == arity {
            push_key(&mut keys, engine::copy_key(&derived[i].key), Ghost(names));
        }
        proof {
            assert forall|key: Seq<ValueView>| #[trigger]
                key_views(names, keys@).contains(key) <==> key.len() == arity && (
                update_laws::has_fact(stored, pred@, key) || rows.take(i as int + 1).contains(
                    RowView { pred: pred@, key },
                )) by {
                let row = RowView { pred: pred@, key };
                lemma_push_holds(rows.take(i as int), rows[i as int], row);
                lemma_push_holds(before, rows[i as int].key, key);
                assert(before.contains(key) <==> key.len() == arity && (update_laws::has_fact(
                    stored,
                    pred@,
                    key,
                ) || rows.take(i as int).contains(row)));
            }
        }
    }
    assert(rows.take(rows.len() as int) =~= rows);
    let timed: bool = text::same_text(pred, "now");
    if timed && arity == 1 {
        let ghost before = key_views(names, keys@);
        let time: Vec<Value> = vec![Value::Int(engine.now())];
        assert(engine::key_view(names, time@) =~= now_row(engine@).key);
        push_key(&mut keys, time, Ghost(names));
        assert forall|key: Seq<ValueView>| #[trigger]
            key_views(names, keys@).contains(key) <==> key.len() == arity && present(
                engine@,
                rows,
                RowView { pred: pred@, key },
            ) by {
            lemma_push_holds(before, now_row(engine@).key, key);
            assert(before.contains(key) <==> key.len() == arity && (update_laws::has_fact(
                stored,
                pred@,
                key,
            ) || rows.contains(RowView { pred: pred@, key })));
        }
    } else {
        assert forall|key: Seq<ValueView>| #[trigger]
            key_views(names, keys@).contains(key) <==> key.len() == arity && present(
                engine@,
                rows,
                RowView { pred: pred@, key },
            ) by {
            assert(now_row(engine@).key.len() == 1);
        }
    }
    keys
}

/// Facts with one more have it, and what they had before.
pub proof fn lemma_push_has(
    facts: Seq<FactView>,
    fact: FactView,
    pred: Seq<char>,
    key: Seq<ValueView>,
)
    ensures
        update_laws::has_fact(facts.push(fact), pred, key) <==> update_laws::has_fact(
            facts,
            pred,
            key,
        ) || engine::is_fact(fact, pred, key),
{
    let longer = facts.push(fact);
    if update_laws::has_fact(facts, pred, key) {
        let i = choose|i: int|
            0 <= i < facts.len() && engine::is_fact(#[trigger] facts[i], pred, key);
        assert(engine::is_fact(longer[i], pred, key));
    }
    if engine::is_fact(fact, pred, key) {
        assert(engine::is_fact(longer[facts.len() as int], pred, key));
    }
    if update_laws::has_fact(longer, pred, key) {
        let i = choose|i: int|
            0 <= i < longer.len() && engine::is_fact(#[trigger] longer[i], pred, key);
        if i < facts.len() {
            assert(engine::is_fact(facts[i], pred, key));
        }
    }
}

// ---------------------------------------------------------------- matches
/// Rows that the atoms of a body stand for, and what the variables then stand for.
pub struct Match {
    pub keys: Vec<Vec<Value>>,
    pub bindings: Vec<Binding>,
}

/// Whether a match is one of a body.
pub open spec fn is_match(names: Seq<Seq<char>>, body: Seq<AtomView>, found: Match) -> bool {
    &&& known_keys(names, found.keys@)
    &&& known_bindings(names, found.bindings@)
    &&& bound_all(body, key_views(names, found.keys@)) == Some(
        binding_views(names, found.bindings@),
    )
}

/// The keys of matches.
pub open spec fn matched(names: Seq<Seq<char>>, found: Seq<Match>) -> Seq<Seq<Seq<ValueView>>> {
    found.map_values(|m: Match| key_views(names, m.keys@))
}

/// Whether all of some matches are matches of a body.
pub open spec fn all_match(
    names: Seq<Seq<char>>,
    body: Seq<AtomView>,
    found: Seq<Match>,
) -> bool {
    forall|i: int| 0 <= i < found.len() ==> is_match(names, body, #[trigger] found[i])
}

/// Whether rows with the given keys are present and a body can stand for them.
pub open spec fn matches_body(
    engine: EngineView,
    derived: Seq<RowView>,
    body: Seq<AtomView>,
    keys: Seq<Seq<ValueView>>,
) -> bool {
    bound_all(body, keys) is Some && all_present(engine, derived, body, keys)
}

/// Whether keys are some keys and one more of a table, for which a body can stand.
pub open spec fn extends(
    start: Seq<Seq<ValueView>>,
    table: Seq<Seq<ValueView>>,
    body: Seq<AtomView>,
    keys: Seq<Seq<ValueView>>,
) -> bool {
    exists|k: int|
        0 <= k < table.len() && keys == start.push(#[trigger] table[k]) && bound_all(body, keys)
            is Some
}

/// Copies keys.
fn copy_keys(keys: &Vec<Vec<Value>>, Ghost(names): Ghost<Seq<Seq<char>>>) -> (copy: Vec<
    Vec<Value>,
>)
    requires
        known_keys(names, keys@),
    ensures
        known_keys(names, copy@),
        key_views(names, copy@) == key_views(names, keys@),
{
    let ghost all = key_views(names, keys@);
    let mut copy: Vec<Vec<Value>> = Vec::new();
    assert(key_views(names, copy@) =~= all.take(0));
    for i in 0..keys.len()
        invariant
            known_keys(names, keys@),
            all == key_views(names, keys@),
            known_keys(names, copy@),
            key_views(names, copy@) == all.take(i as int),
    {
        assert(engine::known_key(names, keys@[i as int]@));
        assert(all[i as int] == engine::key_view(names, keys@[i as int]@));
        push_key(&mut copy, engine::copy_key(&keys[i]), Ghost(names));
        assert(all.take(i as int + 1) =~= all.take(i as int).push(all[i as int]));
    }
    assert(all.take(all.len() as int) =~= all);
    copy
}

/// Extends a match by each of some keys that one more atom can stand for.
fn extend_match(
    engine: &Engine,
    start: &Match,
    atom: &Atom,
    table: &Vec<Vec<Value>>,
    found: &mut Vec<Match>,
    Ghost(body): Ghost<Seq<AtomView>>,
)
    requires
        engine.wf(),
        known_keys(engine@.names, table@),
        is_match(engine@.names, body, *start),
        all_match(engine@.names, body.push(atom@), old(found)@),
    ensures
        all_match(engine@.names, body.push(atom@), final(found)@),
        forall|keys: Seq<Seq<ValueView>>|
            #[trigger] matched(engine@.names, final(found)@).contains(keys) <==> matched(
                engine@.names,
                old(found)@,
            ).contains(keys) || extends(
                key_views(engine@.names, start.keys@),
                key_views(engine@.names, table@),
                body.push(atom@),
                keys,
            ),
{
    let ghost names = engine@.names;
    let ghost whole = body.push(atom@);
    let ghost first = key_views(names, start.keys@);
    let ghost all = key_views(names, table@);
    let ghost given = matched(names, found@);
    assert forall|keys: Seq<Seq<ValueView>>| !extends(first, all.take(0), whole, keys) by {}
    for i in 0..table.len()
        invariant
            engine.wf(),
            names == engine@.names,
            whole == body.push(atom@),
            known_keys(names, table@),
            is_match(names, body, *start),
            first == key_views(names, start.keys@),
            all == key_views(names, table@),
            all_match(names, whole, found@),
            forall|keys: Seq<Seq<ValueView>>|
                #[trigger] matched(names, found@).contains(keys) <==> given.contains(keys)
                    || extends(first, all.take(i as int), whole, keys),
    {
        let ghost before = matched(names, found@);
        let ghost now = all.take(i as int);
        let ghost later = all.take(i as int + 1);
        let ghost key = all[i as int];
        let ghost longer = first.push(key);
        assert(key == engine::key_view(names, table@[i as int]@));
        assert(later =~= now.push(key));
        proof {
            assert(longer.drop_last() =~= first);
            assert(whole.drop_last() =~= body);
            assert(bound_all(whole, longer) == with_terms(
                binding_views(names, start.bindings@),
                atom@.args,
                key,
            ));
        }
        if let Some(bindings) = bind_terms(engine, &start.bindings, &atom.args, &table[i]) {
            let mut keys: Vec<Vec<Value>> = copy_keys(&start.keys, Ghost(names));
            push_key(&mut keys, engine::copy_key(&table[i]), Ghost(names));
            let fresh = Match { keys, bindings };
            assert(is_match(names, whole, fresh));
            found.push(fresh);
            assert(matched(names, found@) =~= before.push(longer));
        }
        proof {
            assert forall|keys: Seq<Seq<ValueView>>| #[trigger]
                matched(names, found@).contains(keys) <==> given.contains(keys) || extends(
                    first,
                    later,
                    whole,
                    keys,
                ) by {
                lemma_push_holds(before, longer, keys);
                assert(before.contains(keys) <==> given.contains(keys) || extends(
                    first,
                    now,
                    whole,
                    keys,
                ));
                if extends(first, now, whole, keys) {
                    let k = choose|k: int|
                        0 <= k < now.len() && keys == first.push(#[trigger] now[k]) && bound_all(
                            whole,
                            keys,
                        ) is Some;
                    assert(later[k] == now[k]);
                }
                if extends(first, later, whole, keys) {
                    let k = choose|k: int|
                        0 <= k < later.len() && keys == first.push(#[trigger] later[k])
                            && bound_all(whole, keys) is Some;
                    if k < now.len() {
                        assert(now[k] == later[k]);
                    }
                }
                if keys == longer && bound_all(whole, longer) is Some {
                    assert(later[i as int] == key);
                }
            }
        }
    }
    assert(all.take(all.len() as int) =~= all);
}

/// The matches of a body with one more atom are those of the body, each with a key of the table.
proof fn lemma_matches(
    engine: EngineView,
    derived: Seq<RowView>,
    body: Seq<AtomView>,
    before: Seq<Seq<Seq<ValueView>>>,
    table: Seq<Seq<ValueView>>,
    keys: Seq<Seq<ValueView>>,
)
    requires
        body.len() > 0,
        forall|k: Seq<Seq<ValueView>>|
            #[trigger] before.contains(k) <==> matches_body(engine, derived, body.drop_last(), k),
        is_table(engine, derived, body.last().pred, body.last().args.len() as int, table),
    ensures
        matches_body(engine, derived, body, keys) <==> exists|j: int|
            0 <= j < before.len() && extends(#[trigger] before[j], table, body, keys),
{
    let fewer = body.drop_last();
    let atom = body.last();
    if matches_body(engine, derived, body, keys) {
        let start = keys.drop_last();
        let last = keys.last();
        assert(bound_all(fewer, start) is Some);
        assert forall|n: int| 0 <= n < fewer.len() implies present(
            engine,
            derived,
            RowView { pred: fewer[n].pred, key: #[trigger] start[n] },
        ) by {
            assert(start[n] == keys[n]);
            assert(fewer[n] == body[n]);
        }
        assert(matches_body(engine, derived, fewer, start));
        assert(before.contains(start));
        let j = choose|j: int| 0 <= j < before.len() && before[j] == start;
        assert(present(
            engine,
            derived,
            RowView { pred: body[body.len() - 1].pred, key: keys[body.len() - 1] },
        ));
        assert(table.contains(last));
        let k = choose|k: int| 0 <= k < table.len() && table[k] == last;
        assert(keys =~= start.push(table[k]));
        assert(extends(before[j], table, body, keys));
    }
    if exists|j: int| 0 <= j < before.len() && extends(#[trigger] before[j], table, body, keys) {
        let j = choose|j: int|
            0 <= j < before.len() && extends(#[trigger] before[j], table, body, keys);
        let start = before[j];
        let k = choose|k: int|
            0 <= k < table.len() && keys == start.push(#[trigger] table[k]) && bound_all(
                body,
                keys,
            ) is Some;
        assert(before.contains(start));
        assert(matches_body(engine, derived, fewer, start));
        assert(table.contains(table[k]));
        assert(start.len() == fewer.len());
        assert forall|n: int| 0 <= n < body.len() implies present(
            engine,
            derived,
            RowView { pred: body[n].pred, key: #[trigger] keys[n] },
        ) by {
            if n < fewer.len() {
                assert(keys[n] == start[n]);
                assert(fewer[n] == body[n]);
            }
        }
    }
}

/// Finds the matches of a body.
pub fn solve(engine: &Engine, derived: &Vec<Row>, body: &Vec<Atom>) -> (found: Vec<Match>)
    requires
        engine.wf(),
        known_rows(engine@.names, derived@),
    ensures
        all_match(engine@.names, clause::atom_views(body@), found@),
        forall|keys: Seq<Seq<ValueView>>|
            #[trigger] matched(engine@.names, found@).contains(keys) <==> matches_body(
                engine@,
                row_views(engine@.names, derived@),
                clause::atom_views(body@),
                keys,
            ),
{
    let ghost names = engine@.names;
    let ghost rows = row_views(names, derived@);
    let ghost all = clause::atom_views(body@);
    let mut found: Vec<Match> = Vec::new();
    let first = Match { keys: Vec::new(), bindings: Vec::new() };
    proof {
        assert(key_views(names, first.keys@) =~= Seq::<Seq<ValueView>>::empty());
        assert(binding_views(names, first.bindings@) =~= Seq::<BindingView>::empty());
        assert(is_match(names, all.take(0), first));
    }
    found.push(first);
    proof {
        let none = Seq::<Seq<ValueView>>::empty();
        let start = matched(names, found@);
        assert(start =~= seq![none]);
        assert(start[0] == none);
        assert forall|keys: Seq<Seq<ValueView>>| #[trigger] start.contains(keys) <==> matches_body(
            engine@,
            rows,
            all.take(0),
            keys,
        ) by {
            if bound_all(all.take(0), keys) is Some {
                assert(keys =~= none);
            }
        }
    }
    for i in 0..body.len()
        invariant
            engine.wf(),
            names == engine@.names,
            rows == row_views(names, derived@),
            known_rows(names, derived@),
            all == clause::atom_views(body@),
            all_match(names, all.take(i as int), found@),
            forall|keys: Seq<Seq<ValueView>>|
                #[trigger] matched(names, found@).contains(keys) <==> matches_body(
                    engine@,
                    rows,
                    all.take(i as int),
                    keys,
                ),
    {
        let ghost now = all.take(i as int);
        let ghost later = all.take(i as int + 1);
        let ghost atom = body@[i as int]@;
        assert(all[i as int] == atom);
        assert(later =~= now.push(atom));
        assert(later.drop_last() =~= now);
        let arity: usize = body[i].args.len();
        let table: Vec<Vec<Value>> = list_keys(engine, derived, body[i].pred.as_str(), arity);
        let ghost held = key_views(names, table@);
        let ghost given = matched(names, found@);
        let mut more: Vec<Match> = Vec::new();
        assert(matched(names, more@) =~= Seq::<Seq<Seq<ValueView>>>::empty());
        for j in 0..found.len()
            invariant
                engine.wf(),
                i < body@.len(),
                names == engine@.names,
                atom == body@[i as int]@,
                later == now.push(atom),
                known_keys(names, table@),
                held == key_views(names, table@),
                given == matched(names, found@),
                all_match(names, now, found@),
                all_match(names, later, more@),
                forall|keys: Seq<Seq<ValueView>>|
                    #[trigger] matched(names, more@).contains(keys) <==> exists|k: int|
                        0 <= k < j && extends(#[trigger] given[k], held, later, keys),
        {
            let ghost before = matched(names, more@);
            assert(is_match(names, now, found@[j as int]));
            assert(given[j as int] == key_views(names, found@[j as int].keys@));
            extend_match(engine, &found[j], &body[i], &table, &mut more, Ghost(now));
            proof {
                assert forall|keys: Seq<Seq<ValueView>>| #[trigger]
                    matched(names, more@).contains(keys) <==> exists|k: int|
                        0 <= k < j + 1 && extends(#[trigger] given[k], held, later, keys) by {
                    assert(matched(names, more@).contains(keys) <==> before.contains(keys)
                        || extends(given[j as int], held, later, keys));
                    if before.contains(keys) {
                        let k = choose|k: int|
                            0 <= k < j && extends(#[trigger] given[k], held, later, keys);
                        assert(extends(given[k], held, later, keys));
                    }
                    if exists|k: int|
                        0 <= k < j + 1 && extends(#[trigger] given[k], held, later, keys) {
                        let k = choose|k: int|
                            0 <= k < j + 1 && extends(#[trigger] given[k], held, later, keys);
                        if k < j {
                            assert(before.contains(keys));
                        }
                    }
                }
            }
        }
        found = more;
        assert forall|keys: Seq<Seq<ValueView>>| #[trigger]
            matched(names, found@).contains(keys) <==> matches_body(
                engine@,
                rows,
                later,
                keys,
            ) by {
            lemma_matches(engine@, rows, later, given, held, keys);
        }
    }
    assert(all.take(all.len() as int) =~= all);
    found
}

// ------------------------------------------------------------- finiteness
/// The values in the keys of facts.
pub open spec fn fact_values(facts: Seq<FactView>) -> Set<ValueView>
    decreases facts.len(),
{
    if facts.len() == 0 {
        Set::empty()
    } else {
        fact_values(facts.drop_last()).union(facts.last().key.to_set())
    }
}

/// The values that the constants in the heads of rules stand for, and more.
pub open spec fn head_values(rules: Seq<RuleView>) -> Set<ValueView>
    decreases rules.len(),
{
    if rules.len() == 0 {
        Set::empty()
    } else {
        head_values(rules.drop_last()).union(
            rules.last().head.args.map_values(|term: TermView| engine::ground(term)).to_set(),
        )
    }
}

/// The values that rows which follow can be made of.
pub open spec fn domain(engine: EngineView, rules: Seq<RuleView>) -> Set<ValueView> {
    fact_values(engine.facts).union(head_values(rules)).insert(ValueView::Integer(engine.now))
}

/// Whether all values of a key are of a domain.
pub open spec fn in_domain(values: Set<ValueView>, key: Seq<ValueView>) -> bool {
    forall|i: int| 0 <= i < key.len() ==> values.contains(#[trigger] key[i])
}

/// Whether a key has a number of values, all of a domain.
pub open spec fn of_domain(values: Set<ValueView>, n: nat, key: Seq<ValueView>) -> bool {
    key.len() == n && in_domain(values, key)
}

/// The rows that the heads of rules can give.
pub open spec fn possible(values: Set<ValueView>, rules: Seq<RuleView>) -> Set<RowView> {
    Set::new(
        |row: RowView|
            exists|j: int|
                0 <= j < rules.len() && (#[trigger] rules[j]).head.pred == row.pred && of_domain(
                    values,
                    rules[j].head.args.len(),
                    row.key,
                ),
    )
}

/// The rows of facts.
pub open spec fn fact_rows(facts: Seq<FactView>) -> Seq<RowView> {
    facts.map_values(|fact: FactView| RowView { pred: fact.pred, key: fact.key })
}

/// The rows of the store and those that the heads of rules can give.
pub open spec fn reachable(engine: EngineView, rules: Seq<RuleView>) -> Set<RowView> {
    possible(domain(engine, rules), rules).union(fact_rows(engine.facts).to_set()).insert(
        now_row(engine),
    )
}

proof fn lemma_fact_values(facts: Seq<FactView>)
    ensures
        fact_values(facts).finite(),
        forall|i: int|
            0 <= i < facts.len() ==> in_domain(fact_values(facts), (#[trigger] facts[i]).key),
    decreases facts.len(),
{
    if facts.len() > 0 {
        let fewer = facts.drop_last();
        let own = facts.last().key;
        lemma_fact_values(fewer);
        vstd::seq_lib::seq_to_set_is_finite(own);
        assert forall|i: int| 0 <= i < facts.len() implies in_domain(
            fact_values(facts),
            (#[trigger] facts[i]).key,
        ) by {
            let key = facts[i].key;
            assert forall|k: int| 0 <= k < key.len() implies fact_values(facts).contains(
                #[trigger] key[k],
            ) by {
                if i < fewer.len() {
                    assert(fewer[i] == facts[i]);
                    assert(in_domain(fact_values(fewer), fewer[i].key));
                } else {
                    assert(own.contains(key[k]));
                    assert(own.to_set().contains(key[k]));
                }
            }
        }
    }
}

proof fn lemma_head_values(rules: Seq<RuleView>)
    ensures
        head_values(rules).finite(),
        forall|j: int, i: int|
            0 <= j < rules.len() && 0 <= i < rules[j].head.args.len() ==> head_values(
                rules,
            ).contains(engine::ground(#[trigger] rules[j].head.args[i])),
    decreases rules.len(),
{
    if rules.len() > 0 {
        let fewer = rules.drop_last();
        let own = rules.last().head.args.map_values(|term: TermView| engine::ground(term));
        lemma_head_values(fewer);
        vstd::seq_lib::seq_to_set_is_finite(own);
        assert forall|j: int, i: int|
            0 <= j < rules.len() && 0 <= i < rules[j].head.args.len() implies head_values(
            rules,
        ).contains(engine::ground(#[trigger] rules[j].head.args[i])) by {
            if j < fewer.len() {
                assert(fewer[j] == rules[j]);
                assert(head_values(fewer).contains(engine::ground(fewer[j].head.args[i])));
            } else {
                assert(own[i] == engine::ground(rules[j].head.args[i]));
                assert(own.to_set().contains(own[i]));
            }
        }
    }
}

/// There are finitely many keys of a finite domain with a number of values.
proof fn lemma_keys_finite(values: Set<ValueView>, n: nat)
    requires
        values.finite(),
    ensures
        Set::new(|key: Seq<ValueView>| of_domain(values, n, key)).finite(),
    decreases n,
{
    let all = Set::new(|key: Seq<ValueView>| of_domain(values, n, key));
    if n == 0 {
        let one = Set::<Seq<ValueView>>::empty().insert(Seq::<ValueView>::empty());
        assert forall|key: Seq<ValueView>| all.contains(key) implies #[trigger] one.contains(
            key,
        ) by {
            assert(key =~= Seq::<ValueView>::empty());
        }
        assert(all.subset_of(one));
        lemma_set_subset_finite(one, all);
    } else {
        let m = (n - 1) as nat;
        let shorter = Set::new(|key: Seq<ValueView>| of_domain(values, m, key));
        lemma_keys_finite(values, m);
        let ending = |value: ValueView| shorter.map(|key: Seq<ValueView>| key.push(value));
        let groups = values.map(ending);
        values.lemma_map_finite(ending);
        assert forall|group: Set<Seq<ValueView>>| groups.contains(
            group,
        ) implies #[trigger] group.finite() by {
            let value = choose|value: ValueView| values.contains(value) && group == ending(value);
            shorter.lemma_map_finite(|key: Seq<ValueView>| key.push(value));
        }
        groups.lemma_flatten_finite();
        assert forall|key: Seq<ValueView>| all.contains(
            key,
        ) implies #[trigger] groups.flatten().contains(key) by {
            let start = key.drop_last();
            let value = key[key.len() - 1];
            assert(values.contains(value));
            assert forall|i: int| 0 <= i < start.len() implies values.contains(
                #[trigger] start[i],
            ) by {
                assert(start[i] == key[i]);
            }
            assert(shorter.contains(start));
            assert(key =~= start.push(value));
            assert(ending(value).contains(key));
            assert(groups.contains(ending(value)));
        }
        assert(all.subset_of(groups.flatten()));
        lemma_set_subset_finite(groups.flatten(), all);
    }
}

/// There are finitely many rows that the heads of rules can give.
proof fn lemma_possible_finite(values: Set<ValueView>, rules: Seq<RuleView>)
    requires
        values.finite(),
    ensures
        possible(values, rules).finite(),
    decreases rules.len(),
{
    let all = possible(values, rules);
    if rules.len() == 0 {
        assert(all =~= Set::<RowView>::empty());
    } else {
        let fewer = rules.drop_last();
        let head = rules.last().head;
        lemma_possible_finite(values, fewer);
        let keys = Set::new(|key: Seq<ValueView>| of_domain(values, head.args.len(), key));
        lemma_keys_finite(values, head.args.len());
        let row_of = |key: Seq<ValueView>| RowView { pred: head.pred, key };
        keys.lemma_map_finite(row_of);
        let both = possible(values, fewer).union(keys.map(row_of));
        assert forall|row: RowView| all.contains(row) implies #[trigger] both.contains(row) by {
            let j = choose|j: int|
                0 <= j < rules.len() && (#[trigger] rules[j]).head.pred == row.pred && of_domain(
                    values,
                    rules[j].head.args.len(),
                    row.key,
                );
            if j < fewer.len() {
                assert(fewer[j] == rules[j]);
            } else {
                assert(keys.contains(row.key));
                assert(row == row_of(row.key));
            }
        }
        assert(all.subset_of(both));
        lemma_set_subset_finite(both, all);
    }
}

/// Whether all values of bindings are of a domain.
spec fn bound_in(values: Set<ValueView>, bindings: Seq<BindingView>) -> bool {
    forall|i: int| 0 <= i < bindings.len() ==> values.contains((#[trigger] bindings[i]).value)
}

proof fn lemma_bound_in(values: Set<ValueView>, bindings: Seq<BindingView>, name: Seq<char>)
    requires
        bound_in(values, bindings),
    ensures
        bound(bindings, name) matches Some(value) ==> values.contains(value),
    decreases bindings.len(),
{
    if bindings.len() > 0 {
        let fewer = bindings.drop_last();
        assert(values.contains(bindings[bindings.len() - 1].value));
        assert forall|i: int| 0 <= i < fewer.len() implies values.contains(
            (#[trigger] fewer[i]).value,
        ) by {
            assert(fewer[i] == bindings[i]);
        }
        lemma_bound_in(values, fewer, name);
    }
}

proof fn lemma_terms_in(
    values: Set<ValueView>,
    bindings: Seq<BindingView>,
    terms: Seq<TermView>,
    key: Seq<ValueView>,
)
    requires
        bound_in(values, bindings),
        in_domain(values, key),
    ensures
        with_terms(bindings, terms, key) matches Some(more) ==> bound_in(values, more),
    decreases terms.len(),
{
    if terms.len() == key.len() && terms.len() > 0 {
        let rest = key.drop_last();
        assert forall|i: int| 0 <= i < rest.len() implies values.contains(#[trigger] rest[i]) by {
            assert(rest[i] == key[i]);
        }
        assert(values.contains(key[key.len() - 1]));
        lemma_terms_in(values, bindings, terms.drop_last(), rest);
    }
}

proof fn lemma_bound_all_in(
    values: Set<ValueView>,
    atoms: Seq<AtomView>,
    keys: Seq<Seq<ValueView>>,
)
    requires
        forall|i: int| 0 <= i < keys.len() ==> in_domain(values, #[trigger] keys[i]),
    ensures
        bound_all(atoms, keys) matches Some(bindings) ==> bound_in(values, bindings),
    decreases atoms.len(),
{
    if atoms.len() == keys.len() && atoms.len() > 0 {
        let fewer = keys.drop_last();
        assert forall|i: int| 0 <= i < fewer.len() implies in_domain(
            values,
            #[trigger] fewer[i],
        ) by {
            assert(fewer[i] == keys[i]);
        }
        lemma_bound_all_in(values, atoms.drop_last(), fewer);
        assert(in_domain(values, keys[keys.len() - 1]));
        if let Some(bindings) = bound_all(atoms.drop_last(), fewer) {
            lemma_terms_in(values, bindings, atoms.last().args, keys.last());
        }
    }
}

proof fn lemma_values_in(
    values: Set<ValueView>,
    bindings: Seq<BindingView>,
    terms: Seq<TermView>,
    key: Seq<ValueView>,
)
    requires
        bound_in(values, bindings),
        forall|i: int|
            0 <= i < terms.len() ==> values.contains(engine::ground(#[trigger] terms[i])),
        values_of(bindings, terms) == Some(key),
    ensures
        of_domain(values, terms.len(), key),
    decreases terms.len(),
{
    if terms.len() > 0 {
        let fewer = terms.drop_last();
        let rest = values_of(bindings, fewer)->0;
        let last = term_value(bindings, terms.last())->0;
        assert forall|i: int| 0 <= i < fewer.len() implies values.contains(
            engine::ground(#[trigger] fewer[i]),
        ) by {
            assert(fewer[i] == terms[i]);
        }
        lemma_values_in(values, bindings, fewer, rest);
        assert(values.contains(engine::ground(terms[terms.len() - 1])));
        if let TermView::Var(name) = terms.last() {
            lemma_bound_in(values, bindings, name);
        }
        assert(key == rest.push(last));
    }
}

/// The rows of the store and those that the heads of rules can give are finitely many, and closed
/// under the rules.
proof fn lemma_reachable(engine: EngineView, rules: Seq<RuleView>)
    ensures
        reachable(engine, rules).finite(),
        closed_under(engine, rules, reachable(engine, rules)),
{
    let values = domain(engine, rules);
    let rows = reachable(engine, rules);
    let stored = fact_rows(engine.facts);
    lemma_fact_values(engine.facts);
    lemma_head_values(rules);
    lemma_possible_finite(values, rules);
    vstd::seq_lib::seq_to_set_is_finite(stored);
    assert forall|row: RowView| #[trigger] stated(engine, row) implies rows.contains(row) by {
        if row != now_row(engine) {
            let i = choose|i: int|
                0 <= i < engine.facts.len() && engine::is_fact(
                    #[trigger] engine.facts[i],
                    row.pred,
                    row.key,
                );
            assert(stored[i] == row);
            assert(stored.to_set().contains(row));
        }
    }
    assert forall|row: RowView| rows.contains(row) implies in_domain(
        values,
        #[trigger] row.key,
    ) by {
        if stored.to_set().contains(row) {
            let i = choose|i: int| 0 <= i < stored.len() && stored[i] == row;
            assert(in_domain(fact_values(engine.facts), engine.facts[i].key));
            assert forall|k: int| 0 <= k < row.key.len() implies values.contains(
                #[trigger] row.key[k],
            ) by {}
        } else if row == now_row(engine) {
            assert(row.key[0] == ValueView::Integer(engine.now));
        }
    }
    assert forall|j: int, keys: Seq<Seq<ValueView>>, row: RowView|
        0 <= j < rules.len() && #[trigger] derives(rules[j], keys, row) && among(
            rows,
            rules[j].body,
            keys,
        ) implies rows.contains(row) by {
        let rule = rules[j];
        let bindings = bound_all(rule.body, keys)->0;
        assert forall|i: int| 0 <= i < keys.len() implies in_domain(
            values,
            #[trigger] keys[i],
        ) by {
            let other = RowView { pred: rule.body[i].pred, key: keys[i] };
            assert(rows.contains(other));
            assert(in_domain(values, other.key));
        }
        lemma_bound_all_in(values, rule.body, keys);
        assert forall|i: int| 0 <= i < rule.head.args.len() implies values.contains(
            engine::ground(#[trigger] rule.head.args[i]),
        ) by {
            assert(head_values(rules).contains(engine::ground(rules[j].head.args[i])));
        }
        lemma_values_in(values, bindings, rule.head.args, row.key);
        assert(rules[j].head.pred == row.pred);
        assert(possible(values, rules).contains(row));
    }
}

/// Finitely many rows follow.
pub proof fn what_follows_is_finite(engine: EngineView, rules: Seq<RuleView>)
    ensures
        Set::new(|row: RowView| follows(engine, rules, row)).finite(),
{
    let all = Set::new(|row: RowView| follows(engine, rules, row));
    lemma_reachable(engine, rules);
    assert(all.subset_of(reachable(engine, rules)));
    lemma_set_subset_finite(reachable(engine, rules), all);
}

/// Rows that follow, each once, are no more than there are.
proof fn lemma_rows_bounded(engine: EngineView, rules: Seq<RuleView>, rows: Seq<RowView>)
    requires
        rows.no_duplicates(),
        all_follow(engine, rules, rows),
    ensures
        rows.len() <= reachable(engine, rules).len(),
{
    lemma_reachable(engine, rules);
    rows.unique_seq_to_set();
    assert forall|row: RowView| rows.to_set().contains(row) implies #[trigger] reachable(
        engine,
        rules,
    ).contains(row) by {
        let i = choose|i: int| 0 <= i < rows.len() && rows[i] == row;
        assert(follows(engine, rules, rows[i]));
    }
    assert(rows.to_set().subset_of(reachable(engine, rules)));
    lemma_len_subset(rows.to_set(), reachable(engine, rules));
}

// -------------------------------------------------------------- iteration
/// What a rule gives of rows that follow follows.
pub proof fn rule_gives_its_row(
    engine: EngineView,
    rules: Seq<RuleView>,
    j: int,
    keys: Seq<Seq<ValueView>>,
    row: RowView,
)
    requires
        0 <= j < rules.len(),
        derives(rules[j], keys, row),
        forall|i: int|
            0 <= i < rules[j].body.len() ==> follows(
                engine,
                rules,
                RowView { pred: rules[j].body[i].pred, key: #[trigger] keys[i] },
            ),
    ensures
        follows(engine, rules, row),
{
    assert forall|rows: Set<RowView>| #[trigger]
        closed_under(engine, rules, rows) implies rows.contains(row) by {
        assert(among(rows, rules[j].body, keys));
    }
}

/// Whether all of some rows follow.
pub open spec fn all_follow(
    engine: EngineView,
    rules: Seq<RuleView>,
    derived: Seq<RowView>,
) -> bool {
    forall|i: int| 0 <= i < derived.len() ==> follows(engine, rules, #[trigger] derived[i])
}

/// Whether a rule gives nothing of the rows that are present but what is.
pub open spec fn exhausted(engine: EngineView, derived: Seq<RowView>, rule: RuleView) -> bool {
    forall|keys: Seq<Seq<ValueView>>, row: RowView|
        #[trigger] derives(rule, keys, row) && all_present(engine, derived, rule.body, keys)
            ==> present(engine, derived, row)
}

/// Whether derived rows follow, and stand there once.
pub open spec fn sound(
    engine: EngineView,
    rules: Seq<RuleView>,
    derived: Seq<RowView>,
) -> bool {
    &&& all_follow(engine, rules, derived)
    &&& derived.no_duplicates()
}

/// A row that is present follows.
proof fn lemma_present_follows(
    engine: EngineView,
    rules: Seq<RuleView>,
    derived: Seq<RowView>,
    row: RowView,
)
    requires
        all_follow(engine, rules, derived),
        present(engine, derived, row),
    ensures
        follows(engine, rules, row),
{
    if derived.contains(row) {
        let i = choose|i: int| 0 <= i < derived.len() && derived[i] == row;
        assert(follows(engine, rules, derived[i]));
    }
}

/// Adds a derived row to those that are there.
pub fn push_row(
    rows: &mut Vec<Row>,
    pred: &str,
    key: Vec<Value>,
    Ghost(names): Ghost<Seq<Seq<char>>>,
)
    requires
        known_rows(names, old(rows)@),
        engine::known_key(names, key@),
    ensures
        known_rows(names, final(rows)@),
        row_views(names, final(rows)@) == row_views(names, old(rows)@).push(
            RowView { pred: pred@, key: engine::key_view(names, key@) },
        ),
{
    let ghost before = row_views(names, rows@);
    let ghost last = RowView { pred: pred@, key: engine::key_view(names, key@) };
    rows.push(Row { pred: pred.to_owned(), key });
    assert(row_views(names, rows@) =~= before.push(last));
}

/// A row that is new can be added to derived rows.
proof fn lemma_sound_push(
    engine: EngineView,
    rules: Seq<RuleView>,
    derived: Seq<RowView>,
    row: RowView,
)
    requires
        sound(engine, rules, derived),
        follows(engine, rules, row),
        !derived.contains(row),
    ensures
        sound(engine, rules, derived.push(row)),
{
    let longer = derived.push(row);
    assert forall|i: int| 0 <= i < longer.len() implies follows(
        engine,
        rules,
        #[trigger] longer[i],
    ) by {
        if i < derived.len() {
            assert(longer[i] == derived[i]);
        }
    }
    assert forall|i: int, k: int|
        0 <= i < longer.len() && 0 <= k < longer.len() && i != k implies longer[i]
        != longer[k] by {
        if i < derived.len() {
            assert(longer[i] == derived[i]);
            assert(derived.contains(derived[i]));
        }
        if k < derived.len() {
            assert(longer[k] == derived[k]);
            assert(derived.contains(derived[k]));
        }
    }
}

/// A table with one more key is that of the rows with one more.
proof fn lemma_table_push(
    engine: EngineView,
    derived: Seq<RowView>,
    pred: Seq<char>,
    arity: int,
    keys: Seq<Seq<ValueView>>,
    key: Seq<ValueView>,
)
    requires
        is_table(engine, derived, pred, arity, keys),
        key.len() == arity,
    ensures
        is_table(engine, derived.push(RowView { pred, key }), pred, arity, keys.push(key)),
{
    let row = RowView { pred, key };
    assert forall|other: Seq<ValueView>| #[trigger]
        keys.push(key).contains(other) <==> other.len() == arity && present(
            engine,
            derived.push(row),
            RowView { pred, key: other },
        ) by {
        lemma_push_holds(keys, key, other);
        lemma_push_holds(derived, row, RowView { pred, key: other });
    }
}

/// Whether what a rule gives of rows with the given keys is present.
pub open spec fn settled(
    engine: EngineView,
    derived: Seq<RowView>,
    rule: RuleView,
    keys: Seq<Seq<ValueView>>,
) -> bool {
    forall|row: RowView| #[trigger] derives(rule, keys, row) ==> present(engine, derived, row)
}

/// What a rule gives of rows that are present follows.
proof fn lemma_match_follows(
    engine: EngineView,
    rules: Seq<RuleView>,
    derived: Seq<RowView>,
    j: int,
    keys: Seq<Seq<ValueView>>,
    row: RowView,
)
    requires
        0 <= j < rules.len(),
        all_follow(engine, rules, derived),
        all_present(engine, derived, rules[j].body, keys),
        derives(rules[j], keys, row),
    ensures
        follows(engine, rules, row),
{
    assert forall|i: int| 0 <= i < rules[j].body.len() implies follows(
        engine,
        rules,
        RowView { pred: rules[j].body[i].pred, key: #[trigger] keys[i] },
    ) by {
        lemma_present_follows(
            engine,
            rules,
            derived,
            RowView { pred: rules[j].body[i].pred, key: keys[i] },
        );
    }
    rule_gives_its_row(engine, rules, j, keys, row);
}

/// Finds the key that a rule gives of a match of its body, if it gives one.
pub fn find_head(engine: &Engine, rule: &Rule, found: &Match) -> (key: Option<Vec<Value>>)
    requires
        engine.wf(),
        is_match(engine@.names, rule@.body, *found),
        known_terms(engine@.names, rule@.head.args),
        known_guards(engine@.names, rule@.guards),
        !rule@.is_fact(),
    ensures
        match key {
            Some(key) => {
                &&& engine::known_key(engine@.names, key@)
                &&& key@.len() == rule@.head.args.len()
                &&& forall|row: RowView| #[trigger]
                    derives(rule@, key_views(engine@.names, found.keys@), row) <==> row == (
                    RowView {
                        pred: rule@.head.pred,
                        key: engine::key_view(engine@.names, key@),
                    })
            },
            None => forall|row: RowView|
                !#[trigger] derives(rule@, key_views(engine@.names, found.keys@), row),
        },
{
    if !check_guards(engine, &found.bindings, &rule.guards) {
        return None;
    }
    find_values(engine, &found.bindings, &rule.head.args)
}

/// Adds what a rule gives of the rows that are present.
fn apply_rule(
    engine: &Engine,
    rules: &Vec<Rule>,
    j: usize,
    derived: &mut Vec<Row>,
) -> (grown: bool)
    requires
        engine.wf(),
        j < rules@.len(),
        known_rules(engine@.names, clause::rule_views(rules@)),
        known_rows(engine@.names, old(derived)@),
        sound(engine@, clause::rule_views(rules@), row_views(engine@.names, old(derived)@)),
    ensures
        known_rows(engine@.names, final(derived)@),
        sound(engine@, clause::rule_views(rules@), row_views(engine@.names, final(derived)@)),
        grown ==> final(derived)@.len() > old(derived)@.len(),
        !grown ==> {
            &&& final(derived)@ == old(derived)@
            &&& exhausted(
                engine@,
                row_views(engine@.names, old(derived)@),
                clause::rule_views(rules@)[j as int],
            )
        },
{
    let ghost names = engine@.names;
    let ghost all = clause::rule_views(rules@);
    let ghost rule = all[j as int];
    let ghost first = derived@;
    let ghost before = row_views(names, derived@);
    assert(rule == rules@[j as int]@);
    if rules[j].body.len() == 0 && rules[j].guards.len() == 0 {
        return false;
    }
    assert(!rule.is_fact());
    let found: Vec<Match> = solve(engine, derived, &rules[j].body);
    let ghost said = matched(names, found@);
    let arity: usize = rules[j].head.args.len();
    let mut keys: Vec<Vec<Value>> = list_keys(
        engine,
        derived,
        rules[j].head.pred.as_str(),
        arity,
    );
    let mut grown: bool = false;
    for i in 0..found.len()
        invariant
            engine.wf(),
            j < rules@.len(),
            names == engine@.names,
            all == clause::rule_views(rules@),
            rule == all[j as int],
            rule == rules@[j as int]@,
            !rule.is_fact(),
            arity == rule.head.args.len(),
            known_rules(names, all),
            known_rows(names, first),
            before == row_views(names, first),
            all_follow(engine@, all, before),
            all_match(names, rule.body, found@),
            said == matched(names, found@),
            forall|chosen: Seq<Seq<ValueView>>|
                #[trigger] said.contains(chosen) <==> matches_body(
                    engine@,
                    before,
                    rule.body,
                    chosen,
                ),
            known_keys(names, keys@),
            known_rows(names, derived@),
            sound(engine@, all, row_views(names, derived@)),
            is_table(
                engine@,
                row_views(names, derived@),
                rule.head.pred,
                arity as int,
                key_views(names, keys@),
            ),
            grown ==> derived@.len() > first.len(),
            !grown ==> derived@ == first,
            !grown ==> forall|k: int|
                0 <= k < i ==> settled(engine@, before, rule, #[trigger] said[k]),
    {
        let ghost chosen = said[i as int];
        assert(is_match(names, rule.body, found@[i as int]));
        assert(chosen == key_views(names, found@[i as int].keys@));
        assert(said.contains(chosen));
        assert(known_terms(names, rule.head.args) && known_guards(names, rule.guards));
        if let Some(key) = find_head(engine, &rules[j], &found[i]) {
            let ghost value = engine::key_view(names, key@);
            let ghost row = RowView { pred: rule.head.pred, key: value };
            proof {
                engine.lemma_distinct();
                assert(derives(rule, chosen, row));
            }
            if !has_key(&keys, &key, Ghost(names)) {
                let ghost rows = row_views(names, derived@);
                assert(rows.len() == derived@.len());
                proof {
                    lemma_match_follows(engine@, all, before, j as int, chosen, row);
                    assert(!present(engine@, rows, row)) by {
                        assert(!key_views(names, keys@).contains(value));
                    }
                    lemma_sound_push(engine@, all, rows, row);
                    lemma_table_push(
                        engine@,
                        rows,
                        rule.head.pred,
                        arity as int,
                        key_views(names, keys@),
                        value,
                    );
                }
                let copy: Vec<Value> = engine::copy_key(&key);
                push_key(&mut keys, copy, Ghost(names));
                push_row(derived, rules[j].head.pred.as_str(), key, Ghost(names));
                assert(row_views(names, derived@).len() == derived@.len());
                assert(rows.len() >= first.len());
                grown = true;
            } else {
                assert(key_views(names, keys@).contains(value));
            }
        }
    }
    if !grown {
        assert forall|chosen: Seq<Seq<ValueView>>, row: RowView| #[trigger]
            derives(rule, chosen, row) && all_present(
            engine@,
            before,
            rule.body,
            chosen,
        ) implies present(engine@, before, row) by {
            assert(matches_body(engine@, before, rule.body, chosen));
            assert(said.contains(chosen));
            let k = choose|k: int| 0 <= k < said.len() && said[k] == chosen;
            assert(settled(engine@, before, rule, said[k]));
        }
    }
    grown
}

/// Where no rule gives more, what is present is what follows.
proof fn lemma_least(
    engine: EngineView,
    rules: Seq<RuleView>,
    derived: Seq<RowView>,
    row: RowView,
)
    requires
        all_follow(engine, rules, derived),
        forall|j: int| 0 <= j < rules.len() ==> exhausted(engine, derived, #[trigger] rules[j]),
    ensures
        follows(engine, rules, row) <==> present(engine, derived, row),
{
    let rows = Set::new(|row: RowView| present(engine, derived, row));
    assert(closed_under(engine, rules, rows)) by {
        assert forall|j: int, keys: Seq<Seq<ValueView>>, other: RowView|
            0 <= j < rules.len() && #[trigger] derives(rules[j], keys, other) && among(
                rows,
                rules[j].body,
                keys,
            ) implies rows.contains(other) by {
            assert(exhausted(engine, derived, rules[j]));
            assert forall|i: int| 0 <= i < rules[j].body.len() implies present(
                engine,
                derived,
                RowView { pred: rules[j].body[i].pred, key: #[trigger] keys[i] },
            ) by {
                assert(rows.contains(RowView { pred: rules[j].body[i].pred, key: keys[i] }));
            }
            assert(all_present(engine, derived, rules[j].body, keys));
        }
    }
    if present(engine, derived, row) {
        lemma_present_follows(engine, rules, derived, row);
    }
}

/// Finds what rules give: a row follows where it is one of the store or among those found.
pub fn derive(engine: &Engine, rules: &Vec<Rule>) -> (derived: Vec<Row>)
    requires
        engine.wf(),
        known_rules(engine@.names, clause::rule_views(rules@)),
    ensures
        known_rows(engine@.names, derived@),
        forall|row: RowView|
            follows(engine@, clause::rule_views(rules@), row) <==> #[trigger] present(
                engine@,
                row_views(engine@.names, derived@),
                row,
            ),
{
    let ghost names = engine@.names;
    let ghost all = clause::rule_views(rules@);
    let mut derived: Vec<Row> = Vec::new();
    assert(row_views(names, derived@) =~= Seq::<RowView>::empty());
    let mut grown: bool = true;
    let ghost bound = reachable(engine@, all).len();
    while grown
        invariant
            engine.wf(),
            names == engine@.names,
            all == clause::rule_views(rules@),
            known_rules(names, all),
            known_rows(names, derived@),
            sound(engine@, all, row_views(names, derived@)),
            bound == reachable(engine@, all).len(),
            !grown ==> forall|j: int|
                0 <= j < all.len() ==> exhausted(
                    engine@,
                    row_views(names, derived@),
                    #[trigger] all[j],
                ),
        decreases bound - derived@.len(), (if grown {
                1int
            } else {
                0int
            }),
    {
        let ghost before = derived@;
        grown = false;
        for j in 0..rules.len()
            invariant
                engine.wf(),
                names == engine@.names,
                all == clause::rule_views(rules@),
                known_rules(names, all),
                known_rows(names, derived@),
                sound(engine@, all, row_views(names, derived@)),
                grown ==> derived@.len() > before.len(),
                !grown ==> derived@ == before,
                !grown ==> forall|k: int|
                    0 <= k < j ==> exhausted(
                        engine@,
                        row_views(names, before),
                        #[trigger] all[k],
                    ),
        {
            if apply_rule(engine, rules, j, &mut derived) {
                grown = true;
            }
        }
        proof {
            lemma_rows_bounded(engine@, all, row_views(names, derived@));
        }
    }
    proof {
        let rows = row_views(names, derived@);
        assert forall|row: RowView|
            follows(engine@, all, row) <==> #[trigger] present(engine@, rows, row) by {
            lemma_least(engine@, all, rows, row);
        }
    }
    derived
}

/// The same follows from stores that state the same rows.
pub proof fn lemma_same_rows(a: EngineView, b: EngineView, rules: Seq<RuleView>, row: RowView)
    requires
        forall|row: RowView| #[trigger] stated(a, row) <==> stated(b, row),
    ensures
        follows(a, rules, row) == follows(b, rules, row),
{
    assert forall|rows: Set<RowView>|
        closed_under(a, rules, rows) == closed_under(b, rules, rows) by {
        if closed_under(a, rules, rows) {
            assert forall|row: RowView| #[trigger] stated(b, row) implies rows.contains(row) by {
                assert(stated(a, row));
            }
        }
        if closed_under(b, rules, rows) {
            assert forall|row: RowView| #[trigger] stated(a, row) implies rows.contains(row) by {
                assert(stated(b, row));
            }
        }
    }
}

/// Stores with the same facts and the same time hold the same.
pub proof fn lemma_same_store(
    a: EngineView,
    b: EngineView,
    rules: Seq<RuleView>,
    row: RowView,
)
    requires
        a.facts == b.facts,
        a.now == b.now,
    ensures
        holds(a, rules, row) == holds(b, rules, row),
        follows(a, rules, row) == follows(b, rules, row),
{
    lemma_same_rows(a, b, rules, row);
    lemma_same_rows(a, b, defaults::all_rules(rules), row);
}

// ---------------------------------------------------------------- symbols
/// The names after the symbol of a term was interned.
pub open spec fn with_term_name(names: Seq<Seq<char>>, term: TermView) -> Seq<Seq<char>> {
    match term {
        TermView::Sym(name) => engine::interned(names, name),
        _ => names,
    }
}

/// The names after the symbols of terms were interned.
pub open spec fn with_term_names(names: Seq<Seq<char>>, terms: Seq<TermView>) -> Seq<Seq<char>>
    decreases terms.len(),
{
    if terms.len() == 0 {
        names
    } else {
        with_term_name(with_term_names(names, terms.drop_last()), terms.last())
    }
}

/// The names after the symbols of comparisons were interned.
pub open spec fn with_guard_names(names: Seq<Seq<char>>, guards: Seq<GuardView>) -> Seq<Seq<char>>
    decreases guards.len(),
{
    if guards.len() == 0 {
        names
    } else {
        with_term_name(
            with_term_name(with_guard_names(names, guards.drop_last()), guards.last().left),
            guards.last().right,
        )
    }
}

/// The names after the symbols of the heads and the comparisons of rules were interned.
pub open spec fn with_rule_names(names: Seq<Seq<char>>, rules: Seq<RuleView>) -> Seq<Seq<char>>
    decreases rules.len(),
{
    if rules.len() == 0 {
        names
    } else {
        with_guard_names(
            with_term_names(with_rule_names(names, rules.drop_last()), rules.last().head.args),
            rules.last().guards,
        )
    }
}

/// Interns the symbol of a term.
fn intern_term(engine: &mut Engine, term: &Term)
    requires
        old(engine).wf(),
    ensures
        final(engine).wf(),
        final(engine)@ == (EngineView {
            names: with_term_name(old(engine)@.names, term@),
            ..old(engine)@
        }),
        old(engine)@.names.is_prefix_of(final(engine)@.names),
        known_term(final(engine)@.names, term@),
{
    let ghost names = engine@.names;
    assert(names.is_prefix_of(names)) by {
        assert(names.subrange(0, names.len() as int) =~= names);
    }
    if let Term::Sym(name) = term {
        let _ = engine.sym(name.as_str());
        proof {
            engine::lemma_interned(names, name@);
            if !names.contains(name@) {
                assert(names.push(name@)[names.len() as int] == name@);
            }
        }
    }
}

/// A term that is known is known where there are more names.
proof fn lemma_known_more(names: Seq<Seq<char>>, more: Seq<Seq<char>>, term: TermView)
    requires
        names.is_prefix_of(more),
        known_term(names, term),
    ensures
        known_term(more, term),
{
    if let TermView::Sym(name) = term {
        let i = choose|i: int| 0 <= i < names.len() && names[i] == name;
        assert(more[i] == name);
    }
}

/// Rules that are known are known where there are more names.
pub proof fn lemma_rules_known(names: Seq<Seq<char>>, more: Seq<Seq<char>>, rules: Seq<RuleView>)
    requires
        names.is_prefix_of(more),
        known_rules(names, rules),
    ensures
        known_rules(more, rules),
{
    assert forall|j: int| 0 <= j < rules.len() implies known_terms(
        more,
        (#[trigger] rules[j]).head.args,
    ) && known_guards(more, rules[j].guards) by {
        lemma_rule_known(names, more, rules[j]);
    }
}

proof fn lemma_rule_known(names: Seq<Seq<char>>, more: Seq<Seq<char>>, rule: RuleView)
    requires
        names.is_prefix_of(more),
        known_terms(names, rule.head.args),
        known_guards(names, rule.guards),
    ensures
        known_terms(more, rule.head.args),
        known_guards(more, rule.guards),
{
    assert forall|k: int| 0 <= k < rule.head.args.len() implies known_term(
        more,
        #[trigger] rule.head.args[k],
    ) by {
        lemma_known_more(names, more, rule.head.args[k]);
    }
    assert forall|k: int| 0 <= k < rule.guards.len() implies known_term(
        more,
        (#[trigger] rule.guards[k]).left,
    ) && known_term(more, rule.guards[k].right) by {
        lemma_known_more(names, more, rule.guards[k].left);
        lemma_known_more(names, more, rule.guards[k].right);
    }
}

/// The default rules have no symbols: where added rules are known, all rules are.
pub proof fn lemma_all_known(names: Seq<Seq<char>>, added: Seq<RuleView>)
    requires
        known_rules(names, added),
    ensures
        known_rules(names, defaults::all_rules(added)),
{
    let all = defaults::all_rules(added);
    assert forall|j: int| 0 <= j < all.len() implies known_terms(
        names,
        (#[trigger] all[j]).head.args,
    ) && known_guards(names, all[j].guards) by {
        if j >= 3 {
            assert(all[j] == added[j - 3]);
        } else {
            assert(all[j] == defaults::default_rules()[j]);
        }
    }
}

proof fn lemma_prefix(a: Seq<Seq<char>>, b: Seq<Seq<char>>, c: Seq<Seq<char>>)
    requires
        a.is_prefix_of(b),
        b.is_prefix_of(c),
    ensures
        a.is_prefix_of(c),
{
    assert(a =~= c.subrange(0, a.len() as int)) by {
        assert forall|i: int| 0 <= i < a.len() implies a[i] == c[i] by {
            assert(a[i] == b[i]);
            assert(b[i] == c[i]);
        }
    }
}

/// Interns the symbols of the head and the comparisons of a rule.
fn intern_rule(engine: &mut Engine, rule: &Rule)
    requires
        old(engine).wf(),
    ensures
        final(engine).wf(),
        final(engine)@ == (EngineView {
            names: with_guard_names(
                with_term_names(old(engine)@.names, rule@.head.args),
                rule@.guards,
            ),
            ..old(engine)@
        }),
        old(engine)@.names.is_prefix_of(final(engine)@.names),
        known_terms(final(engine)@.names, rule@.head.args),
        known_guards(final(engine)@.names, rule@.guards),
{
    let ghost start = engine@;
    let ghost terms = rule@.head.args;
    let ghost guards = rule@.guards;
    assert(start.names.is_prefix_of(start.names)) by {
        assert(start.names.subrange(0, start.names.len() as int) =~= start.names);
    }
    for i in 0..rule.head.args.len()
        invariant
            engine.wf(),
            terms == rule@.head.args,
            engine@ == (EngineView {
                names: with_term_names(start.names, terms.take(i as int)),
                ..start
            }),
            start.names.is_prefix_of(engine@.names),
            forall|j: int| 0 <= j < i ==> known_term(engine@.names, #[trigger] terms[j]),
    {
        let ghost before = engine@.names;
        assert(terms[i as int] == rule.head.args@[i as int]@);
        assert(terms.take(i as int + 1).drop_last() =~= terms.take(i as int));
        intern_term(engine, &rule.head.args[i]);
        proof {
            lemma_prefix(start.names, before, engine@.names);
            assert forall|j: int| 0 <= j < i implies known_term(
                engine@.names,
                #[trigger] terms[j],
            ) by {
                lemma_known_more(before, engine@.names, terms[j]);
            }
        }
    }
    assert(terms.take(terms.len() as int) =~= terms);
    let ghost middle = engine@.names;
    for i in 0..rule.guards.len()
        invariant
            engine.wf(),
            guards == rule@.guards,
            engine@ == (EngineView {
                names: with_guard_names(middle, guards.take(i as int)),
                ..start
            }),
            start.names.is_prefix_of(engine@.names),
            known_terms(engine@.names, terms),
            forall|j: int|
                0 <= j < i ==> known_term(engine@.names, (#[trigger] guards[j]).left)
                    && known_term(engine@.names, guards[j].right),
    {
        let ghost before = engine@.names;
        assert(guards[i as int] == rule.guards@[i as int]@);
        assert(guards.take(i as int + 1).drop_last() =~= guards.take(i as int));
        intern_term(engine, &rule.guards[i].left);
        let ghost between = engine@.names;
        intern_term(engine, &rule.guards[i].right);
        proof {
            lemma_prefix(before, between, engine@.names);
            lemma_prefix(start.names, before, engine@.names);
            lemma_known_more(between, engine@.names, guards[i as int].left);
            assert forall|j: int| 0 <= j < i implies known_term(
                engine@.names,
                (#[trigger] guards[j]).left,
            ) && known_term(engine@.names, guards[j].right) by {
                lemma_known_more(before, engine@.names, guards[j].left);
                lemma_known_more(before, engine@.names, guards[j].right);
            }
            assert forall|j: int| 0 <= j < terms.len() implies known_term(
                engine@.names,
                #[trigger] terms[j],
            ) by {
                lemma_known_more(before, engine@.names, terms[j]);
            }
        }
    }
    assert(guards.take(guards.len() as int) =~= guards);
}

/// Interns the symbols of the heads and the comparisons of rules.
pub fn intern_rules(engine: &mut Engine, rules: &Vec<Rule>)
    requires
        old(engine).wf(),
    ensures
        final(engine).wf(),
        final(engine)@ == (EngineView {
            names: with_rule_names(old(engine)@.names, clause::rule_views(rules@)),
            ..old(engine)@
        }),
        old(engine)@.names.is_prefix_of(final(engine)@.names),
        known_rules(final(engine)@.names, clause::rule_views(rules@)),
{
    let ghost start = engine@;
    let ghost all = clause::rule_views(rules@);
    assert(start.names.is_prefix_of(start.names)) by {
        assert(start.names.subrange(0, start.names.len() as int) =~= start.names);
    }
    for i in 0..rules.len()
        invariant
            engine.wf(),
            all == clause::rule_views(rules@),
            engine@ == (EngineView {
                names: with_rule_names(start.names, all.take(i as int)),
                ..start
            }),
            start.names.is_prefix_of(engine@.names),
            forall|j: int|
                0 <= j < i ==> known_terms(engine@.names, (#[trigger] all[j]).head.args)
                    && known_guards(engine@.names, all[j].guards),
    {
        let ghost before = engine@.names;
        assert(all[i as int] == rules@[i as int]@);
        assert(all.take(i as int + 1).drop_last() =~= all.take(i as int));
        intern_rule(engine, &rules[i]);
        proof {
            lemma_prefix(start.names, before, engine@.names);
            assert forall|j: int| 0 <= j < i implies known_terms(
                engine@.names,
                (#[trigger] all[j]).head.args,
            ) && known_guards(engine@.names, all[j].guards) by {
                lemma_rule_known(before, engine@.names, all[j]);
            }
        }
    }
    assert(all.take(all.len() as int) =~= all);
}

/// Copies a store, and interns the symbols of the heads and the comparisons of rules.
pub fn prepare(engine: &Engine, rules: &Vec<Rule>) -> (ready: Engine)
    requires
        engine.wf(),
    ensures
        ready.wf(),
        ready@.facts == engine@.facts,
        ready@.now == engine@.now,
        engine@.names.is_prefix_of(ready@.names),
        known_rules(ready@.names, clause::rule_views(rules@)),
{
    let mut ready: Engine = engine.copy();
    intern_rules(&mut ready, rules);
    ready
}

/// Whether a row holds.
pub fn check_holds(engine: &Engine, added: &Vec<Rule>, pred: &str, key: &Vec<Value>) -> (yes:
    bool)
    requires
        engine.wf(),
        engine::known_key(engine@.names, key@),
    ensures
        yes == holds(
            engine@,
            clause::rule_views(added@),
            RowView { pred: pred@, key: engine::key_view(engine@.names, key@) },
        ),
{
    let rules: Vec<Rule> = defaults::list_rules(added);
    let ready: Engine = prepare(engine, &rules);
    let ghost names = ready@.names;
    let derived: Vec<Row> = derive(&ready, &rules);
    let keys: Vec<Vec<Value>> = list_keys(&ready, &derived, pred, key.len());
    proof {
        ready.lemma_distinct();
        engine::lemma_more_names_key(engine@.names, names, key@);
        let row = RowView { pred: pred@, key: engine::key_view(names, key@) };
        lemma_same_store(engine@, ready@, clause::rule_views(added@), row);
        assert(key_views(names, keys@).contains(row.key) <==> present(
            ready@,
            row_views(names, derived@),
            row,
        ));
    }
    has_key(&keys, key, Ghost(names))
}

} // verus!
