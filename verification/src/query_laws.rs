//! What holds of queries, explanations and suppositions.

use vstd::prelude::*;

use crate::agent;
use crate::agent::MemoryView;
use crate::clause::{AtomView, RuleView};
use crate::datalog;
use crate::datalog::{BindingView, RowView};
use crate::default_laws;
use crate::defaults;
use crate::engine;
use crate::engine::{EngineView, FactView, TermView};
use crate::protocol::CandidateView;
use crate::query;
use crate::rows;
use crate::snapshot::ValueView;
use crate::sorted;
use crate::support;
use crate::text;
use crate::update_laws;

verus! {

/// The rows that hold are closed under the default rules and those that were added, and each set of
/// rows that has those of the store and is closed under these rules has them all.
pub proof fn what_holds_is_least(engine: EngineView, added: Seq<RuleView>, rows: Set<RowView>)
    requires
        datalog::closed_under(engine, defaults::all_rules(added), rows),
    ensures
        ({
            let held = Set::new(|row: RowView| datalog::holds(engine, added, row));
            datalog::closed_under(engine, defaults::all_rules(added), held) && held.subset_of(rows)
        }),
{
    let rules = defaults::all_rules(added);
    let held = Set::new(|row: RowView| datalog::holds(engine, added, row));
    assert forall|j: int, keys: Seq<Seq<ValueView>>, row: RowView|
        0 <= j < rules.len() && #[trigger] datalog::derives(rules[j], keys, row) && datalog::among(
            held,
            rules[j].body,
            keys,
        ) implies held.contains(row) by {
        assert forall|i: int| 0 <= i < rules[j].body.len() implies datalog::follows(
            engine,
            rules,
            RowView { pred: rules[j].body[i].pred, key: #[trigger] keys[i] },
        ) by {
            assert(held.contains(RowView { pred: rules[j].body[i].pred, key: keys[i] }));
        }
        datalog::rule_gives_its_row(engine, rules, j, keys, row);
    }
}

/// Without added rules the rows that facts give hold and the time does, and no others.
pub proof fn only_given_rows_hold_without_added_rules(engine: EngineView, row: RowView)
    requires
        forall|i: int| 0 <= i < engine.facts.len() ==> (#[trigger] engine.facts[i]).pred != "now"@,
    ensures
        datalog::holds(engine, seq![], row) <==> update_laws::has_fact(
            engine::relation(engine.facts, engine.now, row.pred),
            row.pred,
            row.key,
        ) || row == datalog::now_row(engine),
{
    let rules = defaults::all_rules(seq![]);
    let rows = Set::new(
        |r: RowView| is_given(engine, r) || r == datalog::now_row(engine),
    );
    update_laws::relation_holds_what_facts_give(engine.facts, engine.now, row.pred, row.key);
    assert(is_given(engine, row) <==> update_laws::has_fact(
        engine::relation(engine.facts, engine.now, row.pred),
        row.pred,
        row.key,
    ));
    if is_given(engine, row) {
        let i = choose|i: int|
            0 <= i < engine.facts.len() && engine::given(
                #[trigger] engine.facts[i],
                engine.now,
                row.pred,
            ) == Some(row.key);
        rows::given_row_holds(engine, seq![], i, row.pred, row.key);
    }
    assert(datalog::stated(engine, datalog::now_row(engine)));
    assert(rules =~= defaults::default_rules());
    assert(datalog::closed_under(engine, rules, rows)) by {
        assert forall|r: RowView| #[trigger] datalog::stated(engine, r) implies rows.contains(r) by {
            if r != datalog::now_row(engine) {
                let i = choose|i: int|
                    0 <= i < engine.facts.len() && engine::is_fact(
                        #[trigger] engine.facts[i],
                        r.pred,
                        r.key,
                    );
                assert(engine::given(engine.facts[i], engine.now, r.pred) == Some(r.key));
            }
        }
        assert forall|j: int, keys: Seq<Seq<ValueView>>, r: RowView|
            0 <= j < rules.len() && #[trigger] datalog::derives(rules[j], keys, r)
                && datalog::among(rows, rules[j].body, keys) implies rows.contains(r) by {
            lemma_default_gives(engine, j, keys, r);
        }
    }
}

/// Whether a fact gives a row.
spec fn is_given(engine: EngineView, row: RowView) -> bool {
    exists|i: int|
        0 <= i < engine.facts.len() && engine::given(
            #[trigger] engine.facts[i],
            engine.now,
            row.pred,
        ) == Some(row.key)
}

/// What a default rule gives of rows that facts give, a fact gives.
proof fn lemma_default_gives(
    engine: EngineView,
    j: int,
    keys: Seq<Seq<ValueView>>,
    row: RowView,
)
    requires
        forall|i: int| 0 <= i < engine.facts.len() ==> (#[trigger] engine.facts[i]).pred != "now"@,
        0 <= j < defaults::default_rules().len(),
        datalog::derives(defaults::default_rules()[j], keys, row),
        datalog::among(
            Set::new(|r: RowView| is_given(engine, r) || r == datalog::now_row(engine)),
            defaults::default_rules()[j].body,
            keys,
        ),
    ensures
        is_given(engine, row),
{
    let rule = defaults::default_rules()[j];
    let rows = Set::new(|r: RowView| is_given(engine, r) || r == datalog::now_row(engine));
    reveal_strlit("edge");
    reveal_strlit("scoped_edge");
    reveal_strlit("current");
    reveal_strlit("scoped_current");
    reveal_strlit("now");
    assert("edge"@.len() == 4 && "scoped_edge"@.len() == 11 && "now"@.len() == 3);
    assert("current"@.len() == 7 && "scoped_current"@.len() == 14);
    assert(keys.len() == 2);
    let first = RowView { pred: rule.body[0].pred, key: keys[0] };
    let second = RowView { pred: rule.body[1].pred, key: keys[1] };
    assert(rows.contains(first));
    assert(rows.contains(second));
    assert(!is_given(engine, second)) by {
        if is_given(engine, second) {
            let i = choose|i: int|
                0 <= i < engine.facts.len() && engine::given(
                    #[trigger] engine.facts[i],
                    engine.now,
                    second.pred,
                ) == Some(second.key);
        }
    }
    let i = choose|i: int|
        0 <= i < engine.facts.len() && engine::given(
            #[trigger] engine.facts[i],
            engine.now,
            first.pred,
        ) == Some(first.key);
    let fact = engine.facts[i];
    assert(fact.pred == first.pred && fact.key == first.key);
    default_laws::store_follows_the_default_rules(fact, engine.now, row.key);
    assert(keys =~= seq![fact.key, seq![ValueView::Integer(engine.now)]]);
    assert(engine::given(fact, engine.now, row.pred) == Some(row.key));
}

/// What holds by some rules holds by more of them.
pub proof fn more_rules_hold_more(
    engine: EngineView,
    rules: Seq<RuleView>,
    more: Seq<RuleView>,
    row: RowView,
)
    requires
        datalog::holds(engine, rules, row),
    ensures
        datalog::holds(engine, rules + more, row),
{
    let applied = defaults::all_rules(rules);
    let all = defaults::all_rules(rules + more);
    assert forall|rows: Set<RowView>| #[trigger]
        datalog::closed_under(engine, all, rows) implies rows.contains(row) by {
        assert forall|j: int, keys: Seq<Seq<ValueView>>, other: RowView|
            0 <= j < applied.len() && #[trigger] datalog::derives(applied[j], keys, other)
                && datalog::among(rows, applied[j].body, keys) implies rows.contains(other) by {
            assert(all[j] == applied[j]);
            assert(datalog::derives(all[j], keys, other));
        }
        assert(datalog::closed_under(engine, applied, rows));
    }
}

/// Two lists in order that hold the same texts are one.
proof fn lemma_ordered_same(a: Seq<Seq<char>>, b: Seq<Seq<char>>)
    requires
        sorted::ordered(a),
        sorted::ordered(b),
        forall|x: Seq<char>| a.contains(x) <==> #[trigger] b.contains(x),
    ensures
        a == b,
    decreases a.len(),
{
    if a.len() == 0 || b.len() == 0 {
        if a.len() > 0 {
            assert(a.contains(a[0]));
            assert(b.contains(a[0]));
        }
        if b.len() > 0 {
            assert(b.contains(b[0]));
        }
        assert(a =~= b);
    } else {
        let last = a.last();
        let other = b.last();
        assert(a.contains(last) && b.contains(other));
        assert(b.contains(last) && a.contains(other));
        let i = choose|i: int| 0 <= i < b.len() && b[i] == last;
        let j = choose|j: int| 0 <= j < a.len() && a[j] == other;
        if last != other {
            assert(text::before(b[i], b[b.len() - 1]));
            assert(text::before(a[j], a[a.len() - 1]));
            sorted::before_is_transitive(last, other, last);
            sorted::before_is_irreflexive(last);
        }
        let fewer_a = a.drop_last();
        let fewer_b = b.drop_last();
        assert forall|x: Seq<char>| fewer_a.contains(x) <==> #[trigger] fewer_b.contains(x) by {
            lemma_fewer(a, x);
            lemma_fewer(b, x);
            assert(a.contains(x) <==> b.contains(x));
        }
        lemma_ordered_same(fewer_a, fewer_b);
        assert(a =~= fewer_a.push(last));
        assert(b =~= fewer_b.push(other));
    }
}

/// A list in order without its last text holds the others.
proof fn lemma_fewer(list: Seq<Seq<char>>, x: Seq<char>)
    requires
        sorted::ordered(list),
        list.len() > 0,
    ensures
        list.drop_last().contains(x) <==> list.contains(x) && x != list.last(),
{
    let fewer = list.drop_last();
    if fewer.contains(x) {
        let i = choose|i: int| 0 <= i < fewer.len() && fewer[i] == x;
        assert(list[i] == x);
        assert(text::before(list[i], list[list.len() - 1]));
        sorted::before_is_irreflexive(x);
    }
    if list.contains(x) && x != list.last() {
        let i = choose|i: int| 0 <= i < list.len() && list[i] == x;
        assert(fewer[i] == x);
    }
}

/// A goal has one list of answers, and none of them stands there twice.
pub proof fn answers_are_determined(
    engine: EngineView,
    rules: Seq<RuleView>,
    goal: AtomView,
    a: Seq<Seq<char>>,
    b: Seq<Seq<char>>,
)
    requires
        query::answers_to(engine, rules, goal, a),
        query::answers_to(engine, rules, goal, b),
    ensures
        a == b,
        engine::distinct(a),
{
    lemma_ordered_same(a, b);
    assert forall|i: int, j: int| 0 <= i < j < a.len() implies #[trigger] a[i]
        != #[trigger] a[j] by {
        sorted::before_is_irreflexive(a[i]);
    }
}

/// Terms without variables stand for one key, and bind nothing.
proof fn lemma_constants(terms: Seq<TermView>, key: Seq<ValueView>)
    requires
        forall|i: int| 0 <= i < terms.len() ==> !((#[trigger] terms[i]) is Var),
    ensures
        datalog::with_terms(seq![], terms, key) == if key == terms.map_values(
            |term: TermView| engine::ground(term),
        ) {
            Some(Seq::<BindingView>::empty())
        } else {
            None
        },
        query::told_terms(seq![], terms) == Seq::<Seq<char>>::empty(),
    decreases terms.len(),
{
    let values = terms.map_values(|term: TermView| engine::ground(term));
    if terms.len() > 0 {
        let fewer = terms.drop_last();
        assert forall|i: int| 0 <= i < fewer.len() implies !((#[trigger] fewer[i]) is Var) by {
            assert(fewer[i] == terms[i]);
        }
        assert(!(terms[terms.len() - 1] is Var));
        lemma_constants(fewer, key.drop_last());
        assert(values.drop_last() =~= fewer.map_values(|term: TermView| engine::ground(term)));
        if key.len() == terms.len() {
            assert(key =~= key.drop_last().push(key.last()));
            assert(values =~= values.drop_last().push(values.last()));
            if key == values {
                assert(key.drop_last() == values.drop_last());
                assert(key.last() == values.last());
            }
        }
    } else {
        assert(key.len() == 0 ==> key =~= values);
    }
}

/// An atom without variables is answered with `true` where the row that it writes holds, and not
/// at all where it does not.
pub proof fn stated_atom_is_true_where_it_holds(
    engine: EngineView,
    rules: Seq<RuleView>,
    atom: AtomView,
    answers: Seq<Seq<char>>,
)
    requires
        forall|i: int| 0 <= i < atom.args.len() ==> !((#[trigger] atom.args[i]) is Var),
        query::answers_to(engine, rules, atom, answers),
    ensures
        ({
            let key = atom.args.map_values(|term: TermView| engine::ground(term));
            answers == if datalog::holds(engine, rules, RowView { pred: atom.pred, key }) {
                seq!["true"@]
            } else {
                Seq::<Seq<char>>::empty()
            }
        }),
{
    let key = atom.args.map_values(|term: TermView| engine::ground(term));
    let held = datalog::holds(engine, rules, RowView { pred: atom.pred, key });
    let expected = if held {
        seq!["true"@]
    } else {
        Seq::<Seq<char>>::empty()
    };
    assert forall|answer: Seq<char>| answers.contains(answer) <==> #[trigger] expected.contains(
        answer,
    ) by {
        if answers.contains(answer) {
            let other = choose|other: Seq<ValueView>|
                datalog::holds(engine, rules, RowView { pred: atom.pred, key: other })
                    && #[trigger] query::key_answers(other, atom.args, answer);
            lemma_constants(atom.args, other);
            assert(expected[0] == answer);
        }
        if expected.contains(answer) {
            lemma_constants(atom.args, key);
            assert(query::key_answers(key, atom.args, answer));
        }
    }
    lemma_ordered_same(answers, expected);
}

/// A row that a fact gives is explained by that fact.
pub proof fn given_rows_are_explained(
    engine: EngineView,
    rules: Seq<RuleView>,
    i: int,
    pred: Seq<char>,
    key: Seq<ValueView>,
)
    requires
        0 <= i < engine.facts.len(),
        engine::given(engine.facts[i], engine.now, pred) == Some(key),
    ensures
        rows::row_support(engine, rules, pred, key).contains(engine.facts[i]),
        query::explained(engine, rules, pred, key) == query::row_shown(pred, key) + ("\n"@
            + query::support_lines(rows::row_support(engine, rules, pred, key))),
{
    let row = RowView { pred, key };
    let found = rows::row_support(engine, rules, pred, key);
    rows::given_row_holds(engine, rules, i, pred, key);
    lemma_supporting(engine, defaults::all_rules(rules), engine.facts, row, engine.facts[i]);
    assert(engine.facts.contains(engine.facts[i]));
    let n = choose|n: int| 0 <= n < found.len() && found[n] == engine.facts[i];
    assert(found.len() > 0);
}

/// The facts that support a row are those that it rests on.
proof fn lemma_supporting(
    engine: EngineView,
    rules: Seq<RuleView>,
    facts: Seq<FactView>,
    row: RowView,
    fact: FactView,
)
    ensures
        support::supporting(engine, rules, facts, row).contains(fact) <==> facts.contains(fact)
            && support::rests_on(engine, rules, row, RowView { pred: fact.pred, key: fact.key }),
    decreases facts.len(),
{
    if facts.len() > 0 {
        let fewer = facts.drop_last();
        let found = support::supporting(engine, rules, fewer, row);
        lemma_supporting(engine, rules, fewer, row, fact);
        datalog::lemma_push_holds(fewer, facts.last(), fact);
        datalog::lemma_push_holds(found, facts.last(), fact);
        assert(facts =~= fewer.push(facts.last()));
    }
}

/// A row is said not to hold where it does not, and nowhere else.
pub proof fn rows_that_do_not_hold_are_told(
    engine: EngineView,
    rules: Seq<RuleView>,
    pred: Seq<char>,
    key: Seq<ValueView>,
)
    ensures
        !datalog::holds(engine, rules, RowView { pred, key }) <==> query::explained(
            engine,
            rules,
            pred,
            key,
        ) == query::row_shown(pred, key) + " does not hold\n"@,
{
    let row = RowView { pred, key };
    let applied = defaults::all_rules(rules);
    let found = rows::row_support(engine, rules, pred, key);
    let shown = query::row_shown(pred, key);
    reveal_strlit(" does not hold\n");
    reveal_strlit(" is derived\n");
    reveal_strlit("\n");
    if !datalog::holds(engine, rules, row) {
        if found.len() > 0 {
            let fact = found[0];
            let own = RowView { pred: fact.pred, key: fact.key };
            assert(found.contains(fact));
            lemma_supporting(engine, applied, engine.facts, row, fact);
            assert(support::closed_back(engine, applied, Set::<RowView>::empty().insert(row))) by {
                assert forall|x: RowView, y: RowView|
                    x == row && #[trigger] support::uses(engine, applied, x, y) implies y == row by {
                    support::lemma_used_follows(engine, applied, x, y);
                }
            }
            assert(own == row);
            let i = choose|i: int| 0 <= i < engine.facts.len() && engine.facts[i] == fact;
            assert(engine::is_fact(engine.facts[i], pred, key));
            assert(datalog::stated(engine, row));
        }
    } else {
        let told = query::explained(engine, rules, pred, key);
        let other = shown + " does not hold\n"@;
        if found.len() > 0 {
            assert(told[shown.len() as int] == '\n');
            assert(other[shown.len() as int] == ' ');
        } else {
            assert(told[shown.len() as int + 1] == 'i');
            assert(other[shown.len() as int + 1] == 'd');
        }
    }
}

/// To suppose candidates asserts nothing: the facts, the time and the rules stay as they are.
pub proof fn supposition_asserts_nothing(engine: EngineView, candidates: Seq<CandidateView>)
    ensures
        agent::all_prepared(engine, candidates).facts == engine.facts,
        agent::all_prepared(engine, candidates).now == engine.now,
        agent::all_prepared(engine, candidates).rules == engine.rules,
    decreases candidates.len(),
{
    if candidates.len() > 0 {
        supposition_asserts_nothing(engine, candidates.drop_last());
    }
}

/// The id of an episode that is supposed is never that of one that is observed.
pub proof fn supposed_ids_are_not_observed(
    memory: MemoryView,
    other: MemoryView,
    content: Seq<char>,
    text: Seq<char>,
    ts: int,
    speaker: Option<Seq<char>>,
)
    ensures
        memory.supposed_episode(content).id != other.next_episode(text, ts, speaker).id,
{
    reveal_strlit("hyp");
    reveal_strlit("ep");
    assert(memory.supposed_episode(content).id[0] == 'h');
    assert(other.next_episode(text, ts, speaker).id[0] == 'e');
}

} // verus!
