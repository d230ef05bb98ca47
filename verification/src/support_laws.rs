//! What a row rests on, and how that is explained.

use vstd::prelude::*;

use crate::answer_laws;
use crate::clause;
use crate::clause::RuleView;
use crate::datalog;
use crate::datalog::RowView;
use crate::defaults;
use crate::engine;
use crate::engine::{AnnView, EngineView, FactView, TermView};
use crate::policy_laws;
use crate::query;
use crate::row_laws;
use crate::rows;
use crate::search;
use crate::snapshot::ValueView;
use crate::sorted;
use crate::support;
use crate::text;
use crate::text_laws;

verus! {

/// A row rests on itself, and otherwise on what the rows rest on that a rule uses to derive it, and
/// on nothing else.
pub proof fn rows_rest_on_what_rules_use(
    store: EngineView,
    rules: Seq<RuleView>,
    row: RowView,
    other: RowView,
)
    ensures
        support::rests_on(store, rules, row, other) <==> row == other || exists|middle: RowView|
            #[trigger] support::uses(store, rules, row, middle) && support::rests_on(
                store,
                rules,
                middle,
                other,
            ),
{
    let below = Set::new(
        |x: RowView|
            x == row || exists|middle: RowView| #[trigger]
                support::uses(store, rules, row, middle) && support::rests_on(
                    store,
                    rules,
                    middle,
                    x,
                ),
    );
    assert(support::closed_back(store, rules, below)) by {
        assert forall|x: RowView, y: RowView|
            below.contains(x) && #[trigger] support::uses(store, rules, x, y) implies below.contains(
            y,
        ) by {
            if x == row {
                assert(support::rests_on(store, rules, y, y));
                assert(support::uses(store, rules, row, y));
            } else {
                let middle = choose|middle: RowView| #[trigger]
                    support::uses(store, rules, row, middle) && support::rests_on(
                        store,
                        rules,
                        middle,
                        x,
                    );
                support::lemma_rests_further(store, rules, middle, x, y);
                assert(support::uses(store, rules, row, middle));
            }
        }
    }
    if support::rests_on(store, rules, row, other) {
        assert(below.contains(row));
        assert(below.contains(other));
    }
    if exists|middle: RowView| #[trigger]
        support::uses(store, rules, row, middle) && support::rests_on(
            store,
            rules,
            middle,
            other,
        ) {
        let middle = choose|middle: RowView| #[trigger]
            support::uses(store, rules, row, middle) && support::rests_on(
                store,
                rules,
                middle,
                other,
            );
        assert forall|all: Set<RowView>| #[trigger]
            support::closed_back(store, rules, all) && all.contains(row) implies all.contains(
            other,
        ) by {
            assert(all.contains(middle));
        }
    }
}

/// To derive a row a rule uses each row of its body, where all of them follow; and no row is used
/// otherwise.
pub proof fn each_row_of_a_body_is_used(
    store: EngineView,
    rules: Seq<RuleView>,
    row: RowView,
    other: RowView,
)
    ensures
        support::uses(store, rules, row, other) <==> exists|
            j: int,
            keys: Seq<Seq<ValueView>>,
            i: int,
        |
            0 <= j < rules.len() && 0 <= i < rules[j].body.len() && #[trigger] body_row(
                rules[j],
                keys,
                i,
            ) == other && #[trigger] answer_laws::given_by(store, rules, rules[j], keys, row),
{
    if support::uses(store, rules, row, other) {
        let j = choose|j: int|
            0 <= j < rules.len() && support::rule_uses(
                store,
                rules,
                #[trigger] rules[j],
                row,
                other,
            );
        let rule = rules[j];
        let keys = choose|keys: Seq<Seq<ValueView>>|
            #[trigger] datalog::derives(rule, keys, row) && support::rows_follow(
                store,
                rules,
                support::body_rows(rule.body, keys),
            ) && support::body_rows(rule.body, keys).contains(other);
        let parts = support::body_rows(rule.body, keys);
        let i = choose|i: int| 0 <= i < parts.len() && parts[i] == other;
        assert(body_row(rules[j], keys, i) == other);
        assert forall|k: int| 0 <= k < rule.body.len() implies datalog::follows(
            store,
            rules,
            RowView { pred: rule.body[k].pred, key: #[trigger] keys[k] },
        ) by {
            assert(datalog::follows(store, rules, parts[k]));
        }
        assert(answer_laws::given_by(store, rules, rules[j], keys, row));
    }
    if exists|j: int, keys: Seq<Seq<ValueView>>, i: int|
        0 <= j < rules.len() && 0 <= i < rules[j].body.len() && #[trigger] body_row(
            rules[j],
            keys,
            i,
        ) == other && #[trigger] answer_laws::given_by(store, rules, rules[j], keys, row) {
        let (j, keys, i) = choose|j: int, keys: Seq<Seq<ValueView>>, i: int|
            0 <= j < rules.len() && 0 <= i < rules[j].body.len() && #[trigger] body_row(
                rules[j],
                keys,
                i,
            ) == other && #[trigger] answer_laws::given_by(store, rules, rules[j], keys, row);
        let parts = support::body_rows(rules[j].body, keys);
        assert(parts[i] == other);
        assert forall|k: int| 0 <= k < parts.len() implies datalog::follows(
            store,
            rules,
            #[trigger] parts[k],
        ) by {
            assert(parts[k] == RowView { pred: rules[j].body[k].pred, key: keys[k] });
        }
        assert(datalog::derives(rules[j], keys, row));
        assert(support::rule_uses(store, rules, rules[j], row, other));
    }
}

/// The row that stands for an atom of the body of a rule.
pub open spec fn body_row(rule: RuleView, keys: Seq<Seq<ValueView>>, i: int) -> RowView {
    RowView { pred: rule.body[i].pred, key: keys[i] }
}

/// The facts that support a row are all those of the store that it rests on, in their order.
pub proof fn support_is_all_that_a_row_rests_on(
    store: EngineView,
    rules: Seq<RuleView>,
    facts: Seq<FactView>,
    row: RowView,
)
    ensures
        support::supporting(store, rules, facts, row) == facts.filter(
            |fact: FactView|
                support::rests_on(store, rules, row, RowView { pred: fact.pred, key: fact.key }),
        ),
    decreases facts.len(),
{
    reveal(Seq::filter);
    if facts.len() > 0 {
        support_is_all_that_a_row_rests_on(store, rules, facts.drop_last(), row);
    }
}

/// What a row has of the facts that support it: all their confidences and all their references, and
/// no others.
pub proof fn row_has_what_its_support_has(facts: Seq<FactView>, x: Seq<char>)
    ensures
        support::ann_of(facts).conf.contains(x) <==> exists|i: int|
            0 <= i < facts.len() && (#[trigger] facts[i]).ann.conf.contains(x),
        support::ann_of(facts).prov.contains(x) <==> exists|i: int|
            0 <= i < facts.len() && (#[trigger] facts[i]).ann.prov.contains(x),
        sorted::ordered(support::ann_of(facts).prov),
    decreases facts.len(),
{
    if facts.len() > 0 {
        let fewer = facts.drop_last();
        let n = facts.len() - 1;
        row_has_what_its_support_has(fewer, x);
        let before = support::ann_of(fewer);
        policy_laws::lemma_joined(before.conf, facts[n].ann.conf, x);
        sorted::lemma_placed_all(before.prov, facts[n].ann.prov);
        assert forall|i: int| 0 <= i < n implies fewer[i] == #[trigger] facts[i] by {}
        if exists|i: int| 0 <= i < fewer.len() && (#[trigger] fewer[i]).ann.conf.contains(x) {
            let i = choose|i: int|
                0 <= i < fewer.len() && (#[trigger] fewer[i]).ann.conf.contains(x);
            assert(facts[i].ann.conf.contains(x));
        }
        if exists|i: int| 0 <= i < fewer.len() && (#[trigger] fewer[i]).ann.prov.contains(x) {
            let i = choose|i: int|
                0 <= i < fewer.len() && (#[trigger] fewer[i]).ann.prov.contains(x);
            assert(facts[i].ann.prov.contains(x));
        }
        if exists|i: int| 0 <= i < facts.len() && (#[trigger] facts[i]).ann.conf.contains(x) {
            let i = choose|i: int|
                0 <= i < facts.len() && (#[trigger] facts[i]).ann.conf.contains(x);
            if i < n {
                assert(fewer[i].ann.conf.contains(x));
            }
        }
        if exists|i: int| 0 <= i < facts.len() && (#[trigger] facts[i]).ann.prov.contains(x) {
            let i = choose|i: int|
                0 <= i < facts.len() && (#[trigger] facts[i]).ann.prov.contains(x);
            if i < n {
                assert(fewer[i].ann.prov.contains(x));
            }
        }
    } else {
        assert(support::ann_of(facts) == (AnnView { conf: seq![], prov: seq![] }));
    }
}

/// A row as it is told: its relation, and its values in brackets.
pub open spec fn told(pred: Seq<char>, key: Seq<ValueView>) -> Seq<char> {
    pred + seq!['('] + text::join(
        key.map_values(
            |value: ValueView|
                match value {
                    ValueView::Symbol(name) => name,
                    ValueView::Integer(_) => search::shown(value),
                },
        ),
        seq![',', ' '],
    ) + seq![')']
}

pub proof fn lemma_told(pred: Seq<char>, key: Seq<ValueView>)
    ensures
        query::row_shown(pred, key) == told(pred, key),
{
    reveal_strlit("(");
    reveal_strlit(")");
    reveal_strlit(", ");
    assert("("@ =~= seq!['(']);
    assert(")"@ =~= seq![')']);
    assert(", "@ =~= seq![',', ' ']);
    assert(key.map_values(|value: ValueView| search::shown(value)) =~= key.map_values(
        |value: ValueView|
            match value {
                ValueView::Symbol(name) => name,
                ValueView::Integer(_) => search::shown(value),
            },
    ));
}

/// The line of a fact in an explanation: an arrow, the fact, and all its references in brackets.
pub open spec fn line_of(fact: FactView) -> Seq<char> {
    "  <- "@ + told(fact.pred, fact.key) + " ["@ + text::join(fact.ann.prov, ", "@) + "]\n"@
}

proof fn lemma_lines(facts: Seq<FactView>)
    ensures
        query::support_lines(facts) == facts.map_values(|fact: FactView| line_of(fact)).flatten(),
    decreases facts.len(),
{
    let lines = facts.map_values(|fact: FactView| line_of(fact));
    lines.lemma_flatten_and_flatten_alt_are_equivalent();
    if facts.len() > 0 {
        let fewer = facts.drop_last();
        let less = fewer.map_values(|fact: FactView| line_of(fact));
        lemma_lines(fewer);
        less.lemma_flatten_and_flatten_alt_are_equivalent();
        assert(lines.drop_last() =~= less);
        lemma_told(facts.last().pred, facts.last().key);
        assert(lines.last() == line_of(facts.last()));
    } else {
        assert(lines =~= seq![]);
        assert(query::support_lines(facts) =~= lines.flatten());
    }
}

/// A row that rests on facts is explained by the row and, below it, one line for each of these facts,
/// with all their references, in the order of the store.
pub proof fn explanation_shows_all_support(
    store: EngineView,
    rules: Seq<RuleView>,
    pred: Seq<char>,
    key: Seq<ValueView>,
)
    ensures
        ({
            let found = store.facts.filter(
                |fact: FactView|
                    support::rests_on(
                        store,
                        defaults::all_rules(rules),
                        RowView { pred, key },
                        RowView { pred: fact.pred, key: fact.key },
                    ),
            );
            found.len() > 0 ==> query::explained(store, rules, pred, key) == told(pred, key) + seq![
                '\n',
            ] + found.map_values(|fact: FactView| line_of(fact)).flatten()
        }),
{
    let row = RowView { pred, key };
    let all = defaults::all_rules(rules);
    support_is_all_that_a_row_rests_on(store, all, store.facts, row);
    lemma_told(pred, key);
    let found = rows::row_support(store, rules, pred, key);
    lemma_lines(found);
    reveal_strlit("\n");
    assert("\n"@ =~= seq!['\n']);
    if found.len() > 0 {
        assert(query::explained(store, rules, pred, key) =~= told(pred, key) + seq!['\n']
            + found.map_values(|fact: FactView| line_of(fact)).flatten());
    }
}

/// Each reference of each fact that a row rests on stands in the explanation of the row.
pub proof fn explanation_holds_each_reference(
    store: EngineView,
    rules: Seq<RuleView>,
    pred: Seq<char>,
    key: Seq<ValueView>,
    i: int,
    j: int,
)
    requires
        0 <= i < store.facts.len(),
        support::rests_on(
            store,
            defaults::all_rules(rules),
            RowView { pred, key },
            RowView { pred: store.facts[i].pred, key: store.facts[i].key },
        ),
        0 <= j < store.facts[i].ann.prov.len(),
    ensures
        text::contains_text(
            query::explained(store, rules, pred, key),
            store.facts[i].ann.prov[j],
        ),
        text::contains_text(
            query::explained(store, rules, pred, key),
            told(store.facts[i].pred, store.facts[i].key),
        ),
{
    let fact = store.facts[i];
    let row = RowView { pred, key };
    let all = defaults::all_rules(rules);
    let found = support::supporting(store, all, store.facts, row);
    lemma_found(store, all, store.facts, row, i);
    let n = choose|n: int| 0 <= n < found.len() && found[n] == fact;
    let list = text::join(fact.ann.prov, ", "@);
    let line = query::support_line(fact);
    lemma_told(fact.pred, fact.key);
    row_laws::parts_stand_in_their_join(fact.ann.prov, ", "@, j);
    let head = "  <- "@ + query::row_shown(fact.pred, fact.key) + " ["@;
    assert(line =~= head + list + "]\n"@);
    text_laws::lemma_contained_in(head, list, "]\n"@, fact.ann.prov[j]);
    let tail = " ["@ + list + "]\n"@;
    assert(line =~= "  <- "@ + told(fact.pred, fact.key) + tail);
    text_laws::lemma_contained("  <- "@, told(fact.pred, fact.key), tail);
    lemma_line_in(found, n, fact.ann.prov[j]);
    lemma_line_in(found, n, told(fact.pred, fact.key));
    let lines = query::support_lines(found);
    let top = query::row_shown(pred, key) + "\n"@;
    let none = Seq::<char>::empty();
    assert(query::explained(store, rules, pred, key) =~= top + lines + none);
    text_laws::lemma_contained_in(top, lines, none, fact.ann.prov[j]);
    text_laws::lemma_contained_in(top, lines, none, told(fact.pred, fact.key));
}

proof fn lemma_found(
    store: EngineView,
    rules: Seq<RuleView>,
    facts: Seq<FactView>,
    row: RowView,
    i: int,
)
    requires
        0 <= i < facts.len(),
        support::rests_on(
            store,
            rules,
            row,
            RowView { pred: facts[i].pred, key: facts[i].key },
        ),
    ensures
        support::supporting(store, rules, facts, row).contains(facts[i]),
    decreases facts.len(),
{
    let fewer = facts.drop_last();
    let found = support::supporting(store, rules, facts, row);
    let less = support::supporting(store, rules, fewer, row);
    if i < fewer.len() {
        assert(fewer[i] == facts[i]);
        lemma_found(store, rules, fewer, row, i);
        let k = choose|k: int| 0 <= k < less.len() && less[k] == facts[i];
        assert(found[k] == facts[i]);
    } else {
        assert(found[found.len() - 1] == facts[i]);
    }
}

proof fn lemma_line_in(facts: Seq<FactView>, n: int, part: Seq<char>)
    requires
        0 <= n < facts.len(),
        text::contains_text(query::support_line(facts[n]), part),
    ensures
        text::contains_text(query::support_lines(facts), part),
    decreases facts.len(),
{
    let fewer = facts.drop_last();
    let rest = query::support_lines(fewer);
    let last = query::support_line(facts.last());
    let none = Seq::<char>::empty();
    if n < fewer.len() {
        assert(fewer[n] == facts[n]);
        lemma_line_in(fewer, n, part);
        assert(query::support_lines(facts) =~= none + rest + last);
        text_laws::lemma_contained_in(none, rest, last, part);
    } else {
        assert(query::support_lines(facts) =~= rest + last + none);
        text_laws::lemma_contained_in(rest, last, none, part);
    }
}

/// Only an atom without variables, whose symbols are known, is explained; of another one it is said
/// that it contains variables.
pub proof fn variables_are_not_explained(
    store: EngineView,
    rules: Seq<RuleView>,
    fact: Seq<char>,
    i: int,
)
    requires
        clause::read_goal(fact) is Some,
        0 <= i < (clause::read_goal(fact)->0).args.len(),
        (clause::read_goal(fact)->0).args[i] is Var,
    ensures
        query::why_text(store, rules, fact) == "why: "@ + fact + " contains variables"@,
{
    let atom = clause::read_goal(fact)->0;
    assert(!engine::grounded(store.names, atom.args[i]));
}

/// An atom without variables, whose symbols are known, is explained as the row that it writes.
pub proof fn stated_atom_is_explained(
    store: EngineView,
    rules: Seq<RuleView>,
    fact: Seq<char>,
    key: Seq<ValueView>,
)
    requires
        clause::read_goal(fact) is Some,
        key.len() == (clause::read_goal(fact)->0).args.len(),
        forall|i: int|
            0 <= i < key.len() ==> match #[trigger] key[i] {
                ValueView::Symbol(name) => store.names.contains(name) && (clause::read_goal(
                    fact,
                )->0).args[i] == TermView::Sym(name),
                ValueView::Integer(n) => (clause::read_goal(fact)->0).args[i] == TermView::Int(n),
            },
    ensures
        query::why_text(store, rules, fact) == query::explained(
            store,
            rules,
            (clause::read_goal(fact)->0).pred,
            key,
        ),
{
    let atom = clause::read_goal(fact)->0;
    let written = atom.args.map_values(|term: TermView| engine::ground(term));
    assert forall|i: int| 0 <= i < atom.args.len() implies engine::grounded(
        store.names,
        #[trigger] atom.args[i],
    ) && written[i] == key[i] by {
        assert(key[i] == key[i]);
        match key[i] {
            ValueView::Symbol(_) => {},
            ValueView::Integer(_) => {},
        }
    }
    assert(written =~= key);
}

} // verus!
