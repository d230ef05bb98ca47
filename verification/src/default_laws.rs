//! The relations that the store derives by itself are those that the default rules define.

use vstd::prelude::*;

use crate::datalog;
use crate::datalog::{BindingView, RowView};
use crate::defaults;
use crate::engine;
use crate::engine::{FactView, TermView};
use crate::search;
use crate::snapshot::ValueView;

verus! {

/// The names of the variables are different, and no name is given twice in a list of terms.
pub open spec fn fresh(terms: Seq<TermView>) -> bool {
    &&& forall|i: int| 0 <= i < terms.len() ==> (#[trigger] terms[i]) is Var
    &&& forall|i: int, j: int|
        0 <= i < j < terms.len() ==> #[trigger] terms[i] != #[trigger] terms[j] || terms[i]
            == TermView::Var("_"@)
}

/// The value that a variable stands for after fresh terms were given the values of a key.
pub open spec fn value_at(terms: Seq<TermView>, key: Seq<ValueView>, name: Seq<char>) -> Option<
    ValueView,
>
    decreases terms.len(),
{
    if terms.len() == 0 || name == "_"@ {
        None
    } else if terms.last() == TermView::Var(name) {
        Some(key.last())
    } else {
        value_at(terms.drop_last(), key.drop_last(), name)
    }
}

/// A variable that stands in no term is given no value.
proof fn lemma_absent(terms: Seq<TermView>, key: Seq<ValueView>, name: Seq<char>)
    requires
        forall|i: int| 0 <= i < terms.len() ==> #[trigger] terms[i] != TermView::Var(name),
    ensures
        value_at(terms, key, name) is None,
    decreases terms.len(),
{
    if terms.len() > 0 {
        let fewer = terms.drop_last();
        assert forall|i: int| 0 <= i < fewer.len() implies #[trigger] fewer[i] != TermView::Var(
            name,
        ) by {
            assert(fewer[i] == terms[i]);
        }
        assert(terms[terms.len() - 1] != TermView::Var(name));
        lemma_absent(fewer, key.drop_last(), name);
    }
}

/// Fresh terms can stand for every key of as many values, and each variable then stands for the
/// value in its place.
proof fn lemma_fresh(terms: Seq<TermView>, key: Seq<ValueView>)
    requires
        fresh(terms),
        terms.len() == key.len(),
    ensures
        datalog::with_terms(seq![], terms, key) is Some,
        forall|name: Seq<char>|
            #[trigger] datalog::bound(datalog::with_terms(seq![], terms, key)->0, name)
                == value_at(terms, key, name),
    decreases terms.len(),
{
    if terms.len() > 0 {
        let fewer = terms.drop_last();
        let rest = key.drop_last();
        assert(fresh(fewer)) by {
            assert forall|i: int| 0 <= i < fewer.len() implies (#[trigger] fewer[i]) is Var by {
                assert(fewer[i] == terms[i]);
            }
            assert forall|i: int, j: int| 0 <= i < j < fewer.len() implies #[trigger] fewer[i]
                != #[trigger] fewer[j] || fewer[i] == TermView::Var("_"@) by {
                assert(fewer[i] == terms[i] && fewer[j] == terms[j]);
            }
        }
        lemma_fresh(fewer, rest);
        let before = datalog::with_terms(seq![], fewer, rest)->0;
        let after = datalog::with_terms(seq![], terms, key);
        assert(terms[terms.len() - 1] is Var);
        if let TermView::Var(last) = terms.last() {
            if last != "_"@ {
                assert forall|i: int| 0 <= i < fewer.len() implies #[trigger] fewer[i]
                    != TermView::Var(last) by {
                    assert(fewer[i] == terms[i]);
                    assert(terms[i] != terms[terms.len() - 1] || terms[i] == TermView::Var("_"@));
                }
                lemma_absent(fewer, rest, last);
                assert(datalog::bound(before, last) is None);
                let entry = BindingView { name: last, value: key.last() };
                assert(after == Some(before.push(entry)));
                assert forall|name: Seq<char>| #[trigger] datalog::bound(after->0, name)
                    == value_at(terms, key, name) by {
                    assert(before.push(entry).drop_last() =~= before);
                    assert(before.push(entry).last() == entry);
                    assert(datalog::bound(before, name) == value_at(fewer, rest, name));
                }
            } else {
                assert(after == Some(before));
            }
        }
    }
}

/// What a projection gives of a fact at a time: its head where the fact holds then.
proof fn lemma_projection(
    relation: Seq<char>,
    head: Seq<TermView>,
    base: Seq<char>,
    terms: Seq<TermView>,
    key: Seq<ValueView>,
    now: int,
    row: RowView,
)
    requires
        fresh(terms),
        forall|i: int| 0 <= i < terms.len() ==> #[trigger] terms[i] != TermView::Var("T"@),
    ensures
        datalog::derives(
            defaults::projection(relation, head, base, terms),
            seq![key, seq![ValueView::Integer(now)]],
            row,
        ) <==> {
            &&& terms.len() == key.len()
            &&& row.pred == relation
            &&& value_at(terms, key, "VF"@) matches Some(ValueView::Integer(from)) && from <= now
            &&& value_at(terms, key, "VT"@) matches Some(ValueView::Integer(to)) && now < to
            &&& datalog::values_of(
                datalog::with_terms(seq![], terms, key)->0.push(
                    BindingView { name: "T"@, value: ValueView::Integer(now) },
                ),
                head,
            ) == Some(row.key)
        },
{
    let rule = defaults::projection(relation, head, base, terms);
    let keys = seq![key, seq![ValueView::Integer(now)]];
    let first = rule.body.drop_last();
    assert(first =~= seq![rule.body[0]]);
    assert(keys.drop_last() =~= seq![key]);
    assert(first.drop_last() =~= seq![]);
    assert(seq![key].drop_last() =~= seq![]);
    reveal_with_fuel(datalog::bound_all, 3);
    reveal_strlit("T");
    reveal_strlit("_");
    reveal_strlit("VF");
    reveal_strlit("VT");
    assert("T"@ != "_"@ && "VF"@ != "T"@ && "VT"@ != "T"@) by {
        assert("T"@[0] != "_"@[0]);
        assert("VF"@.len() != "T"@.len());
        assert("VT"@.len() != "T"@.len());
    }
    if terms.len() == key.len() {
        lemma_fresh(terms, key);
        lemma_absent(terms, key, "T"@);
        let before = datalog::with_terms(seq![], terms, key)->0;
        let entry = BindingView { name: "T"@, value: ValueView::Integer(now) };
        let after = before.push(entry);
        assert(datalog::bound(before, "T"@) is None);
        let last = seq![TermView::Var("T"@)];
        let time = seq![ValueView::Integer(now)];
        assert(last.drop_last() =~= seq![]);
        assert(time.drop_last() =~= seq![]);
        reveal_with_fuel(datalog::with_terms, 2);
        assert(datalog::with_terms(before, last, time) == Some(after));
        assert(datalog::bound_all(rule.body, keys) == Some(after));
        assert(after.drop_last() =~= before);
        assert(after.last() == entry);
        assert(datalog::bound(after, "T"@) == Some(ValueView::Integer(now)));
        assert(datalog::bound(before, "VF"@) == value_at(terms, key, "VF"@));
        assert(datalog::bound(before, "VT"@) == value_at(terms, key, "VT"@));
        assert(datalog::bound(after, "VF"@) == value_at(terms, key, "VF"@));
        assert(datalog::bound(after, "VT"@) == value_at(terms, key, "VT"@));
        let guards = rule.guards;
        assert(datalog::guards_hold(after, guards) <==> datalog::guard_holds(after, guards[0])
            && datalog::guard_holds(after, guards[1]));
        assert(!rule.is_fact());
    } else {
        assert(datalog::bound_all(rule.body, keys) is None);
    }
}

/// The names of the variables of the default rules are different.
proof fn lemma_names()
    ensures
        "E"@ != "R"@ && "E"@ != "O"@ && "E"@ != "S"@ && "E"@ != "T"@ && "E"@ != "_"@,
        "R"@ != "O"@ && "R"@ != "S"@ && "R"@ != "T"@ && "R"@ != "_"@,
        "O"@ != "S"@ && "O"@ != "T"@ && "O"@ != "_"@,
        "S"@ != "T"@ && "S"@ != "_"@ && "T"@ != "_"@,
        "VF"@ != "VT"@,
        "VF"@.len() == 2 && "VT"@.len() == 2,
        "E"@.len() == 1 && "R"@.len() == 1 && "O"@.len() == 1 && "S"@.len() == 1,
        "T"@.len() == 1 && "_"@.len() == 1,
{
    reveal_strlit("E");
    reveal_strlit("R");
    reveal_strlit("O");
    reveal_strlit("S");
    reveal_strlit("T");
    reveal_strlit("_");
    reveal_strlit("VF");
    reveal_strlit("VT");
    assert("E"@[0] == 'E' && "R"@[0] == 'R' && "O"@[0] == 'O' && "S"@[0] == 'S');
    assert("T"@[0] == 'T' && "_"@[0] == '_');
    assert("VF"@[1] == 'F' && "VT"@[1] == 'T');
}

/// The value of a variable stands where the variable does.
proof fn lemma_value_at(terms: Seq<TermView>, key: Seq<ValueView>, i: int)
    requires
        fresh(terms),
        terms.len() == key.len(),
        0 <= i < terms.len(),
        terms[i] != TermView::Var("_"@),
    ensures
        terms[i] matches TermView::Var(name) ==> value_at(terms, key, name) == Some(key[i]),
    decreases terms.len(),
{
    let fewer = terms.drop_last();
    assert(terms[i] is Var);
    if i < fewer.len() {
        assert(fresh(fewer)) by {
            assert forall|i: int| 0 <= i < fewer.len() implies (#[trigger] fewer[i]) is Var by {
                assert(fewer[i] == terms[i]);
            }
            assert forall|i: int, j: int| 0 <= i < j < fewer.len() implies #[trigger] fewer[i]
                != #[trigger] fewer[j] || fewer[i] == TermView::Var("_"@) by {
                assert(fewer[i] == terms[i] && fewer[j] == terms[j]);
            }
        }
        assert(fewer[i] == terms[i]);
        lemma_value_at(fewer, key.drop_last(), i);
        assert(terms[i] != terms[terms.len() - 1]);
    }
}

/// Variables that stand for the values of a key stand for that key.
proof fn lemma_values(bindings: Seq<BindingView>, terms: Seq<TermView>, key: Seq<ValueView>)
    requires
        terms.len() == key.len(),
        forall|i: int|
            0 <= i < terms.len() ==> datalog::term_value(bindings, #[trigger] terms[i]) == Some(
                key[i],
            ),
    ensures
        datalog::values_of(bindings, terms) == Some(key),
    decreases terms.len(),
{
    if terms.len() > 0 {
        let fewer = terms.drop_last();
        assert forall|i: int| 0 <= i < fewer.len() implies datalog::term_value(
            bindings,
            #[trigger] fewer[i],
        ) == Some(key.drop_last()[i]) by {
            assert(fewer[i] == terms[i]);
        }
        assert(datalog::term_value(bindings, terms[terms.len() - 1]) == Some(key.last()));
        lemma_values(bindings, fewer, key.drop_last());
        assert(key.drop_last().push(key.last()) =~= key);
    } else {
        assert(key =~= seq![]);
    }
}

/// A projection gives the values of a fact that stand where the terms of its head do.
proof fn lemma_projected(
    relation: Seq<char>,
    base: Seq<char>,
    prefix: Seq<TermView>,
    start: int,
    key: Seq<ValueView>,
    now: int,
    row: RowView,
)
    requires
        prefix == seq![TermView::Var("_"@)] && start == 1 || prefix == seq![TermView::Var("S"@)]
            && start == 0 || prefix == Seq::<TermView>::empty() && start == 0,
    ensures
        ({
            let terms = prefix + defaults::triple() + defaults::times();
            let n = prefix.len() as int;
            datalog::derives(
                defaults::projection(relation, terms.subrange(start, n + 3), base, terms),
                seq![key, seq![ValueView::Integer(now)]],
                row,
            ) <==> key.len() == n + 6 && row.pred == relation && search::valid_at(
                key,
                n + 3,
                n + 4,
                now,
            ) && row.key == key.subrange(start, n + 3)
        }),
{
    let terms = prefix + defaults::triple() + defaults::times();
    let n = prefix.len() as int;
    let head = terms.subrange(start, n + 3);
    lemma_names();
    assert(fresh(terms)) by {
        assert forall|i: int, j: int| 0 <= i < j < terms.len() implies #[trigger] terms[i]
            != #[trigger] terms[j] || terms[i] == TermView::Var("_"@) by {}
    }
    lemma_projection(relation, head, base, terms, key, now, row);
    if key.len() == terms.len() {
        lemma_fresh(terms, key);
        let before = datalog::with_terms(seq![], terms, key)->0;
        let entry = BindingView { name: "T"@, value: ValueView::Integer(now) };
        let after = before.push(entry);
        assert(after.drop_last() =~= before);
        assert(terms[n + 3] == TermView::Var("VF"@));
        assert(terms[n + 4] == TermView::Var("VT"@));
        lemma_value_at(terms, key, n + 3);
        lemma_value_at(terms, key, n + 4);
        let part = key.subrange(start, n + 3);
        assert forall|i: int| 0 <= i < head.len() implies datalog::term_value(
            after,
            #[trigger] head[i],
        ) == Some(part[i]) by {
            assert(head[i] == terms[start + i]);
            assert(part[i] == key[start + i]);
            lemma_value_at(terms, key, start + i);
            if let TermView::Var(name) = head[i] {
                assert(name != "T"@);
                assert(datalog::bound(before, name) == value_at(terms, key, name));
                assert(datalog::bound(after, name) == datalog::bound(before, name));
            }
        }
        lemma_values(after, head, part);
    }
}

/// What the store derives of a fact is what the default rules give of it and of the time: the
/// relation `current` of `edge` and of `scoped_edge`, and the relation `scoped_current` of
/// `scoped_edge`.
pub proof fn store_follows_the_default_rules(fact: FactView, now: int, key: Seq<ValueView>)
    ensures
        ({
            let keys = seq![fact.key, seq![ValueView::Integer(now)]];
            &&& fact.pred == "edge"@ ==> (engine::given(fact, now, "current"@) == Some(key)
                <==> datalog::derives(
                defaults::current_of_edges(),
                keys,
                RowView { pred: "current"@, key },
            ))
            &&& fact.pred == "scoped_edge"@ ==> (engine::given(fact, now, "current"@) == Some(key)
                <==> datalog::derives(
                defaults::current_of_scoped_edges(),
                keys,
                RowView { pred: "current"@, key },
            ))
            &&& fact.pred == "scoped_edge"@ ==> (engine::given(fact, now, "scoped_current"@)
                == Some(key) <==> datalog::derives(
                defaults::scoped_current(),
                keys,
                RowView { pred: "scoped_current"@, key },
            ))
        }),
{
    reveal_strlit("edge");
    reveal_strlit("scoped_edge");
    reveal_strlit("current");
    reveal_strlit("scoped_current");
    assert("edge"@.len() == 4 && "scoped_edge"@.len() == 11);
    assert("current"@.len() == 7 && "scoped_current"@.len() == 14);
    let none = Seq::<TermView>::empty();
    let any = seq![TermView::Var("_"@)];
    let scope = seq![TermView::Var("S"@)];
    let row = RowView { pred: "current"@, key };
    lemma_projected("current"@, "edge"@, none, 0, fact.key, now, row);
    assert(none + defaults::triple() + defaults::times() =~= defaults::triple() + defaults::times());
    assert((none + defaults::triple() + defaults::times()).subrange(0, 3) =~= defaults::triple());
    lemma_projected("current"@, "scoped_edge"@, any, 1, fact.key, now, row);
    assert((any + defaults::triple() + defaults::times()).subrange(1, 4) =~= defaults::triple());
    let scoped = RowView { pred: "scoped_current"@, key };
    lemma_projected("scoped_current"@, "scoped_edge"@, scope, 0, fact.key, now, scoped);
    assert((scope + defaults::triple() + defaults::times()).subrange(0, 4) =~= scope + defaults::triple());
    if fact.key.len() == 6 {
        assert(fact.key.take(3) =~= fact.key.subrange(0, 3));
    }
    if fact.key.len() == 7 {
        assert(fact.key.take(4) =~= fact.key.subrange(0, 4));
    }
}

} // verus!
