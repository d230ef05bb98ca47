//! What a goal is answered with, and what a rule gives.

use vstd::prelude::*;

use crate::clause;
use crate::clause::{AtomView, Comparison, RuleView};
use crate::datalog;
use crate::datalog::{BindingView, RowView};
use crate::defaults;
use crate::engine;
use crate::engine::{EngineView, TermView};
use crate::grammar_laws;
use crate::query;
use crate::row_laws;
use crate::search;
use crate::snapshot::ValueView;
use crate::text;
use crate::update_laws;

verus! {

/// Whether values are such as terms ask for: each symbol and each integer stands for itself, and a
/// variable has one value wherever it stands.
pub open spec fn agree(terms: Seq<TermView>, key: Seq<ValueView>) -> bool {
    &&& terms.len() == key.len()
    &&& forall|i: int|
        0 <= i < terms.len() ==> match #[trigger] terms[i] {
            TermView::Sym(name) => key[i] == ValueView::Symbol(name),
            TermView::Int(n) => key[i] == ValueView::Integer(n),
            TermView::Var(_) => true,
        }
    &&& forall|i: int, j: int|
        0 <= i < j < terms.len() && (#[trigger] terms[i]) == (#[trigger] terms[j]) && terms[i] is Var
            && terms[i]->Var_0 != seq!['_'] ==> key[i] == key[j]
}

proof fn lemma_low_line()
    ensures
        "_"@ == seq!['_'],
{
    reveal_strlit("_");
    assert("_"@ =~= seq!['_']);
}

proof fn lemma_bound_push(bindings: Seq<BindingView>, binding: BindingView, name: Seq<char>)
    ensures
        datalog::bound(bindings.push(binding), name) == if binding.name == name {
            Some(binding.value)
        } else {
            datalog::bound(bindings, name)
        },
{
    assert(bindings.push(binding).drop_last() =~= bindings);
}

/// Terms take on the values of a key exactly where they agree with it, and then each variable has
/// the value that stands in its place, and no other name has one.
pub proof fn terms_take_on_what_agrees(terms: Seq<TermView>, key: Seq<ValueView>)
    ensures
        datalog::with_terms(seq![], terms, key) is Some <==> agree(terms, key),
        datalog::with_terms(seq![], terms, key) matches Some(bindings) ==> {
            &&& forall|i: int|
                0 <= i < terms.len() && (#[trigger] terms[i]) is Var && terms[i]->Var_0 != seq!['_']
                    ==> datalog::bound(bindings, terms[i]->Var_0) == Some(key[i])
            &&& forall|name: Seq<char>|
                (name == seq!['_'] || !terms.contains(TermView::Var(name))) ==> #[trigger]
                    datalog::bound(bindings, name) is None
        },
    decreases terms.len(),
{
    lemma_low_line();
    if terms.len() == key.len() && terms.len() > 0 {
        let fewer = terms.drop_last();
        let less = key.drop_last();
        let n = terms.len() - 1;
        let term = terms[n];
        let value = key[n];
        terms_take_on_what_agrees(fewer, less);
        assert forall|i: int| 0 <= i < fewer.len() implies fewer[i] == terms[i] && less[i]
            == key[i] by {}
        assert(agree(terms, key) ==> agree(fewer, less)) by {
            if agree(terms, key) {
                assert forall|i: int| 0 <= i < fewer.len() implies match #[trigger] fewer[i] {
                    TermView::Sym(name) => less[i] == ValueView::Symbol(name),
                    TermView::Int(m) => less[i] == ValueView::Integer(m),
                    TermView::Var(_) => true,
                } by {
                    assert(terms[i] == fewer[i]);
                }
                assert forall|i: int, j: int|
                    0 <= i < j < fewer.len() && (#[trigger] fewer[i]) == (#[trigger] fewer[j])
                        && fewer[i] is Var && fewer[i]->Var_0 != seq!['_'] implies less[i]
                    == less[j] by {
                    assert(terms[i] == terms[j]);
                }
            }
        }
        match datalog::with_terms(seq![], fewer, less) {
            None => {},
            Some(before) => {
                if let TermView::Var(name) = term {
                    if name != seq!['_'] {
                        if fewer.contains(term) {
                            let i = choose|i: int| 0 <= i < fewer.len() && fewer[i] == term;
                            assert(datalog::bound(before, fewer[i]->Var_0) == Some(less[i]));
                            assert(terms[i] == terms[n]);
                        } else {
                            assert(datalog::bound(before, name) is None);
                        }
                    }
                }
                if let Some(after) = datalog::with_terms(seq![], terms, key) {
                    assert forall|i: int|
                        0 <= i < terms.len() && (#[trigger] terms[i]) is Var && terms[i]->Var_0
                            != seq!['_'] implies datalog::bound(after, terms[i]->Var_0) == Some(
                        key[i],
                    ) by {
                        let name = terms[i]->Var_0;
                        lemma_bound_push(
                            before,
                            BindingView { name: term->Var_0, value },
                            name,
                        );
                        if i < n {
                            assert(fewer[i] == terms[i]);
                            assert(datalog::bound(before, fewer[i]->Var_0) == Some(less[i]));
                        }
                    }
                    assert forall|name: Seq<char>|
                        (name == seq!['_'] || !terms.contains(TermView::Var(name))) implies
                        #[trigger] datalog::bound(after, name) is None by {
                        lemma_bound_push(
                            before,
                            BindingView { name: term->Var_0, value },
                            name,
                        );
                        assert(terms.contains(terms[n]));
                        if fewer.contains(TermView::Var(name)) {
                            let i = choose|i: int|
                                0 <= i < fewer.len() && fewer[i] == TermView::Var(name);
                            assert(terms[i] == TermView::Var(name));
                        }
                        assert(datalog::bound(before, name) is None);
                    }
                    assert(agree(terms, key)) by {
                        assert forall|i: int| 0 <= i < terms.len() implies match #[trigger] terms[i] {
                            TermView::Sym(name) => key[i] == ValueView::Symbol(name),
                            TermView::Int(m) => key[i] == ValueView::Integer(m),
                            TermView::Var(_) => true,
                        } by {
                            if i < n {
                                assert(fewer[i] == terms[i]);
                            }
                        }
                        assert forall|i: int, j: int|
                            0 <= i < j < terms.len() && (#[trigger] terms[i])
                                == (#[trigger] terms[j]) && terms[i] is Var && terms[i]->Var_0
                                != seq!['_'] implies key[i] == key[j] by {
                            assert(datalog::bound(after, terms[i]->Var_0) == Some(key[i]));
                            assert(datalog::bound(after, terms[j]->Var_0) == Some(key[j]));
                        }
                    }
                }
            },
        }
    } else if terms.len() == 0 && key.len() == 0 {
        assert(datalog::with_terms(seq![], terms, key) == Some(Seq::<BindingView>::empty()));
    }
}

/// A goal is answered by the rows of its relation that hold and agree with its terms, and by
/// nothing else.
pub proof fn answers_come_from_rows_that_agree(
    store: EngineView,
    rules: Seq<RuleView>,
    goal: AtomView,
    answer: Seq<char>,
)
    requires
        query::is_answer(store, rules, goal, answer),
    ensures
        exists|key: Seq<ValueView>| #[trigger]
            agree(goal.args, key) && datalog::holds(store, rules, RowView { pred: goal.pred, key }),
{
    let key = choose|key: Seq<ValueView>|
        datalog::holds(store, rules, RowView { pred: goal.pred, key }) && #[trigger]
            query::key_answers(key, goal.args, answer);
    terms_take_on_what_agrees(goal.args, key);
    assert(agree(goal.args, key));
}

/// Each row of the relation of a goal that holds and agrees with the terms of the goal answers it.
pub proof fn rows_that_agree_answer(
    store: EngineView,
    rules: Seq<RuleView>,
    goal: AtomView,
    key: Seq<ValueView>,
)
    requires
        agree(goal.args, key),
        datalog::holds(store, rules, RowView { pred: goal.pred, key }),
    ensures
        exists|answer: Seq<char>|
            query::is_answer(store, rules, goal, answer) && #[trigger] query::key_answers(
                key,
                goal.args,
                answer,
            ),
{
    terms_take_on_what_agrees(goal.args, key);
    let bindings = datalog::with_terms(seq![], goal.args, key)->0;
    let answer = query::answer_text(bindings, goal.args);
    assert(query::key_answers(key, goal.args, answer));
    assert(query::is_answer(store, rules, goal, answer));
}

/// A goal whose first argument is a quoted name is answered by rows with exactly that name first,
/// and it gives no variable a value for it: the answer is the one of the other arguments.
pub proof fn quoted_name_is_asked_for_exactly(
    store: EngineView,
    rules: Seq<RuleView>,
    pred: Seq<char>,
    w: Seq<char>,
    others: Seq<TermView>,
    answer: Seq<char>,
)
    requires
        !w.contains('"'),
        grammar_laws::bare(pred),
        forall|i: int|
            0 <= i < others.len() ==> grammar_laws::can_be_written(#[trigger] others[i]),
    ensures
        ({
            let goal = AtomView { pred, args: seq![TermView::Sym(w)] + others };
            let rest = if others.len() == 0 {
                seq![]
            } else {
                ", "@ + text::join(grammar_laws::all_written(others), ", "@)
            };
            &&& clause::read_goal(pred + seq!['(', '"'] + w + seq!['"'] + rest + seq![')']) == Some(
                goal,
            )
            &&& query::is_answer(store, rules, goal, answer) ==> exists|key: Seq<ValueView>|
                datalog::holds(store, rules, RowView { pred, key }) && #[trigger] agree(
                    seq![TermView::Sym(w)] + others,
                    key,
                ) && key[0] == ValueView::Symbol(w)
        }),
{
    let goal = AtomView { pred, args: seq![TermView::Sym(w)] + others };
    let rest = if others.len() == 0 {
        seq![]
    } else {
        ", "@ + text::join(grammar_laws::all_written(others), ", "@)
    };
    assert forall|i: int| 0 <= i < goal.args.len() implies grammar_laws::can_be_written(
        #[trigger] goal.args[i],
    ) by {
        if i > 0 {
            assert(goal.args[i] == others[i - 1]);
        }
    }
    grammar_laws::written_atom_is_read(goal);
    let texts = grammar_laws::all_written(goal.args);
    let quoted = seq!['"'] + w + seq!['"'];
    assert(texts[0] == quoted);
    assert(texts.drop_first() =~= grammar_laws::all_written(others));
    if others.len() > 0 {
        text::lemma_join_first(texts, ", "@);
    }
    assert(text::join(texts, ", "@) =~= quoted + rest);
    assert(grammar_laws::atom_written(goal) =~= pred + seq!['(', '"'] + w + seq!['"'] + rest
        + seq![')']);
    if query::is_answer(store, rules, goal, answer) {
        answers_come_from_rows_that_agree(store, rules, goal, answer);
        let key = choose|key: Seq<ValueView>| #[trigger]
            agree(goal.args, key) && datalog::holds(store, rules, RowView { pred, key });
        assert(goal.args[0] == TermView::Sym(w));
        assert(agree(seq![TermView::Sym(w)] + others, key));
    }
}

/// What is told of the terms: the values of the variables.
proof fn lemma_told(bindings: Seq<BindingView>, terms: Seq<TermView>, x: Seq<char>)
    ensures
        query::told_terms(bindings, terms).contains(x) <==> exists|i: int|
            0 <= i < terms.len() && (#[trigger] terms[i]) is Var && datalog::bound(
                bindings,
                terms[i]->Var_0,
            ) is Some && x == terms[i]->Var_0 + "="@ + search::shown(
                datalog::bound(bindings, terms[i]->Var_0)->0,
            ),
    decreases terms.len(),
{
    if terms.len() > 0 {
        let fewer = terms.drop_last();
        let n = terms.len() - 1;
        let told = query::told_terms(bindings, fewer);
        lemma_told(bindings, fewer, x);
        if let TermView::Var(name) = terms[n] {
            if let Some(value) = datalog::bound(bindings, name) {
                datalog::lemma_push_holds(told, name + "="@ + search::shown(value), x);
            }
        }
        if query::told_terms(bindings, terms).contains(x) {
            if told.contains(x) {
                let i = choose|i: int|
                    0 <= i < fewer.len() && (#[trigger] fewer[i]) is Var && datalog::bound(
                        bindings,
                        fewer[i]->Var_0,
                    ) is Some && x == fewer[i]->Var_0 + "="@ + search::shown(
                        datalog::bound(bindings, fewer[i]->Var_0)->0,
                    );
                assert(terms[i] == fewer[i]);
            } else {
                assert(terms[n] is Var);
            }
        }
        if exists|i: int|
            0 <= i < terms.len() && (#[trigger] terms[i]) is Var && datalog::bound(
                bindings,
                terms[i]->Var_0,
            ) is Some && x == terms[i]->Var_0 + "="@ + search::shown(
                datalog::bound(bindings, terms[i]->Var_0)->0,
            ) {
            let i = choose|i: int|
                0 <= i < terms.len() && (#[trigger] terms[i]) is Var && datalog::bound(
                    bindings,
                    terms[i]->Var_0,
                ) is Some && x == terms[i]->Var_0 + "="@ + search::shown(
                    datalog::bound(bindings, terms[i]->Var_0)->0,
                );
            if i < n {
                assert(fewer[i] == terms[i]);
            }
        }
    }
}

/// An answer tells the value of each variable of the goal, as the row has it.
pub proof fn answer_tells_each_variable(
    goal: Seq<TermView>,
    key: Seq<ValueView>,
    answer: Seq<char>,
    i: int,
)
    requires
        query::key_answers(key, goal, answer),
        0 <= i < goal.len(),
        goal[i] is Var,
        goal[i]->Var_0 != seq!['_'],
    ensures
        text::contains_text(answer, goal[i]->Var_0 + seq!['='] + search::shown(key[i])),
{
    terms_take_on_what_agrees(goal, key);
    let bindings = datalog::with_terms(seq![], goal, key)->0;
    let told = query::told_terms(bindings, goal);
    reveal_strlit("=");
    assert("="@ =~= seq!['=']);
    let x = goal[i]->Var_0 + "="@ + search::shown(key[i]);
    assert(x == goal[i]->Var_0 + seq!['='] + search::shown(key[i]));
    lemma_told(bindings, goal, x);
    let n = choose|n: int| 0 <= n < told.len() && told[n] == x;
    row_laws::parts_stand_in_their_join(told, ", "@, n);
}

/// A goal that names no variable is answered with `true`.
pub proof fn answer_without_variables_is_true(
    goal: Seq<TermView>,
    key: Seq<ValueView>,
    answer: Seq<char>,
)
    requires
        query::key_answers(key, goal, answer),
        forall|i: int| 0 <= i < goal.len() && (#[trigger] goal[i]) is Var ==> goal[i]->Var_0 == seq![
            '_',
        ],
    ensures
        answer == seq!['t', 'r', 'u', 'e'],
{
    terms_take_on_what_agrees(goal, key);
    let bindings = datalog::with_terms(seq![], goal, key)->0;
    let told = query::told_terms(bindings, goal);
    if told.len() > 0 {
        lemma_told(bindings, goal, told[0]);
        assert(told.contains(told[0]));
    }
    reveal_strlit("true");
    assert("true"@ =~= seq!['t', 'r', 'u', 'e']);
}

proof fn lemma_told_same(a: Seq<BindingView>, b: Seq<BindingView>, terms: Seq<TermView>)
    requires
        forall|i: int|
            0 <= i < terms.len() && (#[trigger] terms[i]) is Var ==> datalog::bound(
                a,
                terms[i]->Var_0,
            ) == datalog::bound(b, terms[i]->Var_0),
    ensures
        query::told_terms(a, terms) == query::told_terms(b, terms),
    decreases terms.len(),
{
    if terms.len() > 0 {
        let fewer = terms.drop_last();
        assert forall|i: int| 0 <= i < fewer.len() && (#[trigger] fewer[i]) is Var implies
            datalog::bound(a, fewer[i]->Var_0) == datalog::bound(b, fewer[i]->Var_0) by {
            assert(fewer[i] == terms[i]);
        }
        lemma_told_same(a, b, fewer);
        assert(terms[terms.len() - 1] == terms.last());
    }
}

/// One more argument adds to an answer exactly where it is a variable that does not stand in the
/// goal before: its name, an equality sign and the value, behind a comma.
pub proof fn new_variable_is_told_behind_the_others(
    goal: Seq<TermView>,
    key: Seq<ValueView>,
    answer: Seq<char>,
    term: TermView,
    value: ValueView,
)
    requires
        query::key_answers(key, goal, answer),
        agree(goal.push(term), key.push(value)),
        forall|i: int| 0 <= i < goal.len() && (#[trigger] goal[i]) is Var ==> !goal[i]->Var_0.contains(
            '=',
        ),
        term is Var ==> !term->Var_0.contains('='),
    ensures
        ({
            let named = exists|i: int|
                0 <= i < goal.len() && (#[trigger] goal[i]) is Var && goal[i]->Var_0 != seq!['_'];
            let more = if term is Var && term->Var_0 != seq!['_'] && !goal.contains(term) {
                let own = term->Var_0 + seq!['='] + search::shown(value);
                if named {
                    answer + seq![',', ' '] + own
                } else {
                    own
                }
            } else {
                answer
            };
            query::key_answers(key.push(value), goal.push(term), more)
        }),
{
    terms_take_on_what_agrees(goal, key);
    terms_take_on_what_agrees(goal.push(term), key.push(value));
    let before = datalog::with_terms(seq![], goal, key)->0;
    let after = datalog::with_terms(seq![], goal.push(term), key.push(value))->0;
    let all = goal.push(term);
    assert(all.drop_last() =~= goal);
    assert(key.push(value).drop_last() =~= key);
    let told = query::told_terms(before, goal);
    lemma_low_line();
    reveal_strlit("=");
    reveal_strlit(", ");
    assert("="@ =~= seq!['=']);
    assert(", "@ =~= seq![',', ' ']);
    assert forall|i: int| 0 <= i < goal.len() && (#[trigger] goal[i]) is Var implies
        datalog::bound(before, goal[i]->Var_0) == datalog::bound(after, goal[i]->Var_0) by {
        assert(all[i] == goal[i]);
        if goal[i]->Var_0 == seq!['_'] {
            assert(datalog::bound(before, goal[i]->Var_0) is None);
            assert(datalog::bound(after, goal[i]->Var_0) is None);
        }
    }
    lemma_told_same(before, after, goal);
    if exists|i: int|
        0 <= i < goal.len() && (#[trigger] goal[i]) is Var && goal[i]->Var_0 != seq!['_'] {
        let i = choose|i: int|
            0 <= i < goal.len() && (#[trigger] goal[i]) is Var && goal[i]->Var_0 != seq!['_'];
        lemma_told(before, goal, goal[i]->Var_0 + "="@ + search::shown(key[i]));
        assert(told.len() > 0);
    } else if told.len() > 0 {
        lemma_told(before, goal, told[0]);
        assert(told.contains(told[0]));
    }
    if let TermView::Var(name) = term {
        let own = name + "="@ + search::shown(value);
        assert(all[goal.len() as int] == term);
        if name == seq!['_'] {
            assert(datalog::bound(after, name) is None);
        } else if goal.contains(term) {
            let i = choose|i: int| 0 <= i < goal.len() && goal[i] == term;
            assert(all[i] == all[goal.len() as int]);
            lemma_told(before, goal, own);
            assert(told.contains(own));
        } else {
            lemma_told(before, goal, own);
            if told.contains(own) {
                let i = choose|i: int|
                    0 <= i < goal.len() && (#[trigger] goal[i]) is Var && datalog::bound(
                        before,
                        goal[i]->Var_0,
                    ) is Some && own == goal[i]->Var_0 + "="@ + search::shown(
                        datalog::bound(before, goal[i]->Var_0)->0,
                    );
                lemma_same_name(
                    name,
                    search::shown(value),
                    goal[i]->Var_0,
                    search::shown(datalog::bound(before, goal[i]->Var_0)->0),
                );
                assert(goal[i] == term);
            }
            assert(told.push(own).drop_last() =~= told);
        }
    }
}

/// What stands before the first equality sign is one name.
proof fn lemma_same_name(a: Seq<char>, x: Seq<char>, b: Seq<char>, y: Seq<char>)
    requires
        !a.contains('='),
        !b.contains('='),
        a + seq!['='] + x == b + seq!['='] + y,
    ensures
        a == b,
{
    text::lemma_cut_char(a, '=', x);
    text::lemma_cut_char(b, '=', y);
}

/// The signs of order compare integers, and no symbol is above or below anything; equality compares
/// all values.
pub proof fn comparisons_order_integers(i: int, j: int, a: ValueView, b: ValueView)
    ensures
        datalog::compares(Comparison::Equals, a, b) <==> a == b,
        datalog::compares(Comparison::Differs, a, b) <==> a != b,
        datalog::compares(Comparison::AtMost, ValueView::Integer(i), ValueView::Integer(j)) <==> i
            <= j,
        datalog::compares(Comparison::AtLeast, ValueView::Integer(i), ValueView::Integer(j)) <==> j
            <= i,
        datalog::compares(Comparison::Below, ValueView::Integer(i), ValueView::Integer(j)) <==> i
            < j,
        datalog::compares(Comparison::Above, ValueView::Integer(i), ValueView::Integer(j)) <==> j
            < i,
        a is Symbol || b is Symbol ==> {
            &&& !datalog::compares(Comparison::AtMost, a, b)
            &&& !datalog::compares(Comparison::AtLeast, a, b)
            &&& !datalog::compares(Comparison::Below, a, b)
            &&& !datalog::compares(Comparison::Above, a, b)
        },
{
}

// ---------------------------------------------------------------- rules
/// The value of a term, where each variable has the value that an assignment gives it.
pub open spec fn assigned(values: spec_fn(Seq<char>) -> ValueView, term: TermView) -> ValueView {
    match term {
        TermView::Sym(name) => ValueView::Symbol(name),
        TermView::Int(i) => ValueView::Integer(i),
        TermView::Var(name) => values(name),
    }
}

/// Whether an assignment makes terms into a key, whatever stands for the low line.
pub open spec fn makes(
    values: spec_fn(Seq<char>) -> ValueView,
    terms: Seq<TermView>,
    key: Seq<ValueView>,
) -> bool {
    &&& terms.len() == key.len()
    &&& forall|i: int|
        0 <= i < terms.len() && (#[trigger] terms[i]) != TermView::Var(seq!['_']) ==> key[i]
            == assigned(values, terms[i])
}

/// Whether an assignment makes the atoms of a rule into keys, its comparisons true and its head into
/// a row.
pub open spec fn assignment_gives(
    values: spec_fn(Seq<char>) -> ValueView,
    rule: RuleView,
    keys: Seq<Seq<ValueView>>,
    row: RowView,
) -> bool {
    &&& keys.len() == rule.body.len()
    &&& forall|i: int|
        0 <= i < keys.len() ==> makes(values, rule.body[i].args, #[trigger] keys[i])
    &&& forall|i: int|
        0 <= i < rule.guards.len() ==> datalog::compares(
            (#[trigger] rule.guards[i]).comparison,
            assigned(values, rule.guards[i].left),
            assigned(values, rule.guards[i].right),
        )
    &&& row.pred == rule.head.pred
    &&& makes(values, rule.head.args, row.key)
}

/// Whether bindings give exactly what an assignment does to the variables of the atoms.
spec fn faithful(
    bindings: Seq<BindingView>,
    values: spec_fn(Seq<char>) -> ValueView,
) -> bool {
    forall|name: Seq<char>| #[trigger]
        datalog::bound(bindings, name) matches Some(value) ==> value == values(name)
}

/// Taking on terms keeps what was bound, binds what the terms name, and makes the key.
proof fn lemma_take_on(
    bindings: Seq<BindingView>,
    terms: Seq<TermView>,
    key: Seq<ValueView>,
    values: spec_fn(Seq<char>) -> ValueView,
)
    ensures
        datalog::with_terms(bindings, terms, key) matches Some(more) ==> {
            &&& forall|name: Seq<char>| #[trigger]
                datalog::bound(bindings, name) is Some ==> datalog::bound(more, name)
                    == datalog::bound(bindings, name)
            &&& forall|i: int|
                0 <= i < terms.len() && (#[trigger] terms[i]) is Var && terms[i]->Var_0 != seq!['_']
                    ==> datalog::bound(more, terms[i]->Var_0) == Some(key[i])
            &&& terms.len() == key.len()
            &&& forall|i: int|
                0 <= i < terms.len() && !((#[trigger] terms[i]) is Var) ==> key[i] == assigned(
                    values,
                    terms[i],
                )
        },
        faithful(bindings, values) && makes(values, terms, key) ==> {
            &&& datalog::with_terms(bindings, terms, key) is Some
            &&& faithful(datalog::with_terms(bindings, terms, key)->0, values)
        },
    decreases terms.len(),
{
    lemma_low_line();
    if terms.len() == key.len() && terms.len() > 0 {
        let fewer = terms.drop_last();
        let less = key.drop_last();
        let n = terms.len() - 1;
        lemma_take_on(bindings, fewer, less, values);
        assert forall|i: int| 0 <= i < n implies #[trigger] fewer[i] == terms[i] && less[i]
            == key[i] by {}
        assert(terms[n] == terms.last() && key[n] == key.last());
        if faithful(bindings, values) && makes(values, terms, key) {
            assert(makes(values, fewer, less)) by {
                assert forall|i: int|
                    0 <= i < fewer.len() && (#[trigger] fewer[i]) != TermView::Var(seq!['_']) implies
                    less[i] == assigned(values, fewer[i]) by {
                    assert(terms[i] == fewer[i]);
                }
            }
        }
        if let Some(mid) = datalog::with_terms(bindings, fewer, less) {
            if terms[n] is Var {
                let name = terms[n]->Var_0;
                let pushed = mid.push(BindingView { name, value: key[n] });
                assert forall|other: Seq<char>| #[trigger] datalog::bound(pushed, other) == if other
                    == name {
                    Some(key[n])
                } else {
                    datalog::bound(mid, other)
                } by {
                    lemma_bound_push(mid, BindingView { name, value: key[n] }, other);
                }
                if faithful(bindings, values) && makes(values, terms, key) && name != seq!['_'] {
                    assert(key[n] == assigned(values, terms[n]));
                    if let Some(value) = datalog::bound(mid, name) {
                        assert(value == values(name));
                    }
                }
            }
            if let Some(more) = datalog::with_terms(bindings, terms, key) {
                assert forall|name: Seq<char>| #[trigger] datalog::bound(bindings, name) is Some
                    implies datalog::bound(more, name) == datalog::bound(bindings, name) by {
                    assert(datalog::bound(mid, name) == datalog::bound(bindings, name));
                }
                assert forall|i: int|
                    0 <= i < terms.len() && (#[trigger] terms[i]) is Var && terms[i]->Var_0 != seq![
                        '_',
                    ] implies datalog::bound(more, terms[i]->Var_0) == Some(key[i]) by {
                    if i < n {
                        assert(fewer[i] == terms[i]);
                        assert(datalog::bound(mid, fewer[i]->Var_0) == Some(less[i]));
                    }
                }
                assert forall|i: int| 0 <= i < terms.len() && !((#[trigger] terms[i]) is Var) implies
                    key[i] == assigned(values, terms[i]) by {
                    if i < n {
                        assert(fewer[i] == terms[i]);
                    }
                }
            }
        }
    }
}

proof fn lemma_take_all(
    atoms: Seq<AtomView>,
    keys: Seq<Seq<ValueView>>,
    values: spec_fn(Seq<char>) -> ValueView,
)
    ensures
        datalog::bound_all(atoms, keys) matches Some(bindings) ==> {
            &&& atoms.len() == keys.len()
            &&& forall|i: int, k: int|
                0 <= i < atoms.len() && 0 <= k < atoms[i].args.len() && (
                #[trigger] atoms[i].args[k]) is Var && atoms[i].args[k]->Var_0 != seq!['_']
                    ==> datalog::bound(bindings, atoms[i].args[k]->Var_0) == Some(keys[i][k])
            &&& forall|i: int|
                0 <= i < atoms.len() ==> (#[trigger] atoms[i]).args.len() == keys[i].len()
            &&& forall|i: int, k: int|
                0 <= i < atoms.len() && 0 <= k < atoms[i].args.len() && !((
                #[trigger] atoms[i].args[k]) is Var) ==> keys[i][k] == assigned(
                    values,
                    atoms[i].args[k],
                )
        },
        atoms.len() == keys.len() && (forall|i: int|
            0 <= i < keys.len() ==> makes(values, atoms[i].args, #[trigger] keys[i])) ==> {
            &&& datalog::bound_all(atoms, keys) is Some
            &&& faithful(datalog::bound_all(atoms, keys)->0, values)
        },
    decreases atoms.len(),
{
    if atoms.len() == keys.len() && atoms.len() > 0 {
        let fewer = atoms.drop_last();
        let less = keys.drop_last();
        let n = atoms.len() - 1;
        lemma_take_all(fewer, less, values);
        assert(atoms[n] == atoms.last() && keys[n] == keys.last());
        if forall|i: int|
            0 <= i < keys.len() ==> makes(values, atoms[i].args, #[trigger] keys[i]) {
            assert forall|i: int| 0 <= i < less.len() implies makes(
                values,
                fewer[i].args,
                #[trigger] less[i],
            ) by {
                assert(less[i] == keys[i]);
            }
            assert(makes(values, atoms[n].args, keys[n]));
        }
        if let Some(mid) = datalog::bound_all(fewer, less) {
            lemma_take_on(mid, atoms[n].args, keys[n], values);
            if let Some(bindings) = datalog::bound_all(atoms, keys) {
                assert forall|i: int, k: int|
                    0 <= i < atoms.len() && 0 <= k < atoms[i].args.len() && (
                    #[trigger] atoms[i].args[k]) is Var && atoms[i].args[k]->Var_0 != seq![
                        '_',
                    ] implies datalog::bound(bindings, atoms[i].args[k]->Var_0) == Some(
                    keys[i][k],
                ) by {
                    if i < n {
                        assert(fewer[i].args[k] == atoms[i].args[k]);
                        assert(datalog::bound(mid, fewer[i].args[k]->Var_0) == Some(less[i][k]));
                    }
                }
                assert forall|i: int| 0 <= i < atoms.len() implies (#[trigger] atoms[i]).args.len()
                    == keys[i].len() by {
                    if i < n {
                        assert(fewer[i] == atoms[i]);
                    }
                }
                assert forall|i: int, k: int|
                    0 <= i < atoms.len() && 0 <= k < atoms[i].args.len() && !((
                    #[trigger] atoms[i].args[k]) is Var) implies keys[i][k] == assigned(
                    values,
                    atoms[i].args[k],
                ) by {
                    if i < n {
                        assert(fewer[i].args[k] == atoms[i].args[k]);
                    }
                }
            }
        }
    } else if atoms.len() == 0 && keys.len() == 0 {
        assert(datalog::bound_all(atoms, keys) == Some(Seq::<BindingView>::empty()));
    }
}

proof fn lemma_values(bindings: Seq<BindingView>, terms: Seq<TermView>, key: Seq<ValueView>)
    ensures
        datalog::values_of(bindings, terms) == Some(key) <==> terms.len() == key.len() && forall|
            i: int,
        |
            0 <= i < terms.len() ==> datalog::term_value(bindings, #[trigger] terms[i]) == Some(
                key[i],
            ),
    decreases terms.len(),
{
    if terms.len() > 0 {
        let fewer = terms.drop_last();
        let n = terms.len() - 1;
        assert(terms[n] == terms.last());
        if key.len() == terms.len() {
            let less = key.drop_last();
            lemma_values(bindings, fewer, less);
            assert(key =~= less.push(key[n]));
            assert forall|i: int| 0 <= i < n implies #[trigger] fewer[i] == terms[i] && less[i]
                == key[i] by {}
            if datalog::values_of(bindings, terms) == Some(key) {
                let got = datalog::values_of(bindings, fewer)->0;
                assert(got.push(datalog::term_value(bindings, terms[n])->0).drop_last() =~= got);
                assert(got =~= less);
                assert forall|i: int| 0 <= i < terms.len() implies datalog::term_value(
                    bindings,
                    #[trigger] terms[i],
                ) == Some(key[i]) by {
                    if i < n {
                        assert(datalog::term_value(bindings, fewer[i]) == Some(less[i]));
                    }
                }
            }
            if forall|i: int|
                0 <= i < terms.len() ==> datalog::term_value(bindings, #[trigger] terms[i]) == Some(
                    key[i],
                ) {
                assert forall|i: int| 0 <= i < fewer.len() implies datalog::term_value(
                    bindings,
                    #[trigger] fewer[i],
                ) == Some(less[i]) by {
                    assert(fewer[i] == terms[i]);
                }
                assert(datalog::term_value(bindings, terms[n]) == Some(key[n]));
            }
        } else if datalog::values_of(bindings, terms) is Some {
            let got = datalog::values_of(bindings, fewer)->0;
            lemma_values(bindings, fewer, got);
            assert(datalog::values_of(bindings, terms)->0.len() == terms.len());
        }
    } else {
        assert(key.len() == 0 ==> key =~= seq![]);
    }
}

/// A safe rule gives a row of others exactly where one assignment of values to its variables makes
/// its atoms into these others, all its comparisons true and its head into the row.
pub proof fn rule_gives_what_an_assignment_makes_true(
    rule: RuleView,
    keys: Seq<Seq<ValueView>>,
    row: RowView,
)
    requires
        rule.body.len() > 0,
        rule.safe(),
    ensures
        datalog::derives(rule, keys, row) <==> exists|values: spec_fn(Seq<char>) -> ValueView|
            #[trigger] assignment_gives(values, rule, keys, row),
{
    lemma_low_line();
    if datalog::derives(rule, keys, row) {
        let bindings = datalog::bound_all(rule.body, keys)->0;
        let values = |name: Seq<char>| datalog::bound(bindings, name)->0;
        lemma_take_all(rule.body, keys, values);
        assert forall|i: int| 0 <= i < keys.len() implies makes(
            values,
            rule.body[i].args,
            #[trigger] keys[i],
        ) by {
            let args = rule.body[i].args;
            assert forall|k: int|
                0 <= k < args.len() && (#[trigger] args[k]) != TermView::Var(seq!['_']) implies
                keys[i][k] == assigned(values, args[k]) by {
                assert(rule.body[i].args[k] == args[k]);
                if args[k] is Var {
                    assert(datalog::bound(bindings, rule.body[i].args[k]->Var_0) == Some(
                        keys[i][k],
                    ));
                }
            }
            assert(rule.body[i].args.len() == keys[i].len());
        }
        lemma_values(bindings, rule.head.args, row.key);
        assert forall|i: int|
            0 <= i < rule.head.args.len() && (#[trigger] rule.head.args[i]) != TermView::Var(
                seq!['_'],
            ) implies row.key[i] == assigned(values, rule.head.args[i]) by {
            assert(datalog::term_value(bindings, rule.head.args[i]) == Some(row.key[i]));
        }
        assert forall|i: int| 0 <= i < rule.guards.len() implies datalog::compares(
            (#[trigger] rule.guards[i]).comparison,
            assigned(values, rule.guards[i].left),
            assigned(values, rule.guards[i].right),
        ) by {
            assert(datalog::guard_holds(bindings, rule.guards[i]));
        }
        assert(assignment_gives(values, rule, keys, row));
    }
    if exists|values: spec_fn(Seq<char>) -> ValueView| #[trigger]
        assignment_gives(values, rule, keys, row) {
        let values = choose|values: spec_fn(Seq<char>) -> ValueView| #[trigger]
            assignment_gives(values, rule, keys, row);
        lemma_take_all(rule.body, keys, values);
        let bindings = datalog::bound_all(rule.body, keys)->0;
        assert forall|i: int| 0 <= i < rule.head.args.len() implies datalog::term_value(
            bindings,
            #[trigger] rule.head.args[i],
        ) == Some(row.key[i]) by {
            assert(clause::covered(rule.body, rule.head.args[i]));
            lemma_covered(rule.body, keys, values, rule.head.args[i]);
        }
        lemma_values(bindings, rule.head.args, row.key);
        assert forall|i: int| 0 <= i < rule.guards.len() implies datalog::guard_holds(
            bindings,
            #[trigger] rule.guards[i],
        ) by {
            let guard = rule.guards[i];
            assert(clause::covered(rule.body, guard.left) && clause::covered(
                rule.body,
                guard.right,
            ));
            lemma_covered(rule.body, keys, values, guard.left);
            lemma_covered(rule.body, keys, values, guard.right);
        }
    }
}

/// A term whose variable stands in an atom has the value that the assignment gives it.
proof fn lemma_covered(
    atoms: Seq<AtomView>,
    keys: Seq<Seq<ValueView>>,
    values: spec_fn(Seq<char>) -> ValueView,
    term: TermView,
)
    requires
        atoms.len() == keys.len(),
        forall|i: int| 0 <= i < keys.len() ==> makes(values, atoms[i].args, #[trigger] keys[i]),
        clause::covered(atoms, term),
    ensures
        datalog::bound_all(atoms, keys) is Some,
        term != TermView::Var(seq!['_']),
        datalog::term_value(datalog::bound_all(atoms, keys)->0, term) == Some(
            assigned(values, term),
        ),
{
    lemma_low_line();
    lemma_take_all(atoms, keys, values);
    if let TermView::Var(name) = term {
        let i = choose|i: int| 0 <= i < atoms.len() && (#[trigger] atoms[i]).args.contains(term);
        let k = choose|k: int| 0 <= k < atoms[i].args.len() && atoms[i].args[k] == term;
        assert(atoms[i].args[k] is Var);
        assert(makes(values, atoms[i].args, keys[i]));
    }
}

/// Whether a row is one of the store: that of a fact, or the time.
pub open spec fn of_the_store(store: EngineView, row: RowView) -> bool {
    ||| exists|i: int|
        0 <= i < store.facts.len() && (#[trigger] store.facts[i]).pred == row.pred
            && store.facts[i].key == row.key
    ||| row.pred == "now"@ && row.key == seq![ValueView::Integer(store.now)]
}

/// Whether a rule gives a row of rows that all follow.
pub open spec fn given_by(
    store: EngineView,
    rules: Seq<RuleView>,
    rule: RuleView,
    keys: Seq<Seq<ValueView>>,
    row: RowView,
) -> bool {
    &&& datalog::derives(rule, keys, row)
    &&& forall|i: int|
        0 <= i < rule.body.len() ==> datalog::follows(
            store,
            rules,
            RowView { pred: rule.body[i].pred, key: #[trigger] keys[i] },
        )
}

/// A row follows where it is one of the store, or a rule gives it of rows that all follow, and nowhere
/// else.
pub proof fn rows_follow_from_the_store_and_the_rules(
    store: EngineView,
    rules: Seq<RuleView>,
    row: RowView,
)
    ensures
        datalog::follows(store, rules, row) <==> of_the_store(store, row) || exists|
            j: int,
            keys: Seq<Seq<ValueView>>,
        |
            0 <= j < rules.len() && #[trigger] given_by(store, rules, rules[j], keys, row),
{
    let all = Set::new(
        |x: RowView|
            of_the_store(store, x) || exists|j: int, keys: Seq<Seq<ValueView>>|
                0 <= j < rules.len() && #[trigger] given_by(store, rules, rules[j], keys, x),
    );
    lemma_stated(store, row);
    if datalog::follows(store, rules, row) {
        assert(datalog::closed_under(store, rules, all)) by {
            assert forall|x: RowView| #[trigger] datalog::stated(store, x) implies all.contains(
                x,
            ) by {
                lemma_stated(store, x);
            }
            assert forall|j: int, keys: Seq<Seq<ValueView>>, x: RowView|
                0 <= j < rules.len() && #[trigger] datalog::derives(rules[j], keys, x)
                    && datalog::among(all, rules[j].body, keys) implies all.contains(x) by {
                assert forall|i: int| 0 <= i < rules[j].body.len() implies datalog::follows(
                    store,
                    rules,
                    RowView { pred: rules[j].body[i].pred, key: #[trigger] keys[i] },
                ) by {
                    let part = RowView { pred: rules[j].body[i].pred, key: keys[i] };
                    assert(all.contains(part));
                    lemma_given(store, rules, part);
                }
                assert(given_by(store, rules, rules[j], keys, x));
            }
        }
        assert(all.contains(row));
    }
    lemma_given(store, rules, row);
}

proof fn lemma_stated(store: EngineView, row: RowView)
    ensures
        datalog::stated(store, row) <==> of_the_store(store, row),
{
    if update_laws::has_fact(store.facts, row.pred, row.key) {
        let i = choose|i: int|
            0 <= i < store.facts.len() && engine::is_fact(
                #[trigger] store.facts[i],
                row.pred,
                row.key,
            );
        assert(store.facts[i].pred == row.pred && store.facts[i].key == row.key);
    }
    if exists|i: int|
        0 <= i < store.facts.len() && (#[trigger] store.facts[i]).pred == row.pred
            && store.facts[i].key == row.key {
        let i = choose|i: int|
            0 <= i < store.facts.len() && (#[trigger] store.facts[i]).pred == row.pred
                && store.facts[i].key == row.key;
        assert(engine::is_fact(store.facts[i], row.pred, row.key));
    }
}

proof fn lemma_given(store: EngineView, rules: Seq<RuleView>, row: RowView)
    ensures
        of_the_store(store, row) ==> datalog::follows(store, rules, row),
        forall|j: int, keys: Seq<Seq<ValueView>>|
            0 <= j < rules.len() && #[trigger] given_by(store, rules, rules[j], keys, row)
                ==> datalog::follows(store, rules, row),
{
    lemma_stated(store, row);
    assert forall|j: int, keys: Seq<Seq<ValueView>>|
        0 <= j < rules.len() && #[trigger] given_by(store, rules, rules[j], keys, row) implies
        datalog::follows(store, rules, row) by {
        datalog::rule_gives_its_row(store, rules, j, keys, row);
    }
}

/// What holds is what follows by the three rules that are always there and by those that were added.
pub proof fn default_rules_always_apply(store: EngineView, added: Seq<RuleView>, row: RowView)
    ensures
        datalog::holds(store, added, row) <==> datalog::follows(
            store,
            defaults::default_rules() + added,
            row,
        ),
        defaults::default_rules().len() == 3,
{
}

proof fn lemma_first_symbol(w: Seq<char>, others: Seq<TermView>, key: Seq<ValueView>)
    requires
        key.len() > 0,
    ensures
        datalog::with_terms(seq![], seq![TermView::Sym(w)] + others, key) == if key[0]
            == ValueView::Symbol(w) {
            datalog::with_terms(seq![], others, key.drop_first())
        } else {
            None
        },
    decreases others.len(),
{
    let all = seq![TermView::Sym(w)] + others;
    let rest = key.drop_first();
    if all.len() == key.len() {
        if others.len() > 0 {
            lemma_first_symbol(w, others.drop_last(), key.drop_last());
            assert(all.drop_last() =~= seq![TermView::Sym(w)] + others.drop_last());
            assert(key.drop_last().drop_first() =~= rest.drop_last());
            assert(all.last() == others.last() && key.last() == rest.last());
        } else {
            assert(all.drop_last() =~= Seq::<TermView>::empty());
            assert(key.drop_last() =~= Seq::<ValueView>::empty());
            reveal_with_fuel(datalog::with_terms, 2);
            assert(all.last() == TermView::Sym(w));
        }
    }
}

proof fn lemma_told_behind(bindings: Seq<BindingView>, w: Seq<char>, others: Seq<TermView>)
    ensures
        query::told_terms(bindings, seq![TermView::Sym(w)] + others) == query::told_terms(
            bindings,
            others,
        ),
    decreases others.len(),
{
    let all = seq![TermView::Sym(w)] + others;
    if others.len() > 0 {
        lemma_told_behind(bindings, w, others.drop_last());
        assert(all.drop_last() =~= seq![TermView::Sym(w)] + others.drop_last());
        assert(all.last() == others.last());
    } else {
        assert(all.drop_last() =~= others);
        assert(all.last() == TermView::Sym(w));
    }
}

/// A name that is asked for gives no variable a value: a row with that name first answers as its other
/// values answer the other terms, and no row with another value first answers.
pub proof fn name_that_is_asked_for_binds_nothing(
    w: Seq<char>,
    others: Seq<TermView>,
    key: Seq<ValueView>,
    answer: Seq<char>,
)
    requires
        key.len() > 0,
    ensures
        query::key_answers(key, seq![TermView::Sym(w)] + others, answer) <==> key[0]
            == ValueView::Symbol(w) && query::key_answers(key.drop_first(), others, answer),
{
    lemma_first_symbol(w, others, key);
    if let Some(bindings) = datalog::with_terms(seq![], others, key.drop_first()) {
        lemma_told_behind(bindings, w, others);
    }
}

} // verus!
