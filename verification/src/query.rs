//! Queries: an atom, or a rule for the one query whose head is answered.
//!
//! A query is answered by the rows that hold: those of the store, and what the rules of the memory
//! and of the query give of them.

use vstd::prelude::*;

use crate::agent;
use crate::clause;
use crate::clause::{Atom, AtomView, Rule, RuleView};
use crate::cli;
use crate::cli::{Ask, AskView};
use crate::datalog;
use crate::datalog::{Binding, BindingView, Row, RowView};
use crate::defaults;
use crate::engine;
use crate::engine::{Engine, EngineView, Fact, FactView, Term, TermView, Value};
use crate::rows;
use crate::search;
use crate::snapshot::ValueView;
use crate::sorted;
use crate::support;
use crate::support::Step;
use crate::text;

verus! {

// ---------------------------------------------------------------- queries
/// A query: the atom that is answered, and clauses for this query alone.
#[verifier::ext_equal]
pub struct QueryView {
    pub goal: AtomView,
    pub clauses: Seq<RuleView>,
}

/// The query that an expression writes, or why it writes none.
pub open spec fn read_query(expression: Seq<char>) -> Result<QueryView, Seq<char>> {
    match cli::asked(expression) {
        Err(message) => Err(message),
        Ok(AskView::Atom(goal)) => match clause::read_goal(goal) {
            None => Err("query: "@ + clause::unreadable(goal)),
            Some(goal) => Ok(QueryView { goal, clauses: seq![] }),
        },
        Ok(AskView::Rule { rule, head }) => match clause::read_program(rule) {
            None => Err("query rule: "@ + clause::unreadable(rule)),
            Some(clauses) => match clause::read_goal(head) {
                None => Err("query: "@ + clause::unreadable(head)),
                Some(goal) => Ok(QueryView { goal, clauses }),
            },
        },
    }
}

/// A query.
#[derive(Clone, Debug, PartialEq, Eq)]
pub struct Query {
    pub goal: Atom,
    pub clauses: Vec<Rule>,
}

impl View for Query {
    type V = QueryView;

    open spec fn view(&self) -> QueryView {
        QueryView { goal: self.goal@, clauses: clause::rule_views(self.clauses@) }
    }
}

/// Tells a text that cannot be read, behind what it was to be.
fn tell_misread(what: &str, s: &str) -> (told: String)
    ensures
        told@ == what@ + clause::unreadable(s@),
{
    let mut told: String = what.to_owned();
    told.append(clause::tell_unreadable(s).as_str());
    told
}

/// Reads a query.
pub fn parse_query(expression: &str) -> (query: Result<Query, String>)
    ensures
        match read_query(expression@) {
            Ok(said) => query matches Ok(found) && found@ == said && agent::stated_plainly(
                said.clauses,
            ),
            Err(message) => query matches Err(told) && told@ == message,
        },
{
    match cli::ask_expression(expression) {
        Err(told) => Err(told),
        Ok(Ask::Atom(goal)) => match clause::parse_goal(goal.as_str()) {
            None => Err(tell_misread("query: ", goal.as_str())),
            Some(goal) => {
                let clauses: Vec<Rule> = Vec::new();
                assert(clause::rule_views(clauses@) =~= seq![]);
                Ok(Query { goal, clauses })
            },
        },
        Ok(Ask::Rule { rule, head }) => match clause::parse_program(rule.as_str()) {
            None => Err(tell_misread("query rule: ", rule.as_str())),
            Some(clauses) => {
                proof {
                    clause::program_is_plain(rule@);
                }
                match clause::parse_goal(head.as_str()) {
                    None => Err(tell_misread("query: ", head.as_str())),
                    Some(goal) => Ok(Query { goal, clauses }),
                }
            },
        },
    }
}

// ---------------------------------------------------------------- answers
/// What terms tell of bindings: the value of each of their variables, once.
pub open spec fn told_terms(
    bindings: Seq<BindingView>,
    terms: Seq<TermView>,
) -> Seq<Seq<char>>
    decreases terms.len(),
{
    if terms.len() == 0 {
        seq![]
    } else {
        let fewer = told_terms(bindings, terms.drop_last());
        match terms.last() {
            TermView::Var(name) => match datalog::bound(bindings, name) {
                Some(value) => engine::interned(fewer, name + "="@ + search::shown(value)),
                None => fewer,
            },
            _ => fewer,
        }
    }
}

/// The answer that bindings give to an atom; one without variables is true.
pub open spec fn answer_text(bindings: Seq<BindingView>, terms: Seq<TermView>) -> Seq<char> {
    let told = told_terms(bindings, terms);
    if told.len() == 0 {
        "true"@
    } else {
        text::join(told, ", "@)
    }
}

/// Whether terms can stand for a key and then give an answer.
pub open spec fn key_answers(
    key: Seq<ValueView>,
    terms: Seq<TermView>,
    answer: Seq<char>,
) -> bool {
    match datalog::with_terms(seq![], terms, key) {
        Some(bindings) => answer == answer_text(bindings, terms),
        None => false,
    }
}

/// Whether a row that holds gives an answer to a goal.
pub open spec fn is_answer(
    engine: EngineView,
    rules: Seq<RuleView>,
    goal: AtomView,
    answer: Seq<char>,
) -> bool {
    exists|key: Seq<ValueView>|
        datalog::holds(engine, rules, RowView { pred: goal.pred, key }) && #[trigger] key_answers(
            key,
            goal.args,
            answer,
        )
}

/// Whether answers are those to a goal: what the rows that hold give, in order, each once.
pub open spec fn answers_to(
    engine: EngineView,
    rules: Seq<RuleView>,
    goal: AtomView,
    answers: Seq<Seq<char>>,
) -> bool {
    &&& sorted::ordered(answers)
    &&& forall|answer: Seq<char>|
        #[trigger] answers.contains(answer) <==> is_answer(engine, rules, goal, answer)
}

/// Adds a text to a list that does not hold it.
fn add_once(rows: &mut Vec<String>, row: String)
    ensures
        text::texts(final(rows)@) == engine::interned(text::texts(old(rows)@), row@),
{
    if !sorted::has(rows, row.as_str()) {
        let ghost before = text::texts(rows@);
        let ghost said = row@;
        rows.push(row);
        assert(text::texts(rows@) =~= before.push(said));
    }
}

/// Tells the answer that bindings give to an atom.
fn tell_answer(engine: &Engine, bindings: &Vec<Binding>, terms: &Vec<Term>) -> (answer: String)
    requires
        engine.wf(),
        datalog::known_bindings(engine@.names, bindings@),
    ensures
        answer@ == answer_text(
            datalog::binding_views(engine@.names, bindings@),
            engine::term_views(terms@),
        ),
{
    let ghost names = engine@.names;
    let ghost start = datalog::binding_views(names, bindings@);
    let ghost all = engine::term_views(terms@);
    let mut told: Vec<String> = Vec::new();
    assert(text::texts(told@) =~= seq![]);
    for i in 0..terms.len()
        invariant
            engine.wf(),
            names == engine@.names,
            datalog::known_bindings(names, bindings@),
            start == datalog::binding_views(names, bindings@),
            all == engine::term_views(terms@),
            text::texts(told@) == told_terms(start, all.take(i as int)),
    {
        assert(all.take(i as int + 1).drop_last() =~= all.take(i as int));
        if let Term::Var(name) = &terms[i] {
            if let Some(value) = datalog::find_bound(bindings, name.as_str(), Ghost(names)) {
                let mut part: String = name.as_str().to_owned();
                part.append("=");
                part.append(engine.display(&value).as_str());
                add_once(&mut told, part);
            }
        }
    }
    assert(all.take(all.len() as int) =~= all);
    assert(text::texts(told@).len() == told@.len());
    if told.len() == 0 {
        "true".to_owned()
    } else {
        text::join_strings(&told, ", ")
    }
}

/// Answers a goal.
pub fn answer_goal(engine: &Engine, rules: &Vec<Rule>, goal: &Atom) -> (answers: Vec<String>)
    requires
        engine.wf(),
    ensures
        answers_to(engine@, clause::rule_views(rules@), goal@, text::texts(answers@)),
{
    let ghost all = clause::rule_views(rules@);
    let applied: Vec<Rule> = defaults::list_rules(rules);
    let ready: Engine = datalog::prepare(engine, &applied);
    let ghost names = ready@.names;
    let derived: Vec<Row> = datalog::derive(&ready, &applied);
    let ghost rows = datalog::row_views(names, derived@);
    let arity: usize = goal.args.len();
    let keys: Vec<Vec<Value>> = datalog::list_keys(&ready, &derived, goal.pred.as_str(), arity);
    let ghost held = datalog::key_views(names, keys@);
    let none: Vec<Binding> = Vec::new();
    assert(datalog::binding_views(names, none@) =~= Seq::<BindingView>::empty());
    let mut answers: Vec<String> = Vec::new();
    assert(text::texts(answers@) =~= Seq::<Seq<char>>::empty());
    for i in 0..keys.len()
        invariant
            ready.wf(),
            names == ready@.names,
            datalog::known_keys(names, keys@),
            held == datalog::key_views(names, keys@),
            datalog::known_bindings(names, none@),
            datalog::binding_views(names, none@) == Seq::<BindingView>::empty(),
            sorted::ordered(text::texts(answers@)),
            forall|answer: Seq<char>|
                #[trigger] text::texts(answers@).contains(answer) <==> exists|k: int|
                    0 <= k < i && key_answers(#[trigger] held[k], goal@.args, answer),
    {
        let ghost before = text::texts(answers@);
        assert(held[i as int] == engine::key_view(names, keys@[i as int]@));
        let found: Option<Vec<Binding>> = datalog::bind_terms(
            &ready,
            &none,
            &goal.args,
            &keys[i],
        );
        if let Some(bindings) = found {
            let answer: String = tell_answer(&ready, &bindings, &goal.args);
            proof {
                sorted::lemma_placed(before, answer@);
            }
            sorted::place(&mut answers, answer);
        }
        assert forall|answer: Seq<char>| #[trigger]
            text::texts(answers@).contains(answer) <==> exists|k: int|
                0 <= k < i + 1 && key_answers(#[trigger] held[k], goal@.args, answer) by {
            assert(text::texts(answers@).contains(answer) <==> before.contains(answer)
                || key_answers(held[i as int], goal@.args, answer));
            if before.contains(answer) {
                let k = choose|k: int|
                    0 <= k < i && key_answers(#[trigger] held[k], goal@.args, answer);
                assert(key_answers(held[k], goal@.args, answer));
            }
            if exists|k: int|
                0 <= k < i + 1 && key_answers(#[trigger] held[k], goal@.args, answer) {
                let k = choose|k: int|
                    0 <= k < i + 1 && key_answers(#[trigger] held[k], goal@.args, answer);
                if k < i {
                    assert(before.contains(answer));
                }
            }
        }
    }
    assert forall|answer: Seq<char>| #[trigger]
        text::texts(answers@).contains(answer) <==> is_answer(engine@, all, goal@, answer) by {
        if text::texts(answers@).contains(answer) {
            let k = choose|k: int|
                0 <= k < held.len() && key_answers(#[trigger] held[k], goal@.args, answer);
            let row = RowView { pred: goal.pred@, key: held[k] };
            assert(held.contains(held[k]));
            assert(datalog::present(ready@, rows, row));
            datalog::lemma_same_store(engine@, ready@, all, row);
        }
        if is_answer(engine@, all, goal@, answer) {
            let key = choose|key: Seq<ValueView>|
                datalog::holds(engine@, all, RowView { pred: goal@.pred, key })
                    && #[trigger] key_answers(key, goal@.args, answer);
            let row = RowView { pred: goal.pred@, key };
            datalog::lemma_same_store(engine@, ready@, all, row);
            assert(datalog::present(ready@, rows, row));
            lemma_answer_size(goal@.args, key);
            assert(held.contains(key));
            let k = choose|k: int| 0 <= k < held.len() && held[k] == key;
            assert(key_answers(held[k], goal@.args, answer));
        }
    }
    answers
}

/// Terms stand for keys of as many values.
proof fn lemma_answer_size(terms: Seq<TermView>, key: Seq<ValueView>)
    ensures
        datalog::with_terms(seq![], terms, key) is Some ==> key.len() == terms.len(),
{
}

/// Whether a goal is answered as it is to be: with the answers to the atom that it writes, or
/// with what cannot be read.
pub open spec fn answer_is(
    engine: EngineView,
    rules: Seq<RuleView>,
    goal: Seq<char>,
    answers: Result<Vec<String>, String>,
) -> bool {
    match clause::read_goal(goal) {
        Some(atom) => answers matches Ok(rows) && answers_to(
            engine,
            rules,
            atom,
            text::texts(rows@),
        ),
        None => answers matches Err(told) && told@ == clause::unreadable(goal),
    }
}

/// Reads a goal and answers it.
pub fn ask(engine: &Engine, rules: &Vec<Rule>, goal: &str) -> (answers: Result<
    Vec<String>,
    String,
>)
    requires
        engine.wf(),
    ensures
        answer_is(engine@, clause::rule_views(rules@), goal@, answers),
{
    match clause::parse_goal(goal) {
        None => Err(clause::tell_unreadable(goal)),
        Some(atom) => Ok(answer_goal(engine, rules, &atom)),
    }
}

/// Whether an expression is answered as it is to be: the facts among the clauses of its query are
/// asserted for this query, its rules stand beside those given, and its goal is answered.
pub open spec fn expression_answer_is(
    engine: EngineView,
    rules: Seq<RuleView>,
    expression: Seq<char>,
    answers: Result<Vec<String>, String>,
) -> bool {
    match read_query(expression) {
        Ok(query) => answers matches Ok(rows) && answers_to(
            agent::with_clauses(engine, query.clauses),
            rules + query.clauses,
            query.goal,
            text::texts(rows@),
        ),
        Err(message) => answers matches Err(told) && told@ == message,
    }
}

/// Reads a query and answers it. Nothing is asserted but for the query.
pub fn answer(engine: &Engine, rules: Vec<Rule>, expression: &str) -> (answers: Result<
    Vec<String>,
    String,
>)
    requires
        engine.wf(),
    ensures
        expression_answer_is(engine@, clause::rule_views(rules@), expression@, answers),
{
    match parse_query(expression) {
        Err(told) => Err(told),
        Ok(query) => {
            let ghost first = clause::rule_views(rules@);
            let ghost more = query@.clauses;
            let store: Engine = agent::assert_clauses(engine.copy(), &query.clauses);
            let mut clauses: Vec<Rule> = query.clauses;
            let mut all: Vec<Rule> = rules;
            all.append(&mut clauses);
            assert(clause::rule_views(all@) =~= first + more);
            Ok(answer_goal(&store, &all, &query.goal))
        },
    }
}

// ----------------------------------------------------------- explanations
/// A predicate and the values of a key.
pub open spec fn row_shown(pred: Seq<char>, key: Seq<ValueView>) -> Seq<char> {
    pred + "("@ + text::join(key.map_values(|value: ValueView| search::shown(value)), ", "@) + ")"@
}

/// The line of a fact that supports a row: the fact and its references.
pub open spec fn support_line(fact: FactView) -> Seq<char> {
    "  <- "@ + row_shown(fact.pred, fact.key) + " ["@ + text::join(fact.ann.prov, ", "@) + "]\n"@
}

/// The lines of the facts that support a row.
pub open spec fn support_lines(facts: Seq<FactView>) -> Seq<char>
    decreases facts.len(),
{
    if facts.len() == 0 {
        seq![]
    } else {
        support_lines(facts.drop_last()) + support_line(facts.last())
    }
}

/// Why a row holds: the facts that it rests on, that the rules or the clock give it, or that nothing
/// does.
pub open spec fn explained(
    engine: EngineView,
    rules: Seq<RuleView>,
    pred: Seq<char>,
    key: Seq<ValueView>,
) -> Seq<char> {
    let facts = rows::row_support(engine, rules, pred, key);
    row_shown(pred, key) + if facts.len() > 0 {
        "\n"@ + support_lines(facts)
    } else if datalog::holds(engine, rules, RowView { pred, key }) {
        " is derived\n"@
    } else {
        " does not hold\n"@
    }
}

/// Why a fact that a text writes holds.
pub open spec fn why_text(
    engine: EngineView,
    rules: Seq<RuleView>,
    fact: Seq<char>,
) -> Seq<char> {
    match clause::read_goal(fact) {
        None => "why: "@ + clause::unreadable(fact),
        Some(atom) => if forall|i: int|
            0 <= i < atom.args.len() ==> engine::grounded(engine.names, #[trigger] atom.args[i]) {
            explained(
                engine,
                rules,
                atom.pred,
                atom.args.map_values(|term: TermView| engine::ground(term)),
            )
        } else {
            "why: "@ + fact + " contains variables"@
        },
    }
}

/// Shows a predicate and the values of a key.
pub fn show_row(engine: &Engine, pred: &str, key: &Vec<Value>) -> (shown: String)
    requires
        engine.wf(),
        engine::known_key(engine@.names, key@),
    ensures
        shown@ == row_shown(pred@, engine::key_view(engine@.names, key@)),
{
    let ghost values = engine::key_view(engine@.names, key@);
    let ghost all = values.map_values(|value: ValueView| search::shown(value));
    let mut parts: Vec<String> = Vec::new();
    assert(text::texts(parts@) =~= all.take(0));
    for i in 0..key.len()
        invariant
            engine.wf(),
            engine::known_key(engine@.names, key@),
            values == engine::key_view(engine@.names, key@),
            all == values.map_values(|value: ValueView| search::shown(value)),
            text::texts(parts@) == all.take(i as int),
    {
        let ghost before = text::texts(parts@);
        parts.push(engine.display(&key[i]));
        assert(text::texts(parts@) =~= before.push(all[i as int]));
        assert(all.take(i as int + 1) =~= all.take(i as int).push(all[i as int]));
    }
    assert(all.take(all.len() as int) =~= all);
    let mut shown: String = pred.to_owned();
    shown.append("(");
    shown.append(text::join_strings(&parts, ", ").as_str());
    shown.append(")");
    assert(shown@ =~= row_shown(pred@, values));
    shown
}

/// Says why a row holds.
pub fn explain(engine: &Engine, rules: &Vec<Rule>, pred: &str, key: &Vec<Value>) -> (told: String)
    requires
        engine.wf(),
        engine::known_key(engine@.names, key@),
    ensures
        told@ == explained(
            engine@,
            clause::rule_views(rules@),
            pred@,
            engine::key_view(engine@.names, key@),
        ),
{
    let ghost added = clause::rule_views(rules@);
    let applied: Vec<Rule> = defaults::list_rules(rules);
    let ready: Engine = datalog::prepare(engine, &applied);
    let ghost names = ready@.names;
    let ghost row = RowView { pred: pred@, key: engine::key_view(engine@.names, key@) };
    proof {
        engine::lemma_more_names_key(engine@.names, names, key@);
        support::lemma_same_support(
            engine@,
            ready@,
            defaults::all_rules(added),
            engine@.facts,
            row,
        );
        datalog::lemma_same_store(engine@, ready@, added, row);
    }
    let mut told: String = show_row(&ready, pred, key);
    let derived: Vec<Row> = datalog::derive(&ready, &applied);
    let steps: Vec<Step> = support::list_steps(&ready, &applied, &derived);
    let rows: Vec<Fact> = support::find_support(
        &ready,
        Ghost(defaults::all_rules(added)),
        &steps,
        pred,
        key,
    );
    let ghost all = engine::fact_views(names, rows@);
    assert(all.len() == rows@.len());
    if rows.len() == 0 {
        if datalog::check_holds(engine, rules, pred, key) {
            told.append(" is derived\n");
        } else {
            told.append(" does not hold\n");
        }
        return told;
    }
    told.append("\n");
    let ghost first = told@;
    assert(first + support_lines(all.take(0)) =~= first);
    for i in 0..rows.len()
        invariant
            ready.wf(),
            names == ready@.names,
            engine::known_facts(names, rows@),
            all == engine::fact_views(names, rows@),
            told@ == first + support_lines(all.take(i as int)),
    {
        assert(all.take(i as int + 1).drop_last() =~= all.take(i as int));
        assert(all[i as int] == engine::fact_view(names, rows@[i as int]));
        assert(engine::known_key(names, rows@[i as int].key@));
        told.append("  <- ");
        told.append(show_row(&ready, rows[i].pred.as_str(), &rows[i].key).as_str());
        told.append(" [");
        told.append(text::join_strings(&rows[i].ann.prov, ", ").as_str());
        told.append("]\n");
        assert(told@ =~= first + support_lines(all.take(i as int + 1)));
    }
    assert(all.take(all.len() as int) =~= all);
    told
}

/// Says why a fact that a text writes holds.
pub fn tell_why(engine: &Engine, rules: &Vec<Rule>, fact: &str) -> (told: String)
    requires
        engine.wf(),
    ensures
        told@ == why_text(engine@, clause::rule_views(rules@), fact@),
{
    match clause::parse_goal(fact) {
        None => tell_misread("why: ", fact),
        Some(atom) => {
            let ghost args = atom@.args;
            match engine.ground_values(&atom.args) {
                Some(key) => {
                    assert forall|i: int| 0 <= i < args.len() implies engine::grounded(
                        engine@.names,
                        #[trigger] args[i],
                    ) by {
                        assert(args[i] == atom.args@[i]@);
                    }
                    explain(engine, rules, atom.pred.as_str(), &key)
                },
                None => {
                    proof {
                        let i = choose|i: int|
                            0 <= i < atom.args@.len() && !engine::grounded(
                                engine@.names,
                                (#[trigger] atom.args@[i])@,
                            );
                        assert(args[i] == atom.args@[i]@);
                    }
                    let mut told: String = "why: ".to_owned();
                    told.append(fact);
                    told.append(" contains variables");
                    told
                },
            }
        },
    }
}

} // verus!
