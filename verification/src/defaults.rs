//! The rules that every memory has.

use vstd::prelude::*;

use crate::clause;
use crate::clause::{Atom, AtomView, Comparison, Guard, GuardView, Rule, RuleView};
use crate::engine;
use crate::engine::{Term, TermView};

verus! {

/// The rule that a row of a relation holds now where a fact says from when on and until when it
/// does.
pub open spec fn projection(
    relation: Seq<char>,
    head: Seq<TermView>,
    base: Seq<char>,
    terms: Seq<TermView>,
) -> RuleView {
    RuleView {
        head: AtomView { pred: relation, args: head },
        body: seq![
            AtomView { pred: base, args: terms },
            AtomView { pred: "now"@, args: seq![TermView::Var("T"@)] },
        ],
        guards: seq![
            GuardView {
                left: TermView::Var("VF"@),
                comparison: Comparison::AtMost,
                right: TermView::Var("T"@),
            },
            GuardView {
                left: TermView::Var("T"@),
                comparison: Comparison::Below,
                right: TermView::Var("VT"@),
            },
        ],
    }
}

/// The terms `E`, `R` and `O`.
pub open spec fn triple() -> Seq<TermView> {
    seq![TermView::Var("E"@), TermView::Var("R"@), TermView::Var("O"@)]
}

/// The terms `VF`, `VT` and `_`.
pub open spec fn times() -> Seq<TermView> {
    seq![TermView::Var("VF"@), TermView::Var("VT"@), TermView::Var("_"@)]
}

/// The first default rule.
pub open spec fn current_of_edges() -> RuleView {
    projection("current"@, triple(), "edge"@, triple() + times())
}

/// The second default rule.
pub open spec fn current_of_scoped_edges() -> RuleView {
    projection(
        "current"@,
        triple(),
        "scoped_edge"@,
        seq![TermView::Var("_"@)] + triple() + times(),
    )
}

/// The third default rule.
pub open spec fn scoped_current() -> RuleView {
    projection(
        "scoped_current"@,
        seq![TermView::Var("S"@)] + triple(),
        "scoped_edge"@,
        seq![TermView::Var("S"@)] + triple() + times(),
    )
}

/// The default rules, as `DEFAULT_RULES` writes them. What it states beside them is a fact, which is
/// asserted.
pub open spec fn default_rules() -> Seq<RuleView> {
    seq![current_of_edges(), current_of_scoped_edges(), scoped_current()]
}

/// The default rules and those that were added to them.
pub open spec fn all_rules(added: Seq<RuleView>) -> Seq<RuleView> {
    default_rules() + added
}

/// A variable.
fn variable(name: &str) -> (term: Term)
    ensures
        term@ == TermView::Var(name@),
{
    Term::Var(name.to_owned())
}

/// The terms of some names.
pub open spec fn variables(names: Seq<&str>) -> Seq<TermView> {
    names.map_values(|name: &str| TermView::Var(name@))
}

/// The variables with some names.
fn list_variables(names: &[&str]) -> (terms: Vec<Term>)
    ensures
        engine::term_views(terms@) == variables(names@),
{
    let ghost all = variables(names@);
    let mut terms: Vec<Term> = Vec::new();
    assert(engine::term_views(terms@) =~= all.take(0));
    for i in 0..names.len()
        invariant
            all == variables(names@),
            engine::term_views(terms@) == all.take(i as int),
    {
        let ghost before = engine::term_views(terms@);
        terms.push(variable(names[i]));
        assert(engine::term_views(terms@) =~= before.push(all[i as int]));
        assert(all.take(i as int + 1) =~= all.take(i as int).push(all[i as int]));
    }
    assert(all.take(all.len() as int) =~= all);
    terms
}

/// The rule that projects a relation to the present.
fn make_projection(relation: &str, head: &[&str], base: &str, terms: &[&str]) -> (rule: Rule)
    ensures
        rule@ == projection(relation@, variables(head@), base@, variables(terms@)),
{
    let ghost wanted = projection(relation@, variables(head@), base@, variables(terms@));
    let head = Atom { pred: relation.to_owned(), args: list_variables(head) };
    let base = Atom { pred: base.to_owned(), args: list_variables(terms) };
    let time: Vec<Term> = vec![variable("T")];
    assert(engine::term_views(time@) =~= seq![TermView::Var("T"@)]);
    let now = Atom { pred: "now".to_owned(), args: time };
    let from = Guard {
        left: variable("VF"),
        comparison: Comparison::AtMost,
        right: variable("T"),
    };
    let to = Guard { left: variable("T"), comparison: Comparison::Below, right: variable("VT") };
    let body: Vec<Atom> = vec![base, now];
    let guards: Vec<Guard> = vec![from, to];
    assert(clause::atom_views(body@) =~= wanted.body);
    assert(clause::guard_views(guards@) =~= wanted.guards);
    Rule { head, body, guards }
}

/// The default rules and those that were added to them.
pub fn list_rules(added: &Vec<Rule>) -> (rules: Vec<Rule>)
    ensures
        clause::rule_views(rules@) == all_rules(clause::rule_views(added@)),
{
    let ghost more = clause::rule_views(added@);
    let triple_names = ["E", "R", "O"];
    let edge_names = ["E", "R", "O", "VF", "VT", "_"];
    let any_names = ["_", "E", "R", "O", "VF", "VT", "_"];
    let scope_names = ["S", "E", "R", "O"];
    let scoped_names = ["S", "E", "R", "O", "VF", "VT", "_"];
    proof {
        assert(variables(triple_names@) =~= triple());
        assert(variables(edge_names@) =~= triple() + times());
        assert(variables(any_names@) =~= seq![TermView::Var("_"@)] + triple() + times());
        assert(variables(scope_names@) =~= seq![TermView::Var("S"@)] + triple());
        assert(variables(scoped_names@) =~= seq![TermView::Var("S"@)] + triple() + times());
    }
    let mut rules: Vec<Rule> = vec![
        make_projection("current", &triple_names, "edge", &edge_names),
        make_projection("current", &triple_names, "scoped_edge", &any_names),
        make_projection("scoped_current", &scope_names, "scoped_edge", &scoped_names),
    ];
    assert(clause::rule_views(rules@) =~= default_rules());
    let mut copy: Vec<Rule> = clause::copy_rules(added);
    rules.append(&mut copy);
    assert(clause::rule_views(rules@) =~= all_rules(more));
    rules
}

} // verus!
