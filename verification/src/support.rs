//! What the rows that hold rest on.
//!
//! A row rests on the rows that a derivation of it uses, and on those that they rest on. The facts
//! among them support it.

use vstd::prelude::*;
use vstd::set_lib::*;

use crate::clause;
use crate::clause::{AtomView, Rule, RuleView};
use crate::datalog;
use crate::datalog::{Match, Row, RowView};
use crate::engine;
use crate::engine::{Ann, AnnView, Engine, EngineView, Fact, FactView, Value};
use crate::snapshot::ValueView;
use crate::text;

verus! {

/// The rows that a body asks for with the given keys.
pub open spec fn body_rows(body: Seq<AtomView>, keys: Seq<Seq<ValueView>>) -> Seq<RowView> {
    Seq::new(body.len(), |i: int| RowView { pred: body[i].pred, key: keys[i] })
}

/// Whether all of some rows follow.
pub open spec fn rows_follow(
    engine: EngineView,
    rules: Seq<RuleView>,
    rows: Seq<RowView>,
) -> bool {
    forall|i: int| 0 <= i < rows.len() ==> datalog::follows(engine, rules, #[trigger] rows[i])
}

/// Whether a rule gives a row of rows that follow, and another row is one of them.
pub open spec fn rule_uses(
    engine: EngineView,
    rules: Seq<RuleView>,
    rule: RuleView,
    row: RowView,
    other: RowView,
) -> bool {
    exists|keys: Seq<Seq<ValueView>>|
        #[trigger] datalog::derives(rule, keys, row) && rows_follow(
            engine,
            rules,
            body_rows(rule.body, keys),
        ) && body_rows(rule.body, keys).contains(other)
}

/// Whether one of the rules uses a row for another.
pub open spec fn uses(
    engine: EngineView,
    rules: Seq<RuleView>,
    row: RowView,
    other: RowView,
) -> bool {
    exists|j: int|
        0 <= j < rules.len() && rule_uses(engine, rules, #[trigger] rules[j], row, other)
}

/// Whether a set has, with each row, those that are used for it.
pub open spec fn closed_back(
    engine: EngineView,
    rules: Seq<RuleView>,
    rows: Set<RowView>,
) -> bool {
    forall|row: RowView, other: RowView|
        rows.contains(row) && #[trigger] uses(engine, rules, row, other) ==> rows.contains(other)
}

/// Whether a row rests on another: it is the other, or the other is used for it, or for a row that
/// it rests on.
pub open spec fn rests_on(
    engine: EngineView,
    rules: Seq<RuleView>,
    row: RowView,
    other: RowView,
) -> bool {
    forall|rows: Set<RowView>| #[trigger]
        closed_back(engine, rules, rows) && rows.contains(row) ==> rows.contains(other)
}

/// Those of some facts that a row rests on.
pub open spec fn supporting(
    engine: EngineView,
    rules: Seq<RuleView>,
    facts: Seq<FactView>,
    row: RowView,
) -> Seq<FactView>
    decreases facts.len(),
{
    if facts.len() == 0 {
        seq![]
    } else {
        let fewer = supporting(engine, rules, facts.drop_last(), row);
        let last = facts.last();
        if rests_on(engine, rules, row, RowView { pred: last.pred, key: last.key }) {
            fewer.push(last)
        } else {
            fewer
        }
    }
}

/// The annotation of what facts support: their confidences and their references.
pub open spec fn ann_of(facts: Seq<FactView>) -> AnnView
    decreases facts.len(),
{
    if facts.len() == 0 {
        AnnView { conf: seq![], prov: seq![] }
    } else {
        ann_of(facts.drop_last()).merged(facts.last().ann)
    }
}

/// What is used for a row that a row rests on is what it rests on.
pub proof fn lemma_rests_further(
    engine: EngineView,
    rules: Seq<RuleView>,
    row: RowView,
    middle: RowView,
    other: RowView,
)
    requires
        rests_on(engine, rules, row, middle),
        uses(engine, rules, middle, other),
    ensures
        rests_on(engine, rules, row, other),
{
    assert forall|rows: Set<RowView>| #[trigger]
        closed_back(engine, rules, rows) && rows.contains(row) implies rows.contains(other) by {
        assert(rows.contains(middle));
    }
}

/// A row that is used follows, and so does what it is used for.
pub proof fn lemma_used_follows(
    engine: EngineView,
    rules: Seq<RuleView>,
    row: RowView,
    other: RowView,
)
    requires
        uses(engine, rules, row, other),
    ensures
        datalog::follows(engine, rules, row),
        datalog::follows(engine, rules, other),
{
    let j = choose|j: int|
        0 <= j < rules.len() && rule_uses(engine, rules, #[trigger] rules[j], row, other);
    let rule = rules[j];
    let keys = choose|keys: Seq<Seq<ValueView>>|
        #[trigger] datalog::derives(rule, keys, row) && rows_follow(
            engine,
            rules,
            body_rows(rule.body, keys),
        ) && body_rows(rule.body, keys).contains(other);
    let rows = body_rows(rule.body, keys);
    let i = choose|i: int| 0 <= i < rows.len() && rows[i] == other;
    assert(datalog::follows(engine, rules, rows[i]));
    assert forall|i: int| 0 <= i < rules[j].body.len() implies datalog::follows(
        engine,
        rules,
        RowView { pred: rules[j].body[i].pred, key: #[trigger] keys[i] },
    ) by {
        assert(rows[i] == RowView { pred: rules[j].body[i].pred, key: keys[i] });
    }
    datalog::rule_gives_its_row(engine, rules, j, keys, row);
}

/// What rows rest on is told by the facts, the time and the rules.
pub proof fn lemma_same_support(
    a: EngineView,
    b: EngineView,
    rules: Seq<RuleView>,
    facts: Seq<FactView>,
    row: RowView,
)
    requires
        a.facts == b.facts,
        a.now == b.now,
    ensures
        supporting(a, rules, facts, row) == supporting(b, rules, facts, row),
    decreases facts.len(),
{
    if facts.len() > 0 {
        lemma_same_support(a, b, rules, facts.drop_last(), row);
        let last = facts.last();
        let other = RowView { pred: last.pred, key: last.key };
        if rests_on(a, rules, row, other) {
            lemma_same_rest(a, b, rules, row, other);
        } else if rests_on(b, rules, row, other) {
            lemma_same_rest(b, a, rules, row, other);
        }
    }
}

proof fn lemma_same_rest(
    a: EngineView,
    b: EngineView,
    rules: Seq<RuleView>,
    row: RowView,
    other: RowView,
)
    requires
        a.facts == b.facts,
        a.now == b.now,
        rests_on(a, rules, row, other),
    ensures
        rests_on(b, rules, row, other),
{
    assert forall|rows: Set<RowView>| #[trigger]
        closed_back(b, rules, rows) && rows.contains(row) implies rows.contains(other) by {
        assert forall|x: RowView, y: RowView|
            rows.contains(x) && #[trigger] uses(a, rules, x, y) implies rows.contains(y) by {
            lemma_same_use(a, b, rules, x, y);
        }
        assert(closed_back(a, rules, rows));
    }
}

proof fn lemma_same_use(
    a: EngineView,
    b: EngineView,
    rules: Seq<RuleView>,
    row: RowView,
    other: RowView,
)
    requires
        a.facts == b.facts,
        a.now == b.now,
        uses(a, rules, row, other),
    ensures
        uses(b, rules, row, other),
{
    let j = choose|j: int|
        0 <= j < rules.len() && rule_uses(a, rules, #[trigger] rules[j], row, other);
    let rule = rules[j];
    let keys = choose|keys: Seq<Seq<ValueView>>|
        #[trigger] datalog::derives(rule, keys, row) && rows_follow(
            a,
            rules,
            body_rows(rule.body, keys),
        ) && body_rows(rule.body, keys).contains(other);
    let parts = body_rows(rule.body, keys);
    assert forall|i: int| 0 <= i < parts.len() implies datalog::follows(
        b,
        rules,
        #[trigger] parts[i],
    ) by {
        datalog::lemma_same_rows(a, b, rules, parts[i]);
    }
    assert(rows_follow(b, rules, parts));
    assert(rule_uses(b, rules, rules[j], row, other));
}

// ------------------------------------------------------------------ steps
/// A row and the rows that a rule uses for it.
pub struct Step {
    pub row: Row,
    pub parts: Vec<Row>,
}

/// A step, as a view.
#[verifier::ext_equal]
pub struct StepView {
    pub row: RowView,
    pub parts: Seq<RowView>,
}

/// Steps, as views.
pub open spec fn step_views(names: Seq<Seq<char>>, steps: Seq<Step>) -> Seq<StepView> {
    steps.map_values(
        |step: Step|
            StepView {
                row: datalog::row_view(names, step.row),
                parts: datalog::row_views(names, step.parts@),
            },
    )
}

/// Whether the values of all rows of steps are known.
pub open spec fn known_steps(names: Seq<Seq<char>>, steps: Seq<Step>) -> bool {
    forall|i: int|
        0 <= i < steps.len() ==> engine::known_key(names, (#[trigger] steps[i]).row.key@)
            && datalog::known_rows(names, steps[i].parts@)
}

/// Whether one of some steps uses a row for another.
pub open spec fn step_uses(steps: Seq<StepView>, row: RowView, other: RowView) -> bool {
    exists|k: int|
        0 <= k < steps.len() && (#[trigger] steps[k]).row == row && steps[k].parts.contains(other)
}

/// Steps with one more use what they used, and what it does.
proof fn lemma_step_push(
    steps: Seq<StepView>,
    step: StepView,
    row: RowView,
    other: RowView,
)
    ensures
        step_uses(steps.push(step), row, other) <==> step_uses(steps, row, other) || (step.row
            == row && step.parts.contains(other)),
{
    let longer = steps.push(step);
    if step_uses(steps, row, other) {
        let k = choose|k: int|
            0 <= k < steps.len() && (#[trigger] steps[k]).row == row && steps[k].parts.contains(
                other,
            );
        assert(longer[k] == steps[k]);
    }
    if step.row == row && step.parts.contains(other) {
        assert(longer[steps.len() as int] == step);
    }
    if step_uses(longer, row, other) {
        let k = choose|k: int|
            0 <= k < longer.len() && (#[trigger] longer[k]).row == row && longer[k].parts.contains(
                other,
            );
        if k < steps.len() {
            assert(longer[k] == steps[k]);
        }
    }
}

/// Lists the rows that a body asks for with the keys of a match.
fn list_parts(rule: &Rule, found: &Match, Ghost(names): Ghost<Seq<Seq<char>>>) -> (parts: Vec<Row>)
    requires
        datalog::is_match(names, rule@.body, *found),
    ensures
        datalog::known_rows(names, parts@),
        datalog::row_views(names, parts@) == body_rows(
            rule@.body,
            datalog::key_views(names, found.keys@),
        ),
{
    let ghost keys = datalog::key_views(names, found.keys@);
    let ghost all = body_rows(rule@.body, keys);
    assert(keys.len() == rule@.body.len());
    let mut parts: Vec<Row> = Vec::new();
    assert(datalog::row_views(names, parts@) =~= all.take(0));
    for i in 0..rule.body.len()
        invariant
            datalog::known_keys(names, found.keys@),
            keys == datalog::key_views(names, found.keys@),
            keys.len() == rule@.body.len(),
            all == body_rows(rule@.body, keys),
            datalog::known_rows(names, parts@),
            datalog::row_views(names, parts@) == all.take(i as int),
    {
        let ghost before = datalog::row_views(names, parts@);
        assert(engine::known_key(names, found.keys@[i as int]@));
        assert(keys[i as int] == engine::key_view(names, found.keys@[i as int]@));
        assert(rule@.body[i as int] == rule.body@[i as int]@);
        parts.push(
            Row {
                pred: rule.body[i].pred.as_str().to_owned(),
                key: engine::copy_key(&found.keys[i]),
            },
        );
        assert(datalog::row_views(names, parts@) =~= before.push(all[i as int]));
        assert(all.take(i as int + 1) =~= all.take(i as int).push(all[i as int]));
    }
    assert(all.take(all.len() as int) =~= all);
    parts
}

/// The row with a key that was found.
spec fn head_row(
    names: Seq<Seq<char>>,
    pred: Seq<char>,
    head: Option<Vec<Value>>,
) -> Option<RowView> {
    match head {
        Some(key) => Some(RowView { pred, key: engine::key_view(names, key@) }),
        None => None,
    }
}

/// Adds the steps of a rule.
fn add_steps(
    engine: &Engine,
    rules: &Vec<Rule>,
    j: usize,
    derived: &Vec<Row>,
    steps: &mut Vec<Step>,
)
    requires
        engine.wf(),
        j < rules@.len(),
        datalog::known_rules(engine@.names, clause::rule_views(rules@)),
        datalog::known_rows(engine@.names, derived@),
        forall|row: RowView|
            datalog::follows(engine@, clause::rule_views(rules@), row)
                <==> #[trigger] datalog::present(
                engine@,
                datalog::row_views(engine@.names, derived@),
                row,
            ),
        known_steps(engine@.names, old(steps)@),
    ensures
        known_steps(engine@.names, final(steps)@),
        forall|row: RowView, other: RowView|
            #[trigger] step_uses(step_views(engine@.names, final(steps)@), row, other)
                <==> step_uses(step_views(engine@.names, old(steps)@), row, other) || rule_uses(
                engine@,
                clause::rule_views(rules@),
                clause::rule_views(rules@)[j as int],
                row,
                other,
            ),
{
    let ghost names = engine@.names;
    let ghost all = clause::rule_views(rules@);
    let ghost rule = all[j as int];
    let ghost rows = datalog::row_views(names, derived@);
    let ghost first = step_views(names, steps@);
    assert(rule == rules@[j as int]@);
    if rules[j].body.len() == 0 && rules[j].guards.len() == 0 {
        return;
    }
    assert(!rule.is_fact());
    assert(datalog::known_terms(names, rule.head.args) && datalog::known_guards(
        names,
        rule.guards,
    ));
    let found: Vec<Match> = datalog::solve(engine, derived, &rules[j].body);
    let ghost said = datalog::matched(names, found@);
    for i in 0..found.len()
        invariant
            engine.wf(),
            j < rules@.len(),
            names == engine@.names,
            all == clause::rule_views(rules@),
            rule == all[j as int],
            rule == rules@[j as int]@,
            !rule.is_fact(),
            datalog::known_terms(names, rule.head.args),
            datalog::known_guards(names, rule.guards),
            datalog::all_match(names, rule.body, found@),
            said == datalog::matched(names, found@),
            known_steps(names, steps@),
            forall|row: RowView, other: RowView|
                #[trigger] step_uses(step_views(names, steps@), row, other) <==> step_uses(
                    first,
                    row,
                    other,
                ) || exists|k: int|
                    0 <= k < i && datalog::derives(rule, #[trigger] said[k], row) && body_rows(
                        rule.body,
                        said[k],
                    ).contains(other),
    {
        let ghost before = step_views(names, steps@);
        let ghost chosen = said[i as int];
        assert(datalog::is_match(names, rule.body, found@[i as int]));
        assert(chosen == datalog::key_views(names, found@[i as int].keys@));
        let head: Option<Vec<Value>> = datalog::find_head(engine, &rules[j], &found[i]);
        let ghost given = head_row(names, rule.head.pred, head);
        assert forall|row: RowView| #[trigger]
            datalog::derives(rule, chosen, row) <==> given == Some(row) by {}
        if let Some(key) = head {
            let parts: Vec<Row> = list_parts(&rules[j], &found[i], Ghost(names));
            let ghost used = datalog::row_views(names, parts@);
            let row = Row { pred: rules[j].head.pred.as_str().to_owned(), key };
            steps.push(Step { row, parts });
            assert(step_views(names, steps@) =~= before.push(
                StepView { row: given->0, parts: used },
            ));
        }
        proof {
            assert forall|row: RowView, other: RowView| #[trigger]
                step_uses(step_views(names, steps@), row, other) <==> step_uses(first, row, other)
                    || exists|k: int|
                    0 <= k < i + 1 && datalog::derives(rule, #[trigger] said[k], row)
                        && body_rows(rule.body, said[k]).contains(other) by {
                if given is Some {
                    lemma_step_push(
                        before,
                        StepView { row: given->0, parts: body_rows(rule.body, chosen) },
                        row,
                        other,
                    );
                }
                assert(step_uses(step_views(names, steps@), row, other) <==> step_uses(
                    before,
                    row,
                    other,
                ) || (datalog::derives(rule, chosen, row) && body_rows(
                    rule.body,
                    chosen,
                ).contains(other)));
                assert(step_uses(before, row, other) <==> step_uses(first, row, other)
                    || exists|k: int|
                    0 <= k < i && datalog::derives(rule, #[trigger] said[k], row) && body_rows(
                        rule.body,
                        said[k],
                    ).contains(other));
                if exists|k: int|
                    0 <= k < i && datalog::derives(rule, #[trigger] said[k], row) && body_rows(
                        rule.body,
                        said[k],
                    ).contains(other) {
                    let k = choose|k: int|
                        0 <= k < i && datalog::derives(rule, #[trigger] said[k], row)
                            && body_rows(rule.body, said[k]).contains(other);
                    assert(datalog::derives(rule, said[k], row));
                }
                if exists|k: int|
                    0 <= k < i + 1 && datalog::derives(rule, #[trigger] said[k], row)
                        && body_rows(rule.body, said[k]).contains(other) {
                    let k = choose|k: int|
                        0 <= k < i + 1 && datalog::derives(rule, #[trigger] said[k], row)
                            && body_rows(rule.body, said[k]).contains(other);
                    if k < i {
                        assert(datalog::derives(rule, said[k], row));
                    }
                }
                if datalog::derives(rule, chosen, row) && body_rows(rule.body, chosen).contains(
                    other,
                ) {
                    assert(datalog::derives(rule, said[i as int], row));
                }
            }
        }
    }
    proof {
        assert forall|row: RowView, other: RowView| #[trigger]
            step_uses(step_views(names, steps@), row, other) <==> step_uses(first, row, other)
                || rule_uses(engine@, all, rule, row, other) by {
            if exists|k: int|
                0 <= k < said.len() && datalog::derives(rule, #[trigger] said[k], row)
                    && body_rows(rule.body, said[k]).contains(other) {
                let k = choose|k: int|
                    0 <= k < said.len() && datalog::derives(rule, #[trigger] said[k], row)
                        && body_rows(rule.body, said[k]).contains(other);
                assert(said.contains(said[k]));
                assert(datalog::matches_body(engine@, rows, rule.body, said[k]));
                let parts = body_rows(rule.body, said[k]);
                assert forall|n: int| 0 <= n < parts.len() implies datalog::follows(
                    engine@,
                    all,
                    #[trigger] parts[n],
                ) by {
                    assert(datalog::present(
                        engine@,
                        rows,
                        RowView { pred: rule.body[n].pred, key: said[k][n] },
                    ));
                }
                assert(rows_follow(engine@, all, parts));
            }
            if rule_uses(engine@, all, rule, row, other) {
                let keys = choose|keys: Seq<Seq<ValueView>>|
                    #[trigger] datalog::derives(rule, keys, row) && rows_follow(
                        engine@,
                        all,
                        body_rows(rule.body, keys),
                    ) && body_rows(rule.body, keys).contains(other);
                let parts = body_rows(rule.body, keys);
                assert forall|n: int| 0 <= n < rule.body.len() implies datalog::present(
                    engine@,
                    rows,
                    RowView { pred: rule.body[n].pred, key: #[trigger] keys[n] },
                ) by {
                    assert(datalog::follows(engine@, all, parts[n]));
                }
                assert(datalog::matches_body(engine@, rows, rule.body, keys));
                assert(said.contains(keys));
                let k = choose|k: int| 0 <= k < said.len() && said[k] == keys;
                assert(datalog::derives(rule, said[k], row));
            }
        }
    }
}

/// Lists what rules use for the rows that follow.
pub fn list_steps(engine: &Engine, rules: &Vec<Rule>, derived: &Vec<Row>) -> (steps: Vec<Step>)
    requires
        engine.wf(),
        datalog::known_rules(engine@.names, clause::rule_views(rules@)),
        datalog::known_rows(engine@.names, derived@),
        forall|row: RowView|
            datalog::follows(engine@, clause::rule_views(rules@), row)
                <==> #[trigger] datalog::present(
                engine@,
                datalog::row_views(engine@.names, derived@),
                row,
            ),
    ensures
        known_steps(engine@.names, steps@),
        forall|row: RowView, other: RowView|
            #[trigger] step_uses(step_views(engine@.names, steps@), row, other) <==> uses(
                engine@,
                clause::rule_views(rules@),
                row,
                other,
            ),
{
    let ghost names = engine@.names;
    let ghost all = clause::rule_views(rules@);
    let mut steps: Vec<Step> = Vec::new();
    assert(step_views(names, steps@) =~= Seq::<StepView>::empty());
    for j in 0..rules.len()
        invariant
            engine.wf(),
            names == engine@.names,
            all == clause::rule_views(rules@),
            datalog::known_rules(names, all),
            datalog::known_rows(names, derived@),
            forall|row: RowView|
                datalog::follows(engine@, all, row) <==> #[trigger] datalog::present(
                    engine@,
                    datalog::row_views(names, derived@),
                    row,
                ),
            known_steps(names, steps@),
            forall|row: RowView, other: RowView|
                #[trigger] step_uses(step_views(names, steps@), row, other) <==> exists|k: int|
                    0 <= k < j && rule_uses(engine@, all, #[trigger] all[k], row, other),
    {
        let ghost before = step_views(names, steps@);
        add_steps(engine, rules, j, derived, &mut steps);
        proof {
            assert forall|row: RowView, other: RowView| #[trigger]
                step_uses(step_views(names, steps@), row, other) <==> exists|k: int|
                    0 <= k < j + 1 && rule_uses(engine@, all, #[trigger] all[k], row, other) by {
                assert(step_uses(step_views(names, steps@), row, other) <==> step_uses(
                    before,
                    row,
                    other,
                ) || rule_uses(engine@, all, all[j as int], row, other));
                if step_uses(before, row, other) {
                    let k = choose|k: int|
                        0 <= k < j && rule_uses(engine@, all, #[trigger] all[k], row, other);
                    assert(rule_uses(engine@, all, all[k], row, other));
                }
                if exists|k: int|
                    0 <= k < j + 1 && rule_uses(engine@, all, #[trigger] all[k], row, other) {
                    let k = choose|k: int|
                        0 <= k < j + 1 && rule_uses(engine@, all, #[trigger] all[k], row, other);
                    if k < j {
                        assert(step_uses(before, row, other));
                    }
                }
            }
        }
    }
    steps
}

// ------------------------------------------------------------------ trace
/// Whether a row is one of some rows.
fn has_row(
    rows: &Vec<Row>,
    pred: &str,
    key: &Vec<Value>,
    Ghost(names): Ghost<Seq<Seq<char>>>,
) -> (yes: bool)
    requires
        engine::distinct(names),
        datalog::known_rows(names, rows@),
        engine::known_key(names, key@),
    ensures
        yes == datalog::row_views(names, rows@).contains(
            RowView { pred: pred@, key: engine::key_view(names, key@) },
        ),
{
    let ghost all = datalog::row_views(names, rows@);
    let ghost wanted = RowView { pred: pred@, key: engine::key_view(names, key@) };
    for i in 0..rows.len()
        invariant
            engine::distinct(names),
            datalog::known_rows(names, rows@),
            engine::known_key(names, key@),
            all == datalog::row_views(names, rows@),
            wanted == (RowView { pred: pred@, key: engine::key_view(names, key@) }),
            forall|j: int| 0 <= j < i ==> all[j] != wanted,
    {
        assert(engine::known_key(names, rows@[i as int].key@));
        assert(all[i as int] == datalog::row_view(names, rows@[i as int]));
        proof {
            engine::lemma_keys(names, rows@[i as int].key@, key@);
        }
        if text::same_text(rows[i].pred.as_str(), pred) && engine::same_key(&rows[i].key, key) {
            assert(all.contains(wanted));
            return true;
        }
    }
    false
}

/// Whether steps tell what is used for the rows that a row rests on.
pub open spec fn steps_tell(
    engine: EngineView,
    rules: Seq<RuleView>,
    steps: Seq<StepView>,
    row: RowView,
) -> bool {
    forall|middle: RowView, other: RowView|
        rests_on(engine, rules, row, middle) ==> (#[trigger] step_uses(steps, middle, other)
            <==> uses(engine, rules, middle, other))
}

/// Whether the rows of a trace are those that a row rests on, each once, and those used for the
/// first of them are there.
spec fn traced(
    engine: EngineView,
    rules: Seq<RuleView>,
    row: RowView,
    rows: Seq<RowView>,
    n: int,
) -> bool {
    &&& rows.contains(row)
    &&& rows.no_duplicates()
    &&& forall|i: int| 0 <= i < rows.len() ==> rests_on(engine, rules, row, #[trigger] rows[i])
    &&& forall|i: int, other: RowView|
        0 <= i < n && #[trigger] uses(engine, rules, rows[i], other) ==> rows.contains(other)
}

/// What a row rests on is finitely many rows.
proof fn lemma_trace_bounded(
    engine: EngineView,
    rules: Seq<RuleView>,
    row: RowView,
    rows: Seq<RowView>,
)
    requires
        rows.no_duplicates(),
        forall|i: int|
            0 <= i < rows.len() ==> rests_on(engine, rules, row, #[trigger] rows[i]),
    ensures
        rows.len() <= Set::new(
            |other: RowView| datalog::follows(engine, rules, other),
        ).insert(row).len(),
{
    let held = Set::new(|other: RowView| datalog::follows(engine, rules, other));
    let all = held.insert(row);
    datalog::what_follows_is_finite(engine, rules);
    assert(closed_back(engine, rules, all)) by {
        assert forall|a: RowView, b: RowView|
            all.contains(a) && #[trigger] uses(engine, rules, a, b) implies all.contains(b) by {
            lemma_used_follows(engine, rules, a, b);
        }
    }
    rows.unique_seq_to_set();
    assert forall|other: RowView| rows.to_set().contains(other) implies #[trigger] all.contains(
        other,
    ) by {
        let i = choose|i: int| 0 <= i < rows.len() && rows[i] == other;
        assert(rests_on(engine, rules, row, rows[i]));
    }
    assert(rows.to_set().subset_of(all));
    lemma_len_subset(rows.to_set(), all);
}

/// A row that is new can be added to a trace.
proof fn lemma_traced_push(
    engine: EngineView,
    rules: Seq<RuleView>,
    row: RowView,
    rows: Seq<RowView>,
    n: int,
    other: RowView,
)
    requires
        traced(engine, rules, row, rows, n),
        0 <= n <= rows.len(),
        !rows.contains(other),
        rests_on(engine, rules, row, other),
    ensures
        traced(engine, rules, row, rows.push(other), n),
{
    let longer = rows.push(other);
    datalog::lemma_push_holds(rows, other, row);
    assert forall|i: int| 0 <= i < longer.len() implies rests_on(
        engine,
        rules,
        row,
        #[trigger] longer[i],
    ) by {
        if i < rows.len() {
            assert(longer[i] == rows[i]);
        }
    }
    assert forall|i: int, k: int|
        0 <= i < longer.len() && 0 <= k < longer.len() && i != k implies longer[i]
        != longer[k] by {
        if i < rows.len() {
            assert(longer[i] == rows[i]);
            assert(rows.contains(rows[i]));
        }
        if k < rows.len() {
            assert(longer[k] == rows[k]);
            assert(rows.contains(rows[k]));
        }
    }
    assert forall|i: int, o: RowView|
        0 <= i < n && #[trigger] uses(engine, rules, longer[i], o) implies longer.contains(o) by {
        assert(longer[i] == rows[i]);
        assert(uses(engine, rules, rows[i], o));
        datalog::lemma_push_holds(rows, other, o);
    }
}

/// Finds the rows that a row rests on.
pub fn trace(
    engine: &Engine,
    Ghost(rules): Ghost<Seq<RuleView>>,
    steps: &Vec<Step>,
    pred: &str,
    key: &Vec<Value>,
) -> (rows: Vec<Row>)
    requires
        engine.wf(),
        engine::known_key(engine@.names, key@),
        known_steps(engine@.names, steps@),
        steps_tell(
            engine@,
            rules,
            step_views(engine@.names, steps@),
            RowView { pred: pred@, key: engine::key_view(engine@.names, key@) },
        ),
    ensures
        datalog::known_rows(engine@.names, rows@),
        forall|other: RowView|
            #[trigger] datalog::row_views(engine@.names, rows@).contains(other) <==> rests_on(
                engine@,
                rules,
                RowView { pred: pred@, key: engine::key_view(engine@.names, key@) },
                other,
            ),
{
    let ghost names = engine@.names;
    let ghost row = RowView { pred: pred@, key: engine::key_view(names, key@) };
    let ghost said = step_views(names, steps@);
    let ghost bound = Set::new(
        |other: RowView| datalog::follows(engine@, rules, other),
    ).insert(row).len();
    proof {
        engine.lemma_distinct();
    }
    let mut rows: Vec<Row> = Vec::new();
    rows.push(Row { pred: pred.to_owned(), key: engine::copy_key(key) });
    assert(datalog::row_views(names, rows@) =~= seq![row]);
    assert(datalog::row_views(names, rows@)[0] == row);
    let mut i: usize = 0;
    while i < rows.len()
        invariant
            engine.wf(),
            names == engine@.names,
            engine::distinct(names),
            known_steps(names, steps@),
            said == step_views(names, steps@),
            steps_tell(engine@, rules, said, row),
            i <= rows@.len(),
            datalog::known_rows(names, rows@),
            traced(engine@, rules, row, datalog::row_views(names, rows@), i as int),
            bound == Set::new(
                |other: RowView| datalog::follows(engine@, rules, other),
            ).insert(row).len(),
        decreases bound - rows@.len(), rows@.len() - i,
    {
        let ghost start = datalog::row_views(names, rows@);
        let ghost middle = start[i as int];
        assert(middle == datalog::row_view(names, rows@[i as int]));
        assert(engine::known_key(names, rows@[i as int].key@));
        let own: Row = Row {
            pred: rows[i].pred.as_str().to_owned(),
            key: engine::copy_key(&rows[i].key),
        };
        for k in 0..steps.len()
            invariant
                engine::distinct(names),
                known_steps(names, steps@),
                said == step_views(names, steps@),
                steps_tell(engine@, rules, said, row),
                engine::known_key(names, own.key@),
                middle == datalog::row_view(names, own),
                rests_on(engine@, rules, row, middle),
                i < start.len(),
                start.len() <= rows@.len(),
                datalog::known_rows(names, rows@),
                datalog::row_views(names, rows@)[i as int] == middle,
                traced(engine@, rules, row, datalog::row_views(names, rows@), i as int),
                forall|n: int, other: RowView|
                    0 <= n < k && (#[trigger] said[n]).row == middle
                        && #[trigger] said[n].parts.contains(other) ==> datalog::row_views(
                        names,
                        rows@,
                    ).contains(other),
        {
            assert(engine::known_key(names, steps@[k as int].row.key@));
            assert(datalog::known_rows(names, steps@[k as int].parts@));
            let ghost step = said[k as int];
            assert(step.row == datalog::row_view(names, steps@[k as int].row));
            proof {
                engine::lemma_keys(names, steps@[k as int].row.key@, own.key@);
            }
            let same: bool = text::same_text(steps[k].row.pred.as_str(), own.pred.as_str());
            if same && engine::same_key(&steps[k].row.key, &own.key) {
                let arity: usize = steps[k].parts.len();
                for n in 0..arity
                    invariant
                        engine::distinct(names),
                        k < steps@.len(),
                        arity == steps@[k as int].parts@.len(),
                        datalog::known_rows(names, steps@[k as int].parts@),
                        said == step_views(names, steps@),
                        step == said[k as int],
                        step.row == middle,
                        steps_tell(engine@, rules, said, row),
                        rests_on(engine@, rules, row, middle),
                        i < start.len(),
                        start.len() <= rows@.len(),
                        datalog::known_rows(names, rows@),
                        datalog::row_views(names, rows@)[i as int] == middle,
                        traced(engine@, rules, row, datalog::row_views(names, rows@), i as int),
                        forall|m: int| #![trigger step.parts[m]]
                            0 <= m < n ==> datalog::row_views(names, rows@).contains(
                                step.parts[m],
                            ),
                        forall|m: int, other: RowView|
                            0 <= m < k && (#[trigger] said[m]).row == middle
                                && #[trigger] said[m].parts.contains(other) ==> datalog::row_views(
                                names,
                                rows@,
                            ).contains(other),
                {
                    let ghost before = datalog::row_views(names, rows@);
                    let ghost part = step.parts[n as int];
                    assert(engine::known_key(names, steps@[k as int].parts@[n as int].key@));
                    assert(part == datalog::row_view(names, steps@[k as int].parts@[n as int]));
                    let known: bool = has_row(
                        &rows,
                        steps[k].parts[n].pred.as_str(),
                        &steps[k].parts[n].key,
                        Ghost(names),
                    );
                    if !known {
                        proof {
                            assert(step.parts.contains(part));
                            assert(step_uses(said, middle, part));
                            lemma_rests_further(engine@, rules, row, middle, part);
                            lemma_traced_push(engine@, rules, row, before, i as int, part);
                        }
                        datalog::push_row(
                            &mut rows,
                            steps[k].parts[n].pred.as_str(),
                            engine::copy_key(&steps[k].parts[n].key),
                            Ghost(names),
                        );
                        assert(datalog::row_views(names, rows@).len() == rows@.len());
                        assert(before.len() >= start.len());
                        proof {
                            assert forall|m: int| #![trigger step.parts[m]]
                                0 <= m < n + 1 implies datalog::row_views(names, rows@).contains(
                                step.parts[m],
                            ) by {
                                datalog::lemma_push_holds(before, part, step.parts[m]);
                            }
                            assert forall|m: int, other: RowView|
                                0 <= m < k && (#[trigger] said[m]).row == middle
                                    && #[trigger] said[m].parts.contains(
                                    other,
                                ) implies datalog::row_views(names, rows@).contains(other) by {
                                datalog::lemma_push_holds(before, part, other);
                            }
                        }
                    }
                }
                assert forall|other: RowView| step.parts.contains(
                    other,
                ) implies #[trigger] datalog::row_views(names, rows@).contains(other) by {
                    let m = choose|m: int| 0 <= m < step.parts.len() && step.parts[m] == other;
                    assert(datalog::row_views(names, rows@).contains(step.parts[m]));
                }
            }
        }
        proof {
            let now = datalog::row_views(names, rows@);
            assert forall|m: int, other: RowView|
                0 <= m < i + 1 && #[trigger] uses(engine@, rules, now[m], other) implies now.contains(
                other,
            ) by {
                if m == i {
                    assert(uses(engine@, rules, middle, other));
                    assert(step_uses(said, middle, other));
                    let k = choose|k: int|
                        0 <= k < said.len() && (#[trigger] said[k]).row == middle
                            && said[k].parts.contains(other);
                    assert(said[k].parts.contains(other));
                }
            }
            lemma_trace_bounded(engine@, rules, row, now);
            assert(now.len() == rows@.len());
        }
        i = i + 1;
    }
    proof {
        let now = datalog::row_views(names, rows@);
        assert forall|other: RowView| #[trigger] now.contains(other) <==> rests_on(
            engine@,
            rules,
            row,
            other,
        ) by {
            if now.contains(other) {
                let k = choose|k: int| 0 <= k < now.len() && now[k] == other;
                assert(rests_on(engine@, rules, row, now[k]));
            }
            if rests_on(engine@, rules, row, other) {
                let all = now.to_set();
                assert(closed_back(engine@, rules, all)) by {
                    assert forall|a: RowView, b: RowView|
                        all.contains(a) && #[trigger] uses(
                            engine@,
                            rules,
                            a,
                            b,
                        ) implies all.contains(b) by {
                        let k = choose|k: int| 0 <= k < now.len() && now[k] == a;
                        assert(uses(engine@, rules, now[k], b));
                    }
                }
                assert(all.contains(row));
            }
        }
    }
    rows
}

/// Finds the facts that a row rests on.
pub fn find_support(
    engine: &Engine,
    Ghost(rules): Ghost<Seq<RuleView>>,
    steps: &Vec<Step>,
    pred: &str,
    key: &Vec<Value>,
) -> (facts: Vec<Fact>)
    requires
        engine.wf(),
        engine::known_key(engine@.names, key@),
        known_steps(engine@.names, steps@),
        steps_tell(
            engine@,
            rules,
            step_views(engine@.names, steps@),
            RowView { pred: pred@, key: engine::key_view(engine@.names, key@) },
        ),
    ensures
        engine::known_facts(engine@.names, facts@),
        engine::fact_views(engine@.names, facts@) == supporting(
            engine@,
            rules,
            engine@.facts,
            RowView { pred: pred@, key: engine::key_view(engine@.names, key@) },
        ),
{
    let ghost names = engine@.names;
    let ghost row = RowView { pred: pred@, key: engine::key_view(names, key@) };
    let ghost all = engine@.facts;
    let rows: Vec<Row> = trace(engine, Ghost(rules), steps, pred, key);
    proof {
        engine.lemma_distinct();
    }
    let stored = engine.facts();
    let mut facts: Vec<Fact> = Vec::new();
    assert(engine::fact_views(names, facts@) =~= seq![]);
    for i in 0..stored.len()
        invariant
            engine::distinct(names),
            engine::known_facts(names, stored@),
            all == engine::fact_views(names, stored@),
            all == engine@.facts,
            datalog::known_rows(names, rows@),
            forall|other: RowView|
                #[trigger] datalog::row_views(names, rows@).contains(other) <==> rests_on(
                    engine@,
                    rules,
                    row,
                    other,
                ),
            engine::known_facts(names, facts@),
            engine::fact_views(names, facts@) == supporting(
                engine@,
                rules,
                all.take(i as int),
                row,
            ),
    {
        assert(all.take(i as int + 1).drop_last() =~= all.take(i as int));
        assert(engine::known_key(names, stored@[i as int].key@));
        assert(all[i as int] == engine::fact_view(names, stored@[i as int]));
        if has_row(&rows, stored[i].pred.as_str(), &stored[i].key, Ghost(names)) {
            let ghost before = engine::fact_views(names, facts@);
            facts.push(stored[i].copy());
            assert(engine::fact_views(names, facts@) =~= before.push(all[i as int]));
        }
    }
    assert(all.take(all.len() as int) =~= all);
    facts
}

/// Merges the annotations of facts.
pub fn merge_all(facts: &Vec<Fact>, Ghost(names): Ghost<Seq<Seq<char>>>) -> (ann: Ann)
    ensures
        ann@ == ann_of(engine::fact_views(names, facts@)),
{
    let ghost all = engine::fact_views(names, facts@);
    let mut ann = Ann { conf: Vec::new(), prov: Vec::new() };
    assert(ann@.conf =~= seq![] && ann@.prov =~= seq![]);
    for i in 0..facts.len()
        invariant
            all == engine::fact_views(names, facts@),
            ann@ == ann_of(all.take(i as int)),
    {
        assert(all.take(i as int + 1).drop_last() =~= all.take(i as int));
        assert(all[i as int] == engine::fact_view(names, facts@[i as int]));
        ann.merge(&facts[i].ann);
    }
    assert(all.take(all.len() as int) =~= all);
    ann
}

} // verus!
