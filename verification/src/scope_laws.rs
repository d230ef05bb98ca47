//! What is seen of a memory in a scope, and what the commands say.

use vstd::prelude::*;

use crate::agent::{MemoryView, ReportView};
use crate::cli;
use crate::cli::{AskView, Place, Scope};
use crate::engine;
use crate::engine::FactView;
use crate::number;
use crate::policy_laws;
use crate::protocol::CandidateView;
use crate::search::PolicyView;
use crate::snapshot::ValueView;
use crate::text;
use crate::text_laws;

verus! {

/// Whether a fact is seen where one reads in a scope: everything of the whole memory; what is shared,
/// of the workspace; and what is shared or the repository's own, of a repository. Facts without a
/// scope belong to a repository that has no marker. What is no statement is seen everywhere.
pub open spec fn seen(fact: FactView, identity: Seq<char>, marked: bool, scope: Scope) -> bool {
    if scope == Scope::All {
        true
    } else if fact.pred == "scoped_edge"@ && fact.key.len() == 7 {
        ||| fact.key[0] == ValueView::Symbol("workspace"@)
        ||| scope == Scope::Repository && fact.key[0] == ValueView::Symbol(
            "repository:"@ + identity,
        )
    } else if fact.pred == "edge"@ && fact.key.len() == 6 {
        scope == Scope::Repository && !marked
    } else {
        true
    }
}

proof fn lemma_in_scopes(facts: Seq<FactView>, scopes: Seq<Seq<char>>)
    ensures
        engine::in_scopes(facts, scopes) == facts.filter(
            |fact: FactView| !engine::out_of_scope(fact, scopes),
        ),
    decreases facts.len(),
{
    reveal(Seq::filter);
    if facts.len() > 0 {
        lemma_in_scopes(facts.drop_last(), scopes);
    }
}

proof fn lemma_scoped(facts: Seq<FactView>)
    ensures
        engine::without_unscoped(facts) == facts.filter(|fact: FactView| !engine::unscoped(fact)),
    decreases facts.len(),
{
    reveal(Seq::filter);
    if facts.len() > 0 {
        lemma_scoped(facts.drop_last());
    }
}

proof fn lemma_filters(
    facts: Seq<FactView>,
    first: spec_fn(FactView) -> bool,
    second: spec_fn(FactView) -> bool,
    both: spec_fn(FactView) -> bool,
)
    requires
        forall|fact: FactView| #[trigger] both(fact) <==> first(fact) && second(fact),
    ensures
        facts.filter(first).filter(second) == facts.filter(both),
    decreases facts.len(),
{
    reveal(Seq::filter);
    if facts.len() > 0 {
        let fewer = facts.drop_last();
        let last = facts.last();
        lemma_filters(fewer, first, second, both);
        if first(last) {
            assert(facts.filter(first).drop_last() =~= fewer.filter(first));
        }
        assert(both(last) <==> first(last) && second(last));
    }
}

proof fn lemma_same_filter(
    facts: Seq<FactView>,
    a: spec_fn(FactView) -> bool,
    b: spec_fn(FactView) -> bool,
)
    requires
        forall|fact: FactView| #[trigger] a(fact) <==> b(fact),
    ensures
        facts.filter(a) == facts.filter(b),
    decreases facts.len(),
{
    reveal(Seq::filter);
    if facts.len() > 0 {
        lemma_same_filter(facts.drop_last(), a, b);
        assert(a(facts.last()) <==> b(facts.last()));
    }
}

proof fn lemma_one(a: Seq<char>, x: Seq<char>)
    ensures
        seq![a].contains(x) <==> x == a,
{
    assert(seq![a][0] == a);
}

proof fn lemma_two(a: Seq<char>, b: Seq<char>, x: Seq<char>)
    ensures
        seq![a, b].contains(x) <==> x == a || x == b,
{
    assert(seq![a, b][0] == a);
    assert(seq![a, b][1] == b);
}

/// To read in a scope is to see the facts that are seen there, in their order, with what the memory
/// remembers besides.
pub proof fn reading_shows_what_is_seen(
    memory: MemoryView,
    identity: Seq<char>,
    marked: bool,
    scope: Scope,
)
    ensures
        ({
            let view = cli::restricted(memory, identity, marked, scope);
            &&& view.engine.facts == memory.engine.facts.filter(
                |fact: FactView| seen(fact, identity, marked, scope),
            )
            &&& view.engine.now == memory.engine.now
            &&& view.engine.rules == memory.engine.rules
            &&& view.episodes == memory.episodes
            &&& view.escalations == memory.escalations
            &&& view.rules == memory.rules
        }),
{
    let facts = memory.engine.facts;
    let own = |fact: FactView| seen(fact, identity, marked, scope);
    reveal_strlit("edge");
    reveal_strlit("scoped_edge");
    assert("edge"@.len() == 4 && "scoped_edge"@.len() == 11);
    let shared = "workspace"@;
    let local = "repository:"@ + identity;
    let kept = |fact: FactView| !engine::unscoped(fact);
    match scope {
        Scope::All => {
            lemma_all(facts, own);
        },
        Scope::Workspace => {
            let scopes = seq![shared];
            let within = |fact: FactView| !engine::out_of_scope(fact, scopes);
            lemma_in_scopes(facts, scopes);
            lemma_scoped(engine::in_scopes(facts, scopes));
            assert forall|fact: FactView| #[trigger] own(fact) <==> within(fact) && kept(fact) by {
                if let ValueView::Symbol(name) = fact.key[0] {
                    lemma_one(shared, name);
                }
            }
            lemma_filters(facts, within, kept, own);
        },
        Scope::Repository => {
            let scopes = seq![shared, local];
            let within = |fact: FactView| !engine::out_of_scope(fact, scopes);
            lemma_in_scopes(facts, scopes);
            lemma_scoped(engine::in_scopes(facts, scopes));
            assert forall|fact: FactView| #[trigger] own(fact) <==> within(fact) && (!marked
                || kept(fact)) by {
                if let ValueView::Symbol(name) = fact.key[0] {
                    lemma_two(shared, local, name);
                }
            }
            if marked {
                lemma_filters(facts, within, kept, own);
            } else {
                lemma_same_filter(facts, within, own);
            }
        },
    }
}

proof fn lemma_all(facts: Seq<FactView>, any: spec_fn(FactView) -> bool)
    requires
        forall|fact: FactView| #[trigger] any(fact),
    ensures
        facts.filter(any) == facts,
    decreases facts.len(),
{
    reveal(Seq::filter);
    if facts.len() > 0 {
        lemma_all(facts.drop_last(), any);
        assert(any(facts.last()));
        assert(facts =~= facts.drop_last().push(facts.last()));
    }
}

/// What is observed in a scope is seen by all who read in that scope and by all who read the whole;
/// and what is observed of a repository with a marker is not seen where only what is shared is, nor
/// in another repository.
pub proof fn what_is_observed_in_a_scope_is_seen_there(
    identity: Seq<char>,
    other: Seq<char>,
    marked: bool,
    scope: Scope,
    candidate: CandidateView,
    now: int,
    fact: FactView,
)
    requires
        scope != Scope::All,
        ({
            let own = cli::observed_scope(identity, marked, scope);
            fact.pred == policy_laws::table(own) && fact.key == policy_laws::new_key(
                own,
                candidate,
                now,
            )
        }),
    ensures
        seen(fact, identity, marked, scope),
        seen(fact, identity, marked, Scope::All),
        scope == Scope::Workspace ==> seen(fact, other, marked, Scope::Repository) && seen(
            fact,
            other,
            marked,
            Scope::Workspace,
        ),
        scope == Scope::Repository ==> !seen(fact, other, marked, Scope::Workspace),
        scope == Scope::Repository && marked && other != identity ==> !seen(
            fact,
            other,
            marked,
            Scope::Repository,
        ),
{
    reveal_strlit("edge");
    reveal_strlit("scoped_edge");
    reveal_strlit("workspace");
    reveal_strlit("repository:");
    assert("edge"@.len() == 4 && "scoped_edge"@.len() == 11);
    assert("workspace"@[0] == 'w');
    let mine = "repository:"@ + identity;
    let others = "repository:"@ + other;
    assert(mine[0] == 'r' && others[0] == 'r');
    if mine == others {
        assert(identity =~= mine.skip(11));
        assert(other =~= others.skip(11));
    }
}

/// The scope of an observation: the workspace where that is asked for, and otherwise the repository
/// where there is a marker.
pub proof fn observations_have_their_scope(identity: Seq<char>, marked: bool)
    ensures
        cli::observed_scope(identity, marked, Scope::Workspace) == Some("workspace"@),
        cli::observed_scope(identity, true, Scope::Repository) == Some("repository:"@ + identity),
        cli::observed_scope(identity, false, Scope::Repository) is None,
{
}

/// Whether a search in a scope looks at what one sees who reads in that scope.
pub proof fn searches_look_at_what_is_seen(
    identity: Seq<char>,
    marked: bool,
    scope: Scope,
    legacy: Seq<char>,
    name: Seq<char>,
)
    ensures
        ({
            let (selected, include_legacy) = cli::selection_of(identity, marked, scope);
            let policy = PolicyView { selected, legacy, include_legacy };
            &&& policy.selects(name) <==> scope == Scope::All || name == "workspace"@ || scope
                == Scope::Repository && name == "repository:"@ + identity
            &&& include_legacy <==> scope == Scope::All || scope == Scope::Repository && !marked
        }),
{
    lemma_one("workspace"@, name);
    lemma_two("workspace"@, "repository:"@ + identity, name);
}

// ------------------------------------------------------------------- told
proof fn lemma_labelled(label: Seq<char>, lines: Seq<Seq<char>>)
    ensures
        cli::labelled_lines(label, lines) == lines.map_values(
            |line: Seq<char>| label + line,
        ).flatten(),
    decreases lines.len(),
{
    let all = lines.map_values(|line: Seq<char>| label + line);
    all.lemma_flatten_and_flatten_alt_are_equivalent();
    if lines.len() > 0 {
        let fewer = lines.drop_last();
        let less = fewer.map_values(|line: Seq<char>| label + line);
        lemma_labelled(label, fewer);
        less.lemma_flatten_and_flatten_alt_are_equivalent();
        assert(all.drop_last() =~= less);
        assert(all.last() == label + lines.last());
        assert(cli::labelled_lines(label, lines) =~= all.flatten_alt());
    } else {
        assert(cli::labelled_lines(label, lines) =~= all.flatten());
    }
}

proof fn lemma_dropped(dropped: Seq<(Seq<char>, Seq<char>)>)
    ensures
        cli::dropped_lines(dropped) == dropped.map_values(
            |line: (Seq<char>, Seq<char>)| "\ndropped `"@ + line.0 + "` — "@ + line.1,
        ).flatten(),
    decreases dropped.len(),
{
    let told = |line: (Seq<char>, Seq<char>)| "\ndropped `"@ + line.0 + "` — "@ + line.1;
    let all = dropped.map_values(told);
    all.lemma_flatten_and_flatten_alt_are_equivalent();
    if dropped.len() > 0 {
        let fewer = dropped.drop_last();
        let less = fewer.map_values(told);
        lemma_dropped(fewer);
        less.lemma_flatten_and_flatten_alt_are_equivalent();
        assert(all.drop_last() =~= less);
        assert(all.last() == told(dropped.last()));
        assert(cli::dropped_lines(dropped) =~= all.flatten_alt());
    } else {
        assert(cli::dropped_lines(dropped) =~= all.flatten());
    }
}

/// What is told of an observation ends with one line for each conflict and then one for each line
/// that was dropped, with the reason, in their order; the counts stand above them.
pub proof fn observation_tells_all_conflicts_and_all_dropped_lines(
    place: Place,
    report: ReportView,
    dropped: Seq<(Seq<char>, Seq<char>)>,
)
    requires
        0 <= report.added,
        0 <= report.updated,
        0 <= report.noop,
    ensures
        ({
            let told = cli::observation_text(place, report, dropped);
            let tail = report.escalations.map_values(
                |line: Seq<char>| "\nescalation: "@ + line,
            ).flatten() + dropped.map_values(
                |line: (Seq<char>, Seq<char>)| "\ndropped `"@ + line.0 + "` — "@ + line.1,
            ).flatten();
            let counts = "\nadded="@ + number::decimal(report.added as nat) + " updated="@
                + number::decimal(report.updated as nat) + " noop="@ + number::decimal(
                report.noop as nat,
            ) + " escalations="@ + number::decimal(report.escalations.len());
            exists|head: Seq<char>|
                told == #[trigger] (head + tail) && text::contains_text(head, counts)
                    && text::contains_text(head, "\nscope="@ + place.scope@ + counts)
        }),
{
    let told = cli::observation_text(place, report, dropped);
    lemma_labelled("\nescalation: "@, report.escalations);
    lemma_dropped(dropped);
    let tail = report.escalations.map_values(
        |line: Seq<char>| "\nescalation: "@ + line,
    ).flatten() + dropped.map_values(
        |line: (Seq<char>, Seq<char>)| "\ndropped `"@ + line.0 + "` — "@ + line.1,
    ).flatten();
    let counts = "\nadded="@ + number::decimal(report.added as nat) + " updated="@
        + number::decimal(report.updated as nat) + " noop="@ + number::decimal(report.noop as nat)
        + " escalations="@ + number::decimal(report.escalations.len());
    let first = "workspace="@ + place.workspace@ + "\nworkspace_root="@ + place.workspace_root@
        + "\nrepository="@ + place.repository@ + "\nroot="@ + place.root@;
    let scoped = "\nscope="@ + place.scope@;
    let last = "\nsnapshot="@ + place.snapshot@;
    let head = first + scoped + counts + last;
    text_laws::lemma_contained(first + scoped, counts, last);
    assert(head =~= first + (scoped + counts) + last);
    text_laws::lemma_contained(first, scoped + counts, last);
    assert(told =~= head + tail);
}

/// Answers are told one below the other, and that there are none is told too.
pub proof fn answers_are_told_in_lines(rows: Seq<Seq<char>>, row: Seq<char>)
    ensures
        cli::answers_text(Seq::<Seq<char>>::empty()) == "(no answers)"@,
        cli::answers_text(seq![row]) == row,
        rows.len() > 0 ==> cli::answers_text(rows.push(row)) == cli::answers_text(rows) + seq!['\n']
            + row,
{
    reveal_strlit("\n");
    assert("\n"@ =~= seq!['\n']);
    assert(rows.push(row).drop_last() =~= rows);
}

/// What was found is told as answers are, with a note below where more matched.
pub proof fn found_rows_are_told_with_their_limit(
    rows: Seq<Seq<char>>,
    truncated: bool,
    limit: int,
)
    requires
        rows.len() > 0,
        0 <= limit,
    ensures
        cli::found_text(rows, truncated, limit) == cli::answers_text(rows) + if truncated {
            "\ntruncated: limit ("@ + number::decimal(limit as nat) + " shown, more matched)"@
        } else {
            seq![]
        },
        cli::found_text(Seq::<Seq<char>>::empty(), truncated, limit) == "(no answers)"@,
{
    assert(cli::answers_text(rows) + Seq::<char>::empty() =~= cli::answers_text(rows));
    assert(cli::found_text(rows, truncated, limit) =~= cli::answers_text(rows) + if truncated {
        "\ntruncated: limit ("@ + number::decimal(limit as nat) + " shown, more matched)"@
    } else {
        seq![]
    });
}

/// What is asked is a goal where it holds no `:-`, and otherwise a rule, whose head is the goal: what
/// stands before the first `:-`, without white space around. The point of the rule may be left out.
pub proof fn question_is_a_goal_or_a_rule(expression: Seq<char>, head: Seq<char>, body: Seq<char>)
    ensures
        !text::contains_text(expression, ":-"@) ==> cli::asked(expression) == Ok::<
            AskView,
            Seq<char>,
        >(AskView::Atom(expression)),
        !text::contains_text(head, ":"@) && text::trim_free(head) && text::trim_free(body)
            && body.last() != '.' ==> {
            let rule = head + " :- "@ + body;
            &&& cli::asked(rule) == Ok::<AskView, Seq<char>>(
                AskView::Rule { rule: rule + seq!['.'], head },
            )
            &&& cli::asked(rule + seq!['.']) == Ok::<AskView, Seq<char>>(
                AskView::Rule { rule: rule + seq!['.'], head },
            )
        },
{
    text::lemma_first_match(expression, ":-"@);
    if !text::contains_text(head, ":"@) && text::trim_free(head) && text::trim_free(body)
        && body.last() != '.' {
        reveal_strlit(":");
        reveal_strlit(":-");
        reveal_strlit(" :- ");
        reveal_strlit(".");
        assert("."@ =~= seq!['.']);
        let rule = head + " :- "@ + body;
        let pointed = rule + seq!['.'];
        lemma_rule_cut(head, seq![' '] + body);
        lemma_rule_cut(head, seq![' '] + body + seq!['.']);
        assert(rule =~= head + seq![' '] + ":-"@ + (seq![' '] + body));
        assert(pointed =~= head + seq![' '] + ":-"@ + (seq![' '] + body + seq!['.']));
        let none = Seq::<char>::empty();
        text::lemma_trim(none, head, seq![' ']);
        assert(none + head + seq![' '] =~= head + seq![' ']);
        assert(rule.last() == body.last());
        assert(pointed.last() == '.');
        assert(text::trimmed_end(rule) == rule);
        assert(text::trimmed_end(pointed) == pointed);
    }
}

proof fn lemma_rule_cut(head: Seq<char>, tail: Seq<char>)
    requires
        !text::contains_text(head, ":"@),
    ensures
        text::cut(head + seq![' '] + ":-"@ + tail, ":-"@) == Some((head + seq![' '], tail)),
{
    reveal_strlit(":");
    reveal_strlit(":-");
    let s = head + seq![' '] + ":-"@ + tail;
    let n = head.len() as int + 1;
    assert(s.subrange(n, n + 2) =~= ":-"@);
    assert(text::occurs_at(s, ":-"@, n));
    text::lemma_first_match(s, ":-"@);
    let k = text::first_match(s, ":-"@)->0;
    assert(k == n) by {
        assert(s.subrange(k, k + 2)[0] == ':');
        assert(s[k] == ':');
        if k < head.len() {
            assert(head.subrange(k, k + 1) =~= ":"@);
            assert(text::occurs_at(head, ":"@, k));
        }
    }
    assert(s.take(n) =~= head + seq![' ']);
    assert(s.skip(n + 2) =~= tail);
}

} // verus!
