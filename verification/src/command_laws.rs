//! What the words of the command line mean, and how what is asked is answered.

use vstd::prelude::*;

use crate::agent;
use crate::clause::RuleView;
use crate::clause;
use crate::cli::{AskView, Command, Launch, Scope};
use crate::cli;
use crate::engine::EngineView;
use crate::presentation::SearchFormat;
use crate::presentation;
use crate::protocol::CandidateView;
use crate::protocol;
use crate::query::QueryView;
use crate::query;
use crate::text;

verus! {

/// A query without `:-` asks for its goal and adds no clause; one with `:-` adds its clauses and asks
/// for the head.
pub proof fn query_is_a_goal_with_its_clauses(expression: Seq<char>)
    ensures
        match cli::asked(expression) {
            Ok(AskView::Atom(goal)) => match clause::read_goal(goal) {
                Some(atom) => query::read_query(expression) == Ok::<QueryView, Seq<char>>(
                    (QueryView { goal: atom, clauses: seq![] }),
                ),
                None => query::read_query(expression) is Err,
            },
            Ok(AskView::Rule { rule, head }) => match (
                clause::read_program(rule),
                clause::read_goal(head),
            ) {
                (Some(clauses), Some(goal)) => query::read_query(expression) == Ok::<
                    QueryView,
                    Seq<char>,
                >((QueryView { goal, clauses })),
                _ => query::read_query(expression) is Err,
            },
            Err(message) => query::read_query(expression) == Err::<QueryView, Seq<char>>(message),
        },
{
}

/// The commands and the scopes have their words, and no others.
pub proof fn commands_have_their_words(word: Seq<char>, rest: Seq<Seq<char>>)
    ensures
        cli::command_of("observe"@) == Some(Command::Observe),
        cli::command_of("search"@) == Some(Command::Search),
        cli::command_of("query"@) == Some(Command::Query),
        cli::command_of("why"@) == Some(Command::Why),
        cli::command_of("skill"@) == Some(Command::Skill),
        cli::command_of("help"@) == Some(Command::Help),
        cli::command_of("--help"@) == Some(Command::Help),
        cli::command_of("-h"@) == Some(Command::Help),
        word != "observe"@ && word != "search"@ && word != "query"@ && word != "why"@ && word
            != "skill"@ && word != "help"@ && word != "--help"@ && word != "-h"@
            ==> cli::command_of(word) is None,
        cli::launch_in(Seq::<Seq<char>>::empty()) == Launch::Repl(0),
        cli::launch_in(seq!["repl"@] + rest) == Launch::Repl(1),
        word.len() == 0 || word[0] != '-' && word != "repl"@ ==> cli::launch_in(seq![word] + rest)
            == Launch::Once,
{
    reveal_strlit("observe");
    reveal_strlit("search");
    reveal_strlit("query");
    reveal_strlit("why");
    reveal_strlit("skill");
    reveal_strlit("help");
    reveal_strlit("--help");
    reveal_strlit("-h");
    reveal_strlit("repl");
    assert("observe"@.len() == 7 && "search"@.len() == 6 && "query"@.len() == 5);
    assert("why"@.len() == 3 && "skill"@.len() == 5 && "help"@.len() == 4);
    assert("--help"@.len() == 6 && "-h"@.len() == 2 && "repl"@.len() == 4);
    assert("query"@[0] == 'q' && "skill"@[0] == 's' && "help"@[0] == 'h' && "repl"@[0] == 'r');
    assert("search"@[0] == 's' && "--help"@[0] == '-' && "-h"@[0] == '-');
    assert((seq!["repl"@] + rest)[0] == "repl"@);
    assert((seq![word] + rest)[0] == word);
}

/// The scopes have their words; all of them at once is a scope for reading alone.
pub proof fn scopes_have_their_words(word: Seq<char>, reading: bool)
    ensures
        cli::scope_in("repository"@, reading) == Ok::<Scope, Seq<char>>(Scope::Repository),
        cli::scope_in("workspace"@, reading) == Ok::<Scope, Seq<char>>(Scope::Workspace),
        cli::scope_in("all"@, true) == Ok::<Scope, Seq<char>>(Scope::All),
        cli::scope_in("all"@, false) is Err,
        word != "repository"@ && word != "workspace"@ && word != "all"@ ==> cli::scope_in(
            word,
            reading,
        ) is Err,
{
    reveal_strlit("repository");
    reveal_strlit("workspace");
    reveal_strlit("all");
    assert("repository"@.len() == 10 && "workspace"@.len() == 9 && "all"@.len() == 3);
}

/// What is asked is answered with the rules of the memory and those of the question together, and
/// with the facts that the question states.
pub proof fn question_is_answered_with_all_rules(
    store: EngineView,
    rules: Seq<RuleView>,
    expression: Seq<char>,
    rows: Vec<String>,
    answer: Seq<char>,
)
    requires
        query::expression_answer_is(store, rules, expression, Ok(rows)),
    ensures
        query::read_query(expression) is Ok,
        ({
            let asked = query::read_query(expression)->Ok_0;
            text::texts(rows@).contains(answer) <==> query::is_answer(
                agent::with_clauses(store, asked.clauses),
                rules + asked.clauses,
                asked.goal,
                answer,
            )
        }),
{
}

/// A goal is answered with the rules of the memory.
pub proof fn goal_is_answered_with_the_rules(
    store: EngineView,
    rules: Seq<RuleView>,
    goal: Seq<char>,
    rows: Vec<String>,
    answer: Seq<char>,
)
    requires
        query::answer_is(store, rules, goal, Ok(rows)),
    ensures
        clause::read_goal(goal) is Some,
        text::texts(rows@).contains(answer) <==> query::is_answer(
            store,
            rules,
            clause::read_goal(goal)->0,
            answer,
        ),
{
}

/// What cannot be read is not answered, and the message quotes it.
pub proof fn unreadable_goal_is_told(
    store: EngineView,
    rules: Seq<RuleView>,
    goal: Seq<char>,
    told: Result<Vec<String>, String>,
)
    requires
        query::answer_is(store, rules, goal, told),
        clause::read_goal(goal) is None,
    ensures
        told is Err,
        told->Err_0@ == "cannot parse "@ + text::quoted(goal),
{
}

/// A candidate is refused for its subject, else for its object, else for its relation.
pub proof fn first_fault_is_told(
    line: Seq<char>,
    candidate: CandidateView,
    default_confidence: Seq<char>,
)
    requires
        protocol::line_candidate(line, default_confidence) == Ok::<CandidateView, Seq<char>>(
            candidate,
        ),
    ensures
        protocol::line_outcome(line, default_confidence) == match (
            protocol::name_fault(candidate.subj),
            protocol::name_fault(candidate.obj),
        ) {
            (Some(fault), _) => Err(fault),
            (None, Some(fault)) => Err(fault),
            (None, None) => if forall|i: int|
                0 <= i < candidate.pred.len() ==> ('a' <= #[trigger] candidate.pred[i] <= 'z' || '0'
                    <= candidate.pred[i] <= '9' || candidate.pred[i] == '_') {
                Ok(candidate)
            } else {
                Err("relation must be lower snake_case (e.g. works_at)"@)
            },
        },
{
    if protocol::snake_case(candidate.pred) {
        assert forall|i: int| 0 <= i < candidate.pred.len() implies ('a'
            <= #[trigger] candidate.pred[i] <= 'z' || '0' <= candidate.pred[i] <= '9'
            || candidate.pred[i] == '_') by {
            assert(text::lower_letter(candidate.pred[i]) || text::digit(candidate.pred[i])
                || candidate.pred[i] == '_');
        }
    }
}

/// What a program is asked to do is told by its first argument.
pub proof fn first_argument_is_the_command(word: Seq<char>, rest: Seq<Seq<char>>)
    ensures
        cli::command_in(Seq::<Seq<char>>::empty()) == Err::<Command, Seq<char>>(
            "missing command"@,
        ),
        cli::command_in(seq![word] + rest) == match cli::command_of(word) {
            Some(command) => Ok::<Command, Seq<char>>(command),
            None => Err("unknown command "@ + text::quoted(word)),
        },
{
    assert((seq![word] + rest)[0] == word);
}

/// The formats have their words.
pub proof fn formats_have_their_words(word: Seq<char>)
    ensures
        presentation::format_of("canonical"@) == Some(SearchFormat::Canonical),
        presentation::format_of("text"@) == Some(SearchFormat::Text),
        presentation::format_of("json"@) == Some(SearchFormat::Json),
        word != "canonical"@ && word != "text"@ && word != "json"@ ==> presentation::format_of(
            word,
        ) is None,
        !word.contains(':') ==> presentation::scope_text(word) == word,
{
    reveal_strlit("canonical");
    reveal_strlit("text");
    reveal_strlit("json");
    assert("canonical"@.len() == 9 && "text"@[0] == 't' && "json"@[0] == 'j');
    assert("text"@.len() == 4 && "json"@.len() == 4);
    text::lemma_cut_char_parts(word, ':');
}

} // verus!
