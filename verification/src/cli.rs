//! The command line: what the arguments ask for, which facts a scope selects, where a memory is
//! kept, and what is told.

use vstd::prelude::*;

use crate::agent::{AgentMemory, Extractor, IngestReport, MemoryView, ReportView};
use crate::args;
use crate::engine;
use crate::engine::{EngineView, FactView};
use crate::number;
use crate::presentation;
use crate::presentation::SearchFormat;
use crate::presentation_laws;
use crate::protocol;
use crate::protocol::DEFAULT_CONFIDENCE;
use crate::search;
use crate::search::{PolicyView, SearchError, SearchOutput};
use crate::store_laws;
use crate::text;

verus! {

/// How the command line is used.
pub const USAGE: &'static str = "Usage:\n  lemmalog                         start the interactive REPL\n  lemmalog observe <path> <facts> [options]\n  lemmalog search <path> <pattern> [options]\n  lemmalog query <path> <goal> [options]\n  lemmalog why <path> <fact> [options]\n  lemmalog skill install [--path <skills-directory>]\n\nWorkspace and scope options:\n  --workspace <path>               override .lemmalog workspace discovery\n  --scope <repository|workspace>   observation scope (default: repository)\n  --scope <all|repository|workspace>\n                                   search/query/why visibility (default: all)\n\nOther search options:\n  --limit <positive-integer>       maximum result rows (default: 50)\n\nOther observe options:\n  --ts <unix-seconds>              fact validity/assertion time (default: now)\n  --provenance <uri>               opaque evidence URI (repeatable)\n  --captured-at <timestamp>        evidence capture time (default: now, RFC3339)\n\nThe target path may name any file or directory inside a Git repository.\nLemmalog uses an explicit workspace override, the nearest ancestor .lemmalog\nmarker, or the Git root fallback, in that order. Stores remain outside the\nworkspace under the user data directory. A marker contains id = \"stable-id\";\nan override names that marker or its directory. A query goal may be one atom\nor a temporary Datalog rule whose head is returned.\n";

// --------------------------------------------------------------- commands
/// What the program is asked to do.
#[derive(Clone, Copy, Debug, PartialEq, Eq, Structural)]
pub enum Command {
    Help,
    Observe,
    Search,
    Query,
    Why,
    Skill,
}

/// The command that a word names.
pub open spec fn command_of(word: Seq<char>) -> Option<Command> {
    if word == "help"@ || word == "--help"@ || word == "-h"@ {
        Some(Command::Help)
    } else if word == "observe"@ {
        Some(Command::Observe)
    } else if word == "search"@ {
        Some(Command::Search)
    } else if word == "query"@ {
        Some(Command::Query)
    } else if word == "why"@ {
        Some(Command::Why)
    } else if word == "skill"@ {
        Some(Command::Skill)
    } else {
        None
    }
}

/// The command that arguments begin with, or why they name none.
pub open spec fn command_in(args: Seq<Seq<char>>) -> Result<Command, Seq<char>> {
    if args.len() == 0 {
        Err("missing command"@)
    } else {
        match command_of(args[0]) {
            Some(command) => Ok(command),
            None => Err("unknown command "@ + text::quoted(args[0])),
        }
    }
}

/// Reads the command that arguments begin with.
pub fn command(args: &Vec<String>) -> (parsed: Result<Command, String>)
    ensures
        match command_in(text::texts(args@)) {
            Ok(command) => parsed matches Ok(found) && found == command,
            Err(message) => parsed matches Err(told) && told@ == message,
        },
{
    if args.len() == 0 {
        return Err("missing command".to_owned());
    }
    let word: &str = args[0].as_str();
    if text::same_text(word, "help") || text::same_text(word, "--help") || text::same_text(
        word,
        "-h",
    ) {
        Ok(Command::Help)
    } else if text::same_text(word, "observe") {
        Ok(Command::Observe)
    } else if text::same_text(word, "search") {
        Ok(Command::Search)
    } else if text::same_text(word, "query") {
        Ok(Command::Query)
    } else if text::same_text(word, "why") {
        Ok(Command::Why)
    } else if text::same_text(word, "skill") {
        Ok(Command::Skill)
    } else {
        let mut told: String = "unknown command ".to_owned();
        told.append(text::quote(word).as_str());
        Err(told)
    }
}

/// How the program is started.
#[derive(Clone, Copy, Debug, PartialEq, Eq, Structural)]
pub enum Launch {
    /// As an interactive session, which gets the arguments from the given one on.
    Repl(usize),
    /// With one command.
    Once,
}

/// How arguments start the program: without any, with `repl` and with an option that does not
/// ask for help it is interactive.
pub open spec fn launch_in(args: Seq<Seq<char>>) -> Launch {
    if args.len() == 0 {
        Launch::Repl(0)
    } else if args[0] == "repl"@ {
        Launch::Repl(1)
    } else if args[0] == "--help"@ || args[0] == "-h"@ {
        Launch::Once
    } else if args::dashed(args[0]) {
        Launch::Repl(0)
    } else {
        Launch::Once
    }
}

/// Reads how the program is started.
pub fn launch(args: &Vec<String>) -> (launch: Launch)
    ensures
        launch == launch_in(text::texts(args@)),
{
    if args.len() == 0 {
        return Launch::Repl(0);
    }
    let word: &str = args[0].as_str();
    if text::same_text(word, "repl") {
        Launch::Repl(1)
    } else if text::same_text(word, "--help") || text::same_text(word, "-h") {
        Launch::Once
    } else if args::is_dashed(word) {
        Launch::Repl(0)
    } else {
        Launch::Once
    }
}

// ----------------------------------------------------------------- scopes
/// Which facts of a workspace are meant.
#[derive(Clone, Copy, Debug, PartialEq, Eq, Structural)]
pub enum Scope {
    All,
    Repository,
    Workspace,
}

/// The scope that a word names, or what it must be.
pub open spec fn scope_in(word: Seq<char>, allow_all: bool) -> Result<Scope, Seq<char>> {
    if word == "all"@ && allow_all {
        Ok(Scope::All)
    } else if word == "repository"@ {
        Ok(Scope::Repository)
    } else if word == "workspace"@ {
        Ok(Scope::Workspace)
    } else if allow_all {
        Err("--scope must be all, repository, or workspace"@)
    } else {
        Err("--scope must be repository or workspace"@)
    }
}

/// Reads a scope.
pub fn parse_scope(value: &str, allow_all: bool) -> (parsed: Result<Scope, String>)
    ensures
        match scope_in(value@, allow_all) {
            Ok(scope) => parsed matches Ok(found) && found == scope,
            Err(message) => parsed matches Err(told) && told@ == message,
        },
{
    if allow_all && text::same_text(value, "all") {
        Ok(Scope::All)
    } else if text::same_text(value, "repository") {
        Ok(Scope::Repository)
    } else if text::same_text(value, "workspace") {
        Ok(Scope::Workspace)
    } else if allow_all {
        Err("--scope must be all, repository, or workspace".to_owned())
    } else {
        Err("--scope must be repository or workspace".to_owned())
    }
}

/// The name of a scope in the facts of a repository; all scopes together have none.
pub open spec fn name_of(identity: Seq<char>, scope: Scope) -> Seq<char> {
    match scope {
        Scope::Repository => "repository:"@ + identity,
        _ => "workspace"@,
    }
}

/// Names a scope in the facts of a repository.
pub fn scope_name(identity: &str, scope: Scope) -> (name: String)
    requires
        scope != Scope::All,
    ensures
        name@ == name_of(identity@, scope),
{
    match scope {
        Scope::Repository => {
            let mut name: String = "repository:".to_owned();
            name.append(identity);
            name
        },
        _ => "workspace".to_owned(),
    }
}

/// Which scopes a search selects, if not all, and whether facts without a scope are searched.
pub open spec fn selection_of(identity: Seq<char>, marked: bool, scope: Scope) -> (
    Option<Seq<Seq<char>>>,
    bool,
) {
    match scope {
        Scope::All => (None, true),
        Scope::Workspace => (Some(seq!["workspace"@]), false),
        Scope::Repository => (
            Some(seq!["workspace"@, name_of(identity, Scope::Repository)]),
            !marked,
        ),
    }
}

/// Says which scopes a search selects.
pub fn search_selection(identity: &str, marked: bool, scope: Scope) -> (selection: (
    Option<Vec<String>>,
    bool,
))
    ensures
        (search::optional_texts(selection.0), selection.1) == selection_of(
            identity@,
            marked,
            scope,
        ),
{
    match scope {
        Scope::All => (None, true),
        Scope::Workspace => {
            let mut scopes: Vec<String> = Vec::new();
            scopes.push("workspace".to_owned());
            assert(text::texts(scopes@) =~= seq!["workspace"@]);
            (Some(scopes), false)
        },
        Scope::Repository => {
            let mut scopes: Vec<String> = Vec::new();
            scopes.push("workspace".to_owned());
            scopes.push(scope_name(identity, Scope::Repository));
            assert(text::texts(scopes@) =~= seq![
                "workspace"@,
                name_of(identity@, Scope::Repository),
            ]);
            (Some(scopes), !marked)
        },
    }
}

/// The memory that a scope leaves visible.
pub open spec fn restricted(
    memory: MemoryView,
    identity: Seq<char>,
    marked: bool,
    scope: Scope,
) -> MemoryView {
    match selection_of(identity, marked, scope) {
        (None, _) => memory,
        (Some(scopes), include_unscoped) => {
            let facts = engine::in_scopes(memory.engine.facts, scopes);
            MemoryView {
                engine: EngineView {
                    names: engine::joined(memory.engine.names, scopes),
                    facts: if include_unscoped {
                        facts
                    } else {
                        engine::without_unscoped(facts)
                    },
                    ..memory.engine
                },
                ..memory
            }
        },
    }
}

/// Restricts a memory to what a scope leaves visible.
pub fn restrict_scope<X: Extractor>(
    memory: &mut AgentMemory<X>,
    identity: &str,
    marked: bool,
    scope: Scope,
)
    requires
        old(memory).wf(),
    ensures
        final(memory).wf(),
        final(memory)@ == restricted(old(memory)@, identity@, marked, scope),
        final(memory).source() == old(memory).source(),
{
    if let (Some(scopes), include_unscoped) = search_selection(identity, marked, scope) {
        memory.retain_scopes(&scopes);
        if !include_unscoped {
            memory.remove_unscoped_facts();
        }
    }
}

// ---------------------------------------------------------------- observe
/// The scope in which an observation is made, where it is made in one: in a workspace that a
/// marker names, and for the whole workspace.
pub open spec fn observed_scope(identity: Seq<char>, marked: bool, scope: Scope) -> Option<
    Seq<char>,
> {
    if marked || scope == Scope::Workspace {
        Some(name_of(identity, scope))
    } else {
        None
    }
}

/// Observes facts, and says what was done and which lines were dropped. A turn follows, at the time
/// of the observation.
pub fn observe_facts<X: Extractor>(
    memory: &mut AgentMemory<X>,
    facts: &str,
    ts: i64,
    uris: &Vec<String>,
    identity: &str,
    marked: bool,
    scope: Scope,
) -> (told: (IngestReport, Vec<(String, String)>))
    requires
        old(memory).wf(),
        old(memory)@.counter < u64::MAX,
        scope != Scope::All,
    ensures
        final(memory).wf(),
        ({
            let (after, report) = old(memory)@.told(
                facts@,
                ts as int,
                observed_scope(identity@, marked, scope),
                text::texts(uris@),
            );
            &&& final(memory)@ == after.turned(ts as int)
            &&& told.0@ == report
        }),
        protocol::pair_views(told.1@) == protocol::reported(facts@, DEFAULT_CONFIDENCE@).1,
        final(memory).source() == old(memory).source(),
{
    let told = if marked || scope == Scope::Workspace {
        let name: String = scope_name(identity, scope);
        memory.observe_scoped_extracted_with_provenance(facts, ts, name.as_str(), uris)
    } else {
        memory.observe_extracted_with_provenance(facts, ts, uris)
    };
    memory.maintain(ts);
    told
}

/// Lines behind a label, one below the other.
pub open spec fn labelled_lines(label: Seq<char>, lines: Seq<Seq<char>>) -> Seq<char>
    decreases lines.len(),
{
    if lines.len() == 0 {
        seq![]
    } else {
        labelled_lines(label, lines.drop_last()) + label + lines.last()
    }
}

/// The lines that were dropped, one below the other, each with the reason.
pub open spec fn dropped_lines(dropped: Seq<(Seq<char>, Seq<char>)>) -> Seq<char>
    decreases dropped.len(),
{
    if dropped.len() == 0 {
        seq![]
    } else {
        dropped_lines(dropped.drop_last()) + "\ndropped `"@ + dropped.last().0 + "` — "@
            + dropped.last().1
    }
}

/// Where an observation was made.
#[derive(Clone, Debug, PartialEq, Eq)]
pub struct Place {
    pub workspace: String,
    pub workspace_root: String,
    pub repository: String,
    pub root: String,
    pub scope: String,
    pub snapshot: String,
}

/// What is told of an observation.
pub open spec fn observation_text(
    place: Place,
    report: ReportView,
    dropped: Seq<(Seq<char>, Seq<char>)>,
) -> Seq<char> {
    "workspace="@ + place.workspace@ + "\nworkspace_root="@ + place.workspace_root@
        + "\nrepository="@ + place.repository@ + "\nroot="@ + place.root@ + "\nscope="@
        + place.scope@ + "\nadded="@ + number::decimal(report.added as nat) + " updated="@
        + number::decimal(report.updated as nat) + " noop="@ + number::decimal(report.noop as nat)
        + " escalations="@ + number::decimal(report.escalations.len()) + "\nsnapshot="@
        + place.snapshot@ + labelled_lines("\nescalation: "@, report.escalations) + dropped_lines(
        dropped,
    )
}

/// Tells an observation.
pub fn tell_observation(
    place: &Place,
    report: &IngestReport,
    dropped: &Vec<(String, String)>,
) -> (told: String)
    ensures
        told@ == observation_text(*place, report@, protocol::pair_views(dropped@)),
{
    let mut told: String = "workspace=".to_owned();
    told.append(place.workspace.as_str());
    told.append("\nworkspace_root=");
    told.append(place.workspace_root.as_str());
    told.append("\nrepository=");
    told.append(place.repository.as_str());
    told.append("\nroot=");
    told.append(place.root.as_str());
    told.append("\nscope=");
    told.append(place.scope.as_str());
    told.append("\nadded=");
    told.append(number::size_text(report.added).as_str());
    told.append(" updated=");
    told.append(number::size_text(report.updated).as_str());
    told.append(" noop=");
    told.append(number::size_text(report.noop).as_str());
    told.append(" escalations=");
    told.append(number::size_text(report.escalations.len()).as_str());
    told.append("\nsnapshot=");
    told.append(place.snapshot.as_str());
    let ghost head = told@;
    let ghost label = "\nescalation: "@;
    let ghost escs = text::texts(report.escalations@);
    assert(head + labelled_lines(label, escs.take(0)) =~= head);
    for i in 0..report.escalations.len()
        invariant
            label == "\nescalation: "@,
            escs == text::texts(report.escalations@),
            told@ == head + labelled_lines(label, escs.take(i as int)),
    {
        assert(escs.take(i as int + 1).drop_last() =~= escs.take(i as int));
        told.append("\nescalation: ");
        told.append(report.escalations[i].as_str());
        assert(told@ =~= head + labelled_lines(label, escs.take(i as int + 1)));
    }
    assert(escs.take(escs.len() as int) =~= escs);
    let ghost middle = told@;
    let ghost all = protocol::pair_views(dropped@);
    assert(middle + dropped_lines(all.take(0)) =~= middle);
    for i in 0..dropped.len()
        invariant
            all == protocol::pair_views(dropped@),
            told@ == middle + dropped_lines(all.take(i as int)),
    {
        assert(all.take(i as int + 1).drop_last() =~= all.take(i as int));
        told.append("\ndropped `");
        told.append(dropped[i].0.as_str());
        told.append("` — ");
        told.append(dropped[i].1.as_str());
        assert(told@ =~= middle + dropped_lines(all.take(i as int + 1)));
    }
    assert(all.take(all.len() as int) =~= all);
    told
}

// ----------------------------------------------------------------- answers
/// Answers, one below the other.
pub open spec fn answers_text(rows: Seq<Seq<char>>) -> Seq<char> {
    if rows.len() == 0 {
        "(no answers)"@
    } else {
        text::join(rows, "\n"@)
    }
}

/// Tells answers.
pub fn tell_answers(rows: &Vec<String>) -> (told: String)
    ensures
        told@ == answers_text(text::texts(rows@)),
{
    if rows.len() == 0 {
        "(no answers)".to_owned()
    } else {
        text::join_strings(rows, "\n")
    }
}

/// What is told of a search: the rows that were found, and whether more matched.
pub open spec fn found_text(rows: Seq<Seq<char>>, truncated: bool, limit: int) -> Seq<char> {
    if rows.len() > 0 && truncated {
        answers_text(rows) + "\ntruncated: limit ("@ + number::decimal(limit as nat)
            + " shown, more matched)"@
    } else {
        answers_text(rows)
    }
}

/// Tells what a search found, or why it failed.
pub fn tell_search(found: &Result<SearchOutput, SearchError>, limit: usize) -> (told: Result<
    String,
    String,
>)
    ensures
        match found {
            Ok(output) => told matches Ok(form) && form@ == found_text(
                text::texts(output.rows@),
                output.truncated,
                limit as int,
            ),
            Err(error) => told matches Err(message) && message@ == "search: "@
                + search::failure_text(error@),
        },
{
    match found {
        Err(error) => {
            let mut message: String = "search: ".to_owned();
            message.append(error.message().as_str());
            Err(message)
        },
        Ok(output) => {
            let mut form: String = tell_answers(&output.rows);
            if output.rows.len() > 0 && output.truncated {
                form.append("\ntruncated: limit (");
                form.append(number::size_text(limit).as_str());
                form.append(" shown, more matched)");
            }
            Ok(form)
        },
    }
}

/// What a query asks: the answers to an atom, or those to the head of a rule that is added first.
#[derive(Clone, Debug, PartialEq, Eq)]
pub enum Ask {
    Atom(String),
    Rule { rule: String, head: String },
}

/// What a query asks, as a view.
pub enum AskView {
    Atom(Seq<char>),
    Rule { rule: Seq<char>, head: Seq<char> },
}

impl View for Ask {
    type V = AskView;

    open spec fn view(&self) -> AskView {
        match self {
            Ask::Atom(goal) => AskView::Atom(goal@),
            Ask::Rule { rule, head } => AskView::Rule { rule: rule@, head: head@ },
        }
    }
}

/// What an expression asks; a rule without a head asks nothing.
pub open spec fn asked(expression: Seq<char>) -> Result<AskView, Seq<char>> {
    match text::cut(expression, ":-"@) {
        None => Ok(AskView::Atom(expression)),
        Some((head, _)) => if text::trimmed(head).len() == 0 {
            Err("query rule requires a head atom"@)
        } else {
            let whole = text::trimmed_end(expression);
            Ok(
                AskView::Rule {
                    rule: if whole.len() > 0 && whole.last() == '.' {
                        expression
                    } else {
                        expression + "."@
                    },
                    head: text::trimmed(head),
                },
            )
        },
    }
}

/// Reads what an expression asks.
pub fn ask_expression(expression: &str) -> (ask: Result<Ask, String>)
    ensures
        match asked(expression@) {
            Ok(said) => ask matches Ok(found) && found@ == said,
            Err(message) => ask matches Err(told) && told@ == message,
        },
{
    let chars: Vec<char> = text::chars_of(expression);
    let arrow: Vec<char> = text::chars_of(":-");
    let head = match text::split_once(chars.as_slice(), arrow.as_slice()) {
        None => {
            return Ok(Ask::Atom(expression.to_owned()));
        },
        Some((head, _)) => text::trim(head),
    };
    if head.len() == 0 {
        return Err("query rule requires a head atom".to_owned());
    }
    let whole = text::trim_end(chars.as_slice());
    let mut rule: String = expression.to_owned();
    if !(whole.len() > 0 && whole[whole.len() - 1] == '.') {
        rule.append(".");
    }
    Ok(Ask::Rule { rule, head: text::string_of(head) })
}

// ------------------------------------------------------------------- laws
/// A search of a snapshot sees the scopes that a query of its memory sees.
pub proof fn search_and_query_see_the_same(
    memory: MemoryView,
    identity: Seq<char>,
    marked: bool,
    scope: Scope,
    fact: FactView,
)
    ensures
        ({
            let (selected, include_legacy) = selection_of(identity, marked, scope);
            let policy = PolicyView { selected, legacy: identity, include_legacy };
            let visible = restricted(memory, identity, marked, scope).engine.facts.contains(fact);
            &&& fact.pred == "scoped_edge"@ && fact.key.len() == 7 && fact.key[0] is Symbol ==> (
            visible <==> memory.engine.facts.contains(fact) && policy.selects(
                fact.key[0]->Symbol_0,
            ))
            &&& engine::unscoped(fact) ==> (visible <==> memory.engine.facts.contains(fact)
                && policy.include_legacy)
        }),
{
    let (selected, include_legacy) = selection_of(identity, marked, scope);
    reveal_strlit("edge");
    reveal_strlit("scoped_edge");
    assert("edge"@.len() != "scoped_edge"@.len());
    if let Some(scopes) = selected {
        let facts = engine::in_scopes(memory.engine.facts, scopes);
        store_laws::restriction_keeps_selected_scopes(memory.engine.facts, scopes, fact);
        store_laws::removal_keeps_scoped_facts(facts, fact);
    }
}

/// What the command tells of a search is what the canonical format shows.
pub proof fn search_tells_the_canonical_format(
    rows: Seq<Seq<char>>,
    truncated: bool,
    limit: int,
)
    requires
        rows.len() > 0,
        presentation::row_cards(rows) is Ok,
    ensures
        presentation::rendered(rows, truncated, SearchFormat::Canonical, limit) == Ok::<
            Seq<char>,
            Seq<char>,
        >(found_text(rows, truncated, limit)),
{
    presentation_laws::canonical_format_shows_rows(rows, truncated, limit);
    let note = presentation::truncation(
        presentation::ModelView { cards: seq![], truncated, limit },
    );
    assert(text::join(rows, "\n"@) + note =~= found_text(rows, truncated, limit));
}

} // verus!
