//! The arguments of each command.

use vstd::prelude::*;

use crate::cli;
use crate::cli::Scope;
use crate::number;
use crate::snapshot;
use crate::text;

verus! {

/// Whether a word is an option.
pub open spec fn dashed(word: Seq<char>) -> bool {
    word.len() > 0 && word[0] == '-'
}

/// Whether a word begins with a dash.
pub fn is_dashed(word: &str) -> (yes: bool)
    ensures
        yes == dashed(word@),
{
    let chars: Vec<char> = text::chars_of(word);
    chars.len() > 0 && chars[0] == '-'
}

/// How an option that is not known is told.
pub open spec fn unknown_option(command: Seq<char>, option: Seq<char>) -> Seq<char> {
    "unknown "@ + command + " option "@ + text::quoted(option)
}

/// Tells an option that is not known.
fn tell_unknown(command: &str, option: &str) -> (told: String)
    ensures
        told@ == unknown_option(command@, option@),
{
    let mut told: String = "unknown ".to_owned();
    told.append(command);
    told.append(" option ");
    told.append(text::quote(option).as_str());
    told
}

/// Whether a word holds a tab or a line ending, which a record of evidence cannot hold.
pub open spec fn breaks_record(word: Seq<char>) -> bool {
    word.contains('\t') || word.contains('\n') || word.contains('\r')
}

/// Whether a word holds a tab or a line ending.
fn has_break(word: &str) -> (yes: bool)
    ensures
        yes == breaks_record(word@),
{
    let chars: Vec<char> = text::chars_of(word);
    text::has_char(chars.as_slice(), '\t') || text::has_char(chars.as_slice(), '\n')
        || text::has_char(chars.as_slice(), '\r')
}

// ------------------------------------------------------------------- read
/// The arguments of `query` and `why`.
#[derive(Clone, Debug, PartialEq, Eq)]
pub struct ReadArgs {
    pub path: String,
    pub expression: String,
    pub workspace: Option<String>,
    pub scope: Scope,
}

/// The arguments of `query` and `why`, as a view.
#[verifier::ext_equal]
pub struct ReadArgsView {
    pub path: Seq<char>,
    pub expression: Seq<char>,
    pub workspace: Option<Seq<char>>,
    pub scope: Scope,
}

impl View for ReadArgs {
    type V = ReadArgsView;

    open spec fn view(&self) -> ReadArgsView {
        ReadArgsView {
            path: self.path@,
            expression: self.expression@,
            workspace: snapshot::optional_text(self.workspace),
            scope: self.scope,
        }
    }
}

/// What was read of the arguments of `query` and `why`.
#[verifier::ext_equal]
pub struct ReadState {
    pub positional: Seq<Seq<char>>,
    pub workspace: Option<Seq<char>>,
    pub scope: Scope,
}

/// What is read of the arguments from the given one on.
pub open spec fn read_from(
    args: Seq<Seq<char>>,
    command: Seq<char>,
    i: int,
    state: ReadState,
) -> Result<ReadState, Seq<char>>
    decreases args.len() - i,
{
    if i < 0 || i >= args.len() {
        Ok(state)
    } else if args[i] == "--workspace"@ {
        if i + 1 >= args.len() {
            Err("--workspace requires a path"@)
        } else {
            read_from(
                args,
                command,
                i + 2,
                ReadState { workspace: Some(args[i + 1]), ..state },
            )
        }
    } else if args[i] == "--scope"@ {
        if i + 1 >= args.len() {
            Err("--scope requires a value"@)
        } else {
            match cli::scope_in(args[i + 1], true) {
                Err(message) => Err(message),
                Ok(scope) => read_from(args, command, i + 2, ReadState { scope, ..state }),
            }
        }
    } else if dashed(args[i]) {
        Err(unknown_option(command, args[i]))
    } else {
        read_from(
            args,
            command,
            i + 1,
            ReadState { positional: state.positional.push(args[i]), ..state },
        )
    }
}

/// What the arguments of `query` or `why` say.
pub open spec fn read_args_in(args: Seq<Seq<char>>, command: Seq<char>) -> Result<
    ReadArgsView,
    Seq<char>,
> {
    match read_from(
        args,
        command,
        0,
        ReadState { positional: seq![], workspace: None, scope: Scope::All },
    ) {
        Err(message) => Err(message),
        Ok(state) => if state.positional.len() != 2 {
            Err(
                command + " requires <path> and one quoted "@ + (if command == "why"@ {
                    "fact"@
                } else {
                    "goal"@
                }) + " argument"@,
            )
        } else {
            Ok(
                ReadArgsView {
                    path: state.positional[0],
                    expression: state.positional[1],
                    workspace: state.workspace,
                    scope: state.scope,
                },
            )
        },
    }
}

/// Reads the arguments of `query` or `why`.
pub fn parse_read_args(args: &Vec<String>, command: &str) -> (parsed: Result<ReadArgs, String>)
    ensures
        match read_args_in(text::texts(args@), command@) {
            Ok(said) => parsed matches Ok(found) && found@ == said,
            Err(message) => parsed matches Err(told) && told@ == message,
        },
{
    let ghost all = text::texts(args@);
    let mut positional: Vec<String> = Vec::new();
    let mut workspace: Option<String> = None;
    let mut scope: Scope = Scope::All;
    let mut i: usize = 0;
    assert(text::texts(positional@) =~= seq![]);
    let ghost start = ReadState { positional: seq![], workspace: None, scope: Scope::All };
    while i < args.len()
        invariant
            all == text::texts(args@),
            i <= args@.len(),
            start == (ReadState { positional: seq![], workspace: None, scope: Scope::All }),
            read_from(all, command@, 0, start) == read_from(
                all,
                command@,
                i as int,
                ReadState {
                    positional: text::texts(positional@),
                    workspace: snapshot::optional_text(workspace),
                    scope,
                },
            ),
        decreases args@.len() - i,
    {
        let word: &str = args[i].as_str();
        if text::same_text(word, "--workspace") {
            if args.len() - i <= 1 {
                return Err("--workspace requires a path".to_owned());
            }
            workspace = Some(args[i + 1].as_str().to_owned());
            i = i + 2;
        } else if text::same_text(word, "--scope") {
            if args.len() - i <= 1 {
                return Err("--scope requires a value".to_owned());
            }
            match cli::parse_scope(args[i + 1].as_str(), true) {
                Err(told) => {
                    return Err(told);
                },
                Ok(found) => {
                    scope = found;
                },
            }
            i = i + 2;
        } else if is_dashed(word) {
            return Err(tell_unknown(command, word));
        } else {
            let ghost before = text::texts(positional@);
            positional.push(word.to_owned());
            assert(text::texts(positional@) =~= before.push(all[i as int]));
            i = i + 1;
        }
    }
    if positional.len() != 2 {
        let mut told: String = command.to_owned();
        told.append(" requires <path> and one quoted ");
        told.append(if text::same_text(command, "why") {
            "fact"
        } else {
            "goal"
        });
        told.append(" argument");
        return Err(told);
    }
    assert(text::texts(positional@)[0] == positional@[0]@);
    assert(text::texts(positional@)[1] == positional@[1]@);
    let expression: String = positional.remove(1);
    let path: String = positional.remove(0);
    Ok(ReadArgs { path, expression, workspace, scope })
}

// ----------------------------------------------------------------- search
/// How many rows a search shows where no limit is given.
pub const DEFAULT_LIMIT: usize = 50;

/// The arguments of `search`.
#[derive(Clone, Debug, PartialEq, Eq)]
pub struct SearchArgs {
    pub path: String,
    pub pattern: String,
    pub workspace: Option<String>,
    pub scope: Scope,
    pub limit: usize,
}

/// The arguments of `search`, as a view.
#[verifier::ext_equal]
pub struct SearchArgsView {
    pub path: Seq<char>,
    pub pattern: Seq<char>,
    pub workspace: Option<Seq<char>>,
    pub scope: Scope,
    pub limit: int,
}

impl View for SearchArgs {
    type V = SearchArgsView;

    open spec fn view(&self) -> SearchArgsView {
        SearchArgsView {
            path: self.path@,
            pattern: self.pattern@,
            workspace: snapshot::optional_text(self.workspace),
            scope: self.scope,
            limit: self.limit as int,
        }
    }
}

/// What was read of the arguments of `search`.
#[verifier::ext_equal]
pub struct SearchState {
    pub positional: Seq<Seq<char>>,
    pub workspace: Option<Seq<char>>,
    pub scope: Scope,
    pub limit: int,
    pub options: bool,
}

/// The limit that a word writes: a positive number.
pub open spec fn limit_in(word: Seq<char>) -> Option<int> {
    match number::read_unsigned(word, usize::MAX as nat) {
        Some(n) if n > 0 => Some(n as int),
        _ => None,
    }
}

/// What is read of the arguments from the given one on. After `--` there are no options.
pub open spec fn search_from(args: Seq<Seq<char>>, i: int, state: SearchState) -> Result<
    SearchState,
    Seq<char>,
>
    decreases args.len() - i,
{
    if i < 0 || i >= args.len() {
        Ok(state)
    } else if state.options && args[i] == "--"@ {
        search_from(args, i + 1, SearchState { options: false, ..state })
    } else if state.options && args[i] == "--workspace"@ {
        if i + 1 >= args.len() {
            Err("--workspace requires a path"@)
        } else {
            search_from(args, i + 2, SearchState { workspace: Some(args[i + 1]), ..state })
        }
    } else if state.options && args[i] == "--scope"@ {
        if i + 1 >= args.len() {
            Err("--scope requires a value"@)
        } else {
            match cli::scope_in(args[i + 1], true) {
                Err(message) => Err(message),
                Ok(scope) => search_from(args, i + 2, SearchState { scope, ..state }),
            }
        }
    } else if state.options && args[i] == "--limit"@ {
        if i + 1 >= args.len() {
            Err("--limit requires a positive integer"@)
        } else {
            match limit_in(args[i + 1]) {
                None => Err("--limit requires a positive integer"@),
                Some(limit) => search_from(args, i + 2, SearchState { limit, ..state }),
            }
        }
    } else if state.options && dashed(args[i]) {
        Err(unknown_option("search"@, args[i]))
    } else {
        search_from(
            args,
            i + 1,
            SearchState { positional: state.positional.push(args[i]), ..state },
        )
    }
}

/// The state before the first argument of `search`.
pub open spec fn search_start() -> SearchState {
    SearchState {
        positional: seq![],
        workspace: None,
        scope: Scope::All,
        limit: DEFAULT_LIMIT as int,
        options: true,
    }
}

/// What the arguments of `search` say.
pub open spec fn search_args_in(args: Seq<Seq<char>>) -> Result<SearchArgsView, Seq<char>> {
    match search_from(args, 0, search_start()) {
        Err(message) => Err(message),
        Ok(state) => if state.positional.len() != 2 {
            Err("search requires <path> and one quoted pattern argument"@)
        } else {
            Ok(
                SearchArgsView {
                    path: state.positional[0],
                    pattern: state.positional[1],
                    workspace: state.workspace,
                    scope: state.scope,
                    limit: state.limit,
                },
            )
        },
    }
}

/// Reads a limit.
fn parse_limit(word: &str) -> (limit: Option<usize>)
    ensures
        match limit {
            Some(n) => limit_in(word@) == Some(n as int),
            None => limit_in(word@) is None,
        },
{
    let chars: Vec<char> = text::chars_of(word);
    match number::parse_usize(chars.as_slice()) {
        Some(limit) if limit > 0 => Some(limit),
        _ => None,
    }
}

/// Reads the arguments of `search`.
pub fn parse_search_args(args: &Vec<String>) -> (parsed: Result<SearchArgs, String>)
    ensures
        match search_args_in(text::texts(args@)) {
            Ok(said) => parsed matches Ok(found) && found@ == said,
            Err(message) => parsed matches Err(told) && told@ == message,
        },
{
    let ghost all = text::texts(args@);
    let mut positional: Vec<String> = Vec::new();
    let mut workspace: Option<String> = None;
    let mut scope: Scope = Scope::All;
    let mut limit: usize = DEFAULT_LIMIT;
    let mut options: bool = true;
    let mut i: usize = 0;
    assert(text::texts(positional@) =~= seq![]);
    while i < args.len()
        invariant
            all == text::texts(args@),
            i <= args@.len(),
            search_from(all, 0, search_start()) == search_from(
                all,
                i as int,
                SearchState {
                    positional: text::texts(positional@),
                    workspace: snapshot::optional_text(workspace),
                    scope,
                    limit: limit as int,
                    options,
                },
            ),
        decreases args@.len() - i,
    {
        let word: &str = args[i].as_str();
        if options && text::same_text(word, "--") {
            options = false;
            i = i + 1;
        } else if options && text::same_text(word, "--workspace") {
            if args.len() - i <= 1 {
                return Err("--workspace requires a path".to_owned());
            }
            workspace = Some(args[i + 1].as_str().to_owned());
            i = i + 2;
        } else if options && text::same_text(word, "--scope") {
            if args.len() - i <= 1 {
                return Err("--scope requires a value".to_owned());
            }
            match cli::parse_scope(args[i + 1].as_str(), true) {
                Err(told) => {
                    return Err(told);
                },
                Ok(found) => {
                    scope = found;
                },
            }
            i = i + 2;
        } else if options && text::same_text(word, "--limit") {
            if args.len() - i <= 1 {
                return Err("--limit requires a positive integer".to_owned());
            }
            match parse_limit(args[i + 1].as_str()) {
                None => {
                    return Err("--limit requires a positive integer".to_owned());
                },
                Some(found) => {
                    limit = found;
                },
            }
            i = i + 2;
        } else if options && is_dashed(word) {
            return Err(tell_unknown("search", word));
        } else {
            let ghost before = text::texts(positional@);
            positional.push(word.to_owned());
            assert(text::texts(positional@) =~= before.push(all[i as int]));
            i = i + 1;
        }
    }
    if positional.len() != 2 {
        return Err("search requires <path> and one quoted pattern argument".to_owned());
    }
    assert(text::texts(positional@)[0] == positional@[0]@);
    assert(text::texts(positional@)[1] == positional@[1]@);
    let pattern: String = positional.remove(1);
    let path: String = positional.remove(0);
    Ok(SearchArgs { path, pattern, workspace, scope, limit })
}

// ---------------------------------------------------------------- observe
/// The arguments of `observe`.
#[derive(Clone, Debug, PartialEq, Eq)]
pub struct ObserveArgs {
    pub path: String,
    pub facts: String,
    pub ts: i64,
    pub uris: Vec<String>,
    pub captured_at: Option<String>,
    pub workspace: Option<String>,
    pub scope: Scope,
}

/// The arguments of `observe`, as a view.
#[verifier::ext_equal]
pub struct ObserveArgsView {
    pub path: Seq<char>,
    pub facts: Seq<char>,
    pub ts: int,
    pub uris: Seq<Seq<char>>,
    pub captured_at: Option<Seq<char>>,
    pub workspace: Option<Seq<char>>,
    pub scope: Scope,
}

impl View for ObserveArgs {
    type V = ObserveArgsView;

    open spec fn view(&self) -> ObserveArgsView {
        ObserveArgsView {
            path: self.path@,
            facts: self.facts@,
            ts: self.ts as int,
            uris: text::texts(self.uris@),
            captured_at: snapshot::optional_text(self.captured_at),
            workspace: snapshot::optional_text(self.workspace),
            scope: self.scope,
        }
    }
}

/// What was read of the arguments of `observe`.
#[verifier::ext_equal]
pub struct ObserveState {
    pub positional: Seq<Seq<char>>,
    pub ts: int,
    pub uris: Seq<Seq<char>>,
    pub captured_at: Option<Seq<char>>,
    pub workspace: Option<Seq<char>>,
    pub scope: Scope,
}

/// What is read of the arguments from the given one on.
pub open spec fn observe_from(args: Seq<Seq<char>>, i: int, state: ObserveState) -> Result<
    ObserveState,
    Seq<char>,
>
    decreases args.len() - i,
{
    if i < 0 || i >= args.len() {
        Ok(state)
    } else if args[i] == "--workspace"@ {
        if i + 1 >= args.len() {
            Err("--workspace requires a path"@)
        } else {
            observe_from(args, i + 2, ObserveState { workspace: Some(args[i + 1]), ..state })
        }
    } else if args[i] == "--scope"@ {
        if i + 1 >= args.len() {
            Err("--scope requires a value"@)
        } else {
            match cli::scope_in(args[i + 1], false) {
                Err(message) => Err(message),
                Ok(scope) => observe_from(args, i + 2, ObserveState { scope, ..state }),
            }
        }
    } else if args[i] == "--ts"@ {
        if i + 1 >= args.len() {
            Err("--ts requires an integer"@)
        } else {
            match number::read_i64(args[i + 1]) {
                None => Err("--ts requires an integer"@),
                Some(ts) => observe_from(args, i + 2, ObserveState { ts, ..state }),
            }
        }
    } else if args[i] == "--provenance"@ {
        if i + 1 >= args.len() {
            Err("--provenance requires a URI"@)
        } else if breaks_record(args[i + 1]) {
            Err("provenance URI cannot contain whitespace"@)
        } else {
            observe_from(
                args,
                i + 2,
                ObserveState { uris: state.uris.push(args[i + 1]), ..state },
            )
        }
    } else if args[i] == "--captured-at"@ {
        if i + 1 >= args.len() {
            Err("--captured-at requires a timestamp"@)
        } else if breaks_record(args[i + 1]) {
            Err("capture timestamp cannot contain whitespace"@)
        } else {
            observe_from(
                args,
                i + 2,
                ObserveState { captured_at: Some(args[i + 1]), ..state },
            )
        }
    } else if dashed(args[i]) {
        Err(unknown_option("observe"@, args[i]))
    } else {
        observe_from(
            args,
            i + 1,
            ObserveState { positional: state.positional.push(args[i]), ..state },
        )
    }
}

/// The state before the first argument of `observe`.
pub open spec fn observe_start(now: int) -> ObserveState {
    ObserveState {
        positional: seq![],
        ts: now,
        uris: seq![],
        captured_at: None,
        workspace: None,
        scope: Scope::Repository,
    }
}

/// What the arguments of `observe` say, where no time is given at the present time.
pub open spec fn observe_args_in(args: Seq<Seq<char>>, now: int) -> Result<
    ObserveArgsView,
    Seq<char>,
> {
    match observe_from(args, 0, observe_start(now)) {
        Err(message) => Err(message),
        Ok(state) => if state.positional.len() != 2 {
            Err("observe requires <path> and one quoted facts argument"@)
        } else if state.captured_at is Some && state.uris.len() == 0 {
            Err("--captured-at requires at least one --provenance URI"@)
        } else {
            Ok(
                ObserveArgsView {
                    path: state.positional[0],
                    facts: state.positional[1],
                    ts: state.ts,
                    uris: state.uris,
                    captured_at: state.captured_at,
                    workspace: state.workspace,
                    scope: state.scope,
                },
            )
        },
    }
}

/// Reads a time.
fn parse_time(word: &str) -> (ts: Option<i64>)
    ensures
        match ts {
            Some(n) => number::read_i64(word@) == Some(n as int),
            None => number::read_i64(word@) is None,
        },
{
    let chars: Vec<char> = text::chars_of(word);
    number::parse_i64(chars.as_slice())
}

/// Reads the arguments of `observe` at the present time.
pub fn parse_observe_args(args: &Vec<String>, now: i64) -> (parsed: Result<ObserveArgs, String>)
    ensures
        match observe_args_in(text::texts(args@), now as int) {
            Ok(said) => parsed matches Ok(found) && found@ == said,
            Err(message) => parsed matches Err(told) && told@ == message,
        },
{
    let ghost all = text::texts(args@);
    let mut positional: Vec<String> = Vec::new();
    let mut ts: i64 = now;
    let mut uris: Vec<String> = Vec::new();
    let mut captured_at: Option<String> = None;
    let mut workspace: Option<String> = None;
    let mut scope: Scope = Scope::Repository;
    let mut i: usize = 0;
    assert(text::texts(positional@) =~= seq![]);
    assert(text::texts(uris@) =~= seq![]);
    while i < args.len()
        invariant
            all == text::texts(args@),
            i <= args@.len(),
            observe_from(all, 0, observe_start(now as int)) == observe_from(
                all,
                i as int,
                ObserveState {
                    positional: text::texts(positional@),
                    ts: ts as int,
                    uris: text::texts(uris@),
                    captured_at: snapshot::optional_text(captured_at),
                    workspace: snapshot::optional_text(workspace),
                    scope,
                },
            ),
        decreases args@.len() - i,
    {
        let word: &str = args[i].as_str();
        let last: bool = args.len() - i <= 1;
        if text::same_text(word, "--workspace") {
            if last {
                return Err("--workspace requires a path".to_owned());
            }
            workspace = Some(args[i + 1].as_str().to_owned());
            i = i + 2;
        } else if text::same_text(word, "--scope") {
            if last {
                return Err("--scope requires a value".to_owned());
            }
            match cli::parse_scope(args[i + 1].as_str(), false) {
                Err(told) => {
                    return Err(told);
                },
                Ok(found) => {
                    scope = found;
                },
            }
            i = i + 2;
        } else if text::same_text(word, "--ts") {
            if last {
                return Err("--ts requires an integer".to_owned());
            }
            match parse_time(args[i + 1].as_str()) {
                None => {
                    return Err("--ts requires an integer".to_owned());
                },
                Some(found) => {
                    ts = found;
                },
            }
            i = i + 2;
        } else if text::same_text(word, "--provenance") {
            if last {
                return Err("--provenance requires a URI".to_owned());
            }
            if has_break(args[i + 1].as_str()) {
                return Err("provenance URI cannot contain whitespace".to_owned());
            }
            let ghost before = text::texts(uris@);
            uris.push(args[i + 1].as_str().to_owned());
            assert(text::texts(uris@) =~= before.push(all[i as int + 1]));
            i = i + 2;
        } else if text::same_text(word, "--captured-at") {
            if last {
                return Err("--captured-at requires a timestamp".to_owned());
            }
            if has_break(args[i + 1].as_str()) {
                return Err("capture timestamp cannot contain whitespace".to_owned());
            }
            captured_at = Some(args[i + 1].as_str().to_owned());
            i = i + 2;
        } else if is_dashed(word) {
            return Err(tell_unknown("observe", word));
        } else {
            let ghost before = text::texts(positional@);
            positional.push(word.to_owned());
            assert(text::texts(positional@) =~= before.push(all[i as int]));
            i = i + 1;
        }
    }
    if positional.len() != 2 {
        return Err("observe requires <path> and one quoted facts argument".to_owned());
    }
    if captured_at.is_some() && uris.len() == 0 {
        return Err("--captured-at requires at least one --provenance URI".to_owned());
    }
    assert(text::texts(positional@)[0] == positional@[0]@);
    assert(text::texts(positional@)[1] == positional@[1]@);
    let facts: String = positional.remove(1);
    let path: String = positional.remove(0);
    Ok(ObserveArgs { path, facts, ts, uris, captured_at, workspace, scope })
}

// ------------------------------------------------------------------ skill
/// What is read of the arguments of `skill install` from the given one on: the last directory
/// that is named, if one is.
pub open spec fn skill_from(
    args: Seq<Seq<char>>,
    i: int,
    directory: Option<Seq<char>>,
) -> Result<Option<Seq<char>>, Seq<char>>
    decreases args.len() - i,
{
    if i < 0 || i >= args.len() {
        Ok(directory)
    } else if args[i] == "--path"@ {
        if i + 1 >= args.len() {
            Err("--path requires a skills directory"@)
        } else {
            skill_from(args, i + 2, Some(args[i + 1]))
        }
    } else {
        Err(unknown_option("skill install"@, args[i]))
    }
}

/// What the arguments of `skill` say.
pub open spec fn skill_args_in(args: Seq<Seq<char>>) -> Result<Option<Seq<char>>, Seq<char>> {
    if args.len() == 0 || args[0] != "install"@ {
        Err("skill requires install"@)
    } else {
        skill_from(args, 1, None)
    }
}

/// Reads the arguments of `skill`: the directory that the skill is installed to, if one is named.
pub fn parse_skill_args(args: &Vec<String>) -> (parsed: Result<Option<String>, String>)
    ensures
        match skill_args_in(text::texts(args@)) {
            Ok(said) => parsed matches Ok(found) && snapshot::optional_text(found) == said,
            Err(message) => parsed matches Err(told) && told@ == message,
        },
{
    let ghost all = text::texts(args@);
    if args.len() == 0 || !text::same_text(args[0].as_str(), "install") {
        return Err("skill requires install".to_owned());
    }
    let mut directory: Option<String> = None;
    let mut i: usize = 1;
    while i < args.len()
        invariant
            all == text::texts(args@),
            1 <= i <= args@.len(),
            all[0] == "install"@,
            skill_from(all, 1, None) == skill_from(
                all,
                i as int,
                snapshot::optional_text(directory),
            ),
        decreases args@.len() - i,
    {
        if text::same_text(args[i].as_str(), "--path") {
            if args.len() - i <= 1 {
                return Err("--path requires a skills directory".to_owned());
            }
            directory = Some(args[i + 1].as_str().to_owned());
            i = i + 2;
        } else {
            return Err(tell_unknown("skill install", args[i].as_str()));
        }
    }
    Ok(directory)
}

} // verus!
