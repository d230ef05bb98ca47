//! What the arguments of the commands mean: each one counts from where it stands, and leaves what
//! the others say as it is.

use vstd::prelude::*;

use crate::args;
use crate::args::{ObserveArgsView, ObserveState, ReadArgsView, ReadState, SearchArgsView, SearchState};
use crate::cli::Scope;
use crate::number;
use crate::text;

verus! {

proof fn lemma_options()
    ensures
        "--workspace"@ != "--scope"@,
        "--workspace"@ != "--limit"@,
        "--workspace"@ != "--"@,
        "--workspace"@ != "--ts"@,
        "--workspace"@ != "--provenance"@,
        "--workspace"@ != "--captured-at"@,
        "--scope"@ != "--limit"@,
        "--scope"@ != "--"@,
        "--scope"@ != "--ts"@,
        "--scope"@ != "--provenance"@,
        "--scope"@ != "--captured-at"@,
        "--limit"@ != "--"@,
        "--ts"@ != "--provenance"@,
        "--ts"@ != "--captured-at"@,
        "--provenance"@ != "--captured-at"@,
        "all"@ != "repository"@,
        "all"@ != "workspace"@,
        "repository"@ != "workspace"@,
        args::dashed("--workspace"@),
        args::dashed("--scope"@),
        args::dashed("--limit"@),
        args::dashed("--"@),
        args::dashed("--ts"@),
        args::dashed("--provenance"@),
        args::dashed("--captured-at"@),
{
    reveal_strlit("--workspace");
    reveal_strlit("--scope");
    reveal_strlit("--limit");
    reveal_strlit("--");
    reveal_strlit("--ts");
    reveal_strlit("--provenance");
    reveal_strlit("--captured-at");
    reveal_strlit("all");
    reveal_strlit("repository");
    reveal_strlit("workspace");
    assert("--workspace"@.len() == 11 && "--scope"@.len() == 7 && "--limit"@.len() == 7);
    assert("--"@.len() == 2 && "--ts"@.len() == 4 && "--provenance"@.len() == 12);
    assert("--captured-at"@.len() == 13);
    assert("--scope"@[2] == 's' && "--limit"@[2] == 'l');
    assert("all"@.len() == 3 && "repository"@.len() == 10 && "workspace"@.len() == 9);
}

// ------------------------------------------------------------ query and why
/// What is known before the first argument of `query` and `why`: the whole memory is read.
pub open spec fn read_start() -> ReadState {
    ReadState { positional: seq![], workspace: None, scope: Scope::All }
}

proof fn lemma_read_behind(
    args: Seq<Seq<char>>,
    more: Seq<Seq<char>>,
    command: Seq<char>,
    i: int,
    from: ReadState,
    to: ReadState,
)
    requires
        0 <= i <= args.len(),
        args::read_from(args, command, i, from) == Ok::<ReadState, Seq<char>>(to),
    ensures
        args::read_from(args + more, command, i, from) == args::read_from(
            args + more,
            command,
            args.len() as int,
            to,
        ),
    decreases args.len() - i,
{
    let all = args + more;
    if i < args.len() {
        assert(all[i] == args[i]);
        if args[i] == "--workspace"@ {
            assert(all[i + 1] == args[i + 1]);
            let next = ReadState { workspace: Some(args[i + 1]), ..from };
            lemma_read_behind(args, more, command, i + 2, next, to);
        } else if args[i] == "--scope"@ {
            assert(all[i + 1] == args[i + 1]);
            let scope = crate::cli::scope_in(args[i + 1], true)->Ok_0;
            let next = ReadState { scope, ..from };
            lemma_read_behind(args, more, command, i + 2, next, to);
        } else {
            let next = ReadState { positional: from.positional.push(args[i]), ..from };
            lemma_read_behind(args, more, command, i + 1, next, to);
        }
    }
}

/// One more argument of `query` or `why`: a path of a workspace and a scope take the place of those
/// before, another word stands behind the words before, and an option that is not known or has no
/// value is refused.
pub proof fn read_arguments_add_up(
    args: Seq<Seq<char>>,
    command: Seq<char>,
    state: ReadState,
    word: Seq<char>,
)
    requires
        args::read_from(args, command, 0, read_start()) == Ok::<ReadState, Seq<char>>(state),
    ensures
        args::read_from(args + seq!["--workspace"@, word], command, 0, read_start()) == Ok::<
            ReadState,
            Seq<char>,
        >(
            (ReadState {
                positional: state.positional,
                workspace: Some(word),
                scope: state.scope,
            }),
        ),
        args::read_from(args + seq!["--scope"@, "all"@], command, 0, read_start()) == Ok::<
            ReadState,
            Seq<char>,
        >(
            (ReadState {
                positional: state.positional,
                workspace: state.workspace,
                scope: Scope::All,
            }),
        ),
        args::read_from(args + seq!["--scope"@, "repository"@], command, 0, read_start()) == Ok::<
            ReadState,
            Seq<char>,
        >(
            (ReadState {
                positional: state.positional,
                workspace: state.workspace,
                scope: Scope::Repository,
            }),
        ),
        args::read_from(args + seq!["--scope"@, "workspace"@], command, 0, read_start()) == Ok::<
            ReadState,
            Seq<char>,
        >(
            (ReadState {
                positional: state.positional,
                workspace: state.workspace,
                scope: Scope::Workspace,
            }),
        ),
        args::read_from(args + seq!["--workspace"@], command, 0, read_start()) is Err,
        args::read_from(args + seq!["--scope"@], command, 0, read_start()) is Err,
        word.len() == 0 || word[0] != '-' ==> args::read_from(
            args + seq![word],
            command,
            0,
            read_start(),
        ) == Ok::<ReadState, Seq<char>>(
            (ReadState {
                positional: state.positional.push(word),
                workspace: state.workspace,
                scope: state.scope,
            }),
        ),
        word.len() > 0 && word[0] == '-' && word != "--workspace"@ && word != "--scope"@
            ==> args::read_from(args + seq![word], command, 0, read_start()) == Err::<
            ReadState,
            Seq<char>,
        >("unknown "@ + command + " option "@ + text::quoted(word)),
{
    lemma_options();
    let n = args.len() as int;
    reveal_with_fuel(args::read_from, 3);
    let a = seq!["--workspace"@, word];
    lemma_read_behind(args, a, command, 0, read_start(), state);
    assert((args + a)[n] == "--workspace"@ && (args + a)[n + 1] == word);
    let b = seq!["--scope"@, "all"@];
    lemma_read_behind(args, b, command, 0, read_start(), state);
    assert((args + b)[n] == "--scope"@ && (args + b)[n + 1] == "all"@);
    let c = seq!["--scope"@, "repository"@];
    lemma_read_behind(args, c, command, 0, read_start(), state);
    assert((args + c)[n] == "--scope"@ && (args + c)[n + 1] == "repository"@);
    let d = seq!["--scope"@, "workspace"@];
    lemma_read_behind(args, d, command, 0, read_start(), state);
    assert((args + d)[n] == "--scope"@ && (args + d)[n + 1] == "workspace"@);
    lemma_read_behind(args, seq!["--workspace"@], command, 0, read_start(), state);
    assert((args + seq!["--workspace"@])[n] == "--workspace"@);
    lemma_read_behind(args, seq!["--scope"@], command, 0, read_start(), state);
    assert((args + seq!["--scope"@])[n] == "--scope"@);
    lemma_read_behind(args, seq![word], command, 0, read_start(), state);
    assert((args + seq![word])[n] == word);
}

/// `query` and `why` take two words: the path and the expression.
pub proof fn read_takes_two_words(args: Seq<Seq<char>>, command: Seq<char>)
    ensures
        args::read_from(seq![], command, 0, read_start()) == Ok::<ReadState, Seq<char>>(
            read_start(),
        ),
        match args::read_from(args, command, 0, read_start()) {
            Err(message) => args::read_args_in(args, command) == Err::<ReadArgsView, Seq<char>>(
                message,
            ),
            Ok(state) => if state.positional.len() == 2 {
                args::read_args_in(args, command) == Ok::<ReadArgsView, Seq<char>>(
                    (ReadArgsView {
                        path: state.positional[0],
                        expression: state.positional[1],
                        workspace: state.workspace,
                        scope: state.scope,
                    }),
                )
            } else {
                args::read_args_in(args, command) is Err
            },
        },
{
}

// ------------------------------------------------------------------ search
/// What is known before the first argument of `search`: the whole memory is searched, for no more
/// than fifty rows.
pub open spec fn search_start() -> SearchState {
    SearchState { positional: seq![], workspace: None, scope: Scope::All, limit: 50, options: true }
}

proof fn lemma_search_behind(
    args: Seq<Seq<char>>,
    more: Seq<Seq<char>>,
    i: int,
    from: SearchState,
    to: SearchState,
)
    requires
        0 <= i <= args.len(),
        args::search_from(args, i, from) == Ok::<SearchState, Seq<char>>(to),
    ensures
        args::search_from(args + more, i, from) == args::search_from(
            args + more,
            args.len() as int,
            to,
        ),
    decreases args.len() - i,
{
    let all = args + more;
    if i < args.len() {
        assert(all[i] == args[i]);
        if from.options && args[i] == "--"@ {
            lemma_search_behind(args, more, i + 1, SearchState { options: false, ..from }, to);
        } else if from.options && args[i] == "--workspace"@ {
            assert(all[i + 1] == args[i + 1]);
            let next = SearchState { workspace: Some(args[i + 1]), ..from };
            lemma_search_behind(args, more, i + 2, next, to);
        } else if from.options && args[i] == "--scope"@ {
            assert(all[i + 1] == args[i + 1]);
            let scope = crate::cli::scope_in(args[i + 1], true)->Ok_0;
            lemma_search_behind(args, more, i + 2, SearchState { scope, ..from }, to);
        } else if from.options && args[i] == "--limit"@ {
            assert(all[i + 1] == args[i + 1]);
            let limit = args::limit_in(args[i + 1])->0;
            lemma_search_behind(args, more, i + 2, SearchState { limit, ..from }, to);
        } else {
            let next = SearchState { positional: from.positional.push(args[i]), ..from };
            lemma_search_behind(args, more, i + 1, next, to);
        }
    }
}

/// One more argument of `search`, before two dashes: an option takes the place of what was before,
/// another word stands behind the words before, and an option that is not known or has no value is
/// refused. Behind two dashes every argument is a word.
pub proof fn search_arguments_add_up(
    args: Seq<Seq<char>>,
    state: SearchState,
    word: Seq<char>,
    limit: nat,
)
    requires
        args::search_from(args, 0, search_start()) == Ok::<SearchState, Seq<char>>(state),
        0 < limit <= usize::MAX,
    ensures
        state.options ==> {
            &&& args::search_from(args + seq!["--workspace"@, word], 0, search_start()) == Ok::<
                SearchState,
                Seq<char>,
            >((SearchState { workspace: Some(word), ..state }))
            &&& args::search_from(args + seq!["--scope"@, "all"@], 0, search_start()) == Ok::<
                SearchState,
                Seq<char>,
            >((SearchState { scope: Scope::All, ..state }))
            &&& args::search_from(args + seq!["--scope"@, "repository"@], 0, search_start())
                == Ok::<SearchState, Seq<char>>((SearchState { scope: Scope::Repository, ..state }))
            &&& args::search_from(args + seq!["--scope"@, "workspace"@], 0, search_start()) == Ok::<
                SearchState,
                Seq<char>,
            >((SearchState { scope: Scope::Workspace, ..state }))
            &&& args::search_from(
                args + seq!["--limit"@, number::decimal(limit)],
                0,
                search_start(),
            ) == Ok::<SearchState, Seq<char>>((SearchState { limit: limit as int, ..state }))
            &&& args::search_from(args + seq!["--limit"@, number::decimal(0)], 0, search_start())
                is Err
            &&& args::search_from(args + seq!["--"@], 0, search_start()) == Ok::<
                SearchState,
                Seq<char>,
            >((SearchState { options: false, ..state }))
            &&& word.len() > 0 && word[0] == '-' && word != "--workspace"@ && word != "--scope"@
                && word != "--limit"@ && word != "--"@ ==> args::search_from(
                args + seq![word],
                0,
                search_start(),
            ) is Err
        },
        !state.options || word.len() == 0 || word[0] != '-' ==> args::search_from(
            args + seq![word],
            0,
            search_start(),
        ) == Ok::<SearchState, Seq<char>>(
            (SearchState { positional: state.positional.push(word), ..state }),
        ),
{
    lemma_options();
    let n = args.len() as int;
    let start = search_start();
    reveal_with_fuel(args::search_from, 3);
    number::decimal_reads_back(limit, usize::MAX as nat);
    number::decimal_reads_back(0, usize::MAX as nat);
    let a = seq!["--workspace"@, word];
    lemma_search_behind(args, a, 0, start, state);
    assert((args + a)[n] == "--workspace"@ && (args + a)[n + 1] == word);
    let b = seq!["--scope"@, "all"@];
    lemma_search_behind(args, b, 0, start, state);
    assert((args + b)[n] == "--scope"@ && (args + b)[n + 1] == "all"@);
    let c = seq!["--scope"@, "repository"@];
    lemma_search_behind(args, c, 0, start, state);
    assert((args + c)[n] == "--scope"@ && (args + c)[n + 1] == "repository"@);
    let d = seq!["--scope"@, "workspace"@];
    lemma_search_behind(args, d, 0, start, state);
    assert((args + d)[n] == "--scope"@ && (args + d)[n + 1] == "workspace"@);
    let e = seq!["--limit"@, number::decimal(limit)];
    lemma_search_behind(args, e, 0, start, state);
    assert((args + e)[n] == "--limit"@ && (args + e)[n + 1] == number::decimal(limit));
    let f = seq!["--limit"@, number::decimal(0)];
    lemma_search_behind(args, f, 0, start, state);
    assert((args + f)[n] == "--limit"@ && (args + f)[n + 1] == number::decimal(0));
    lemma_search_behind(args, seq!["--"@], 0, start, state);
    assert((args + seq!["--"@])[n] == "--"@);
    lemma_search_behind(args, seq![word], 0, start, state);
    assert((args + seq![word])[n] == word);
}

/// `search` takes two words: the path and the pattern.
pub proof fn search_takes_two_words(args: Seq<Seq<char>>)
    ensures
        args::search_from(seq![], 0, search_start()) == Ok::<SearchState, Seq<char>>(
            search_start(),
        ),
        match args::search_from(args, 0, search_start()) {
            Err(message) => args::search_args_in(args) == Err::<SearchArgsView, Seq<char>>(message),
            Ok(state) => if state.positional.len() == 2 {
                args::search_args_in(args) == Ok::<SearchArgsView, Seq<char>>(
                    (SearchArgsView {
                        path: state.positional[0],
                        pattern: state.positional[1],
                        workspace: state.workspace,
                        scope: state.scope,
                        limit: state.limit,
                    }),
                )
            } else {
                args::search_args_in(args) is Err
            },
        },
{
}

// ----------------------------------------------------------------- observe
/// What is known before the first argument of `observe`: the time is the present one, and the facts
/// belong to the repository.
pub open spec fn observe_start(now: int) -> ObserveState {
    ObserveState {
        positional: seq![],
        ts: now,
        uris: seq![],
        captured_at: None,
        workspace: None,
        scope: Scope::Repository,
    }
}

proof fn lemma_observe_behind(
    args: Seq<Seq<char>>,
    more: Seq<Seq<char>>,
    i: int,
    from: ObserveState,
    to: ObserveState,
)
    requires
        0 <= i <= args.len(),
        args::observe_from(args, i, from) == Ok::<ObserveState, Seq<char>>(to),
    ensures
        args::observe_from(args + more, i, from) == args::observe_from(
            args + more,
            args.len() as int,
            to,
        ),
    decreases args.len() - i,
{
    let all = args + more;
    if i < args.len() {
        assert(all[i] == args[i]);
        if i + 1 < args.len() {
            assert(all[i + 1] == args[i + 1]);
        }
        if args[i] == "--workspace"@ {
            let next = ObserveState { workspace: Some(args[i + 1]), ..from };
            lemma_observe_behind(args, more, i + 2, next, to);
        } else if args[i] == "--scope"@ {
            let scope = crate::cli::scope_in(args[i + 1], false)->Ok_0;
            lemma_observe_behind(args, more, i + 2, ObserveState { scope, ..from }, to);
        } else if args[i] == "--ts"@ {
            let ts = number::read_i64(args[i + 1])->0;
            lemma_observe_behind(args, more, i + 2, ObserveState { ts, ..from }, to);
        } else if args[i] == "--provenance"@ {
            let next = ObserveState { uris: from.uris.push(args[i + 1]), ..from };
            lemma_observe_behind(args, more, i + 2, next, to);
        } else if args[i] == "--captured-at"@ {
            let next = ObserveState { captured_at: Some(args[i + 1]), ..from };
            lemma_observe_behind(args, more, i + 2, next, to);
        } else {
            let next = ObserveState { positional: from.positional.push(args[i]), ..from };
            lemma_observe_behind(args, more, i + 1, next, to);
        }
    }
}

/// What an option and its value do behind other arguments.
proof fn lemma_observe_pair(
    args: Seq<Seq<char>>,
    option: Seq<char>,
    value: Seq<char>,
    from: ObserveState,
    to: ObserveState,
)
    requires
        args::observe_from(args, 0, from) == Ok::<ObserveState, Seq<char>>(to),
    ensures
        ({
            let all = args::observe_from(args + seq![option, value], 0, from);
            &&& option == "--workspace"@ ==> all == Ok::<ObserveState, Seq<char>>(
                ObserveState { workspace: Some(value), ..to },
            )
            &&& option == "--scope"@ ==> all == match crate::cli::scope_in(value, false) {
                Ok(scope) => Ok(ObserveState { scope, ..to }),
                Err(message) => Err(message),
            }
            &&& option == "--ts"@ ==> all == match number::read_i64(value) {
                Some(ts) => Ok(ObserveState { ts, ..to }),
                None => Err("--ts requires an integer"@),
            }
            &&& option == "--provenance"@ ==> all == if args::breaks_record(value) {
                Err("provenance URI cannot contain whitespace"@)
            } else {
                Ok(ObserveState { uris: to.uris.push(value), ..to })
            }
            &&& option == "--captured-at"@ ==> all == if args::breaks_record(value) {
                Err("capture timestamp cannot contain whitespace"@)
            } else {
                Ok(ObserveState { captured_at: Some(value), ..to })
            }
        }),
{
    lemma_options();
    let more = seq![option, value];
    let all = args + more;
    let n = args.len() as int;
    lemma_observe_behind(args, more, 0, from, to);
    assert(all.len() == n + 2 && all[n] == option && all[n + 1] == value);
    reveal_with_fuel(args::observe_from, 2);
}

/// One more argument of `observe`: a reference stands behind the references before, another word
/// behind the words before, and the other options take the place of what was before. A reference and
/// a time of capture hold no tab and no line ending; and an observation is not made of all scopes.
pub proof fn observe_arguments_add_up(
    args: Seq<Seq<char>>,
    now: int,
    state: ObserveState,
    word: Seq<char>,
    ts: i64,
)
    requires
        args::observe_from(args, 0, observe_start(now)) == Ok::<ObserveState, Seq<char>>(state),
    ensures
        args::observe_from(args + seq!["--workspace"@, word], 0, observe_start(now)) == Ok::<
            ObserveState,
            Seq<char>,
        >((ObserveState { workspace: Some(word), ..state })),
        args::observe_from(args + seq!["--scope"@, "repository"@], 0, observe_start(now)) == Ok::<
            ObserveState,
            Seq<char>,
        >((ObserveState { scope: Scope::Repository, ..state })),
        args::observe_from(args + seq!["--scope"@, "workspace"@], 0, observe_start(now)) == Ok::<
            ObserveState,
            Seq<char>,
        >((ObserveState { scope: Scope::Workspace, ..state })),
        args::observe_from(args + seq!["--scope"@, "all"@], 0, observe_start(now)) is Err,
        args::observe_from(
            args + seq!["--ts"@, number::decimal_int(ts as int)],
            0,
            observe_start(now),
        ) == Ok::<ObserveState, Seq<char>>((ObserveState { ts: ts as int, ..state })),
        args::observe_from(args + seq!["--provenance"@, word], 0, observe_start(now)) == (
        if word.contains('\t') || word.contains('\n') || word.contains('\r') {
            Err("provenance URI cannot contain whitespace"@)
        } else {
            Ok((ObserveState { uris: state.uris.push(word), ..state }))
        }),
        args::observe_from(args + seq!["--captured-at"@, word], 0, observe_start(now)) == (
        if word.contains('\t') || word.contains('\n') || word.contains('\r') {
            Err("capture timestamp cannot contain whitespace"@)
        } else {
            Ok((ObserveState { captured_at: Some(word), ..state }))
        }),
        word.len() == 0 || word[0] != '-' ==> args::observe_from(
            args + seq![word],
            0,
            observe_start(now),
        ) == Ok::<ObserveState, Seq<char>>(
            (ObserveState { positional: state.positional.push(word), ..state }),
        ),
{
    lemma_options();
    number::decimal_int_reads_back(ts);
    lemma_observe_pair(args, "--workspace"@, word, observe_start(now), state);
    lemma_observe_pair(args, "--scope"@, "all"@, observe_start(now), state);
    lemma_observe_pair(args, "--scope"@, "repository"@, observe_start(now), state);
    lemma_observe_pair(args, "--scope"@, "workspace"@, observe_start(now), state);
    lemma_observe_pair(
        args,
        "--ts"@,
        number::decimal_int(ts as int),
        observe_start(now),
        state,
    );
    lemma_observe_pair(args, "--provenance"@, word, observe_start(now), state);
    lemma_observe_pair(args, "--captured-at"@, word, observe_start(now), state);
    let all = args + seq![word];
    let n = args.len() as int;
    lemma_observe_behind(args, seq![word], 0, observe_start(now), state);
    assert(all[n] == word);
    reveal_with_fuel(args::observe_from, 2);
}

/// `observe` takes two words, the path and the facts, and a time of capture only with a reference.
pub proof fn observe_takes_two_words(args: Seq<Seq<char>>, now: int)
    ensures
        args::observe_from(seq![], 0, observe_start(now)) == Ok::<ObserveState, Seq<char>>(
            observe_start(now),
        ),
        match args::observe_from(args, 0, observe_start(now)) {
            Err(message) => args::observe_args_in(args, now) == Err::<ObserveArgsView, Seq<char>>(
                message,
            ),
            Ok(state) => if state.positional.len() == 2 && (state.captured_at is None
                || state.uris.len() > 0) {
                args::observe_args_in(args, now) == Ok::<ObserveArgsView, Seq<char>>(
                    (ObserveArgsView {
                        path: state.positional[0],
                        facts: state.positional[1],
                        ts: state.ts,
                        uris: state.uris,
                        captured_at: state.captured_at,
                        workspace: state.workspace,
                        scope: state.scope,
                    }),
                )
            } else {
                args::observe_args_in(args, now) is Err
            },
        },
{
}

// ------------------------------------------------------------------- skill
/// `skill` installs, into the directory that was given last, where one was given; and takes nothing
/// else.
pub proof fn skill_is_installed_where_it_is_asked_for(
    args: Seq<Seq<char>>,
    directory: Seq<char>,
    word: Seq<char>,
)
    requires
        args::skill_args_in(args) is Ok,
        word != "--path"@,
    ensures
        args::skill_args_in(seq!["install"@]) == Ok::<Option<Seq<char>>, Seq<char>>(None),
        args::skill_args_in(args + seq!["--path"@, directory]) == Ok::<Option<Seq<char>>, Seq<char>>(
            Some(directory),
        ),
        args::skill_args_in(args + seq!["--path"@]) is Err,
        args::skill_args_in(args + seq![word]) is Err,
        word != "install"@ ==> args::skill_args_in(seq![word]) is Err,
        args::skill_args_in(Seq::<Seq<char>>::empty()) is Err,
{
    let n = args.len() as int;
    let state = args::skill_args_in(args)->Ok_0;
    reveal_with_fuel(args::skill_from, 3);
    assert(seq!["install"@][0] == "install"@);
    let a = args + seq!["--path"@, directory];
    lemma_skill_behind(args, seq!["--path"@, directory], 1, None, state);
    assert(a[0] == args[0] && a[n] == "--path"@ && a[n + 1] == directory);
    let b = args + seq!["--path"@];
    lemma_skill_behind(args, seq!["--path"@], 1, None, state);
    assert(b[0] == args[0] && b[n] == "--path"@);
    let c = args + seq![word];
    lemma_skill_behind(args, seq![word], 1, None, state);
    assert(c[0] == args[0] && c[n] == word);
    assert(seq![word][0] == word);
}

proof fn lemma_skill_behind(
    args: Seq<Seq<char>>,
    more: Seq<Seq<char>>,
    i: int,
    from: Option<Seq<char>>,
    to: Option<Seq<char>>,
)
    requires
        0 <= i <= args.len(),
        args::skill_from(args, i, from) == Ok::<Option<Seq<char>>, Seq<char>>(to),
    ensures
        args::skill_from(args + more, i, from) == args::skill_from(
            args + more,
            args.len() as int,
            to,
        ),
    decreases args.len() - i,
{
    let all = args + more;
    if i < args.len() {
        assert(all[i] == args[i]);
        if i + 1 < args.len() {
            assert(all[i + 1] == args[i + 1]);
            lemma_skill_behind(args, more, i + 2, Some(args[i + 1]), to);
        }
    }
}

} // verus!
