use lemmalog::agent::{AgentMemory, MockExtractor};
use lemmalog::args::{
    parse_observe_args, parse_read_args, parse_search_args, parse_skill_args, DEFAULT_LIMIT,
};
use lemmalog::clock::rfc3339;
use lemmalog::cli::{
    ask_expression, command, launch, observe_facts, parse_scope, restrict_scope, scope_name,
    search_selection, tell_answers, tell_observation, tell_search, Ask, Command, Launch, Place,
    Scope, USAGE,
};
use lemmalog::evidence::{
    capture, capture_all, cite_evidence, parse_evidence, record_evidence, write_evidence,
};
use lemmalog::search::search_snapshot;
use lemmalog::workspace::{
    nearest_marker, parse_workspace_id, repository_identity, stable_key, workspace_store,
    WorkspaceStore,
};

fn strings(values: &[&str]) -> Vec<String> {
    values.iter().map(|value| value.to_string()).collect()
}

/// The files of one workspace.
struct Workspace {
    marked: bool,
    snapshot: Option<String>,
    evidence: Option<String>,
}

impl Workspace {
    fn new(marked: bool) -> Workspace {
        Workspace { marked, snapshot: None, evidence: None }
    }

    fn load(&self) -> AgentMemory<MockExtractor> {
        match &self.snapshot {
            None => AgentMemory::new(MockExtractor::new("0.9"), "").unwrap(),
            Some(content) => {
                AgentMemory::load(MockExtractor::new("0.9"), content)
                    .map_err(|error| error.message())
                    .unwrap()
            }
        }
    }

    fn observe(&mut self, identity: &str, args: &[&str]) -> Result<String, String> {
        let parsed = parse_observe_args(&strings(args), 7)?;
        let mut memory = self.load();
        let (report, dropped) = observe_facts(
            &mut memory,
            &parsed.facts,
            parsed.ts,
            &parsed.uris,
            identity,
            self.marked,
            parsed.scope,
        );
        self.snapshot = Some(memory.save());
        let mut entries = match &self.evidence {
            None => vec![],
            Some(content) => parse_evidence(content).unwrap(),
        };
        let now = rfc3339(7);
        if record_evidence(&mut entries, &parsed.uris, &parsed.captured_at, &now) {
            self.evidence = Some(write_evidence(&entries));
        }
        let place = Place {
            workspace: "w".to_string(),
            workspace_root: "wr".to_string(),
            repository: identity.to_string(),
            root: "r".to_string(),
            scope: scope_name(identity, parsed.scope),
            snapshot: "s".to_string(),
        };
        Ok(tell_observation(&place, &report, &dropped))
    }

    fn query(&self, identity: &str, args: &[&str]) -> Result<String, String> {
        let parsed = parse_read_args(&strings(args), "query")?;
        let mut memory = self.load();
        restrict_scope(&mut memory, identity, self.marked, parsed.scope);
        Ok(tell_answers(&memory.answer(&parsed.expression)?))
    }

    fn why(&self, identity: &str, args: &[&str]) -> Result<String, String> {
        let parsed = parse_read_args(&strings(args), "why")?;
        let mut memory = self.load();
        restrict_scope(&mut memory, identity, self.marked, parsed.scope);
        let entries = match &self.evidence {
            None => vec![],
            Some(content) => parse_evidence(content).unwrap(),
        };
        Ok(cite_evidence(&memory.why(&parsed.expression), &entries))
    }

    fn search(&self, identity: &str, args: &[&str]) -> Result<String, String> {
        let parsed = parse_search_args(&strings(args))?;
        let (selected, include_legacy) = search_selection(identity, self.marked, parsed.scope);
        let found = search_snapshot(
            self.snapshot.as_deref(),
            &parsed.pattern,
            parsed.limit,
            selected,
            scope_name(identity, Scope::Repository),
            include_legacy,
        );
        tell_search(&found, parsed.limit)
    }
}

const FIRST: &str = "git@github.com:example/first.git";
const SECOND: &str = "git@github.com:example/second.git";

#[test]
fn repository_keys_are_stable() {
    assert_eq!(
        stable_key("https://github.com/acme/payments"),
        stable_key("https://github.com/acme/payments")
    );
    assert_ne!(stable_key("a"), stable_key("b"));
    assert_eq!(stable_key(""), "cbf29ce484222325");
    assert_eq!(stable_key("a"), "af63dc4c8601ec8c");
    assert_eq!(stable_key("é").len(), 16);
}

#[test]
fn cli_persists_and_explains_repository_facts_from_outside_checkout() {
    let identity = "git@github.com:example/persistence.git";
    let provenance = "https://github.com/example/persistence/blob/abc123/src/lib.rs#L1";
    let mut workspace = Workspace::new(false);
    let observed = workspace
        .observe(
            identity,
            &[
                "src/lib.rs",
                "alice --works_at--> acme",
                "--ts",
                "100",
                "--provenance",
                provenance,
                "--captured-at",
                "2026-08-29T19:42:00Z",
            ],
        )
        .unwrap();
    assert!(observed
        .lines()
        .any(|line| line == "added=1 updated=0 noop=0 escalations=0"));
    assert_eq!(
        workspace
            .query(identity, &["repo", "current(\"alice\", \"works_at\", O)"])
            .unwrap(),
        "O=acme"
    );
    let explanation = workspace
        .why(identity, &["repo", "current(alice, works_at, acme)"])
        .unwrap();
    assert!(explanation.lines().any(|line| {
        line == format!("evidence: {provenance} (captured_at=2026-08-29T19:42:00Z)")
    }));
}

#[test]
fn cli_keeps_repository_snapshots_isolated() {
    let mut first = Workspace::new(false);
    let mut second = Workspace::new(false);
    for (workspace, identity) in [(&mut first, FIRST), (&mut second, SECOND)] {
        workspace
            .observe(identity, &["repo", "alice --works_at--> acme", "--ts", "100"])
            .unwrap();
    }
    first
        .observe(FIRST, &["repo", "alice --likes--> tea", "--ts", "101"])
        .unwrap();
    assert_eq!(
        second
            .query(SECOND, &["repo", "current(\"alice\", \"likes\", O)"])
            .unwrap(),
        "(no answers)"
    );
    let a = workspace_store(None, FIRST);
    let b = workspace_store(None, SECOND);
    assert_ne!(a.snapshot, b.snapshot);
}

#[test]
fn marked_workspace_joins_repositories_and_preserves_scope() {
    let mut workspace = Workspace::new(true);
    let observations = [
        (FIRST, "service_a --emits--> payment_created", "repository"),
        (SECOND, "payment_created --handled_by--> service_b", "repository"),
        (FIRST, "payment_created --means--> settled_payment", "workspace"),
        (FIRST, "alice --works_at--> acme", "repository"),
        (SECOND, "alice --works_at--> globex", "repository"),
    ];
    for (identity, fact, scope) in observations {
        workspace
            .observe(identity, &["repo", fact, "--scope", scope, "--ts", "100"])
            .unwrap();
    }
    assert_eq!(
        workspace
            .query(
                FIRST,
                &[
                    "repo",
                    "flow(X) :- current(\"service_a\", \"emits\", E), current(E, \"handled_by\", X)",
                ],
            )
            .unwrap(),
        "X=service_b"
    );
    let in_repository = |identity: &str, goal: &str| {
        workspace
            .query(identity, &["repo", goal, "--scope", "repository"])
            .unwrap()
    };
    assert_eq!(
        in_repository(FIRST, "current(\"alice\", \"works_at\", O)"),
        "O=acme"
    );
    assert_eq!(
        in_repository(SECOND, "current(\"payment_created\", \"means\", O)"),
        "O=settled_payment"
    );
    assert_eq!(
        in_repository(FIRST, "current(\"payment_created\", \"handled_by\", O)"),
        "(no answers)"
    );

    let provenance = "https://github.com/example/first/blob/abc123/src/lib.rs#L1";
    workspace
        .observe(
            FIRST,
            &[
                "repo",
                "service_a --owns--> payment_ledger",
                "--ts",
                "100",
                "--provenance",
                provenance,
                "--captured-at",
                "2026-08-30T10:00:00Z",
            ],
        )
        .unwrap();
    let explanation = workspace
        .why(SECOND, &["repo", "current(service_a, owns, payment_ledger)"])
        .unwrap();
    assert!(explanation.lines().any(|line| {
        line == format!("evidence: {provenance} (captured_at=2026-08-30T10:00:00Z)")
    }));
    assert_eq!(
        workspace
            .query(
                SECOND,
                &[
                    "repo",
                    "scoped_current(S, \"service_a\", \"owns\", \"payment_ledger\")",
                ],
            )
            .unwrap(),
        "S=repository:git@github.com:example/first.git"
    );
}

#[test]
fn explicit_workspace_override_and_nearest_marker_are_deterministic() {
    let outer = parse_workspace_id("outer/.lemmalog", "id = \"outer\"\n").unwrap();
    let nested = parse_workspace_id("nested/.lemmalog", "id = \"nested\"\n").unwrap();
    assert_eq!((outer.as_str(), nested.as_str()), ("outer", "nested"));
    let identity = "git@github.com:example/outside.git";
    let with_outer = workspace_store(Some(&outer), identity);
    let with_nested = workspace_store(Some(&nested), identity);
    assert_ne!(with_outer.snapshot, with_nested.snapshot);
    assert!(with_outer.marked && with_nested.marked);

    let mut in_nested = Workspace::new(true);
    let mut in_outer = Workspace::new(true);
    in_nested
        .observe(
            "git@github.com:example/nested.git",
            &["repo", "nested_service --belongs_to--> nested_workspace", "--ts", "100"],
        )
        .unwrap();
    in_outer
        .observe(
            identity,
            &[
                "repo",
                "outside_service --belongs_to--> outer_workspace",
                "--workspace",
                "outer",
                "--ts",
                "100",
            ],
        )
        .unwrap();
    let goal = "current(\"outside_service\", \"belongs_to\", O)";
    assert_eq!(in_nested.query(identity, &["repo", goal]).unwrap(), "(no answers)");
    assert_eq!(
        in_outer
            .query(identity, &["repo", goal, "--workspace", "outer"])
            .unwrap(),
        "O=outer_workspace"
    );
}

#[test]
fn cli_search_honors_smart_case_regex_no_answer_and_limits() {
    let identity = "git@github.com:example/matching.git";
    let mut workspace = Workspace::new(false);
    assert_eq!(
        workspace.search(identity, &["repo", "anything"]).unwrap(),
        "(no answers)"
    );
    let facts = (0..51)
        .map(|index| format!("item{index:02} --describes--> RustSearch"))
        .collect::<Vec<_>>()
        .join("\n");
    workspace
        .observe(identity, &["repo", facts.as_str(), "--ts", "100"])
        .unwrap();

    let lowercase = workspace
        .search(identity, &["repo", "rustsearch", "--limit", "1"])
        .unwrap();
    assert_eq!(lowercase.lines().count(), 2);
    assert_eq!(
        lowercase.lines().last(),
        Some("truncated: limit (1 shown, more matched)")
    );
    assert_eq!(
        workspace.search(identity, &["repo", "RUSTSEARCH"]).unwrap(),
        "(no answers)"
    );
    let default_limit = workspace
        .search(identity, &["repo", "RustSearch|never"])
        .unwrap();
    assert_eq!(default_limit.lines().count(), 51);
    assert_eq!(
        default_limit.lines().last(),
        Some("truncated: limit (50 shown, more matched)")
    );
    for invalid_limit in ["0", "nope"] {
        assert!(workspace
            .search(identity, &["repo", ".", "--limit", invalid_limit])
            .is_err());
    }
    let invalid_regex = workspace.search(identity, &["repo", "["]).unwrap_err();
    assert!(invalid_regex.starts_with("search: invalid regex: "));
}

#[test]
fn cli_search_honors_scope_time_and_opaque_provenance_across_processes() {
    let mut workspace = Workspace::new(true);
    let observations = [
        (FIRST, "repo_one --matches--> needle", "repository", "100"),
        (SECOND, "repo_two --matches--> needle", "repository", "100"),
        (FIRST, "shared --matches--> needle", "workspace", "100"),
        (FIRST, "alice --works_at--> old_place", "repository", "100"),
        (FIRST, "alice --works_at--> new_place", "repository", "200"),
        (FIRST, "future --matches--> future_needle", "repository", "300"),
        (FIRST, "clock --matches--> now_needle", "repository", "200"),
    ];
    for (identity, fact, scope, timestamp) in observations {
        let mut args = vec!["repo", fact, "--scope", scope, "--ts", timestamp];
        if fact == "clock --matches--> now_needle" {
            args.extend(["--provenance", "caller,comma", "--provenance", r"literal\n\t\"]);
        }
        workspace.observe(identity, &args).unwrap();
    }
    let search = |identity: &str, pattern: &str, scope: &str| {
        workspace
            .search(identity, &["repo", pattern, "--scope", scope])
            .unwrap()
    };
    assert_eq!(
        search(FIRST, "matches--> needle\\t", "repository"),
        "repository:git@github.com:example/first.git\trepo_one --matches--> needle\tprovenance=ep1\nworkspace\tshared --matches--> needle\tprovenance=ep3"
    );
    assert_eq!(
        search(SECOND, "matches--> needle\\t", "workspace"),
        "workspace\tshared --matches--> needle\tprovenance=ep3"
    );
    assert_eq!(
        search(SECOND, "matches--> needle\\t", "all"),
        "repository:git@github.com:example/first.git\trepo_one --matches--> needle\tprovenance=ep1\nrepository:git@github.com:example/second.git\trepo_two --matches--> needle\tprovenance=ep2\nworkspace\tshared --matches--> needle\tprovenance=ep3"
    );
    assert_eq!(
        workspace.search(FIRST, &["repo", "old_place"]).unwrap(),
        "(no answers)"
    );
    assert_eq!(
        workspace
            .search(FIRST, &["repo", "new_place|future_needle|now_needle"])
            .unwrap(),
        "repository:git@github.com:example/first.git\talice --works_at--> new_place\tprovenance=ep5\nrepository:git@github.com:example/first.git\tclock --matches--> now_needle\tprovenance=caller,comma,ep7,literal\\n\\t\\"
    );
}

#[test]
fn commands_have_names() {
    for (word, expected) in [
        ("help", Command::Help),
        ("--help", Command::Help),
        ("-h", Command::Help),
        ("observe", Command::Observe),
        ("search", Command::Search),
        ("query", Command::Query),
        ("why", Command::Why),
        ("skill", Command::Skill),
    ] {
        assert_eq!(command(&strings(&[word])), Ok(expected));
    }
    assert!(command(&strings(&["nope"])).unwrap_err().contains("\"nope\""));
    assert!(USAGE.starts_with("Usage:\n  lemmalog "));
}

#[test]
fn the_program_is_launched_by_its_first_argument() {
    assert_eq!(launch(&vec![]), Launch::Repl(0));
    assert_eq!(launch(&strings(&["repl", "x"])), Launch::Repl(1));
    assert_eq!(launch(&strings(&["--demo"])), Launch::Repl(0));
    assert_eq!(launch(&strings(&["-h"])), Launch::Once);
    assert_eq!(launch(&strings(&["query"])), Launch::Once);
}

#[test]
fn scopes_have_names() {
    assert_eq!(parse_scope("all", true), Ok(Scope::All));
    assert!(parse_scope("all", false).is_err());
    assert_eq!(parse_scope("workspace", false), Ok(Scope::Workspace));
    assert_eq!(parse_scope("repository", true), Ok(Scope::Repository));
    assert_eq!(
        parse_scope("here", true),
        Err("--scope must be all, repository, or workspace".to_string())
    );
    assert_eq!(
        parse_scope("here", false),
        Err("--scope must be repository or workspace".to_string())
    );
    assert_eq!(scope_name("id", Scope::Repository), "repository:id");
    assert_eq!(scope_name("id", Scope::Workspace), "workspace");
    assert_eq!(
        search_selection("id", true, Scope::Repository),
        (Some(strings(&["workspace", "repository:id"])), false)
    );
    assert_eq!(
        search_selection("id", false, Scope::Repository),
        (Some(strings(&["workspace", "repository:id"])), true)
    );
    assert_eq!(search_selection("id", false, Scope::All), (None, true));
}

#[test]
fn read_arguments_are_parsed() {
    let read = parse_read_args(
        &strings(&["p", "g", "--scope", "workspace", "--workspace", "w"]),
        "query",
    )
    .unwrap();
    assert_eq!(read.path, "p");
    assert_eq!(read.expression, "g");
    assert_eq!(read.workspace, Some("w".to_string()));
    assert_eq!(read.scope, Scope::Workspace);
    assert_eq!(
        parse_read_args(&strings(&["p", "g"]), "query").unwrap().scope,
        Scope::All
    );
    for args in [
        vec![],
        vec!["p"],
        vec!["p", "g", "h"],
        vec!["p", "g", "--scope"],
        vec!["p", "g", "--scope", "x"],
        vec!["p", "g", "--nope"],
    ] {
        assert!(parse_read_args(&strings(&args), "why").is_err(), "{args:?}");
    }
}

#[test]
fn search_arguments_are_parsed() {
    let search = parse_search_args(&strings(&["p", "x"])).unwrap();
    assert_eq!(search.limit, DEFAULT_LIMIT);
    assert_eq!(search.limit, 50);
    assert_eq!(search.scope, Scope::All);
    let limited = parse_search_args(&strings(&["--limit", "3", "p", "x"])).unwrap();
    assert_eq!((limited.path.as_str(), limited.limit), ("p", 3));
    for args in [vec!["p"], vec!["p", "x", "--limit", "0"], vec!["p", "x", "--limit", "-1"]] {
        assert!(parse_search_args(&strings(&args)).is_err(), "{args:?}");
    }
}

#[test]
fn observe_arguments_are_parsed() {
    let observed = parse_observe_args(&strings(&["p", "a --b--> c"]), 42).unwrap();
    assert_eq!(observed.ts, 42);
    assert_eq!(observed.uris, Vec::<String>::new());
    assert_eq!(observed.scope, Scope::Repository);
    let given = parse_observe_args(
        &strings(&["p", "f", "--ts", "-5", "--provenance", "u", "--captured-at", "t"]),
        42,
    )
    .unwrap();
    assert_eq!(given.ts, -5);
    assert_eq!(given.uris, ["u"]);
    assert_eq!(given.captured_at, Some("t".to_string()));
    for args in [
        vec!["p"],
        vec!["p", "f", "--ts", "soon"],
        vec!["p", "f", "--scope", "all"],
        vec!["p", "f", "--provenance"],
        vec!["p", "f", "--provenance", "a\tb"],
    ] {
        assert!(parse_observe_args(&strings(&args), 0).is_err(), "{args:?}");
    }
}

#[test]
fn skill_arguments_are_parsed() {
    assert_eq!(parse_skill_args(&strings(&["install"])), Ok(None));
    assert_eq!(
        parse_skill_args(&strings(&["install", "--path", "d"])),
        Ok(Some("d".to_string()))
    );
    for args in [vec![], vec!["remove"], vec!["install", "--path"], vec!["install", "x"]] {
        assert!(parse_skill_args(&strings(&args)).is_err(), "{args:?}");
    }
}

#[test]
fn expressions_ask_atoms_and_rules() {
    assert_eq!(
        ask_expression("current(A, B, C)"),
        Ok(Ask::Atom("current(A, B, C)".to_string()))
    );
    assert_eq!(
        ask_expression(" f(X) :- g(X)"),
        Ok(Ask::Rule { rule: " f(X) :- g(X).".to_string(), head: "f(X)".to_string() })
    );
    assert_eq!(
        ask_expression("f(X) :- g(X). "),
        Ok(Ask::Rule { rule: "f(X) :- g(X). ".to_string(), head: "f(X)".to_string() })
    );
    assert_eq!(
        ask_expression(" :- g(X)"),
        Err("query rule requires a head atom".to_string())
    );
}

#[test]
fn markers_name_workspaces() {
    let id = |content: &str| parse_workspace_id("m", content);
    assert_eq!(id("id = \"billing-platform\"\n"), Ok("billing-platform".to_string()));
    assert_eq!(id("# comment\n\nid=\"x\"\n"), Ok("x".to_string()));
    assert_eq!(id("other\nid = \"a\"\nid = \"b\"\n"), Ok("a".to_string()));
    for content in ["", "id = x\n", "name = \"x\"\n"] {
        assert_eq!(
            id(content),
            Err("workspace marker m requires id = \"...\"".to_string())
        );
    }
    for content in ["id = \"\"\n", "id = \"a b\"\n"] {
        assert!(id(content)
            .unwrap_err()
            .starts_with("workspace marker m has invalid id \""));
    }
}

#[test]
fn repositories_have_identities() {
    assert_eq!(repository_identity(Some(" git@x \n"), "/root"), "git@x");
    assert_eq!(repository_identity(Some("  "), "/root"), "/root");
    assert_eq!(repository_identity(None, "/root"), "/root");
    let store: WorkspaceStore = workspace_store(None, "git@x");
    assert!(!store.marked);
    assert_eq!(store.identity, "git@x");
    assert!(store.snapshot.contains(&stable_key("git@x")));
    assert!(store.evidence.contains(&stable_key("git@x")));
}

#[test]
fn evidence_is_kept_in_order_and_read_back() {
    let mut entries = vec![];
    capture(&mut entries, "b", "t1");
    capture(&mut entries, "a", "t1");
    capture(&mut entries, "b", "t2");
    let expected = vec![
        ("a".to_string(), "t1".to_string()),
        ("b".to_string(), "t2".to_string()),
    ];
    assert_eq!(entries, expected);
    let content = write_evidence(&entries);
    assert_eq!(parse_evidence(&content), Some(expected));
    assert_eq!(parse_evidence("no tab"), None);
    assert_eq!(
        cite_evidence("proof of a\n", &entries),
        "proof of a\nevidence: a (captured_at=t1)"
    );
}

#[test]
fn references_are_captured_now_where_no_time_is_given() {
    let mut entries = vec![("b".to_string(), "t0".to_string())];
    assert!(record_evidence(&mut entries, &strings(&["b", "a"]), &None, "now"));
    assert_eq!(
        entries,
        [("a".to_string(), "now".to_string()), ("b".to_string(), "now".to_string())]
    );
    assert!(record_evidence(&mut entries, &strings(&["a"]), &Some("t1".to_string()), "now"));
    assert_eq!(entries[0].1, "t1");
    assert!(!record_evidence(&mut entries, &vec![], &None, "later"));
    assert_eq!(entries[1].1, "now");

    let mut workspace = Workspace::new(false);
    workspace.observe("r", &["p", "a --b--> c", "--provenance", "https://x"]).unwrap();
    assert_eq!(workspace.evidence.as_deref(), Some("https://x\t1970-01-01T00:00:07Z\n"));
    workspace.observe("r", &["p", "a --b--> d"]).unwrap();
    assert_eq!(workspace.evidence.as_deref(), Some("https://x\t1970-01-01T00:00:07Z\n"));
}

#[test]
fn the_nearest_marker_is_the_innermost_one() {
    assert_eq!(nearest_marker(&vec![false, true, false, true]), Some(1));
    assert_eq!(nearest_marker(&vec![true, true]), Some(0));
    assert_eq!(nearest_marker(&vec![false, false]), None);
    assert_eq!(nearest_marker(&vec![]), None);
}

#[test]
fn paths_of_one_workspace_share_a_store() {
    assert_eq!(workspace_store(Some("id"), "git@x"), workspace_store(Some("id"), "git@y"));
    assert_eq!(workspace_store(None, "git@x"), workspace_store(None, "git@x"));
    assert_ne!(
        workspace_store(None, "workspace:id").directory,
        workspace_store(Some("id"), "git@x").directory
    );
}
