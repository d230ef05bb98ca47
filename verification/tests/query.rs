use lemmalog::agent::{AgentMemory, MockExtractor, DEFAULT_RULES};
use lemmalog::clause::{parse_atom, parse_guard, parse_program, Comparison};
use lemmalog::defaults::list_rules;
use lemmalog::engine::Term;
use lemmalog::query::parse_query;

fn memory() -> AgentMemory<MockExtractor> {
    let mut memory = AgentMemory::new(MockExtractor::new("0.9"), "").unwrap();
    memory.observe_extracted(
        "payments --emits--> paid\npaid --handled_by--> ledger\npaid --handled_by--> mailer\nalice --likes--> alice",
        10,
    );
    memory
}

fn told(memory: &AgentMemory<MockExtractor>, expression: &str) -> Vec<String> {
    memory.answer(expression).unwrap()
}

#[test]
fn atoms_are_read() {
    let atom = parse_atom(" current( \"two, words\" , -7, X_1, _, plain ) ").unwrap();
    assert_eq!(atom.pred, "current");
    assert_eq!(
        atom.args,
        [
            Term::Sym("two, words".to_string()),
            Term::Int(-7),
            Term::Var("X_1".to_string()),
            Term::Var("_".to_string()),
            Term::Sym("plain".to_string()),
        ]
    );
    assert_eq!(parse_atom("p()").unwrap().args, []);
    for text in ["", "p", "p(", "(a)", "p(a", "p(a b)", "p(a,)", "p(\"a)", "p(a) q(b)"] {
        assert_eq!(parse_atom(text), None, "{text:?}");
    }
}

#[test]
fn variables_are_bound_by_rows() {
    let memory = memory();
    assert_eq!(told(&memory, "current(\"payments\", R, O)"), ["R=emits, O=paid"]);
    assert_eq!(told(&memory, "current(X, likes, X)."), ["X=alice"]);
    assert_eq!(told(&memory, "current(X, emits, X)"), Vec::<String>::new());
    assert_eq!(told(&memory, "current(_, handled_by, O)"), ["O=ledger", "O=mailer"]);
    assert_eq!(told(&memory, "current(paid, R, _)"), ["R=handled_by"]);
    assert_eq!(told(&memory, "exclusive(R)"), ["R=works_at"]);
    assert_eq!(told(&memory, "edge(alice, likes, alice, F, _, _)"), ["F=10"]);
}

#[test]
fn deep_answers_are_the_same() {
    let mut memory = memory();
    for goal in ["current(_, handled_by, O)", "current(", "current(X, likes, X)"] {
        let asked = memory.ask(goal);
        assert_eq!(memory.ask_deep(goal), asked);
    }
}

#[test]
fn an_atom_without_variables_is_true_or_not() {
    let memory = memory();
    assert_eq!(told(&memory, "current(paid, handled_by, ledger)"), ["true"]);
    assert_eq!(told(&memory, "current(paid, handled_by, alice)"), Vec::<String>::new());
    assert_eq!(told(&memory, "current(paid)"), Vec::<String>::new());
}

#[test]
fn rules_join_their_atoms() {
    let memory = memory();
    assert_eq!(
        told(
            &memory,
            "flow(S) :- current(\"payments\", \"emits\", E), current(E, \"handled_by\", S)"
        ),
        ["S=ledger", "S=mailer"]
    );
    assert_eq!(told(&memory, "some(E) :- current(E, handled_by, _)."), ["E=paid"]);
}

#[test]
fn what_cannot_be_read_is_told() {
    assert_eq!(
        parse_query("current(").unwrap_err(),
        "query: cannot parse \"current(\""
    );
    assert_eq!(
        parse_query("f(X) :- g").unwrap_err(),
        "query rule: cannot parse \"f(X) :- g.\""
    );
    assert_eq!(
        parse_query(":- g(X)").unwrap_err(),
        "query rule requires a head atom"
    );
    assert_eq!(
        parse_query("f(X) :- g(Y)").unwrap_err(),
        "query rule: cannot parse \"f(X) :- g(Y).\""
    );
    assert_eq!(
        memory().ask("nothing").unwrap_err(),
        "cannot parse \"nothing\""
    );
}

#[test]
fn facts_are_explained() {
    let memory = memory();
    assert_eq!(
        memory.why("current(paid, handled_by, ledger)"),
        "current(paid, handled_by, ledger)\n  <- edge(paid, handled_by, ledger, 10, 9223372036854775807, 10) [ep1]\n"
    );
    assert_eq!(
        memory.why("current(paid, handled_by, alice)"),
        "current(paid, handled_by, alice) does not hold\n"
    );
    assert_eq!(
        memory.why("current(paid, handled_by, O)"),
        "why: current(paid, handled_by, O) contains variables"
    );
    assert_eq!(memory.why("nonsense"), "why: cannot parse \"nonsense\"");
}

#[test]
fn recursive_rules_are_followed_to_their_end() {
    let mut memory = memory();
    memory.observe_extracted("a --links--> b\nb --links--> c\nc --links--> d\nd --links--> b", 10);
    assert_eq!(
        told(&memory, "reach(a, Z) :- current(a, links, Z). reach(a, Z) :- reach(a, Y), current(Y, links, Z)"),
        ["Z=b", "Z=c", "Z=d"]
    );
    assert_eq!(
        told(&memory, "current(a, links, Z) :- current(X, R, Y), current(Y, R, Z)"),
        ["Z=alice", "Z=b", "Z=c", "Z=d"]
    );
    assert_eq!(
        told(&memory, "current(X, R, Z) :- current(X, R, Y), current(Y, R, Z)").len(),
        16
    );
    assert_eq!(told(&memory, "p(X) :- p(X)"), Vec::<String>::new());
    assert_eq!(told(&memory, "current(a, links, O)"), ["O=b"]);
}

#[test]
fn comparisons_and_the_time_are_asked_for() {
    let mut memory = memory();
    memory.observe_extracted("alice --likes--> tea", 20);
    assert_eq!(told(&memory, "now(T)"), ["T=20"]);
    assert_eq!(
        told(&memory, "late(O) :- edge(_, _, O, VF, VT, _), now(T), VF =< T, T < VT, VF > 10"),
        ["O=tea"]
    );
    assert_eq!(
        told(&memory, "other(O) :- current(paid, handled_by, O), O != ledger"),
        ["O=mailer"]
    );
    assert_eq!(told(&memory, "same(X) :- current(X, likes, Y), X = Y"), ["X=alice"]);
    assert_eq!(told(&memory, "none(X) :- current(X, likes, _), X < 3"), Vec::<String>::new());
    assert_eq!(told(&memory, "old(F) :- edge(_, _, _, F, _, _), 10 >= F"), ["F=10"]);
}

#[test]
fn a_query_can_state_facts_of_its_own() {
    let memory = memory();
    assert_eq!(
        told(&memory, "seen(X) :- wanted(X), current(X, _, _). wanted(paid). wanted(nobody)"),
        ["X=paid"]
    );
    assert_eq!(told(&memory, "wanted(X)"), Vec::<String>::new());
    assert_eq!(told(&memory, "made(new_one) :- current(alice, likes, alice)"), ["true"]);
}

#[test]
fn programs_are_read() {
    let program = parse_program("p(a). # comment.\nq(X) :- p(X), X != \"a. b\".\n").unwrap();
    assert_eq!(program.len(), 2);
    assert!(program[0].body.is_empty() && program[0].guards.is_empty());
    assert_eq!(program[1].head.pred, "q");
    assert_eq!(program[1].guards[0].right, Term::Sym("a. b".to_string()));
    assert_eq!(parse_program("").unwrap(), []);
    for text in ["p(a)", "p(X).", "q(X) :- p(Y).", "q(X) :- p(X), Y < 3.", "q(_) :- p(_).", ":- p(a)."] {
        assert_eq!(parse_program(text), None, "{text:?}");
    }
    for (text, comparison) in [
        ("X =< 1", Comparison::AtMost),
        ("X >= 1", Comparison::AtLeast),
        ("X != 1", Comparison::Differs),
        ("X < 1", Comparison::Below),
        ("X > 1", Comparison::Above),
        ("X = 1", Comparison::Equals),
    ] {
        let guard = parse_guard(text).unwrap();
        assert_eq!(
            (guard.left, guard.comparison, guard.right),
            (Term::Var("X".to_string()), comparison, Term::Int(1))
        );
    }
    assert_eq!(parse_guard("X"), None);
}

#[test]
fn derived_rows_are_explained_as_such() {
    let rules = "handles(S) :- current(_, handled_by, S). awake(yes) :- now(T), T > 5.";
    let mut memory = AgentMemory::new(MockExtractor::new("0.9"), rules).unwrap();
    memory.observe_extracted("paid --handled_by--> ledger", 10);
    assert_eq!(
        memory.why("handles(ledger)"),
        "handles(ledger)\n  <- edge(paid, handled_by, ledger, 10, 9223372036854775807, 10) [ep1]\n"
    );
    assert_eq!(memory.why("awake(yes)"), "awake(yes) is derived\n");
    assert_eq!(memory.why("handles(paid)"), "handles(paid) does not hold\n");
    assert_eq!(
        memory.what_if("sent --handled_by--> mailer", "handles(S)"),
        Ok((vec!["S=ledger".to_string(), "S=mailer".to_string()], 1))
    );
}

#[test]
fn the_default_rules_are_a_program() {
    let program = parse_program(DEFAULT_RULES).unwrap();
    assert_eq!(program.len(), 4);
    let var = |name: &str| Term::Var(name.to_string());
    let names = |args: &Vec<Term>, names: &[&str]| {
        let expected: Vec<Term> = names.iter().map(|name| var(name)).collect();
        assert_eq!(args, &expected);
    };
    let expected = [
        ("current", vec!["E", "R", "O"], "edge", vec!["E", "R", "O", "VF", "VT", "_"]),
        ("current", vec!["E", "R", "O"], "scoped_edge", vec!["_", "E", "R", "O", "VF", "VT", "_"]),
        (
            "scoped_current",
            vec!["S", "E", "R", "O"],
            "scoped_edge",
            vec!["S", "E", "R", "O", "VF", "VT", "_"],
        ),
    ];
    for (rule, (head, head_args, base, base_args)) in program.iter().zip(expected) {
        assert_eq!(rule.head.pred, head);
        names(&rule.head.args, &head_args);
        assert_eq!((rule.body.len(), rule.guards.len()), (2, 2));
        assert_eq!(rule.body[0].pred, base);
        names(&rule.body[0].args, &base_args);
        assert_eq!(rule.body[1].pred, "now");
        names(&rule.body[1].args, &["T"]);
        let told: Vec<(Term, Comparison, Term)> = rule
            .guards
            .iter()
            .map(|guard| (guard.left.clone(), guard.comparison, guard.right.clone()))
            .collect();
        assert_eq!(
            told,
            [(var("VF"), Comparison::AtMost, var("T")), (var("T"), Comparison::Below, var("VT"))]
        );
    }
    assert_eq!(list_rules(&vec![]), program[..3]);
    assert_eq!(program[3].head.pred, "exclusive");
    assert_eq!(program[3].head.args, [Term::Sym("works_at".to_string())]);
    assert!(program[3].body.is_empty() && program[3].guards.is_empty());
}
