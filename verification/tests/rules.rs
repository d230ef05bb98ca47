use lemmalog::agent::{AgentMemory, IngestReport, MockExtractor};
use lemmalog::context::{relevant_facts, Grade};
use lemmalog::engine::{Fact, Value};

fn strings(values: &[&str]) -> Vec<String> {
    values.iter().map(|value| value.to_string()).collect()
}

fn memory(rules: &str) -> AgentMemory<MockExtractor> {
    AgentMemory::new(MockExtractor::new("0.9"), rules).unwrap()
}

fn counts(report: &IngestReport) -> (usize, usize, usize, usize) {
    (report.added, report.updated, report.noop, report.escalations.len())
}

fn told(memory: &AgentMemory<MockExtractor>, facts: &Vec<Fact>) -> Vec<String> {
    facts
        .iter()
        .map(|fact| {
            let key: Vec<String> =
                fact.key.iter().map(|value| memory.engine.display(value)).collect();
            format!("{}({}) {:?} {:?}", fact.pred, key.join(" "), fact.ann.conf, fact.ann.prov)
        })
        .collect()
}

#[test]
fn the_window_shows_what_rules_give() {
    let mut memory = memory("current(a, r, b) :- now(T).");
    memory.maintain(0);
    let entities = strings(&["a"]);
    let rows = relevant_facts(&memory.engine, &entities);
    assert_eq!(told(&memory, &rows), ["current(a r b) [] []"]);
    let grades = vec![Grade { rank: 1, shown: "1.00".to_string() }];
    assert_eq!(
        memory.context(&entities, 1000, &grades),
        "== memory (distilled, highest confidence first) ==\n\
         a --r--> b   [conf 1.00, prov ]\n\
         \n== source episodes (verbatim, from provenance) ==\n"
    );
}

#[test]
fn rows_of_rules_have_the_references_of_the_facts_they_rest_on() {
    let mut memory = memory("current(B, knows, A) :- current(A, knows, B).");
    memory.observe_at("alice --knows[0.8]--> bob", 5);
    memory.observe_at("carol --knows--> dan", 6);
    memory.maintain(6);
    let rows = relevant_facts(&memory.engine, &strings(&["bob", "alice"]));
    assert_eq!(
        told(&memory, &rows),
        [
            "current(bob knows alice) [\"0.8\"] [\"ep1\"]",
            "current(alice knows bob) [\"0.8\"] [\"ep1\"]",
        ]
    );
    let grades: Vec<Grade> =
        rows.iter().map(|_| Grade { rank: 8, shown: "0.80".to_string() }).collect();
    assert_eq!(
        memory.context(&strings(&["bob", "alice"]), 1000, &grades),
        "== memory (distilled, highest confidence first) ==\n\
         bob --knows--> alice   [conf 0.80, prov ep1]\n\
         alice --knows--> bob   [conf 0.80, prov ep1]\n\
         \n== source episodes (verbatim, from provenance) ==\n\
         [ep1] alice --knows[0.8]--> bob\n"
    );
}

#[test]
fn rows_that_only_rules_give_stand_behind_the_others_in_order() {
    let mut memory = memory("current(a, r, z) :- now(T). current(a, r, 2) :- now(T). current(a, r, b) :- now(T).");
    memory.observe_at("a --r--> y", 1);
    let rows = relevant_facts(&memory.engine, &strings(&["a"]));
    assert_eq!(
        told(&memory, &rows),
        [
            "current(a r y) [\"0.9\"] [\"ep1\"]",
            "current(a r 2) [] []",
            "current(a r b) [] []",
            "current(a r z) [] []",
        ]
    );
}

#[test]
fn what_a_rule_says_is_open_is_not_added() {
    let rules = "scoped_edge(s, a, r, b, 0, 9223372036854775807, 0) :- now(T).";
    let mut memory = memory(rules);
    let (report, _) =
        memory.observe_scoped_extracted_with_provenance("a --r--> b", 5, "s", &vec![]);
    assert_eq!(counts(&report), (0, 0, 1, 0));
    assert_eq!(memory.ask("scoped_edge(s, a, r, O, F, T, C)").unwrap().len(), 1);
    let (report, _) =
        memory.observe_scoped_extracted_with_provenance("a --r--> b", 6, "t", &vec![]);
    assert_eq!(counts(&report), (1, 0, 0, 0));
}

#[test]
fn what_a_rule_says_is_open_is_superseded_or_told() {
    let rules = "edge(a, works_at, b, 0, 9223372036854775807, 0) :- now(T).
                 edge(a, likes, b, 0, 9223372036854775807, 0) :- now(T).";
    let mut memory = memory(rules);
    let report = memory.observe_at("A --works_at--> c\na --works_at--> c", 5);
    assert_eq!(counts(&report), (1, 1, 0, 0));
    assert_eq!(
        memory.ask("edge(a, works_at, b, F, T, C)").unwrap(),
        ["F=0, T=5, C=0", "F=0, T=9223372036854775807, C=0"]
    );
    let report = memory.observe_at("a --likes--> c", 6);
    assert_eq!(counts(&report), (1, 0, 0, 1));
    assert_eq!(
        report.escalations,
        ["conflict: a --likes--> c asserted in ep2, but likes also open (b)"]
    );
}

#[test]
fn the_default_rules_apply_to_what_added_rules_give() {
    let rules = "edge(S, uses, O, 3, 8, 3) :- current(S, needs, O).";
    let mut memory = memory(rules);
    memory.observe_at("app --needs--> db", 2);
    assert_eq!(memory.ask("current(app, uses, O)").unwrap(), Vec::<String>::new());
    memory.maintain(3);
    assert_eq!(memory.ask("current(app, uses, O)").unwrap(), ["O=db"]);
    assert_eq!(
        memory.answer("used(O) :- current(app, uses, O)").unwrap(),
        ["O=db"]
    );
    assert_eq!(
        memory.why("current(app, uses, db)"),
        "current(app, uses, db)\n  <- edge(app, needs, db, 2, 9223372036854775807, 2) [ep1]\n"
    );
    assert_eq!(
        memory.what_if("app --needs--> queue", "current(app, uses, O)").unwrap().0,
        ["O=db", "O=queue"]
    );
    memory.maintain(8);
    assert_eq!(memory.ask("current(app, uses, O)").unwrap(), Vec::<String>::new());
    assert_eq!(memory.why("current(app, uses, db)"), "current(app, uses, db) does not hold\n");
}

#[test]
fn near_rows_can_follow_from_rules() {
    let rules = "near(S, E, O) :- opened(S, E), current(E, _, O). opened(today, app).";
    let mut memory = memory(rules);
    memory.observe_at("app --needs--> db", 2);
    let session: Value = memory.sym("today");
    let entity: Value = memory.sym("app");
    let rows = memory.query_near(session, entity);
    assert_eq!(told(&memory, &rows), ["near(today app db) [\"1\", \"0.9\"] [\"ep1\"]"]);
    assert!(memory.query_near(entity, session).is_empty());
}

#[test]
fn rules_that_feed_each_other_come_to_an_end() {
    let rules = "path(A, B) :- current(A, links, B).
                 path(A, C) :- path(A, B), current(B, links, C).
                 current(A, reaches, B) :- path(A, B), A != B.";
    let mut memory = memory(rules);
    memory.observe_at("a --links--> b\nb --links--> c\nc --links--> a", 1);
    assert_eq!(memory.ask("current(a, reaches, O)").unwrap(), ["O=b", "O=c"]);
    let rows = relevant_facts(&memory.engine, &strings(&["c"]));
    assert_eq!(rows.len(), 3);
    assert_eq!(rows[1].ann.prov, ["ep1"]);
}

#[test]
fn a_batch_of_rules_can_be_taken_back() {
    let mut memory = memory("# begins with one rule\nlinked(A, B) :- current(A, links, B).");
    memory.observe_at("a --links--> b\nb --links--> c", 1);
    let first = memory
        .install_rules("linked(A, C) :- linked(A, B), current(B, links, C). # a comment")
        .unwrap();
    let second = memory.install_rules("seen(X) :- linked(_, X). known(rule).").unwrap();
    assert_eq!((first.as_str(), second.as_str()), ("batch1", "batch2"));
    assert_eq!(memory.ask("linked(a, O)").unwrap(), ["O=b", "O=c"]);
    assert_eq!(memory.ask("seen(X)").unwrap(), ["X=b", "X=c"]);
    assert_eq!(memory.ask("known(X)").unwrap(), ["X=rule"]);
    let batches = memory.rule_batches();
    assert_eq!(batches.len(), 2);
    assert_eq!(batches[1].id, "batch2");
    assert_eq!(batches[1].source, "seen(X) :- linked(_, X). known(rule).");

    let mut loaded =
        AgentMemory::load(MockExtractor::new("0.9"), &memory.save()).unwrap_or_else(|_| panic!());
    assert_eq!(loaded.ask("seen(X)").unwrap(), ["X=b", "X=c"]);
    assert!(loaded.rule_batches().is_empty());
    assert_eq!(loaded.install_rules("p(a).").unwrap(), "batch1");

    assert!(memory.uninstall_rules("batch1"));
    assert!(!memory.uninstall_rules("batch1"));
    assert_eq!(memory.ask("linked(a, O)").unwrap(), ["O=b"]);
    assert_eq!(memory.ask("seen(X)").unwrap(), ["X=b", "X=c"]);
    assert!(memory.uninstall_rules("batch2"));
    assert_eq!(memory.ask("seen(X)").unwrap(), Vec::<String>::new());
    assert_eq!(memory.ask("known(X)").unwrap(), ["X=rule"]);
    assert_eq!(memory.install_rules("p(a).").unwrap(), "batch3");
    assert_eq!(memory.install_rules("p(X).").unwrap_err(), "cannot parse \"p(X).\"");
    assert_eq!(memory.rule_batches().len(), 1);
}
