use lemmalog::agent::{
    AgentMemory, Episode, Extraction, Extractor, IngestReport, LlmExtractor, MockExtractor, Model,
    EXTRACTION_PROMPT,
};
use lemmalog::context::{relevant_facts, Grade};
use lemmalog::engine::{Ann, Engine, Term, Value};
use lemmalog::persistence::LoadError;
use lemmalog::protocol::CandidateFact;
use lemmalog::snapshot::SnapshotError;

fn strings(values: &[&str]) -> Vec<String> {
    values.iter().map(|value| value.to_string()).collect()
}

fn memory() -> AgentMemory<MockExtractor> {
    AgentMemory::new(MockExtractor::new("0.9"), "").unwrap()
}

/// A model that notes what it is asked and gives prepared answers.
struct Prepared {
    prompts: Vec<String>,
    answers: Vec<Result<String, String>>,
}

impl Model for Prepared {
    fn call(&mut self, prompt: &str) -> Result<String, String> {
        self.prompts.push(prompt.to_string());
        self.answers.remove(0)
    }
}

fn prepared(answers: &[Result<&str, &str>]) -> LlmExtractor<Prepared> {
    LlmExtractor::new(Prepared {
        prompts: vec![],
        answers: answers
            .iter()
            .map(|answer| answer.map(|s| s.to_string()).map_err(|s| s.to_string()))
            .collect(),
    })
}

fn shown(engine: &Engine) -> Vec<String> {
    engine
        .facts()
        .iter()
        .map(|fact| {
            let key: Vec<String> = fact.key.iter().map(|value| engine.display(value)).collect();
            format!("{}({}) {:?}", fact.pred, key.join(" "), fact.ann.prov)
        })
        .collect()
}

fn counts(report: &IngestReport) -> (usize, usize, usize, usize) {
    (report.added, report.updated, report.noop, report.escalations.len())
}

#[test]
fn a_first_fact_is_added() {
    let mut memory = memory();
    let report = memory.observe_at("alice --likes--> tea", 5);
    assert_eq!(counts(&report), (1, 0, 0, 0));
    assert_eq!(memory.ask("current(alice, likes, O)").unwrap(), ["O=tea"]);
    assert!(shown(&memory.engine)
        .contains(&"edge(alice likes tea 5 9223372036854775807 5) [\"ep1\"]".to_string()));
}

#[test]
fn a_fact_that_stands_is_not_added_again() {
    let mut memory = memory();
    memory.observe_at("alice --likes--> tea", 5);
    memory.observe_at("alice --likes--> cake", 6);
    let before = memory.engine.facts().len();
    let report = memory.observe_at("alice --likes--> cake", 7);
    assert_eq!(counts(&report), (0, 0, 1, 0));
    assert_eq!(memory.engine.facts().len(), before);
    assert!(shown(&memory.engine).contains(
        &"edge(alice likes cake 6 9223372036854775807 6) [\"ep2\", \"ep3\"]".to_string()
    ));
}

#[test]
fn an_exclusive_relation_is_superseded() {
    let mut memory = memory();
    memory.observe_at("alice --works_at--> acme", 5);
    let report = memory.observe_at("alice --works_at--> globex", 9);
    assert_eq!(counts(&report), (0, 1, 0, 0));
    assert_eq!(memory.ask("current(alice, works_at, O)").unwrap(), ["O=globex"]);
    memory.maintain(8);
    assert_eq!(memory.ask("current(alice, works_at, O)").unwrap(), ["O=acme"]);
}

#[test]
fn a_conflict_is_told_and_can_be_dismissed() {
    let mut memory = memory();
    memory.observe_at("alice --likes--> tea\nalice --likes--> milk", 5);
    let report = memory.observe_at("alice --likes--> coffee", 6);
    assert_eq!(counts(&report), (1, 0, 0, 1));
    assert_eq!(
        report.escalations,
        ["conflict: alice --likes--> coffee asserted in ep2, but likes also open (tea, milk)"]
    );
    assert_eq!(memory.escalations().len(), 2);
    memory.resolve_escalation(0);
    assert_eq!(memory.escalations(), &report.escalations);
    memory.resolve_escalation(7);
    assert_eq!(memory.escalations().len(), 1);
}

#[test]
fn scopes_do_not_meet() {
    let mut memory = memory();
    let none = vec![];
    memory.observe_scoped_extracted_with_provenance("alice --works_at--> acme", 1, "a", &none);
    let (report, _) =
        memory.observe_scoped_extracted_with_provenance("alice --works_at--> globex", 2, "b", &none);
    assert_eq!(counts(&report), (1, 0, 0, 0));
    let (report, _) =
        memory.observe_scoped_extracted_with_provenance("alice --works_at--> initech", 3, "a", &none);
    assert_eq!(counts(&report), (0, 1, 0, 0));
    assert_eq!(
        memory.ask("scoped_current(S, alice, works_at, O)").unwrap(),
        ["S=a, O=initech", "S=b, O=globex"]
    );
    memory.retain_scopes(&strings(&["b"]));
    assert_eq!(memory.ask("current(alice, works_at, O)").unwrap(), ["O=globex"]);
}

#[test]
fn facts_without_a_scope_can_be_removed() {
    let mut memory = memory();
    memory.observe_extracted("alice --likes--> tea", 1);
    memory.observe_scoped_extracted_with_provenance("bob --likes--> tea", 1, "a", &vec![]);
    memory.remove_unscoped_facts();
    assert_eq!(memory.ask("current(P, likes, tea)").unwrap(), ["P=bob"]);
}

#[test]
fn dropped_lines_are_reported() {
    let mut memory = memory();
    let (report, dropped) = memory.observe_extracted_with_provenance(
        "alice --likes--> tea\nnonsense",
        1,
        &strings(&["https://x"]),
    );
    assert_eq!(counts(&report), (1, 0, 0, 0));
    assert_eq!(
        dropped,
        [("nonsense".to_string(), "no `--rel-->` structure".to_string())]
    );
    assert!(shown(&memory.engine)
        .iter()
        .any(|row| row.ends_with("[\"ep1\", \"https://x\"]")));
}

#[test]
fn episodes_are_kept_with_their_speaker() {
    let mut memory = memory();
    memory.maintain(4);
    memory.observe("a --b--> c");
    memory.observe_as("d --e--> f", 6, "dora");
    let episodes = memory.episodes();
    assert_eq!(episodes.len(), 2);
    assert_eq!((episodes[0].id.as_str(), episodes[0].ts), ("ep1", 4));
    assert_eq!(episodes[1].speaker, Some("dora".to_string()));
    assert_eq!(memory.extractor_stats(), (0, 0));
}

#[test]
fn candidates_can_be_given() {
    let mut memory = memory();
    let candidates = vec![CandidateFact {
        subj: "a".to_string(),
        pred: "b".to_string(),
        obj: "c".to_string(),
        confidence: "0.2".to_string(),
    }];
    let report = memory.ingest("whatever", 3, None, &candidates);
    assert_eq!(counts(&report), (1, 0, 0, 0));
    assert!(memory
        .engine
        .facts()
        .iter()
        .any(|fact| fact.ann.conf == ["0.2"]));
}

#[test]
fn a_memory_is_read_back_from_its_snapshot() {
    let mut memory = memory();
    memory.observe_at("alice --likes--> green tea\nalice --likes--> milk", 5);
    memory.observe_as("alice --works_at--> acme", 6, "bob");
    memory.observe_at("alice --works_at--> globex", 7);
    memory.observe_scoped_extracted_with_provenance(
        "alice --owns--> ledger",
        8,
        "workspace",
        &strings(&["ref,with,commas", "literal\\n\\t\\"]),
    );
    let content = memory.save();
    let loaded = AgentMemory::load(MockExtractor::new("0.9"), &content).unwrap_or_else(|_| panic!());
    assert_eq!(shown(&loaded.engine).len(), shown(&memory.engine).len());
    for row in shown(&memory.engine) {
        assert!(shown(&loaded.engine).contains(&row), "{row}");
    }
    assert_eq!(loaded.episodes(), memory.episodes());
    assert_eq!(loaded.escalations(), memory.escalations());
    assert_eq!(loaded.engine.now(), 8);
    assert_eq!(loaded.save(), content);
    let mut loaded = loaded;
    loaded.observe_at("x --y--> z", 9);
    assert_eq!(loaded.episodes().last().unwrap().id, "ep5");
}

#[test]
fn broken_snapshots_are_not_loaded() {
    let load = |content: &str| {
        match AgentMemory::load(MockExtractor::new("0.9"), content) {
            Ok(_) => panic!("loaded"),
            Err(error) => error,
        }
    };
    assert!(matches!(
        load("NOPE\n"),
        LoadError::Snapshot(SnapshotError::InvalidMagic(_))
    ));
    assert!(matches!(load("LEMMALOG2\nNOW\t1\n"), LoadError::MissingRules));
    assert!(matches!(
        load("LEMMALOG2\nNOW\t1\nRULES\t\nRULES\t\n"),
        LoadError::DuplicateHeader
    ));
    assert!(matches!(
        load("LEMMALOG2\nNOW\t1\nRULES\tp(X).\n"),
        LoadError::Rules(_)
    ));
    for content in ["NOPE\n", "LEMMALOG2\nNOW\t1\nRULES\tp(\n", "LEMMALOG2\nNOW\t1\n", "LEMMALOG2\nNOW\t1\nRULES\t\nNOW\t2\n"] {
        assert!(!load(content).message().is_empty());
    }
}

#[test]
fn an_episode_is_read_once() {
    let mut extractor = MockExtractor::new("0.9");
    let episode = Episode {
        id: "ep1".to_string(),
        text: "a --b--> c".to_string(),
        ts: 0,
        speaker: None,
    };
    let changed = Episode { text: "x --y--> z".to_string(), ..episode.clone() };
    let first = extractor.extract(&episode);
    assert_eq!(extractor.extract(&changed), first);
    let mut boxed: Box<dyn Extractor> = Box::new(extractor);
    assert_eq!(boxed.extract(&changed), first);
    assert_eq!(boxed.stats(), (0, 0));
}

#[test]
fn a_model_is_asked_once_about_an_episode() {
    let mut extractor = prepared(&[]);
    let episode = Episode {
        id: "ep1".to_string(),
        text: "Alice joined Acme.".to_string(),
        ts: 0,
        speaker: None,
    };
    let prompt = match extractor.begin(&episode) {
        Extraction::Ask(prompt) => prompt,
        other => panic!("{other:?}"),
    };
    assert_eq!(prompt, format!("{EXTRACTION_PROMPT}Alice joined Acme."));
    let found = extractor.finish(&episode, Ok("Alice --works_at--> Acme\nhm".to_string()));
    assert_eq!(found.len(), 1);
    assert_eq!(found[0].confidence, "0.9");
    assert_eq!(extractor.begin(&episode), Extraction::Known(found));
    assert_eq!(extractor.stats(), (1, 0));

    let failed = Episode { id: "ep2".to_string(), ..episode };
    assert!(matches!(extractor.begin(&failed), Extraction::Ask(_)));
    assert_eq!(extractor.finish(&failed, Err("down".to_string())), vec![]);
    assert_eq!(extractor.begin(&failed), Extraction::Known(vec![]));
    assert_eq!(extractor.stats(), (2, 1));
}

#[test]
fn a_supposition_changes_no_fact() {
    let mut memory = memory();
    memory.observe_at("alice --likes--> tea", 5);
    let before = shown(&memory.engine);
    assert_eq!(
        memory.what_if("alice --likes--> milk", "current(alice, likes, O)"),
        Ok((strings(&["O=milk", "O=tea"]), 1))
    );
    assert_eq!(
        memory.what_if("alice --likes--> tea", "current(alice, likes, O)"),
        Ok((strings(&["O=tea"]), 0))
    );
    assert!(memory.what_if("x --y--> z", "current(").is_err());
    assert_eq!(shown(&memory.engine), before);
    assert_eq!(memory.ask("current(alice, likes, O)").unwrap(), ["O=tea"]);
    assert_eq!(memory.episodes().len(), 1);
    let keys = memory.suppose("a --b--> c");
    assert_eq!(keys.len(), 1);
    assert_eq!(keys[0][4], Value::Int(i64::MAX));
}

fn grades(memory: &AgentMemory<MockExtractor>, entities: &[&str], ranks: &[u64]) -> Vec<Grade> {
    let facts = relevant_facts(&memory.engine, &strings(entities));
    assert_eq!(facts.len(), ranks.len());
    ranks
        .iter()
        .map(|rank| Grade { rank: *rank, shown: format!("0.{rank}") })
        .collect()
}

#[test]
fn the_context_window_shows_the_surest_facts_first() {
    let mut memory = memory();
    memory.observe_at("alice --likes[0.5]--> tea", 5);
    memory.observe_at("alice --likes[0.8]--> milk", 6);
    memory.maintain(7);
    memory.observe_at("bob --likes--> tea", 8);
    let sure = grades(&memory, &["alice"], &[50, 80]);
    let window = memory.context(&strings(&["alice"]), 1000, &sure);
    assert_eq!(
        window,
        "== new in memory since last turn ==\nedge(bob, likes, tea, 8, 9223372036854775807, 8)\n\n== memory (distilled, highest confidence first) ==\nalice --likes--> milk   [conf 0.80, prov ep2]\nalice --likes--> tea   [conf 0.50, prov ep1]\n\n== source episodes (verbatim, from provenance) ==\n[ep1] alice --likes[0.5]--> tea\n[ep2] alice --likes[0.8]--> milk\n"
    );
    memory.maintain(9);
    let narrow = memory.context(&strings(&["alice"]), 20, &sure);
    assert_eq!(
        narrow,
        "== memory (distilled, highest confidence first) ==\nalice --likes--> milk   [conf 0.80, prov ep2]\n\n== source episodes (verbatim, from provenance) ==\n"
    );
    let unknown = memory.context(&strings(&["zoe"]), 20, &vec![]);
    assert!(unknown.starts_with("== memory (distilled"));
}

#[test]
fn the_context_window_tells_what_was_created_since_the_last_turn() {
    let mut memory = memory();
    let none = strings(&["zoe"]);
    assert!(memory
        .context(&none, 20, &vec![])
        .starts_with("== new in memory since last turn ==\nexclusive(works_at)\n\n== memory"));
    memory.maintain(1);
    assert!(memory.context(&none, 20, &vec![]).starts_with("== memory"));
    let lines: Vec<String> = (0..30).map(|index| format!("a --r{index}--> b")).collect();
    memory.observe_at(&lines.join("\n"), 2);
    let window = memory.context(&none, 20, &vec![]);
    assert!(window.contains("edge(a, r19, b, 2, 9223372036854775807, 2)\n"));
    assert!(!window.contains("r20"));
    let loaded =
        AgentMemory::load(MockExtractor::new("0.9"), &memory.save()).unwrap_or_else(|_| panic!());
    assert!(loaded.context(&none, 20, &vec![]).starts_with("== memory"));
    memory.observe_at("alice --works_at--> acme", 3);
    memory.ask_deep("current(alice, works_at, O)").unwrap();
    assert!(memory.context(&none, 20, &vec![]).starts_with("== memory"));
    memory.observe_at("alice --works_at--> acme", 4);
    assert!(memory.context(&none, 20, &vec![]).starts_with("== memory"));
    memory.observe_at("alice --works_at--> initech", 5);
    assert!(memory.context(&none, 20, &vec![]).starts_with(
        "== new in memory since last turn ==\n\
         edge(alice, works_at, acme, 3, 5, 3)\n\
         edge(alice, works_at, initech, 5, 9223372036854775807, 5)\n\n"
    ));
}

#[test]
fn terms_stand_for_known_values() {
    let mut engine = Engine::new();
    let a = engine.sym("a");
    assert_eq!(engine.sym("a"), a);
    assert_eq!(engine.sym_of("a"), a);
    assert_eq!(engine.sym_of("b"), Value::Int(i64::MIN));
    assert_eq!(
        engine.ground_values(&vec![Term::Sym("a".to_string()), Term::Int(3)]),
        Some(vec![a, Value::Int(3)])
    );
    assert_eq!(engine.ground_values(&vec![Term::Var("X".to_string())]), None);
    assert_eq!(engine.ground_values(&vec![Term::Sym("b".to_string())]), None);
}

#[test]
fn annotations_are_merged() {
    let mut engine = Engine::new();
    let a = engine.sym("a");
    let key = vec![a, Value::Int(1)];
    engine.declare("p", &key, Ann::base("0.5", &strings(&["z", "b"])));
    engine.declare("p", &key, Ann::base("0.9", &strings(&["a", "b"])));
    assert_eq!(engine.facts().len(), 1);
    assert_eq!(engine.facts()[0].ann.prov, ["a", "b", "z"]);
    assert_eq!(engine.query("p", &vec![Some(a), None]).len(), 1);
    assert_eq!(engine.query("p", &vec![None, Some(Value::Int(2))]).len(), 0);
    assert_eq!(engine.query("p", &vec![None, None]).len(), 1);
    engine.retract("p", &key);
    assert_eq!(engine.facts().len(), 0);
}

#[test]
fn near_rows_are_found() {
    let mut memory = memory();
    let session = memory.sym("s1");
    let entity = memory.sym("alice");
    let other = memory.sym("bob");
    for who in [entity, other] {
        memory.declare(
            "near",
            &vec![session, who, Value::Int(1)],
            Ann::base("0.9", &vec![]),
        );
    }
    assert_eq!(memory.query_near(session, entity).len(), 1);
    assert_eq!(memory.query_near(entity, session).len(), 0);
}

#[test]
fn every_fact_is_saved_with_its_annotations() {
    let mut memory = memory();
    let likes = memory.sym("likes");
    memory.declare("exclusive", &vec![likes], Ann::base("0.9", &strings(&["ep1"])));
    memory.set_now(12);
    let content = memory.save();
    assert!(content.contains("FACT\texclusive\t"), "{content}");
    let loaded = AgentMemory::load(MockExtractor::new("0.9"), &content).unwrap_or_else(|_| panic!());
    assert_eq!(shown(&loaded.engine), shown(&memory.engine));
    let found = loaded.engine.facts().iter().find(|fact| fact.ann.prov == ["ep1"]).unwrap();
    assert_eq!((found.pred.as_str(), &found.ann.conf), ("exclusive", &strings(&["0.9"])));
    assert_eq!(loaded.engine.now(), 12);
    assert_eq!(loaded.save(), content);
    let mut loaded = loaded;
    loaded.observe_at("alice --likes--> tea", 13);
    let report = loaded.observe_at("alice --likes--> milk", 14);
    assert_eq!(counts(&report), (0, 1, 0, 0));
}

#[test]
fn the_facts_of_the_rules_are_asserted() {
    let rules = "# who leads whom\nexclusive(\"manager\").\nboss(X, Y) :- current(X, manager, Y).";
    let mut memory = AgentMemory::new(MockExtractor::new("0.9"), rules).unwrap();
    memory.observe_at("alice --manager--> bob", 1);
    let report = memory.observe_at("alice --manager--> carol", 2);
    assert_eq!(counts(&report), (0, 1, 0, 0));
    assert_eq!(memory.ask("boss(alice, Y)").unwrap(), ["Y=carol"]);
    let loaded =
        AgentMemory::load(MockExtractor::new("0.9"), &memory.save()).unwrap_or_else(|_| panic!());
    assert_eq!(loaded.ask("boss(alice, Y)").unwrap(), ["Y=carol"]);
    assert_eq!(loaded.ask("exclusive(R)").unwrap(), ["R=manager", "R=works_at"]);
    assert_eq!(shown(&loaded.engine), shown(&memory.engine));
}

#[test]
fn rules_that_cannot_be_read_are_refused() {
    for rules in ["exclusive(X).", "p(a) :- q(", "p(a)", "p(a) :- not q(a)."] {
        match AgentMemory::new(MockExtractor::new("0.9"), rules) {
            Ok(_) => panic!("{rules}"),
            Err(told) => assert_eq!(told, format!("cannot parse {rules:?}")),
        }
    }
}

#[test]
fn a_model_is_called_once_for_each_id() {
    let mut extractor = prepared(&[Ok("x --y--> z"), Err("down"), Ok("")]);
    let mut found = vec![];
    for (id, text) in
        [("a", "first"), ("b", "second"), ("a", "third"), ("b", "fourth"), ("c", "fifth")]
    {
        let episode =
            Episode { id: id.to_string(), text: text.to_string(), ts: 0, speaker: None };
        found.push(extractor.extract(&episode));
    }
    let asked: Vec<String> =
        ["first", "second", "fifth"].iter().map(|t| format!("{EXTRACTION_PROMPT}{t}")).collect();
    assert_eq!(extractor.model.prompts, asked);
    assert_eq!(found[0].len(), 1);
    assert_eq!(found[0], found[2]);
    assert!(found[1].is_empty() && found[3].is_empty() && found[4].is_empty());
    assert_eq!(extractor.stats(), (3, 1));
}

#[test]
fn a_memory_can_read_with_a_model() {
    let extractor = prepared(&[Ok("alice --works_at--> acme"), Err("down")]);
    let mut memory = AgentMemory::new(extractor, "").unwrap();
    assert_eq!(counts(&memory.observe("Alice joined Acme.")), (1, 0, 0, 0));
    assert_eq!(counts(&memory.observe("Nothing new.")), (0, 0, 0, 0));
    assert_eq!(memory.ask("current(alice, works_at, O)").unwrap(), ["O=acme"]);
    assert_eq!(memory.extractor_stats(), (2, 1));
}

#[test]
fn a_relation_can_be_exclusive_by_a_rule() {
    let rules = "functional(owner). functional(lead). exclusive(R) :- functional(R), R != lead.";
    let mut memory = AgentMemory::new(MockExtractor::new("0.9"), rules).unwrap();
    memory.observe_at("repo --owner--> alice\nrepo --lead--> alice", 1);
    let report = memory.observe_at("repo --owner--> bob", 2);
    assert_eq!(counts(&report), (0, 1, 0, 0));
    let report = memory.observe_at("repo --lead--> bob", 3);
    assert_eq!(counts(&report), (1, 0, 0, 1));
    assert_eq!(memory.ask("current(repo, owner, O)").unwrap(), ["O=bob"]);
    let mut loaded =
        AgentMemory::load(MockExtractor::new("0.9"), &memory.save()).unwrap_or_else(|_| panic!());
    let report = loaded.observe_at("repo --owner--> carol", 4);
    assert_eq!(counts(&report), (0, 1, 0, 0));
}

#[test]
fn the_facts_of_the_rules_stay() {
    let rules = "exclusive(manager). edge(alice, likes, tea, 0, 100, 0).";
    let mut memory = AgentMemory::new(MockExtractor::new("0.9"), rules).unwrap();
    memory.set_now(50);
    assert_eq!(memory.ask("current(alice, likes, O)").unwrap(), ["O=tea"]);
    memory.observe_scoped_extracted_with_provenance("bob --likes--> tea", 60, "a", &vec![]);
    memory.retain_scopes(&strings(&["b"]));
    memory.remove_unscoped_facts();
    assert_eq!(memory.ask("current(P, likes, tea)").unwrap(), Vec::<String>::new());
    assert_eq!(memory.ask("exclusive(R)").unwrap(), ["R=manager", "R=works_at"]);
    let loaded =
        AgentMemory::load(MockExtractor::new("0.9"), &memory.save()).unwrap_or_else(|_| panic!());
    assert_eq!(loaded.ask("exclusive(R)").unwrap(), ["R=manager", "R=works_at"]);
    assert_eq!(loaded.ask("current(P, likes, tea)").unwrap(), ["P=alice"]);
    assert_eq!(loaded.episodes(), memory.episodes());
}

#[test]
fn confidences_of_a_fact_are_read_back() {
    let mut memory = memory();
    let works_at = memory.sym("works_at");
    memory.declare("exclusive", &vec![works_at], Ann::base("0.5", &strings(&["b", "a"])));
    memory.declare("p", &vec![Value::Int(-7)], Ann::base("0.25", &vec![]));
    memory.declare("p", &vec![Value::Int(-7)], Ann::base("0.75", &strings(&["c"])));
    let loaded =
        AgentMemory::load(MockExtractor::new("0.9"), &memory.save()).unwrap_or_else(|_| panic!());
    let told = |memory: &AgentMemory<MockExtractor>| -> Vec<(String, Vec<String>, Vec<String>)> {
        memory
            .engine
            .facts()
            .iter()
            .map(|fact| (fact.pred.clone(), fact.ann.conf.clone(), fact.ann.prov.clone()))
            .collect()
    };
    assert_eq!(
        told(&loaded),
        [
            ("exclusive".to_string(), strings(&["1", "0.5"]), strings(&["a", "b"])),
            ("p".to_string(), strings(&["0.25", "0.75"]), strings(&["c"])),
        ]
    );
    assert_eq!(told(&loaded), told(&memory));
}
