use lemmalog::agent::{AgentMemory, MockExtractor};
use lemmalog::engine::{Ann, Value};
use lemmalog::search::{
    display_value, render_edge, render_scoped_edge, retain_lines, search_snapshot, settle,
    BoundedMatches, FactRowReader, SearchError, SearchOutput, SnapshotSearch, SEARCH_BATCH_BYTES,
};
use lemmalog::snapshot::{SnapshotError, SnapshotRecord, SnapshotValue};

fn memory() -> AgentMemory<MockExtractor> {
    AgentMemory::new(MockExtractor::new("0.9"), "").unwrap()
}

fn strings(values: &[&str]) -> Vec<String> {
    values.iter().map(|value| value.to_string()).collect()
}

fn declare_edge(
    memory: &mut AgentMemory<MockExtractor>,
    subject: &str,
    predicate: &str,
    object: &str,
    valid_from: i64,
    valid_to: i64,
    provenance: &[&str],
) {
    let arguments = vec![
        memory.engine.sym(subject),
        memory.engine.sym(predicate),
        memory.engine.sym(object),
        Value::Int(valid_from),
        Value::Int(valid_to),
        Value::Int(valid_from),
    ];
    memory
        .engine
        .declare("edge", &arguments, Ann::base("0.9", &strings(provenance)));
}

fn search(snapshot: &str, pattern: &str, limit: usize) -> Result<SearchOutput, SearchError> {
    search_snapshot(
        Some(snapshot),
        pattern,
        limit,
        None,
        "repository:test".to_string(),
        true,
    )
}

#[test]
fn streaming_search_bounds_decoder_and_result_owners() {
    let mut memory = memory();
    for index in 0..2_000 {
        declare_edge(
            &mut memory,
            &format!("item{index:04}"),
            "mentions",
            "needle",
            0,
            i64::MAX,
            &["ep1"],
        );
    }
    let oversized = "x".repeat(32 * 1024);
    declare_edge(
        &mut memory,
        "zzzz",
        "mentions",
        &format!("needle-{oversized}"),
        0,
        i64::MAX,
        &["ep2"],
    );
    memory.engine.set_now(10);
    let snapshot = memory.save();

    let first = search(&snapshot, "needle", 3).unwrap();
    let second = search(&snapshot, "needle", 3).unwrap();
    assert_eq!(first, second);
    assert_eq!(
        first.rows,
        [
            "repository:test\titem0000 --mentions--> needle\tprovenance=ep1",
            "repository:test\titem0001 --mentions--> needle\tprovenance=ep1",
            "repository:test\titem0002 --mentions--> needle\tprovenance=ep1",
        ]
    );
    assert!(first.truncated);
    assert_eq!(first.stats.peak_retained_result_count, 4);

    let max_snapshot_line = snapshot
        .lines()
        .fold(0usize, |peak, line| peak.max(line.len() + 1));
    let max_row = oversized.len() + 128;
    assert!(
        first.stats.peak_snapshot_record_bytes <= max_snapshot_line * 2 + 1_024,
        "record buffer peak: {:?}, max line: {max_snapshot_line}",
        first.stats
    );
    assert!(
        first.stats.peak_retained_result_bytes <= 4 * max_row,
        "result owner peak: {:?}, max row: {max_row}",
        first.stats
    );
}

#[test]
fn search_adapter_filters_relation_scope_and_temporal_boundaries() {
    let mut memory = memory();
    declare_edge(&mut memory, "at_now", "matches", "needle", 10, 20, &["a"]);
    declare_edge(&mut memory, "closed", "matches", "needle", 0, 10, &["b"]);
    declare_edge(&mut memory, "future", "matches", "needle", 11, 20, &["c"]);
    let scope = memory.engine.sym("workspace");
    let subject = memory.engine.sym("shared");
    let predicate = memory.engine.sym("matches");
    let object = memory.engine.sym("needle");
    memory.engine.declare(
        "scoped_edge",
        &vec![
            scope,
            subject,
            predicate,
            object,
            Value::Int(0),
            Value::Int(20),
            Value::Int(0),
        ],
        Ann::base("0.9", &strings(&["d"])),
    );
    memory.engine.declare(
        "mentions",
        &vec![subject, object],
        Ann::base("0.9", &strings(&["not-searchable"])),
    );
    memory.engine.set_now(10);
    let snapshot = memory.save();

    let output = search_snapshot(
        Some(&snapshot),
        "needle",
        10,
        Some(strings(&["workspace"])),
        "repository:test".to_string(),
        false,
    )
    .unwrap();
    assert_eq!(
        output.rows,
        ["workspace\tshared --matches--> needle\tprovenance=d"]
    );
    assert!(!output.truncated);
    let all = search(&snapshot, "needle", 10).unwrap();
    assert_eq!(
        all.rows,
        [
            "repository:test\tat_now --matches--> needle\tprovenance=a",
            "workspace\tshared --matches--> needle\tprovenance=d",
        ]
    );
}

#[test]
fn load_and_search_share_snapshot_version_behavior() {
    let snapshots = [
        ("CORTEXLOG1", "ep1"),
        ("LEMMALOG1", "ep1"),
        ("LEMMALOG2", "3:ep1"),
    ];
    for (magic, provenance) in snapshots {
        let snapshot = format!(
            "{magic}\nNOW\t10\nRULES\t\nFACT\tedge\t0.9\t{provenance}\ts:two\\swords s:matches s:needle i:10 i:20 i:10\n"
        );
        let loaded = AgentMemory::load(MockExtractor::new("0.9"), &snapshot)
            .map_err(|error| error.message())
            .unwrap();
        assert_eq!(
            loaded.ask("current(\"two words\", \"matches\", O)").unwrap(),
            ["O=needle"]
        );
        let searched = search(&snapshot, "needle", 10).unwrap();
        assert_eq!(
            searched.rows,
            ["repository:test\ttwo words --matches--> needle\tprovenance=ep1"]
        );
    }
}

#[test]
fn mid_stream_corruption_remains_a_snapshot_error() {
    let malformed = "LEMMALOG2\nNOW\t10\nRULES\t\nFACT\tedge\t0.9\t3:ep1\ts:a s:matches s:needle i:0 i:20 i:0\nFACT\tedge\t0.9\t3:ep1\tx:bad\n";
    let search_error = search(malformed, ".", 10).expect_err("malformed snapshot must fail search");
    assert_eq!(
        search_error.message(),
        "malformed snapshot record at line 5: invalid FACT argument \"x:bad\""
    );
    match search_error {
        SearchError::Snapshot(SnapshotError::Malformed { line, message }) => {
            assert_eq!(line, 5);
            assert_eq!(message, "invalid FACT argument \"x:bad\"");
        }
        other => panic!("expected malformed snapshot error, got {other:?}"),
    }
}

#[test]
fn a_regular_expression_that_is_none_is_told() {
    let error = search("LEMMALOG2\nNOW\t0\n", "[", 3).unwrap_err();
    assert!(matches!(&error, SearchError::Regex(message) if message != "["));
    assert!(error.message().starts_with("invalid regex: "));
    assert!(matches!(
        SnapshotSearch::new("(", 3, None, String::new(), true),
        Err(SearchError::Regex(_))
    ));
}

#[test]
fn nothing_is_found_without_a_snapshot() {
    let found = search_snapshot(None, "x", 3, None, "r".to_string(), true).unwrap();
    assert_eq!(found.rows, Vec::<String>::new());
    assert!(!found.truncated);
    assert_eq!(found.stats, Default::default());
}

fn rows_of(facts: &[(&str, &str, &str)]) -> String {
    let mut memory = memory();
    for (subject, predicate, object) in facts {
        declare_edge(&mut memory, subject, predicate, object, 0, i64::MAX, &[]);
    }
    memory.engine.set_now(1);
    memory.save()
}

#[test]
fn lines_match_as_the_regular_expression_says() {
    let snapshot = rows_of(&[("b", "is", "Rust"), ("a", "is", "rusty"), ("c", "was", "gone")]);
    let rows = |pattern: &str| search(&snapshot, pattern, 9).unwrap().rows;
    let a = "repository:test\ta --is--> rusty\tprovenance=";
    let b = "repository:test\tb --is--> Rust\tprovenance=";
    let c = "repository:test\tc --was--> gone\tprovenance=";
    assert_eq!(rows("rust"), [a, b]);
    assert_eq!(rows("Rust"), [b]);
    assert_eq!(rows("RUST"), Vec::<String>::new());
    assert_eq!(rows("rusty|gone"), [a, c]);
    assert_eq!(rows("^repository:test\\tc"), [c]);
    assert_eq!(rows("provenance=$"), [a, b, c]);
    assert_eq!(rows(""), [a, b, c]);
    assert_eq!(rows("rusty.*gone"), Vec::<String>::new());
}

#[test]
fn a_row_with_a_line_feed_makes_two_lines() {
    let snapshot = rows_of(&[("first", "is", "one\nneedle two")]);
    assert_eq!(
        search(&snapshot, "needle", 9).unwrap().rows,
        ["needle two\tprovenance="]
    );
    assert_eq!(
        search(&snapshot, "first", 9).unwrap().rows,
        ["repository:test\tfirst --is--> one"]
    );
}

#[test]
fn a_byte_order_mark_at_the_beginning_is_skipped() {
    let snapshot = rows_of(&[("a", "is", "b")]);
    let found = search_snapshot(
        Some(&snapshot),
        "is",
        9,
        None,
        "\u{feff}scope".to_string(),
        true,
    )
    .unwrap();
    assert_eq!(found.rows, ["scope\ta --is--> b\tprovenance="]);
}

#[test]
fn a_search_in_batches_finds_what_one_search_finds() {
    let long = "y".repeat(SEARCH_BATCH_BYTES / 2);
    let objects: Vec<String> = (0..7).map(|index| format!("needle{index}-{long}")).collect();
    let facts: Vec<(&str, &str, &str)> = objects
        .iter()
        .map(|object| ("a", "is", object.as_str()))
        .collect();
    let snapshot = rows_of(&facts);
    let found = search(&snapshot, "needle[0246]", 9).unwrap();
    assert_eq!(found.rows.len(), 4);
    assert!(found.rows[3].starts_with("repository:test\ta --is--> needle6-"));
    assert!(!found.truncated);
}

#[test]
fn a_search_can_be_fed_line_by_line() {
    let snapshot = rows_of(&[("a", "is", "needle")]);
    let mut streamed =
        SnapshotSearch::new("needle", 5, None, "repository:test".to_string(), true).unwrap();
    for line in snapshot.split_inclusive('\n') {
        streamed.read_line(line, line.len()).unwrap();
    }
    let found = streamed.finish().unwrap();
    assert_eq!(found.rows, search(&snapshot, "needle", 5).unwrap().rows);
    let longest = snapshot.split_inclusive('\n').map(|line| line.len()).max();
    assert_eq!(Some(found.stats.peak_snapshot_record_bytes), longest);

    let cut = SnapshotSearch::new("x", 5, None, String::new(), true).unwrap();
    assert!(matches!(cut.finish(), Err(SearchError::Snapshot(_))));
}

#[test]
fn kept_rows_are_the_first_in_order_without_repetition() {
    let mut matches = BoundedMatches::new(3);
    for row in ["d", "b", "d", "a", "c", "a"] {
        matches.retain(row.to_string());
    }
    let output = settle(matches, 2, 17);
    assert_eq!(output.rows, ["a", "b"]);
    assert!(output.truncated);
    assert_eq!(output.stats.peak_snapshot_record_bytes, 17);
    assert_eq!(output.stats.peak_retained_result_count, 3);
    assert_eq!(output.stats.peak_retained_result_bytes, 3);

    let mut other = BoundedMatches::new(3);
    retain_lines(&mut other, &strings(&["b\n", "a", "b\n"]));
    let output = settle(other, 2, 0);
    assert_eq!(output.rows, ["a", "b"]);
    assert!(!output.truncated);
}

fn fact(predicate: &str, arguments: Vec<SnapshotValue>) -> SnapshotRecord {
    SnapshotRecord::Fact {
        predicate: predicate.to_string(),
        confidence: "0.9".to_string(),
        provenance: strings(&["ep1", "ref"]),
        arguments,
    }
}

fn symbol(name: &str) -> SnapshotValue {
    SnapshotValue::Symbol(name.to_string())
}

#[test]
fn facts_become_rows() {
    let edge = vec![
        symbol("a"),
        symbol("is"),
        SnapshotValue::Integer(-7),
        SnapshotValue::Integer(0),
        SnapshotValue::Integer(10),
        SnapshotValue::Integer(0),
    ];
    assert_eq!(display_value(&edge[2]), "-7");
    assert_eq!(
        render_edge("home", &edge, 9, &strings(&["ep1"])),
        Some("home\ta --is--> -7\tprovenance=ep1".to_string())
    );
    assert_eq!(render_edge("home", &edge, 10, &strings(&["ep1"])), None);
    let mut scoped = vec![symbol("away")];
    scoped.extend(edge.clone());
    assert_eq!(
        render_scoped_edge(&scoped, 0, &strings(&["ep1"])),
        Some((
            "away".to_string(),
            "away\ta --is--> -7\tprovenance=ep1".to_string()
        ))
    );
    let reader = FactRowReader::new(5, Some(strings(&["away"])), "home".to_string(), false);
    assert!(reader.scope_selected("away"));
    assert!(!reader.scope_selected("home"));
    assert_eq!(reader.row(&fact("edge", edge.clone())), None);
    assert_eq!(
        reader.row(&fact("scoped_edge", scoped)),
        Some("away\ta --is--> -7\tprovenance=ep1,ref".to_string())
    );
    assert_eq!(reader.row(&fact("mentions", edge)), None);
}
