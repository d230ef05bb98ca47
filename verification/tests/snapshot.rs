use lemmalog::snapshot::{
    decode_provenance, decode_snapshot, encode_provenance, encode_record, encode_snapshot, escape,
    parse_record, strip_ending, unescape, SnapshotError, SnapshotReader, SnapshotRecord,
    SnapshotValue, SnapshotVersion, SNAPSHOT_MAGIC, SNAPSHOT_MAGIC_V0, SNAPSHOT_MAGIC_V1,
};

fn chars(s: &str) -> Vec<char> {
    s.chars().collect()
}

fn records(input: String) -> Result<Vec<SnapshotRecord>, SnapshotError> {
    decode_snapshot(&input)
}

fn legacy(magic: &str) -> String {
    format!(
        "{magic}\nNOW\t7\nRULES\tp(X)\\s:-\\sq(X).\nEP\tep1\t6\tagent\tline\\ntext\nESC\tcheck\\sthis\nFACT\tedge\t0.5\tep1,ref\\\\n\ts:two\\swords i:7\n"
    )
}

fn legacy_records() -> Vec<SnapshotRecord> {
    vec![
        SnapshotRecord::Now(7),
        SnapshotRecord::Rules("p(X) :- q(X).".to_string()),
        SnapshotRecord::Episode {
            id: "ep1".to_string(),
            timestamp: 6,
            speaker: Some("agent".to_string()),
            text: "line\ntext".to_string(),
        },
        SnapshotRecord::Escalation("check this".to_string()),
        SnapshotRecord::Fact {
            predicate: "edge".to_string(),
            confidence: "0.5".to_string(),
            provenance: vec!["ep1".to_string(), r"ref\n".to_string()],
            arguments: vec![
                SnapshotValue::Symbol("two words".to_string()),
                SnapshotValue::Integer(7),
            ],
        },
    ]
}

#[test]
fn decoder_streams_both_legacy_magics_with_identical_typed_records() -> Result<(), SnapshotError> {
    let v0 = records(legacy(SNAPSHOT_MAGIC_V0))?;
    let v1 = records(legacy(SNAPSHOT_MAGIC_V1))?;
    let expected = legacy_records();
    assert_eq!(v0, expected);
    assert_eq!(v1, expected);
    Ok(())
}

#[test]
fn version_two_provenance_codec_is_lossless_and_length_prefixed() -> Result<(), SnapshotError> {
    assert_eq!(
        encode_provenance(&vec!["ref,one".to_string()]),
        "7:ref,one"
    );
    let provenance = vec![
        "ep1".to_string(),
        "ref,one".to_string(),
        r"literal\n\t\".to_string(),
    ];
    let input = format!(
        "{SNAPSHOT_MAGIC}\nNOW\t9\nRULES\t\nFACT\tedge\t0.9\t{}\ts:a s:p s:o i:0 i:10 i:0\n",
        encode_provenance(&provenance)
    );
    let decoded = records(input)?;
    assert_eq!(
        decoded,
        vec![
            SnapshotRecord::Now(9),
            SnapshotRecord::Rules(String::new()),
            SnapshotRecord::Fact {
                predicate: "edge".to_string(),
                confidence: "0.9".to_string(),
                provenance,
                arguments: vec![
                    SnapshotValue::Symbol("a".to_string()),
                    SnapshotValue::Symbol("p".to_string()),
                    SnapshotValue::Symbol("o".to_string()),
                    SnapshotValue::Integer(0),
                    SnapshotValue::Integer(10),
                    SnapshotValue::Integer(0),
                ],
            },
        ]
    );
    Ok(())
}

#[test]
fn decoder_rejects_malformed_snapshot_boundaries() {
    let cases = [
        "NOPE\nNOW\t0\n",
        "LEMMALOG2\nRULES\t\n",
        "LEMMALOG2\nNOW\tx\n",
        "LEMMALOG2\nNOW\t0\nEP\tonly\ttwo\n",
        "LEMMALOG2\nNOW\t0\nFACT\tedge\t0.9\t4:x\ts:a\n",
        "LEMMALOG2\nNOW\t0\nFACT\tedge\t0.9\t\tx:a\n",
    ];
    for input in cases {
        let result = decode_snapshot(input);
        assert!(result.is_err(), "malformed input accepted: {input:?}");
    }
}

#[test]
fn each_malformed_boundary_has_its_error() {
    let told = |input: &str| decode_snapshot(input).unwrap_err().message();
    assert_eq!(
        decode_snapshot("NOPE\nNOW\t0\n"),
        Err(SnapshotError::InvalidMagic("NOPE".to_string()))
    );
    assert_eq!(told("NOPE\nNOW\t0\n"), "not a lemmalog snapshot: magic \"NOPE\"");
    assert_eq!(decode_snapshot("LEMMALOG2\n"), Err(SnapshotError::MissingNow));
    assert!(matches!(
        decode_snapshot("LEMMALOG2\nNOW\tx\n"),
        Err(SnapshotError::Malformed { line: 2, .. })
    ));
    assert!(matches!(
        decode_snapshot("LEMMALOG2\nNOW\t0\nFACT\tedge\t0.9\t\tx:a\n"),
        Err(SnapshotError::Malformed { line: 3, .. })
    ));
}

#[test]
fn escapes_are_read_back() {
    for value in ["", "two words", "a\tb\nc\rd", "\\", "\\n", " \\s ", "ü—é"] {
        let form = escape(value);
        assert!(!form.contains(' ') && !form.contains('\n') && !form.contains('\t'));
        assert_eq!(unescape(&chars(&form), SnapshotVersion::V2), value);
    }
    assert_eq!(escape("two words"), "two\\swords");
    assert_eq!(escape("a\tb\nc\\"), "a\\tb\\nc\\\\");
}

#[test]
fn provenance_is_read_back() {
    for list in [
        vec![],
        vec!["".to_string()],
        vec!["1:2".to_string(), "é,ü".to_string(), "a b\n".to_string()],
    ] {
        assert_eq!(
            decode_provenance(&chars(&encode_provenance(&list))),
            Ok(list)
        );
    }
    assert_eq!(encode_provenance(&vec!["é".to_string()]), "2:é");
    assert!(decode_provenance(&chars("4:x")).is_err());
    assert!(decode_provenance(&chars("x")).is_err());
}

#[test]
fn written_records_are_read_back() {
    let list = legacy_records();
    let text = encode_snapshot(&list);
    assert!(text.starts_with("LEMMALOG2\nNOW\t7\nRULES\tp(X)\\s:-\\sq(X).\n"));
    assert_eq!(text.lines().count(), 6);
    assert_eq!(decode_snapshot(&text), Ok(list));
}

#[test]
fn records_are_lines() {
    let record = SnapshotRecord::Episode {
        id: "ep1".to_string(),
        timestamp: -3,
        speaker: None,
        text: "a\nb".to_string(),
    };
    let line = encode_record(&record);
    assert_eq!(line, "EP\tep1\t-3\t\ta\\nb");
    assert_eq!(parse_record(SnapshotVersion::V2, 3, &line), Ok(record));
}

#[test]
fn the_reader_measures_its_buffer() {
    let mut reader = SnapshotReader::new();
    assert!(matches!(reader.read_line("LEMMALOG2\r\n", 11), Ok(None)));
    assert!(matches!(
        reader.read_line("NOW\t4\n", 6),
        Ok(Some(SnapshotRecord::Now(4)))
    ));
    assert_eq!(reader.line_number(), 2);
    assert_eq!(reader.peak_record_buffer_bytes(), 11);
    assert_eq!(reader.finish(), Ok(()));
    assert_eq!(strip_ending("a\r\n"), "a");
    assert_eq!(strip_ending("a\n"), "a");
    assert_eq!(strip_ending("a"), "a");
}
