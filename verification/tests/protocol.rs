use lemmalog::protocol::{
    entity_token_problem, parse_line, parse_protocol, parse_protocol_reported,
    parse_protocol_strict, token_problem, valid_entity_token, CandidateFact,
};

fn candidate(subj: &str, pred: &str, obj: &str, confidence: &str) -> CandidateFact {
    CandidateFact {
        subj: subj.to_string(),
        pred: pred.to_string(),
        obj: obj.to_string(),
        confidence: confidence.to_string(),
    }
}

#[test]
fn lines_hold_triples() {
    assert_eq!(
        parse_line("  alice --works_at--> acme ", "0.9"),
        Ok(candidate("alice", "works_at", "acme", "0.9"))
    );
    assert_eq!(
        parse_line("alice -- works_at [0.5] --> acme --x--> y", "0.9"),
        Ok(candidate("alice", "works_at", "acme --x--> y", "0.5"))
    );
    assert_eq!(
        parse_line("alice --works_at[high]--> acme", "0.9"),
        Ok(candidate("alice", "works_at", "acme", "0.9"))
    );
    assert_eq!(
        parse_line("alice works at acme", "0.9").unwrap_err(),
        "no `--rel-->` structure"
    );
    assert_eq!(
        parse_line("alice --works_at acme", "0.9").unwrap_err(),
        "has `--` but no `-->`"
    );
    assert_eq!(parse_line("alice -- --> acme", "0.9").unwrap_err(), "empty relation");
}

#[test]
fn entity_names_are_checked() {
    assert_eq!(entity_token_problem("O'Brien-2_b c"), None);
    assert_eq!(entity_token_problem("Ünïcode"), None);
    assert_eq!(entity_token_problem(""), Some("empty entity name".to_string()));
    assert_eq!(
        entity_token_problem("Speaker"),
        Some("'Speaker' is a pronoun or role word — resolve it to the entity's real name".to_string())
    );
    let prose = Some("looks like prose (more than 8 words) — entity names are short".to_string());
    assert_eq!(entity_token_problem("a b c d e f g h i"), prose);
    assert_eq!(entity_token_problem(&"x".repeat(61)), prose);
    assert_eq!(entity_token_problem(&"x".repeat(60)), None);
    let punctuation = Some("contains punctuation or prose characters — entity names use letters, digits, '_', '-', apostrophes".to_string());
    assert_eq!(entity_token_problem("really?"), punctuation);
    assert!(valid_entity_token("acme") && !valid_entity_token("a.b"));
}

#[test]
fn names_are_judged_by_what_is_known_of_their_characters() {
    assert_eq!(token_problem("ab", "ab", &vec![true, true]), None);
    assert!(token_problem("ab", "ab", &vec![true, false]).is_some());
    assert!(token_problem("AB", "it", &vec![true, true])
        .unwrap()
        .starts_with("'AB' is a pronoun"));
}

#[test]
fn lowercase_goes_beyond_ascii() {
    // The Kelvin sign becomes an ordinary k, which makes no pronoun of it.
    assert_eq!(entity_token_problem("\u{212a}"), None);
    assert!(entity_token_problem("THEY").is_some());
}

#[test]
fn every_line_is_a_fact_or_told() {
    let text = "alice --works_at--> acme\n\n  hm, maybe\nit --likes--> tea\nbob --WorksAt--> acme\r\nbob --likes[0.4]--> tea";
    let (facts, dropped) = parse_protocol_reported(text, "0.9");
    assert_eq!(
        facts,
        [
            candidate("alice", "works_at", "acme", "0.9"),
            candidate("bob", "likes", "tea", "0.4"),
        ]
    );
    assert_eq!(
        dropped,
        [
            ("hm, maybe".to_string(), "no `--rel-->` structure".to_string()),
            (
                "it --likes--> tea".to_string(),
                "'it' is a pronoun or role word — resolve it to the entity's real name".to_string()
            ),
            (
                "bob --WorksAt--> acme".to_string(),
                "relation must be lower snake_case (e.g. works_at)".to_string()
            ),
        ]
    );
    assert_eq!(parse_protocol_strict(text, "0.9"), facts);
    assert_eq!(parse_protocol(text, "0.9").len(), 4);
}

#[test]
fn confidences_are_read_as_numbers_are() {
    for text in [
        "1", "-1", "+.5", "5.", "1e3", "1E-3", "inf", "-Infinity", "nan", "NaN", "0.80",
    ] {
        let number: f64 = text.parse().unwrap();
        let line = format!("a --b[{text}]--> c");
        let kept = parse_line(&line, "0.9").unwrap().confidence;
        let read: f64 = kept.parse().unwrap();
        assert_eq!(read.to_bits(), number.to_bits(), "{text}");
    }
    for text in ["", ".", "e3", "1e", "0x1", "1_0", "--1", "1.2.3", "infin"] {
        assert!(text.parse::<f64>().is_err());
        let line = format!("a --b[{text}]--> c");
        assert_eq!(parse_line(&line, "0.9").unwrap().confidence, "0.9");
    }
}

#[test]
fn a_written_triple_is_read_back() {
    assert_eq!(
        parse_protocol("x --y--> z", "0.3"),
        [candidate("x", "y", "z", "0.3")]
    );
    assert_eq!(
        parse_protocol("x --y[0.25]--> z", "0.3"),
        [candidate("x", "y", "z", "0.25")]
    );
}

#[test]
fn a_confidence_is_kept_in_its_shortest_form() {
    for (written, kept) in [
        ("0.90", "0.9"),
        ("1.0", "1"),
        ("1.", "1"),
        (".50", "0.5"),
        ("+0.80", "0.8"),
        ("-0.0", "-0"),
        ("007.250", "7.25"),
        ("0", "0"),
        ("100", "100"),
        ("1e-1", "1e-1"),
        ("NaN", "NaN"),
        ("0.12345678901234567890", "0.12345678901234567890"),
        ("x", "0.7"),
    ] {
        let line = format!("a --r[{written}]--> b");
        assert_eq!(parse_protocol(&line, "0.7")[0].confidence, kept, "{written}");
    }
    for written in ["0.90", "1.0", ".50", "+0.80", "-0.0", "007.250", "0.1234567890123"] {
        let number: f64 = written.parse().unwrap();
        let line = format!("a --r[{written}]--> b");
        assert_eq!(parse_protocol(&line, "0.7")[0].confidence, number.to_string());
    }
}
