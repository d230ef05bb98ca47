use lemmalog::presentation::{
    canonical, episode_reference, escape_json, parse_row, provenance_display, render_search,
    scope_display, update, Model, Msg, SearchFormat,
};
use lemmalog::search::SearchOutput;

fn output() -> SearchOutput {
    SearchOutput {
        rows: vec![
            "repository:git@github.com:example/service.git\talpha --describes--> Search\tprovenance=ep1,https://github.com/example/service/blob/abc/README.md#L2-L4".to_string(),
            "workspace\tbilling --owns--> ledger\tprovenance=ep2".to_string(),
        ],
        truncated: true,
        stats: Default::default(),
    }
}

#[test]
fn text_view_preserves_hierarchy_and_full_source_url() {
    let rendered = render_search(&output(), SearchFormat::Text, 2).unwrap();
    let thick = "═".repeat(64);
    let thin = "─".repeat(64);
    let expected = [
        "Search results (2)",
        &thick,
        "Relationship",
        "  alpha --describes--> Search",
        &thin,
        "Scope",
        "  repository · git@github.com:example/service.git",
        &thin,
        "Provenance",
        "  internal episode: ep1",
        "  source: https://github.com/example/service/blob/abc/README.md#L2-L4",
        "",
        &thick,
        "Relationship",
        "  billing --owns--> ledger",
        &thin,
        "Scope",
        "  workspace",
        &thin,
        "Provenance",
        "  internal episode: ep2",
        &thick,
        "truncated: limit (2 shown, more matched)",
    ]
    .join("\n");
    assert_eq!(rendered, expected);
}

#[test]
fn json_view_is_structured() {
    let rendered = render_search(&output(), SearchFormat::Json, 2).unwrap();
    let expected = [
        "{\"results\":[",
        "{\"relationship\":\"alpha --describes--> Search\",",
        "\"scope\":\"repository:git@github.com:example/service.git\",",
        "\"provenance\":[\"internal episode: ep1\",",
        "\"source: https://github.com/example/service/blob/abc/README.md#L2-L4\"]},",
        "{\"relationship\":\"billing --owns--> ledger\",\"scope\":\"workspace\",",
        "\"provenance\":[\"internal episode: ep2\"]}",
        "],\"truncated\":true,\"limit\":2}",
    ]
    .concat();
    assert_eq!(rendered, expected);
}

#[test]
fn empty_json_view_is_structured() {
    let output = SearchOutput {
        rows: Vec::new(),
        truncated: false,
        stats: Default::default(),
    };
    assert_eq!(
        render_search(&output, SearchFormat::Json, 7).unwrap(),
        "{\"results\":[],\"truncated\":false,\"limit\":7}"
    );
}

#[test]
fn canonical_view_is_compatible() {
    let rendered = render_search(&output(), SearchFormat::Canonical, 2).unwrap();
    assert_eq!(
        rendered,
        "repository:git@github.com:example/service.git\talpha --describes--> Search\tprovenance=ep1,https://github.com/example/service/blob/abc/README.md#L2-L4\nworkspace\tbilling --owns--> ledger\tprovenance=ep2\ntruncated: limit (2 shown, more matched)"
    );
}

#[test]
fn nothing_found_is_told_in_words() {
    let nothing = SearchOutput {
        rows: Vec::new(),
        truncated: false,
        stats: Default::default(),
    };
    for format in [SearchFormat::Canonical, SearchFormat::Text] {
        assert_eq!(render_search(&nothing, format, 7).unwrap(), "(no answers)");
    }
}

#[test]
fn formats_have_names() {
    assert_eq!(SearchFormat::parse("text"), Ok(SearchFormat::Text));
    assert_eq!(SearchFormat::parse("json"), Ok(SearchFormat::Json));
    assert_eq!(SearchFormat::parse("canonical"), Ok(SearchFormat::Canonical));
    assert!(SearchFormat::parse("xml").unwrap_err().contains("\"xml\""));
}

#[test]
fn rows_without_their_parts_are_refused() {
    assert_eq!(
        parse_row("scope").unwrap_err(),
        "search row is missing relationship"
    );
    assert_eq!(
        parse_row("scope\ta --b--> c").unwrap_err(),
        "search row is missing provenance"
    );
    assert_eq!(
        parse_row("scope\ta --b--> c\tep1").unwrap_err(),
        "search row has invalid provenance"
    );
    let card = parse_row("scope\ta --b--> c\tprovenance=x\ty").unwrap();
    assert_eq!(card.scope, "scope");
    assert_eq!(card.relationship, "a --b--> c");
    assert_eq!(card.provenance, "x\ty");
}

#[test]
fn a_card_gives_its_row_back() {
    let row = "scope\ta --b--> c\tprovenance=ep1,z".to_string();
    let empty = Model { cards: vec![], truncated: true, limit: 0 };
    let model = update(
        empty,
        Msg::Results { rows: vec![row.clone()], truncated: false, limit: 4 },
    )
    .unwrap();
    assert_eq!(canonical(&model), row);
}

#[test]
fn references_are_shown_by_their_kind() {
    assert!(episode_reference("ep12"));
    assert!(!episode_reference("ep"));
    assert!(!episode_reference("ep1a"));
    assert!(!episode_reference("epé"));
    assert_eq!(provenance_display("ep3"), ["internal episode: ep3"]);
    assert_eq!(provenance_display("docs,ep3"), ["docs,ep3"]);
    assert_eq!(
        provenance_display("ep3,a,b"),
        ["internal episode: ep3", "source: a,b"]
    );
    assert_eq!(scope_display("workspace"), "workspace");
    assert_eq!(scope_display("repository:a:b"), "repository · a:b");
}

#[test]
fn json_strings_are_escaped() {
    assert_eq!(
        escape_json("a\"b\\c\nd\re\tf\u{1}\u{7f}\u{85}g"),
        "a\\\"b\\\\c\\nd\\re\\tf\\u0001\\u007f\\u0085g"
    );
    for code in 0..0x3000u32 {
        if let Some(c) = char::from_u32(code) {
            let form = escape_json(&c.to_string());
            assert_eq!(form.len() > c.len_utf8(), c.is_control() || c == '"' || c == '\\');
        }
    }
}
