//! How the results of a search are shown.

use vstd::prelude::*;

use crate::engine::copy_strings;
use crate::number;
use crate::search::SearchOutput;
use crate::text;

verus! {

/// How results are shown: one row for each, cards for a reader, or JSON.
#[derive(Clone, Copy, Debug, PartialEq, Eq, Structural)]
pub enum SearchFormat {
    Canonical,
    Text,
    Json,
}

/// The format that a word names.
pub open spec fn format_of(word: Seq<char>) -> Option<SearchFormat> {
    if word == "canonical"@ {
        Some(SearchFormat::Canonical)
    } else if word == "text"@ {
        Some(SearchFormat::Text)
    } else if word == "json"@ {
        Some(SearchFormat::Json)
    } else {
        None
    }
}

impl SearchFormat {
    /// The format that a word names.
    pub fn parse(value: &str) -> (parsed: Result<SearchFormat, String>)
        ensures
            match format_of(value@) {
                Some(format) => parsed matches Ok(found) && found == format,
                None => parsed matches Err(message) && message@
                    == "--format requires canonical, text, or json, got "@ + text::quoted(value@),
            },
    {
        if text::same_text(value, "canonical") {
            Ok(SearchFormat::Canonical)
        } else if text::same_text(value, "text") {
            Ok(SearchFormat::Text)
        } else if text::same_text(value, "json") {
            Ok(SearchFormat::Json)
        } else {
            let mut message: String =
                "--format requires canonical, text, or json, got ".to_owned();
            message.append(text::quote(value).as_str());
            Err(message)
        }
    }
}

// ------------------------------------------------------------------ cards
/// A result, in its three parts.
#[derive(Clone, Debug, PartialEq, Eq)]
pub struct SearchCard {
    pub relationship: String,
    pub scope: String,
    pub provenance: String,
}

/// A result, as a view.
#[verifier::ext_equal]
pub struct CardView {
    pub relationship: Seq<char>,
    pub scope: Seq<char>,
    pub provenance: Seq<char>,
}

impl View for SearchCard {
    type V = CardView;

    open spec fn view(&self) -> CardView {
        CardView {
            relationship: self.relationship@,
            scope: self.scope@,
            provenance: self.provenance@,
        }
    }
}

/// Results, as views.
pub open spec fn card_views(cards: Seq<SearchCard>) -> Seq<CardView> {
    cards.map_values(|card: SearchCard| card@)
}

/// The results that are shown.
#[derive(Clone, Debug, PartialEq, Eq)]
pub struct Model {
    pub cards: Vec<SearchCard>,
    pub truncated: bool,
    pub limit: usize,
}

/// The results that are shown, as a view.
#[verifier::ext_equal]
pub struct ModelView {
    pub cards: Seq<CardView>,
    pub truncated: bool,
    pub limit: int,
}

impl View for Model {
    type V = ModelView;

    open spec fn view(&self) -> ModelView {
        ModelView {
            cards: card_views(self.cards@),
            truncated: self.truncated,
            limit: self.limit as int,
        }
    }
}

/// The parts of a row, or which of them is missing.
pub open spec fn row_card(row: Seq<char>) -> Result<CardView, Seq<char>> {
    let parts = text::fields(row, '\t', 3);
    if parts.len() < 2 {
        Err("search row is missing relationship"@)
    } else if parts.len() < 3 {
        Err("search row is missing provenance"@)
    } else if !text::begins(parts[2], "provenance="@) {
        Err("search row has invalid provenance"@)
    } else {
        Ok(
            CardView {
                relationship: parts[1],
                scope: parts[0],
                provenance: parts[2].skip("provenance="@.len() as int),
            },
        )
    }
}

/// The parts of rows; the first row that has none decides.
pub open spec fn row_cards(rows: Seq<Seq<char>>) -> Result<Seq<CardView>, Seq<char>>
    decreases rows.len(),
{
    if rows.len() == 0 {
        Ok(seq![])
    } else {
        match row_cards(rows.drop_last()) {
            Err(message) => Err(message),
            Ok(cards) => match row_card(rows.last()) {
                Err(message) => Err(message),
                Ok(card) => Ok(cards.push(card)),
            },
        }
    }
}

/// Cuts a row into its parts.
pub fn parse_row(row: &str) -> (parsed: Result<SearchCard, String>)
    ensures
        match row_card(row@) {
            Ok(card) => parsed matches Ok(found) && found@ == card,
            Err(message) => parsed matches Err(told) && told@ == message,
        },
{
    proof {
        reveal_with_fuel(text::fields, 3);
    }
    let chars: Vec<char> = text::chars_of(row);
    let (scope, rest) = match text::split_once_char(chars.as_slice(), '\t') {
        None => {
            return Err("search row is missing relationship".to_owned());
        },
        Some(parts) => parts,
    };
    let (relationship, provenance) = match text::split_once_char(rest, '\t') {
        None => {
            assert(text::fields(row@, '\t', 3).len() == 2);
            return Err("search row is missing provenance".to_owned());
        },
        Some(parts) => parts,
    };
    assert(text::fields(row@, '\t', 3) =~= seq![scope@, relationship@, provenance@]);
    match text::strip_prefix(provenance, "provenance=") {
        None => Err("search row has invalid provenance".to_owned()),
        Some(provenance) => Ok(
            SearchCard {
                relationship: text::string_of(relationship),
                scope: text::string_of(scope),
                provenance: text::string_of(provenance),
            },
        ),
    }
}

/// A message that changes what is shown.
#[derive(Clone, Debug, PartialEq, Eq)]
pub enum Msg {
    Results { rows: Vec<String>, truncated: bool, limit: usize },
}

/// What is shown after a message.
pub fn update(model: Model, message: Msg) -> (updated: Result<Model, String>)
    ensures
        match message {
            Msg::Results { rows, truncated, limit } => match row_cards(text::texts(rows@)) {
                Ok(cards) => updated matches Ok(after) && after@ == (ModelView {
                    cards,
                    truncated,
                    limit: limit as int,
                }),
                Err(told) => updated matches Err(message) && message@ == told,
            },
        },
{
    match message {
        Msg::Results { rows, truncated, limit } => {
            let ghost all = text::texts(rows@);
            let mut cards: Vec<SearchCard> = Vec::new();
            assert(card_views(cards@) =~= seq![]);
            for i in 0..rows.len()
                invariant
                    all == text::texts(rows@),
                    row_cards(all.take(i as int)) == Ok::<Seq<CardView>, Seq<char>>(
                        card_views(cards@),
                    ),
                    message == (Msg::Results { rows, truncated, limit }),
            {
                assert(all.take(i as int + 1).drop_last() =~= all.take(i as int));
                match parse_row(rows[i].as_str()) {
                    Err(told) => {
                        proof {
                            lemma_row_error(all, i as int + 1);
                        }
                        return Err(told);
                    },
                    Ok(card) => {
                        let ghost before = card_views(cards@);
                        let ghost said = card@;
                        cards.push(card);
                        assert(card_views(cards@) =~= before.push(said));
                    },
                }
            }
            assert(all.take(all.len() as int) =~= all);
            let mut model = model;
            model.cards = cards;
            model.truncated = truncated;
            model.limit = limit;
            Ok(model)
        },
    }
}

/// A row without parts among the first decides.
proof fn lemma_row_error(rows: Seq<Seq<char>>, n: int)
    requires
        0 <= n <= rows.len(),
        row_cards(rows.take(n)) is Err,
    ensures
        row_cards(rows) == row_cards(rows.take(n)),
    decreases rows.len(),
{
    if n == rows.len() {
        assert(rows.take(n) =~= rows);
    } else {
        assert(rows.drop_last().take(n) =~= rows.take(n));
        lemma_row_error(rows.drop_last(), n);
    }
}

// -------------------------------------------------------------- canonical
/// The note that more rows matched.
pub open spec fn truncation(model: ModelView) -> Seq<char> {
    if model.truncated {
        "\ntruncated: limit ("@ + number::decimal(model.limit as nat) + " shown, more matched)"@
    } else {
        seq![]
    }
}

/// The row of a card.
pub open spec fn card_row(card: CardView) -> Seq<char> {
    card.scope + "\t"@ + card.relationship + "\tprovenance="@ + card.provenance
}

/// Results as rows.
pub open spec fn canonical_text(model: ModelView) -> Seq<char> {
    text::join(model.cards.map_values(|card: CardView| card_row(card)), "\n"@) + truncation(model)
}

/// Appends the note that more rows matched, where that is so.
pub fn append_truncation(output: &mut String, model: &Model)
    ensures
        final(output)@ == old(output)@ + truncation(model@),
{
    let ghost before = output@;
    if model.truncated {
        output.append("\ntruncated: limit (");
        output.append(number::size_text(model.limit).as_str());
        output.append(" shown, more matched)");
        assert(output@ =~= before + truncation(model@));
    } else {
        assert(output@ =~= before + truncation(model@));
    }
}

/// Shows results as rows.
pub fn canonical(model: &Model) -> (output: String)
    ensures
        output@ == canonical_text(model@),
{
    let ghost all = model@.cards.map_values(|card: CardView| card_row(card));
    let mut rows: Vec<String> = Vec::new();
    assert(text::texts(rows@) =~= all.take(0));
    for i in 0..model.cards.len()
        invariant
            all == model@.cards.map_values(|card: CardView| card_row(card)),
            text::texts(rows@) == all.take(i as int),
    {
        let card = &model.cards[i];
        let mut row: String = card.scope.as_str().to_owned();
        row.append("\t");
        row.append(card.relationship.as_str());
        row.append("\tprovenance=");
        row.append(card.provenance.as_str());
        let ghost before = text::texts(rows@);
        assert(row@ == all[i as int]);
        rows.push(row);
        assert(text::texts(rows@) =~= before.push(all[i as int]));
        assert(all.take(i as int + 1) =~= all.take(i as int).push(all[i as int]));
    }
    assert(all.take(all.len() as int) =~= all);
    let mut output: String = text::join_strings(&rows, "\n");
    append_truncation(&mut output, model);
    output
}

// ------------------------------------------------------------------- text
/// The rule around a card.
pub const THICK_RULE: &'static str = "════════════════════════════════════════════════════════════════";

/// The rule between the parts of a card.
pub const THIN_RULE: &'static str = "────────────────────────────────────────────────────────────────";

/// How a scope is shown: its kind and its identity.
pub open spec fn scope_text(scope: Seq<char>) -> Seq<char> {
    match text::cut_char(scope, ':') {
        Some((kind, identity)) => kind + " · "@ + identity,
        None => scope,
    }
}

/// Whether a reference is that of an episode: `ep` and a number.
pub open spec fn is_episode(reference: Seq<char>) -> bool {
    text::begins(reference, "ep"@) && reference.len() > 2 && number::all_digits(reference.skip(2))
}

/// How the references of a result are shown: an episode and what it was told of stand apart.
pub open spec fn reference_texts(provenance: Seq<char>) -> Seq<Seq<char>> {
    match text::cut_char(provenance, ',') {
        None => if is_episode(provenance) {
            seq!["internal episode: "@ + provenance]
        } else {
            seq![provenance]
        },
        Some((episode, source)) => if is_episode(episode) {
            seq!["internal episode: "@ + episode, "source: "@ + source]
        } else {
            seq![provenance]
        },
    }
}

/// References, each on a line of its own.
pub open spec fn reference_lines(references: Seq<Seq<char>>) -> Seq<char>
    decreases references.len(),
{
    if references.len() == 0 {
        seq![]
    } else {
        reference_lines(references.drop_last()) + "  "@ + references.last() + "\n"@
    }
}

/// A card.
pub open spec fn card_text(card: CardView) -> Seq<char> {
    THICK_RULE@ + "\nRelationship\n  "@ + card.relationship + "\n"@ + THIN_RULE@ + "\nScope\n  "@
        + scope_text(card.scope) + "\n"@ + THIN_RULE@ + "\nProvenance\n"@ + reference_lines(
        reference_texts(card.provenance),
    )
}

/// Cards, with an empty line between them.
pub open spec fn cards_text(cards: Seq<CardView>) -> Seq<char>
    decreases cards.len(),
{
    if cards.len() == 0 {
        seq![]
    } else {
        let rest = cards_text(cards.drop_last());
        let gap = if cards.len() > 1 {
            "\n"@
        } else {
            seq![]
        };
        rest + gap + card_text(cards.last())
    }
}

/// Results as cards.
pub open spec fn plain_text(model: ModelView) -> Seq<char> {
    "Search results ("@ + number::decimal(model.cards.len()) + ")\n"@ + cards_text(model.cards)
        + THICK_RULE@ + truncation(model)
}

/// Shows a scope.
pub fn scope_display(scope: &str) -> (shown: String)
    ensures
        shown@ == scope_text(scope@),
{
    let chars: Vec<char> = text::chars_of(scope);
    match text::split_once_char(chars.as_slice(), ':') {
        Some((kind, identity)) => {
            let mut shown: String = text::string_of(kind);
            shown.append(" · ");
            shown.append(text::string_of(identity).as_str());
            shown
        },
        None => scope.to_owned(),
    }
}

/// Whether a reference is that of an episode.
pub fn episode_reference(value: &str) -> (yes: bool)
    ensures
        yes == is_episode(value@),
{
    proof {
        reveal_strlit("ep");
    }
    let chars: Vec<char> = text::chars_of(value);
    let rest = match text::strip_prefix(chars.as_slice(), "ep") {
        None => {
            return false;
        },
        Some(rest) => rest,
    };
    if rest.len() == 0 {
        return false;
    }
    for i in 0..rest.len()
        invariant
            rest@ == value@.skip(2),
            forall|j: int| 0 <= j < i ==> text::digit(#[trigger] rest@[j]),
    {
        if !text::is_digit(rest[i]) {
            return false;
        }
    }
    true
}

/// A text behind a label.
fn labelled(label: &str, value: &[char]) -> (shown: String)
    ensures
        shown@ == label@ + value@,
{
    let mut shown: String = label.to_owned();
    shown.append(text::string_of(value).as_str());
    shown
}

/// Shows the references of a result.
pub fn provenance_display(provenance: &str) -> (shown: Vec<String>)
    ensures
        text::texts(shown@) == reference_texts(provenance@),
{
    let chars: Vec<char> = text::chars_of(provenance);
    let mut shown: Vec<String> = Vec::new();
    match text::split_once_char(chars.as_slice(), ',') {
        None => {
            if episode_reference(provenance) {
                shown.push(labelled("internal episode: ", chars.as_slice()));
            } else {
                shown.push(provenance.to_owned());
            }
        },
        Some((episode, source)) => {
            if episode_reference(text::string_of(episode).as_str()) {
                shown.push(labelled("internal episode: ", episode));
                shown.push(labelled("source: ", source));
            } else {
                shown.push(provenance.to_owned());
            }
        },
    }
    assert(text::texts(shown@) =~= reference_texts(provenance@));
    shown
}

/// Appends a card.
fn append_card(output: &mut String, card: &SearchCard)
    ensures
        final(output)@ == old(output)@ + card_text(card@),
{
    let ghost start = output@;
    output.append(THICK_RULE);
    output.append("\nRelationship\n  ");
    output.append(card.relationship.as_str());
    output.append("\n");
    output.append(THIN_RULE);
    output.append("\nScope\n  ");
    output.append(scope_display(card.scope.as_str()).as_str());
    output.append("\n");
    output.append(THIN_RULE);
    output.append("\nProvenance\n");
    let ghost head = output@;
    let references: Vec<String> = provenance_display(card.provenance.as_str());
    let ghost all = text::texts(references@);
    assert(head + reference_lines(all.take(0)) =~= head);
    for i in 0..references.len()
        invariant
            all == text::texts(references@),
            output@ == head + reference_lines(all.take(i as int)),
    {
        assert(all.take(i as int + 1).drop_last() =~= all.take(i as int));
        output.append("  ");
        output.append(references[i].as_str());
        output.append("\n");
        assert(output@ =~= head + reference_lines(all.take(i as int + 1)));
    }
    assert(all.take(all.len() as int) =~= all);
    assert(output@ =~= start + card_text(card@));
}

/// Shows results as cards.
pub fn text(model: &Model) -> (output: String)
    ensures
        output@ == plain_text(model@),
{
    let mut output: String = "Search results (".to_owned();
    output.append(number::size_text(model.cards.len()).as_str());
    output.append(")\n");
    let ghost head = output@;
    let ghost all = model@.cards;
    assert(head + cards_text(all.take(0)) =~= head);
    for i in 0..model.cards.len()
        invariant
            all == model@.cards,
            output@ == head + cards_text(all.take(i as int)),
    {
        assert(all.take(i as int + 1).drop_last() =~= all.take(i as int));
        if i > 0 {
            output.append("\n");
        }
        append_card(&mut output, &model.cards[i]);
        assert(output@ =~= head + cards_text(all.take(i as int + 1)));
    }
    assert(all.take(all.len() as int) =~= all);
    output.append(THICK_RULE);
    append_truncation(&mut output, model);
    output
}

// ------------------------------------------------------------------- JSON
/// How a character stands in a JSON string.
pub open spec fn json_char(c: char) -> Seq<char> {
    if c == '"' {
        seq!['\\', '"']
    } else if c == '\\' {
        seq!['\\', '\\']
    } else if c == '\n' {
        seq!['\\', 'n']
    } else if c == '\r' {
        seq!['\\', 'r']
    } else if c == '\t' {
        seq!['\\', 't']
    } else if text::control(c) {
        seq!['\\', 'u'] + number::hex((c as u32) as nat, 4)
    } else {
        seq![c]
    }
}

/// How a text stands in a JSON string.
pub open spec fn json_escaped(s: Seq<char>) -> Seq<char>
    decreases s.len(),
{
    if s.len() == 0 {
        seq![]
    } else {
        json_escaped(s.drop_last()) + json_char(s.last())
    }
}

/// A text as a JSON string.
pub open spec fn json_string(s: Seq<char>) -> Seq<char> {
    "\""@ + json_escaped(s) + "\""@
}

/// A card as a JSON object.
pub open spec fn card_json(card: CardView) -> Seq<char> {
    "{\"relationship\":"@ + json_string(card.relationship) + ",\"scope\":"@ + json_string(
        card.scope,
    ) + ",\"provenance\":["@ + text::join(
        reference_texts(card.provenance).map_values(|r: Seq<char>| json_string(r)),
        ","@,
    ) + "]}"@
}

/// A truth value in JSON.
pub open spec fn json_bool(yes: bool) -> Seq<char> {
    if yes {
        "true"@
    } else {
        "false"@
    }
}

/// Results as a JSON object.
pub open spec fn json_text(model: ModelView) -> Seq<char> {
    "{\"results\":["@ + text::join(
        model.cards.map_values(|card: CardView| card_json(card)),
        ","@,
    ) + "],\"truncated\":"@ + json_bool(model.truncated) + ",\"limit\":"@ + number::decimal(
        model.limit as nat,
    ) + "}"@
}

/// Escapes a text for a JSON string.
pub fn escape_json(value: &str) -> (escaped: String)
    ensures
        escaped@ == json_escaped(value@),
{
    let chars: Vec<char> = text::chars_of(value);
    let mut escaped: String = String::new();
    assert(escaped@ =~= json_escaped(value@.take(0)));
    for i in 0..chars.len()
        invariant
            chars@ == value@,
            escaped@ == json_escaped(value@.take(i as int)),
    {
        assert(value@.take(i as int + 1).drop_last() =~= value@.take(i as int));
        let ghost before = escaped@;
        let c: char = chars[i];
        if c == '"' {
            escaped.push('\\');
            escaped.push('"');
        } else if c == '\\' {
            escaped.push('\\');
            escaped.push('\\');
        } else if c == '\n' {
            escaped.push('\\');
            escaped.push('n');
        } else if c == '\r' {
            escaped.push('\\');
            escaped.push('r');
        } else if c == '\t' {
            escaped.push('\\');
            escaped.push('t');
        } else if text::is_control(c) {
            escaped.push('\\');
            escaped.push('u');
            let code: u32 = c as u32;
            number::push_hex(&mut escaped, code as u64, 4);
        } else {
            escaped.push(c);
        }
        assert(escaped@ =~= before + json_char(c));
    }
    assert(value@.take(value@.len() as int) =~= value@);
    escaped
}

/// Writes a text as a JSON string.
fn quote_json(value: &str) -> (quoted: String)
    ensures
        quoted@ == json_string(value@),
{
    let mut quoted: String = "\"".to_owned();
    quoted.append(escape_json(value).as_str());
    quoted.append("\"");
    quoted
}

/// Writes a card as a JSON object.
fn write_card(card: &SearchCard) -> (object: String)
    ensures
        object@ == card_json(card@),
{
    let references: Vec<String> = provenance_display(card.provenance.as_str());
    let ghost all = text::texts(references@).map_values(|r: Seq<char>| json_string(r));
    let mut quoted: Vec<String> = Vec::new();
    assert(text::texts(quoted@) =~= all.take(0));
    for i in 0..references.len()
        invariant
            all == text::texts(references@).map_values(|r: Seq<char>| json_string(r)),
            text::texts(quoted@) == all.take(i as int),
    {
        let ghost before = text::texts(quoted@);
        quoted.push(quote_json(references[i].as_str()));
        assert(text::texts(quoted@) =~= before.push(all[i as int]));
        assert(all.take(i as int + 1) =~= all.take(i as int).push(all[i as int]));
    }
    assert(all.take(all.len() as int) =~= all);
    let mut object: String = "{\"relationship\":".to_owned();
    object.append(quote_json(card.relationship.as_str()).as_str());
    object.append(",\"scope\":");
    object.append(quote_json(card.scope.as_str()).as_str());
    object.append(",\"provenance\":[");
    object.append(text::join_strings(&quoted, ",").as_str());
    object.append("]}");
    object
}

/// Shows results as JSON.
pub fn json(model: &Model) -> (output: String)
    ensures
        output@ == json_text(model@),
{
    let ghost all = model@.cards.map_values(|card: CardView| card_json(card));
    let mut cards: Vec<String> = Vec::new();
    assert(text::texts(cards@) =~= all.take(0));
    for i in 0..model.cards.len()
        invariant
            all == model@.cards.map_values(|card: CardView| card_json(card)),
            text::texts(cards@) == all.take(i as int),
    {
        let ghost before = text::texts(cards@);
        cards.push(write_card(&model.cards[i]));
        assert(text::texts(cards@) =~= before.push(all[i as int]));
        assert(all.take(i as int + 1) =~= all.take(i as int).push(all[i as int]));
    }
    assert(all.take(all.len() as int) =~= all);
    let mut output: String = "{\"results\":[".to_owned();
    output.append(text::join_strings(&cards, ",").as_str());
    output.append("],\"truncated\":");
    output.append(if model.truncated {
        "true"
    } else {
        "false"
    });
    output.append(",\"limit\":");
    output.append(number::size_text(model.limit).as_str());
    output.append("}");
    output
}

// ----------------------------------------------------------------- render
/// The results of a search in a format, or which row cannot be shown.
pub open spec fn rendered(
    rows: Seq<Seq<char>>,
    truncated: bool,
    format: SearchFormat,
    limit: int,
) -> Result<Seq<char>, Seq<char>> {
    if rows.len() == 0 {
        match format {
            SearchFormat::Json => Ok(
                "{\"results\":[],\"truncated\":false,\"limit\":"@ + number::decimal(limit as nat)
                    + "}"@,
            ),
            _ => Ok("(no answers)"@),
        }
    } else {
        match row_cards(rows) {
            Err(message) => Err(message),
            Ok(cards) => {
                let model = ModelView { cards, truncated, limit };
                Ok(
                    match format {
                        SearchFormat::Canonical => canonical_text(model),
                        SearchFormat::Text => plain_text(model),
                        SearchFormat::Json => json_text(model),
                    },
                )
            },
        }
    }
}

/// Shows the results of a search in a format.
pub fn render_search(output: &SearchOutput, format: SearchFormat, limit: usize) -> (shown: Result<
    String,
    String,
>)
    ensures
        match rendered(text::texts(output.rows@), output.truncated, format, limit as int) {
            Ok(form) => shown matches Ok(written) && written@ == form,
            Err(message) => shown matches Err(told) && told@ == message,
        },
{
    if output.rows.len() == 0 {
        return match format {
            SearchFormat::Json => {
                let mut form: String =
                    "{\"results\":[],\"truncated\":false,\"limit\":".to_owned();
                form.append(number::size_text(limit).as_str());
                form.append("}");
                Ok(form)
            },
            _ => Ok("(no answers)".to_owned()),
        };
    }
    let model = Model { cards: Vec::new(), truncated: false, limit };
    let message = Msg::Results {
        rows: copy_strings(&output.rows),
        truncated: output.truncated,
        limit,
    };
    match update(model, message) {
        Err(told) => Err(told),
        Ok(model) => Ok(
            match format {
                SearchFormat::Canonical => canonical(&model),
                SearchFormat::Text => text(&model),
                SearchFormat::Json => json(&model),
            },
        ),
    }
}

} // verus!
