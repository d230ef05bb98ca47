//! What holds of how results are shown.

use vstd::prelude::*;

use crate::number;
use crate::presentation;
use crate::presentation::{CardView, ModelView, SearchFormat};
use crate::row_laws;
use crate::search;
use crate::snapshot::ValueView;
use crate::text;
use crate::text_laws;

verus! {

/// A row that has its parts is the row of its parts.
pub proof fn card_gives_row_back(row: Seq<char>)
    requires
        presentation::row_card(row) is Ok,
    ensures
        presentation::card_row(presentation::row_card(row)->Ok_0) == row,
{
    reveal_with_fuel(text::fields, 3);
    reveal_strlit("\t");
    reveal_strlit("provenance=");
    reveal_strlit("\tprovenance=");
    text::lemma_cut_char_parts(row, '\t');
    let (scope, rest) = text::cut_char(row, '\t')->0;
    text::lemma_cut_char_parts(rest, '\t');
    let (relationship, last) = text::cut_char(rest, '\t')->0;
    assert(text::fields(row, '\t', 3) =~= seq![scope, relationship, last]);
    let n = "provenance="@.len() as int;
    assert(last =~= "provenance="@ + last.skip(n));
    assert(presentation::card_row(presentation::row_card(row)->Ok_0) =~= row);
}

proof fn lemma_cards_give_rows_back(rows: Seq<Seq<char>>)
    requires
        presentation::row_cards(rows) is Ok,
    ensures
        presentation::row_cards(rows)->Ok_0.map_values(
            |card: CardView| presentation::card_row(card),
        ) == rows,
    decreases rows.len(),
{
    let cards = presentation::row_cards(rows)->Ok_0;
    let shown = cards.map_values(|card: CardView| presentation::card_row(card));
    if rows.len() > 0 {
        let fewer = rows.drop_last();
        lemma_cards_give_rows_back(fewer);
        let rest = presentation::row_cards(fewer)->Ok_0;
        card_gives_row_back(rows.last());
        assert(shown =~= rest.map_values(|card: CardView| presentation::card_row(card)).push(
            rows.last(),
        ));
        assert(fewer.push(rows.last()) =~= rows);
    } else {
        assert(shown =~= rows);
    }
}

/// The canonical format shows the rows that were found, one below the other, and then the note
/// that more matched, where that is so.
pub proof fn canonical_format_shows_rows(rows: Seq<Seq<char>>, truncated: bool, limit: int)
    requires
        rows.len() > 0,
        presentation::row_cards(rows) is Ok,
    ensures
        presentation::rendered(rows, truncated, SearchFormat::Canonical, limit) == Ok::<
            Seq<char>,
            Seq<char>,
        >(
            text::join(rows, "\n"@) + presentation::truncation(
                ModelView { cards: seq![], truncated, limit },
            ),
        ),
{
    lemma_cards_give_rows_back(rows);
}

/// The row of a statement shows its scope, its relationship and its references, where no tab
/// stands in the scope and the relationship.
pub proof fn searched_row_has_its_parts(
    scope: Seq<char>,
    subject: ValueView,
    predicate: ValueView,
    object: ValueView,
    provenance: Seq<Seq<char>>,
)
    requires
        !scope.contains('\t'),
        !search::shown(subject).contains('\t'),
        !search::shown(predicate).contains('\t'),
        !search::shown(object).contains('\t'),
    ensures
        presentation::row_card(
            search::row_text(scope, subject, predicate, object, provenance),
        ) == Ok::<CardView, Seq<char>>(
            CardView {
                relationship: search::shown(subject) + " --"@ + search::shown(predicate) + "--> "@
                    + search::shown(object),
                scope,
                provenance: text::join(provenance, ","@),
            },
        ),
{
    reveal_strlit("\t");
    reveal_strlit("provenance=");
    reveal_strlit("\tprovenance=");
    reveal_strlit(" --");
    reveal_strlit("--> ");
    reveal_with_fuel(text::fields, 3);
    let relationship = search::shown(subject) + " --"@ + search::shown(predicate) + "--> "@
        + search::shown(object);
    let list = text::join(provenance, ","@);
    let last = "provenance="@ + list;
    let rest = relationship + seq!['\t'] + last;
    let row = search::row_text(scope, subject, predicate, object, provenance);
    assert(row =~= scope + seq!['\t'] + rest);
    assert(!relationship.contains('\t')) by {
        if relationship.contains('\t') {
            let i = choose|i: int| 0 <= i < relationship.len() && relationship[i] == '\t';
            let a = search::shown(subject).len() as int;
            let b = search::shown(predicate).len() as int;
            if i < a {
                assert(search::shown(subject)[i] == '\t');
            } else if i < a + 3 {
                assert(" --"@[i - a] == '\t');
            } else if i < a + 3 + b {
                assert(search::shown(predicate)[i - a - 3] == '\t');
            } else if i < a + 3 + b + 4 {
                assert("--> "@[i - a - 3 - b] == '\t');
            } else {
                assert(search::shown(object)[i - a - 3 - b - 4] == '\t');
            }
        }
    }
    text::lemma_cut_char(scope, '\t', rest);
    text::lemma_cut_char(relationship, '\t', last);
    assert(text::fields(row, '\t', 3) =~= seq![scope, relationship, last]);
    let n = "provenance="@.len() as int;
    assert(last.take(n) =~= "provenance="@);
    assert(last.skip(n) =~= list);
}

// ------------------------------------------------------------------- JSON
/// The value of a hexadecimal digit.
pub open spec fn hex_digit(c: char) -> int {
    if '0' <= c <= '9' {
        c as int - 48
    } else {
        c as int - 87
    }
}

/// The number that hexadecimal digits write.
pub open spec fn hex_value(s: Seq<char>) -> int
    decreases s.len(),
{
    if s.len() == 0 {
        0
    } else {
        hex_value(s.drop_last()) * 16 + hex_digit(s.last())
    }
}

/// The text that a JSON string writes.
pub open spec fn json_unescaped(s: Seq<char>) -> Seq<char>
    decreases s.len(),
{
    if s.len() == 0 {
        seq![]
    } else if s[0] != '\\' || s.len() < 2 {
        seq![s[0]] + json_unescaped(s.skip(1))
    } else if s[1] == 'n' {
        seq!['\n'] + json_unescaped(s.skip(2))
    } else if s[1] == 'r' {
        seq!['\r'] + json_unescaped(s.skip(2))
    } else if s[1] == 't' {
        seq!['\t'] + json_unescaped(s.skip(2))
    } else if s[1] == 'u' && s.len() >= 6 {
        seq![hex_value(s.subrange(2, 6)) as char] + json_unescaped(s.skip(6))
    } else {
        seq![s[1]] + json_unescaped(s.skip(2))
    }
}

proof fn lemma_hex(n: nat, width: nat)
    requires
        width <= 4,
        n < vstd::arithmetic::power::pow(16, width),
    ensures
        number::hex(n, width).len() == width,
        hex_value(number::hex(n, width)) == n,
    decreases width,
{
    reveal(vstd::arithmetic::power::pow);
    if width > 0 {
        let fewer = (width - 1) as nat;
        assert(n / 16 < vstd::arithmetic::power::pow(16, fewer)) by {
            assert(vstd::arithmetic::power::pow(16, width) == 16 * vstd::arithmetic::power::pow(
                16,
                fewer,
            ));
        }
        lemma_hex(n / 16, fewer);
        let form = number::hex(n, width);
        let digit = (n % 16) as int;
        assert(form.drop_last() =~= number::hex(n / 16, fewer));
        assert(hex_digit(number::digit_char(digit)) == digit);
    }
}

proof fn lemma_json_char(c: char, rest: Seq<char>)
    ensures
        json_unescaped(presentation::json_char(c) + rest) == seq![c] + json_unescaped(rest),
{
    let form = presentation::json_char(c);
    let s = form + rest;
    if c == '"' || c == '\\' || c == '\n' || c == '\r' || c == '\t' {
        assert(s.skip(2) =~= rest);
    } else if text::control(c) {
        let code = (c as u32) as nat;
        assert(code < vstd::arithmetic::power::pow(16, 4)) by {
            reveal_with_fuel(vstd::arithmetic::power::pow, 5);
        }
        lemma_hex(code, 4);
        assert(s.subrange(2, 6) =~= number::hex(code, 4));
        assert(s.skip(6) =~= rest);
        assert(code as char == c);
    } else {
        assert(s.skip(1) =~= rest);
    }
}

proof fn lemma_json_first(s: Seq<char>)
    requires
        s.len() > 0,
    ensures
        presentation::json_escaped(s) == presentation::json_char(s[0])
            + presentation::json_escaped(s.drop_first()),
    decreases s.len(),
{
    if s.len() == 1 {
        assert(s.drop_last() =~= seq![]);
        assert(s.drop_first() =~= seq![]);
        reveal_with_fuel(presentation::json_escaped, 2);
        assert(presentation::json_escaped(s) =~= presentation::json_char(s[0])
            + presentation::json_escaped(s.drop_first()));
    } else {
        lemma_json_first(s.drop_last());
        assert(s.drop_last().drop_first() =~= s.drop_first().drop_last());
        assert(presentation::json_escaped(s) =~= presentation::json_char(s[0])
            + presentation::json_escaped(s.drop_first()));
    }
}

/// A text reads back from its JSON string.
pub proof fn json_string_reads_back(s: Seq<char>)
    ensures
        json_unescaped(presentation::json_escaped(s)) == s,
    decreases s.len(),
{
    if s.len() > 0 {
        let rest = s.drop_first();
        lemma_json_first(s);
        json_string_reads_back(rest);
        lemma_json_char(s[0], presentation::json_escaped(rest));
        assert(seq![s[0]] + rest =~= s);
    } else {
        assert(s =~= seq![]);
    }
}

/// No control character stands in a JSON string.
pub proof fn json_string_has_no_control(s: Seq<char>, i: int)
    requires
        0 <= i < presentation::json_escaped(s).len(),
    ensures
        !text::control(presentation::json_escaped(s)[i]),
    decreases s.len(),
{
    if s.len() > 0 {
        let fewer = presentation::json_escaped(s.drop_last());
        if i < fewer.len() {
            json_string_has_no_control(s.drop_last(), i);
        } else {
            let c = s.last();
            let form = presentation::json_char(c);
            let k = i - fewer.len();
            assert(presentation::json_escaped(s)[i] == form[k]);
            if text::control(c) && c != '\n' && c != '\r' && c != '\t' && k >= 2 {
                lemma_hex_plain((c as u32) as nat, 4, k - 2);
            }
        }
    }
}

proof fn lemma_hex_plain(n: nat, width: nat, i: int)
    requires
        0 <= i < number::hex(n, width).len(),
    ensures
        !text::control(number::hex(n, width)[i]),
    decreases width,
{
    if width > 0 {
        let fewer = number::hex(n / 16, (width - 1) as nat);
        if i < fewer.len() {
            lemma_hex_plain(n / 16, (width - 1) as nat, i);
        }
    }
}

proof fn lemma_cards_joined(cards: Seq<CardView>)
    ensures
        presentation::cards_text(cards) == text::join(
            cards.map_values(|card: CardView| presentation::card_text(card)),
            seq!['\n'],
        ),
    decreases cards.len(),
{
    let shown = cards.map_values(|card: CardView| presentation::card_text(card));
    reveal_strlit("\n");
    assert("\n"@ =~= seq!['\n']);
    if cards.len() > 0 {
        let fewer = cards.drop_last();
        let less = fewer.map_values(|card: CardView| presentation::card_text(card));
        lemma_cards_joined(fewer);
        assert(shown.drop_last() =~= less);
        assert(shown.last() == presentation::card_text(cards.last()));
        if cards.len() == 1 {
            assert(presentation::cards_text(fewer) =~= seq![]);
            assert(presentation::cards_text(cards) =~= shown[0]);
        }
        assert(presentation::cards_text(cards) =~= text::join(shown, seq!['\n']));
    } else {
        assert(presentation::cards_text(cards) =~= text::join(shown, seq!['\n']));
    }
}

proof fn lemma_cards(rows: Seq<Seq<char>>, i: int)
    requires
        presentation::row_cards(rows) is Ok,
        0 <= i < rows.len(),
    ensures
        presentation::row_cards(rows)->Ok_0.len() == rows.len(),
        presentation::row_card(rows[i]) == Ok::<CardView, Seq<char>>(
            presentation::row_cards(rows)->Ok_0[i],
        ),
    decreases rows.len(),
{
    let fewer = rows.drop_last();
    let cards = presentation::row_cards(rows)->Ok_0;
    if fewer.len() > 0 {
        let k = if i < fewer.len() {
            i
        } else {
            0
        };
        lemma_cards(fewer, k);
        if i < fewer.len() {
            assert(fewer[i] == rows[i]);
            assert(cards[i] == presentation::row_cards(fewer)->Ok_0[i]);
        }
    } else {
        assert(presentation::row_cards(fewer) == Ok::<Seq<CardView>, Seq<char>>(seq![]));
    }
}

/// The text format tells how many rows were found, shows one card for each, in their order, with an
/// empty line between two, and ends with a rule and, where more matched, the note that says so.
pub proof fn text_format_shows_each_row(rows: Seq<Seq<char>>, truncated: bool, limit: int)
    requires
        rows.len() > 0,
        presentation::row_cards(rows) is Ok,
    ensures
        ({
            let cards = presentation::row_cards(rows)->Ok_0;
            &&& cards.len() == rows.len()
            &&& forall|i: int|
                0 <= i < rows.len() ==> #[trigger] presentation::row_card(rows[i]) == Ok::<
                    CardView,
                    Seq<char>,
                >(cards[i])
            &&& presentation::rendered(rows, truncated, SearchFormat::Text, limit) == Ok::<
                Seq<char>,
                Seq<char>,
            >(
                "Search results ("@ + number::decimal(rows.len()) + ")\n"@ + text::join(
                    cards.map_values(|card: CardView| presentation::card_text(card)),
                    seq!['\n'],
                ) + presentation::THICK_RULE@ + if truncated {
                    "\ntruncated: limit ("@ + number::decimal(limit as nat)
                        + " shown, more matched)"@
                } else {
                    seq![]
                },
            )
        }),
{
    let cards = presentation::row_cards(rows)->Ok_0;
    lemma_cards(rows, 0);
    assert forall|i: int| 0 <= i < rows.len() implies #[trigger] presentation::row_card(rows[i])
        == Ok::<CardView, Seq<char>>(cards[i]) by {
        lemma_cards(rows, i);
    }
    lemma_cards_joined(cards);
}

/// The references of a card: the episode and what the caller gave are told apart where the first
/// reference is an episode; other references stand as they are.
pub proof fn references_are_told_by_their_kind(
    digits: Seq<char>,
    source: Seq<char>,
    provenance: Seq<char>,
)
    requires
        digits.len() > 0,
        number::all_digits(digits),
        provenance.len() == 0 || provenance[0] != 'e',
    ensures
        ({
            let episode = seq!['e', 'p'] + digits;
            &&& presentation::reference_texts(episode) == seq!["internal episode: "@ + episode]
            &&& presentation::reference_texts(episode + seq![','] + source) == seq![
                "internal episode: "@ + episode,
                "source: "@ + source,
            ]
            &&& presentation::reference_texts(provenance) == seq![provenance]
        }),
{
    let episode = seq!['e', 'p'] + digits;
    reveal_strlit("ep");
    assert("ep"@ =~= seq!['e', 'p']);
    assert(episode.take(2) =~= "ep"@);
    assert(episode.skip(2) =~= digits);
    assert(!episode.contains(',')) by {
        if episode.contains(',') {
            let i = choose|i: int| 0 <= i < episode.len() && episode[i] == ',';
            assert(i >= 2);
            assert(text::digit(digits[i - 2]));
        }
    }
    text::lemma_cut_char(episode, ',', source);
    text::lemma_first_char_none(episode, ',');
    text::lemma_cut_char_parts(provenance, ',');
    assert("ep"@[0] == 'e');
    if text::begins(provenance, "ep"@) {
        assert(provenance.take(2)[0] == provenance[0]);
    }
    if let Some((head, tail)) = text::cut_char(provenance, ',') {
        if text::begins(head, "ep"@) {
            assert(head.take(2)[0] == head[0]);
            assert(provenance[0] == head[0]);
        }
    }
}

proof fn lemma_reference_in(references: Seq<Seq<char>>, i: int)
    requires
        0 <= i < references.len(),
    ensures
        text::contains_text(
            presentation::reference_lines(references),
            "  "@ + references[i] + "\n"@,
        ),
    decreases references.len(),
{
    let fewer = references.drop_last();
    let rest = presentation::reference_lines(fewer);
    let none = Seq::<char>::empty();
    let line = "  "@ + references.last() + "\n"@;
    let whole = presentation::reference_lines(references);
    assert(whole =~= rest + line + none);
    if i < fewer.len() {
        lemma_reference_in(fewer, i);
        assert(fewer[i] == references[i]);
        assert(whole =~= none + rest + line);
        text_laws::lemma_contained_in(none, rest, line, "  "@ + references[i] + "\n"@);
    } else {
        text_laws::lemma_contained(rest, line, none);
    }
}

/// A card shows its relationship, its scope, whose kind and name a point parts, and each of its
/// references, on lines of their own.
pub proof fn card_shows_its_parts(card: CardView, kind: Seq<char>, name: Seq<char>, i: int)
    requires
        card.scope == kind + seq![':'] + name,
        !kind.contains(':'),
        0 <= i < presentation::reference_texts(card.provenance).len(),
    ensures
        text::contains_text(
            presentation::card_text(card),
            "\nRelationship\n  "@ + card.relationship + "\n"@,
        ),
        text::contains_text(
            presentation::card_text(card),
            "\nScope\n  "@ + kind + " · "@ + name + "\n"@,
        ),
        text::contains_text(
            presentation::card_text(card),
            "  "@ + presentation::reference_texts(card.provenance)[i] + "\n"@,
        ),
{
    text::lemma_cut_char(kind, ':', name);
    let references = presentation::reference_texts(card.provenance);
    let thick = presentation::THICK_RULE@;
    let thin = presentation::THIN_RULE@;
    let shown = "\nRelationship\n  "@ + card.relationship + "\n"@;
    let scope = "\nScope\n  "@ + kind + " · "@ + name + "\n"@;
    let list = presentation::reference_lines(references);
    let none = Seq::<char>::empty();
    let whole = presentation::card_text(card);
    let last = thin + "\nProvenance\n"@;
    assert(whole =~= thick + shown + (thin + scope + last + list));
    text_laws::lemma_contained(thick, shown, thin + scope + last + list);
    assert(whole =~= thick + shown + thin + scope + (last + list));
    text_laws::lemma_contained(thick + shown + thin, scope, last + list);
    lemma_reference_in(references, i);
    assert(whole =~= thick + shown + thin + scope + last + list + none);
    text_laws::lemma_contained_in(
        thick + shown + thin + scope + last,
        list,
        none,
        "  "@ + references[i] + "\n"@,
    );
}

/// The JSON format shows one object for each row, in their order, and says whether more matched and
/// what the limit was.
pub proof fn json_format_shows_each_row(rows: Seq<Seq<char>>, truncated: bool, limit: int)
    requires
        rows.len() > 0,
        presentation::row_cards(rows) is Ok,
    ensures
        ({
            let cards = presentation::row_cards(rows)->Ok_0;
            &&& cards.len() == rows.len()
            &&& forall|i: int|
                0 <= i < rows.len() ==> #[trigger] presentation::row_card(rows[i]) == Ok::<
                    CardView,
                    Seq<char>,
                >(cards[i])
            &&& presentation::rendered(rows, truncated, SearchFormat::Json, limit) == Ok::<
                Seq<char>,
                Seq<char>,
            >(
                "{\"results\":["@ + text::join(
                    cards.map_values(|card: CardView| presentation::card_json(card)),
                    seq![','],
                ) + (if truncated {
                    "],\"truncated\":true,\"limit\":"@
                } else {
                    "],\"truncated\":false,\"limit\":"@
                }) + number::decimal(limit as nat) + seq!['}'],
            )
        }),
{
    let cards = presentation::row_cards(rows)->Ok_0;
    lemma_cards(rows, 0);
    assert forall|i: int| 0 <= i < rows.len() implies #[trigger] presentation::row_card(rows[i])
        == Ok::<CardView, Seq<char>>(cards[i]) by {
        lemma_cards(rows, i);
    }
    reveal_strlit(",");
    reveal_strlit("}");
    reveal_strlit("],\"truncated\":");
    reveal_strlit(",\"limit\":");
    reveal_strlit("true");
    reveal_strlit("false");
    reveal_strlit("],\"truncated\":true,\"limit\":");
    reveal_strlit("],\"truncated\":false,\"limit\":");
    assert(","@ =~= seq![',']);
    assert("}"@ =~= seq!['}']);
    assert("],\"truncated\":"@ + "true"@ + ",\"limit\":"@ =~= "],\"truncated\":true,\"limit\":"@);
    assert("],\"truncated\":"@ + "false"@ + ",\"limit\":"@
        =~= "],\"truncated\":false,\"limit\":"@);
    let joined = text::join(
        cards.map_values(|card: CardView| presentation::card_json(card)),
        seq![','],
    );
    let model = ModelView { cards, truncated, limit };
    assert(presentation::json_text(model) =~= "{\"results\":["@ + joined + (if truncated {
        "],\"truncated\":true,\"limit\":"@
    } else {
        "],\"truncated\":false,\"limit\":"@
    }) + number::decimal(limit as nat) + seq!['}']);
}

/// The object of a card has its relationship, its scope and each of its references, as JSON strings.
pub proof fn json_object_has_its_parts(card: CardView, i: int)
    requires
        0 <= i < presentation::reference_texts(card.provenance).len(),
    ensures
        text::contains_text(
            presentation::card_json(card),
            "\"relationship\":\""@ + presentation::json_escaped(card.relationship) + "\""@,
        ),
        text::contains_text(
            presentation::card_json(card),
            "\"scope\":\""@ + presentation::json_escaped(card.scope) + "\""@,
        ),
        text::contains_text(
            presentation::card_json(card),
            "\""@ + presentation::json_escaped(
                presentation::reference_texts(card.provenance)[i],
            ) + "\""@,
        ),
{
    let references = presentation::reference_texts(card.provenance);
    let strings = references.map_values(|r: Seq<char>| presentation::json_string(r));
    let list = text::join(strings, ","@);
    let whole = presentation::card_json(card);
    reveal_strlit("{\"relationship\":");
    reveal_strlit("\"relationship\":\"");
    reveal_strlit(",\"scope\":");
    reveal_strlit("\"scope\":\"");
    reveal_strlit("\"");
    let shown = "\"relationship\":\""@ + presentation::json_escaped(card.relationship) + "\""@;
    let scope = "\"scope\":\""@ + presentation::json_escaped(card.scope) + "\""@;
    let tail = ",\"provenance\":["@ + list + "]}"@;
    assert(whole =~= seq!['{'] + shown + (seq![','] + scope + tail));
    text_laws::lemma_contained(seq!['{'], shown, seq![','] + scope + tail);
    assert(whole =~= seq!['{'] + shown + seq![','] + scope + tail);
    text_laws::lemma_contained(seq!['{'] + shown + seq![','], scope, tail);
    assert(strings[i] == presentation::json_string(references[i]));
    row_laws::parts_stand_in_their_join(strings, ","@, i);
    let head = seq!['{'] + shown + seq![','] + scope + ",\"provenance\":["@;
    assert(whole =~= head + list + "]}"@);
    text_laws::lemma_contained_in(head, list, "]}"@, strings[i]);
}

/// Where nothing was found, every format says so.
pub proof fn no_rows_are_told(truncated: bool, limit: int)
    requires
        0 <= limit,
    ensures
        presentation::rendered(seq![], truncated, SearchFormat::Canonical, limit) == Ok::<
            Seq<char>,
            Seq<char>,
        >("(no answers)"@),
        presentation::rendered(seq![], truncated, SearchFormat::Text, limit) == Ok::<
            Seq<char>,
            Seq<char>,
        >("(no answers)"@),
        presentation::rendered(seq![], truncated, SearchFormat::Json, limit) == Ok::<
            Seq<char>,
            Seq<char>,
        >(
            "{\"results\":[],\"truncated\":false,\"limit\":"@ + number::decimal(limit as nat)
                + "}"@,
        ),
{
}

/// References whose first one is no episode stand as they are, all in one.
pub proof fn other_references_stand_as_they_are(first: Seq<char>, rest: Seq<char>, k: int)
    requires
        !first.contains(','),
        0 <= k < first.len(),
        k == 0 && first[0] != 'e' || k == 1 && first[1] != 'p' || k >= 2 && !('0' <= first[k]
            <= '9'),
    ensures
        presentation::reference_texts(first) == seq![first],
        presentation::reference_texts(first + seq![','] + rest) == seq![first + seq![','] + rest],
{
    reveal_strlit("ep");
    text::lemma_first_char_none(first, ',');
    text::lemma_cut_char(first, ',', rest);
    assert("ep"@[0] == 'e' && "ep"@[1] == 'p');
    assert(!presentation::is_episode(first)) by {
        if presentation::is_episode(first) {
            assert(first.take(2)[0] == first[0] && first.take(2)[1] == first[1]);
            if k >= 2 {
                assert(text::digit(first.skip(2)[k - 2]));
            }
        }
    }
}

} // verus!
