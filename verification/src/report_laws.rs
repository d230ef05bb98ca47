//! What is read of a text of facts, what is refused, and how confidences are kept.

use vstd::prelude::*;

use crate::number;
use crate::protocol;
use crate::protocol::CandidateView;
use crate::text;
use crate::text_laws;

verus! {

/// Each line is taken by itself: one more line adds its fact behind the others, or stands behind the
/// lines that were dropped, with the reason; a blank one adds nothing.
pub proof fn lines_are_taken_one_by_one(
    lines: Seq<Seq<char>>,
    line: Seq<char>,
    default_confidence: Seq<char>,
)
    ensures
        ({
            let (facts, dropped) = protocol::reported_lines(lines, default_confidence);
            let (all, refused) = protocol::reported_lines(lines.push(line), default_confidence);
            if text_laws::all_white(line) {
                all == facts && refused == dropped
            } else {
                match protocol::line_candidate(line, default_confidence) {
                    Ok(candidate) => if protocol::strict(candidate) {
                        all == facts.push(candidate) && refused == dropped
                    } else {
                        all == facts && refused.len() == dropped.len() + 1 && refused.drop_last()
                            == dropped && refused.last().0 == text::trimmed(line)
                    },
                    Err(reason) => all == facts && refused == dropped.push(
                        (text::trimmed(line), reason),
                    ),
                }
            }
        }),
        protocol::reported_lines(seq![], default_confidence).0.len() == 0,
        protocol::reported_lines(seq![], default_confidence).1.len() == 0,
{
    let all = lines.push(line);
    assert(all.drop_last() =~= lines);
    assert(all.last() == line);
    lemma_blank(line);
    let (facts, dropped) = protocol::reported_lines(lines, default_confidence);
    let (more, refused) = protocol::reported_lines(all, default_confidence);
    if let Ok(candidate) = protocol::line_candidate(line, default_confidence) {
        assert(candidate.pred.len() > 0);
        if !protocol::blank(line) && !protocol::strict(candidate) {
            assert(refused.drop_last() =~= dropped);
        }
    }
}

proof fn lemma_blank(line: Seq<char>)
    ensures
        protocol::blank(line) <==> text_laws::all_white(line),
{
    text_laws::trimming_takes_white_space(line);
    if protocol::blank(line) {
        let (a, b) = choose|a: Seq<char>, b: Seq<char>|
            line == #[trigger] (a + text::trimmed(line) + b) && text_laws::all_white(a)
                && text_laws::all_white(b);
        assert forall|i: int| 0 <= i < line.len() implies text::white(#[trigger] line[i]) by {
            if i < a.len() {
                assert(line[i] == a[i]);
            } else {
                assert(line[i] == b[i - a.len()]);
            }
        }
    } else if text_laws::all_white(line) {
        let (a, b) = choose|a: Seq<char>, b: Seq<char>|
            line == #[trigger] (a + text::trimmed(line) + b) && text_laws::all_white(a)
                && text_laws::all_white(b);
        assert(line[a.len() as int] == text::trimmed(line)[0]);
        assert(text::white(line[a.len() as int]));
    }
}

/// Lines are read as they stand in the text.
pub proof fn text_is_read_by_lines(
    first: Seq<char>,
    rest: Seq<char>,
    default_confidence: Seq<char>,
)
    requires
        !first.contains('\n'),
        first.len() == 0 || first.last() != '\r',
    ensures
        protocol::reported(first + seq!['\n'] + rest, default_confidence)
            == protocol::reported_lines(
            seq![first] + text::lines(rest),
            default_confidence,
        ),
        protocol::protocol_facts(first + seq!['\n'] + rest, default_confidence)
            == protocol::line_facts(seq![first] + text::lines(rest), default_confidence),
{
    text_laws::lines_end_with_a_feed(first, rest);
}

/// Without strictness each line that has the form of a fact gives one, in the order of the lines.
pub proof fn lenient_reading_takes_every_fact(
    lines: Seq<Seq<char>>,
    line: Seq<char>,
    default_confidence: Seq<char>,
)
    ensures
        protocol::line_facts(lines.push(line), default_confidence) == match protocol::line_candidate(
            line,
            default_confidence,
        ) {
            Ok(candidate) => protocol::line_facts(lines, default_confidence).push(candidate),
            Err(_) => protocol::line_facts(lines, default_confidence),
        },
        protocol::line_facts(seq![], default_confidence).len() == 0,
{
    assert(lines.push(line).drop_last() =~= lines);
}

/// A line without two dashes, or without an arrow behind them, or without a relation between them, is
/// refused with that reason.
pub proof fn lines_without_form_are_refused(
    line: Seq<char>,
    subject: Seq<char>,
    rest: Seq<char>,
    default_confidence: Seq<char>,
)
    requires
        text::trim_free(line),
        !text::contains_text(line, "--"@),
        text::trim_free(subject),
        !subject.contains('-'),
        text::trim_free(rest),
        !rest.contains('>'),
    ensures
        protocol::line_candidate(line, default_confidence) == Err::<CandidateView, Seq<char>>(
            "no `--rel-->` structure"@,
        ),
        protocol::line_candidate(subject + "--"@ + rest, default_confidence) == Err::<
            CandidateView,
            Seq<char>,
        >("has `--` but no `-->`"@),
        protocol::line_candidate(subject + "-- -->"@ + rest, default_confidence) == Err::<
            CandidateView,
            Seq<char>,
        >("empty relation"@),
{
    let none = Seq::<char>::empty();
    reveal_strlit("--");
    reveal_strlit("-->");
    reveal_strlit("-- -->");
    text::lemma_trim(none, line, none);
    assert(none + line + none =~= line);
    text::lemma_first_match(line, "--"@);
    let cut = subject + "--"@ + rest;
    text::lemma_trim(none, cut, none);
    assert(none + cut + none =~= cut);
    lemma_dashes(subject, rest);
    text::lemma_first_match(rest, "-->"@);
    if text::contains_text(rest, "-->"@) {
        let i = choose|i: int| text::occurs_at(rest, "-->"@, i);
        assert(rest.subrange(i, i + 3)[2] == '>');
        assert(rest[i + 2] == '>');
        assert(rest.contains('>'));
    }
    let bare = subject + "-- -->"@ + rest;
    let tail = seq![' '] + "-->"@ + rest;
    assert(bare =~= subject + "--"@ + tail);
    text::lemma_trim(none, bare, none);
    assert(none + bare + none =~= bare);
    lemma_dashes(subject, tail);
    assert(tail.subrange(1, 4) =~= "-->"@);
    assert(text::occurs_at(tail, "-->"@, 1));
    text::lemma_first_match(tail, "-->"@);
    let k = text::first_match(tail, "-->"@)->0;
    assert(k == 1) by {
        assert(tail.subrange(k, k + 3)[0] == tail[k]);
        assert(tail[0] == ' ');
    }
    assert(tail.take(1) =~= seq![' ']);
    let space = seq![' '];
    assert(space.drop_first() =~= none);
    assert(text::trimmed_start(space) == text::trimmed_start(none));
    assert(text::trimmed(space) == none);
    assert(text::last_char(none, '[') is None);
}

proof fn lemma_dashes(subject: Seq<char>, tail: Seq<char>)
    requires
        !subject.contains('-'),
    ensures
        text::cut(subject + "--"@ + tail, "--"@) == Some((subject, tail)),
{
    reveal_strlit("--");
    let s = subject + "--"@ + tail;
    let n = subject.len() as int;
    assert(s.subrange(n, n + 2) =~= "--"@);
    assert(text::occurs_at(s, "--"@, n));
    text::lemma_first_match(s, "--"@);
    let k = text::first_match(s, "--"@)->0;
    assert(k == n) by {
        assert(s.subrange(k, k + 2)[0] == '-');
        assert(s[k] == '-');
        if k < n {
            assert(subject[k] == '-');
        }
    }
    assert(s.take(n) =~= subject);
    assert(s.skip(n + 2) =~= tail);
}

/// A candidate is asserted where its subject and its object are names and its relation is written in
/// small letters, digits and low lines; no other is.
pub proof fn strict_candidates_have_names(candidate: CandidateView)
    ensures
        protocol::strict(candidate) <==> {
            &&& protocol::name_fault(candidate.subj) is None
            &&& protocol::name_fault(candidate.obj) is None
            &&& candidate.pred.len() > 0
            &&& forall|i: int|
                0 <= i < candidate.pred.len() ==> ('a' <= #[trigger] candidate.pred[i] <= 'z' || '0'
                    <= candidate.pred[i] <= '9' || candidate.pred[i] == '_')
        },
{
    if protocol::snake_case(candidate.pred) {
        assert forall|i: int| 0 <= i < candidate.pred.len() implies ('a'
            <= #[trigger] candidate.pred[i] <= 'z' || '0' <= candidate.pred[i] <= '9'
            || candidate.pred[i] == '_') by {
            assert(text::lower_letter(candidate.pred[i]) || text::digit(candidate.pred[i])
                || candidate.pred[i] == '_');
        }
    }
}

/// A word for a speaker or a role is no name.
pub proof fn pronouns_are_no_names(s: Seq<char>, lower: Seq<char>, lettered: Seq<bool>)
    requires
        s.len() > 0,
        lower == "i"@ || lower == "me"@ || lower == "my"@ || lower == "mine"@ || lower
            == "speaker"@ || lower == "user"@ || lower == "they"@ || lower == "them"@ || lower
            == "he"@ || lower == "she"@ || lower == "it"@ || lower == "we"@ || lower == "you"@
            || lower == "that"@,
    ensures
        protocol::token_fault(s, lower, lettered) is Some,
{
}

/// A name is not empty, has no more than sixty bytes and eight words, and holds letters, digits, low
/// lines, hyphens, apostrophes and spaces alone; what is such and is no pronoun is a name.
pub proof fn names_are_short_and_plain(s: Seq<char>, lower: Seq<char>, lettered: Seq<bool>)
    requires
        s.len() == lettered.len(),
    ensures
        protocol::token_fault(s, lower, lettered) is None ==> {
            &&& 0 < s.len()
            &&& text::byte_len(s) <= 60
            &&& protocol::words(s) <= 8
            &&& forall|i: int|
                0 <= i < s.len() ==> lettered[i] || (#[trigger] s[i]) == '_' || s[i] == '-' || s[i]
                    == '\'' || s[i] == ' '
        },
        0 < s.len() && text::byte_len(s) <= 60 && protocol::words(s) <= 8 && (forall|i: int|
            0 <= i < s.len() ==> lettered[i] || (#[trigger] s[i]) == '_' || s[i] == '-' || s[i]
                == '\'' || s[i] == ' ') && lower.len() > 7 ==> protocol::token_fault(
            s,
            lower,
            lettered,
        ) is None,
        s.len() == 0 ==> protocol::token_fault(s, lower, lettered) is Some,
{
    if lower.len() > 7 {
        reveal_strlit("i");
        reveal_strlit("me");
        reveal_strlit("my");
        reveal_strlit("mine");
        reveal_strlit("speaker");
        reveal_strlit("user");
        reveal_strlit("they");
        reveal_strlit("them");
        reveal_strlit("he");
        reveal_strlit("she");
        reveal_strlit("it");
        reveal_strlit("we");
        reveal_strlit("you");
        reveal_strlit("that");
        assert(!protocol::blocked(lower));
    }
}

/// Words are what white space parts: a text without any is one word, and two texts with white space
/// between them have the words of both.
pub proof fn words_are_parted_by_white_space(a: Seq<char>, c: char, b: Seq<char>, w: Seq<char>)
    requires
        text::white(c),
        w.len() > 0,
        forall|i: int| 0 <= i < w.len() ==> !text::white(#[trigger] w[i]),
    ensures
        protocol::words(a + seq![c] + b) == protocol::words(a) + protocol::words(b),
        protocol::words(w) == 1,
        protocol::words(Seq::<char>::empty()) == 0,
{
    lemma_words(a, c, b);
    lemma_word(w);
}

proof fn lemma_words(a: Seq<char>, c: char, b: Seq<char>)
    requires
        text::white(c),
    ensures
        protocol::words(a + seq![c] + b) == protocol::words(a) + protocol::words(b),
    decreases b.len(),
{
    let all = a + seq![c] + b;
    if b.len() > 0 {
        lemma_words(a, c, b.drop_last());
        assert(all.drop_last() =~= a + seq![c] + b.drop_last());
        assert(all.last() == b.last());
        if b.len() > 1 {
            assert(all[all.len() - 2] == b[b.len() - 2]);
        } else {
            assert(all[all.len() - 2] == c);
        }
    } else {
        assert(all.drop_last() =~= a);
        assert(all.last() == c);
    }
}

proof fn lemma_word(w: Seq<char>)
    requires
        w.len() > 0,
        forall|i: int| 0 <= i < w.len() ==> !text::white(#[trigger] w[i]),
    ensures
        protocol::words(w) == 1,
    decreases w.len(),
{
    let fewer = w.drop_last();
    assert(!text::white(w[w.len() - 1]));
    if fewer.len() > 0 {
        assert forall|i: int| 0 <= i < fewer.len() implies !text::white(#[trigger] fewer[i]) by {
            assert(fewer[i] == w[i]);
        }
        lemma_word(fewer);
        assert(!text::white(w[w.len() - 2]));
    } else {
        assert(protocol::words(fewer) == 0);
    }
}

// ------------------------------------------------------------- confidences
/// The text of digits that is short is kept without the zeros that say nothing: those before the
/// whole part, and those behind the rest.
pub proof fn zeros_that_say_nothing_are_not_kept(
    before: Seq<char>,
    whole: Seq<char>,
    part: Seq<char>,
    behind: Seq<char>,
)
    requires
        forall|i: int| 0 <= i < before.len() ==> #[trigger] before[i] == '0',
        forall|i: int| 0 <= i < behind.len() ==> #[trigger] behind[i] == '0',
        number::all_digits(whole),
        number::all_digits(part),
        whole.len() > 0 && whole[0] != '0',
        part.len() > 0 && part.last() != '0',
        before.len() + whole.len() + part.len() + behind.len() < 15,
    ensures
        number::kept_real(before + whole + seq!['.'] + part + behind) == whole + seq!['.'] + part,
        number::kept_real(before + whole + seq!['.'] + behind) == whole,
        number::kept_real(before + whole) == whole,
        number::kept_real(before + seq!['0', '.'] + part + behind) == seq!['0', '.'] + part,
        number::kept_real(seq!['-'] + before + whole + seq!['.'] + part + behind) == seq!['-']
            + whole + seq!['.'] + part,
{
    let none = Seq::<char>::empty();
    let zero = seq!['0'];
    lemma_kept(before, whole, part, behind);
    lemma_kept(before, whole, none, behind);
    assert(before + whole + seq!['.'] + none + behind =~= before + whole + seq!['.'] + behind);
    lemma_kept_whole(before, whole);
    lemma_kept(before + zero, none, part, behind);
    assert(before + zero + none + seq!['.'] + part + behind =~= before + seq!['0', '.'] + part
        + behind);
    assert(zero + seq!['.'] + part =~= seq!['0', '.'] + part);
    let signed = seq!['-'] + before + whole + seq!['.'] + part + behind;
    let body = before + whole + seq!['.'] + part + behind;
    assert(signed =~= seq!['-'] + body);
    assert(signed.drop_first() =~= body);
    lemma_digit_first(before, whole);
    assert(body[0] == (before + whole)[0]);
    assert(number::without_sign(body) == body);
    assert(number::kept_real(signed) =~= seq!['-'] + number::kept_real(body));
    assert(seq!['-'] + (whole + seq!['.'] + part) =~= seq!['-'] + whole + seq!['.'] + part);
}

proof fn lemma_digit_first(before: Seq<char>, whole: Seq<char>)
    requires
        forall|i: int| 0 <= i < before.len() ==> #[trigger] before[i] == '0',
        number::all_digits(whole),
    ensures
        number::all_digits(before + whole),
        !(before + whole).contains('.'),
        before.len() + whole.len() > 0 ==> text::digit((before + whole)[0]),
{
    let all = before + whole;
    assert forall|i: int| 0 <= i < all.len() implies text::digit(#[trigger] all[i]) by {
        if i < before.len() {
            assert(all[i] == before[i]);
        } else {
            assert(text::digit(whole[i - before.len()]));
        }
    }
    if all.contains('.') {
        let i = choose|i: int| 0 <= i < all.len() && all[i] == '.';
        assert(text::digit(all[i]));
    }
}

proof fn lemma_zeros_before(before: Seq<char>, whole: Seq<char>)
    requires
        forall|i: int| 0 <= i < before.len() ==> #[trigger] before[i] == '0',
        whole.len() == 0 || whole[0] != '0',
    ensures
        number::without_zeros_start(before + whole) == whole,
    decreases before.len(),
{
    if before.len() > 0 {
        let rest = before.drop_first();
        assert forall|i: int| 0 <= i < rest.len() implies #[trigger] rest[i] == '0' by {
            assert(rest[i] == before[i + 1]);
        }
        lemma_zeros_before(rest, whole);
        assert((before + whole)[0] == before[0]);
        assert((before + whole).drop_first() =~= rest + whole);
    } else {
        assert(before + whole =~= whole);
    }
}

proof fn lemma_zeros_behind(part: Seq<char>, behind: Seq<char>)
    requires
        forall|i: int| 0 <= i < behind.len() ==> #[trigger] behind[i] == '0',
        part.len() == 0 || part.last() != '0',
    ensures
        number::without_zeros_end(part + behind) == part,
    decreases behind.len(),
{
    if behind.len() > 0 {
        let rest = behind.drop_last();
        assert(behind[behind.len() - 1] == '0');
        lemma_zeros_behind(part, rest);
        assert((part + behind).drop_last() =~= part + rest);
    } else {
        assert(part + behind =~= part);
    }
}

proof fn lemma_kept(before: Seq<char>, whole: Seq<char>, part: Seq<char>, behind: Seq<char>)
    requires
        forall|i: int| 0 <= i < before.len() ==> #[trigger] before[i] == '0',
        forall|i: int| 0 <= i < behind.len() ==> #[trigger] behind[i] == '0',
        number::all_digits(whole),
        number::all_digits(part),
        whole.len() == 0 || whole[0] != '0',
        part.len() == 0 || part.last() != '0',
        0 < before.len() + whole.len(),
        before.len() + whole.len() + part.len() + behind.len() < 15,
    ensures
        number::kept_real(before + whole + seq!['.'] + part + behind) == (if whole.len() == 0 {
            seq!['0']
        } else {
            whole
        }) + (if part.len() == 0 {
            seq![]
        } else {
            seq!['.'] + part
        }),
{
    let head = before + whole;
    let tail = part + behind;
    let body = before + whole + seq!['.'] + part + behind;
    assert(body =~= head + seq!['.'] + tail);
    lemma_digit_first(before, whole);
    assert(number::all_digits(tail)) by {
        assert forall|i: int| 0 <= i < tail.len() implies text::digit(#[trigger] tail[i]) by {
            if i < part.len() {
                assert(text::digit(part[i]));
            } else {
                assert(tail[i] == behind[i - part.len()]);
            }
        }
    }
    text::lemma_cut_char(head, '.', tail);
    assert(body[0] == head[0]);
    assert(number::without_sign(body) == body);
    lemma_zeros_before(before, whole);
    lemma_zeros_behind(part, behind);
    assert(number::mantissa(body));
    let kept = (if whole.len() == 0 {
        seq!['0']
    } else {
        whole
    }) + (if part.len() == 0 {
        seq![]
    } else {
        seq!['.'] + part
    });
    assert(Seq::<char>::empty() + kept =~= kept);
}

proof fn lemma_kept_whole(before: Seq<char>, whole: Seq<char>)
    requires
        forall|i: int| 0 <= i < before.len() ==> #[trigger] before[i] == '0',
        number::all_digits(whole),
        whole.len() > 0,
        whole[0] != '0',
        before.len() + whole.len() < 15,
    ensures
        number::kept_real(before + whole) == whole,
{
    let body = before + whole;
    lemma_digit_first(before, whole);
    text::lemma_first_char_none(body, '.');
    assert(number::without_sign(body) == body);
    lemma_zeros_before(before, whole);
    let none = Seq::<char>::empty();
    assert(number::without_zeros_end(none) == none);
    assert(none + (whole + none) =~= whole);
}

/// The confidence of a relation is the number in the brackets behind it, where that is one, and else
/// the default.
pub proof fn other_confidences_are_the_default(
    relation: Seq<char>,
    word: Seq<char>,
    default_confidence: Seq<char>,
)
    requires
        text::trim_free(relation),
        !relation.contains('['),
        text::trim_free(word),
        !word.contains('['),
        !word.contains(']'),
        !number::real_text(word),
    ensures
        protocol::relation_of(relation + seq!['['] + word + seq![']'], default_confidence) == (
            relation,
            default_confidence,
        ),
        protocol::relation_of(relation + seq!['[', ']'], default_confidence) == (
            relation,
            default_confidence,
        ),
        protocol::relation_of(relation, default_confidence) == (relation, default_confidence),
{
    let none = Seq::<char>::empty();
    lemma_not_rated(relation, word, default_confidence);
    assert(!number::real_text(none));
    lemma_not_rated(relation, none, default_confidence);
    assert(relation + seq!['['] + none + seq![']'] =~= relation + seq!['[', ']']);
    text::lemma_trim(none, relation, none);
    assert(none + relation + none =~= relation);
    text_laws::text_is_cut_at_the_last_place(relation, '[');
    if let Some((head, _)) = text::cut_last_char(relation, '[') {
        assert(relation[head.len() as int] == '[');
    }
}

proof fn lemma_not_rated(relation: Seq<char>, word: Seq<char>, default_confidence: Seq<char>)
    requires
        text::trim_free(relation),
        !relation.contains('['),
        word.len() == 0 || text::trim_free(word),
        !word.contains('['),
        !word.contains(']'),
        !number::real_text(word),
    ensures
        protocol::relation_of(relation + seq!['['] + word + seq![']'], default_confidence) == (
            relation,
            default_confidence,
        ),
{
    let none = Seq::<char>::empty();
    let whole = relation + seq!['['] + word + seq![']'];
    let suffix = word + seq![']'];
    assert(whole =~= relation + seq!['['] + suffix);
    text::lemma_trim(none, whole, none);
    assert(none + whole + none =~= whole);
    text::lemma_trim(none, relation, none);
    assert(none + relation + none =~= relation);
    text_laws::text_is_cut_at_the_last_place(whole, '[');
    let (name, rest) = text::cut_last_char(whole, '[')->0;
    assert(whole[relation.len() as int] == '[');
    assert(whole.contains('['));
    assert(!suffix.contains('[')) by {
        if suffix.contains('[') {
            let i = choose|i: int| 0 <= i < suffix.len() && suffix[i] == '[';
            assert(word[i] == '[');
        }
    }
    assert(name.len() == relation.len()) by {
        assert(whole[name.len() as int] == '[');
        if name.len() < relation.len() {
            assert(rest[relation.len() - name.len() - 1] == '[');
        } else if name.len() > relation.len() {
            assert(suffix[name.len() - relation.len() - 1] == '[');
        }
    }
    let n = relation.len() as int;
    assert(name =~= whole.take(n) && relation =~= whole.take(n));
    assert(rest =~= whole.skip(n + 1) && suffix =~= whole.skip(n + 1));
    assert(suffix.drop_last() =~= word);
    assert(word.len() > 0 ==> word.last() != ']') by {
        if word.len() > 0 && word.last() == ']' {
            assert(word.contains(word.last()));
        }
    }
    reveal_with_fuel(protocol::without_brackets, 2);
    if word.len() > 0 {
        text::lemma_trim(none, word, none);
        assert(none + word + none =~= word);
    } else {
        assert(word =~= none);
        assert(text::trimmed(none) == none);
    }
}

} // verus!
