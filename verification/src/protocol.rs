//! The line protocol in which facts are observed: `SUBJECT --RELATION--> OBJECT`, with an
//! optional confidence, `SUBJECT --RELATION[0.8]--> OBJECT`.

use vstd::prelude::*;
use vstd::slice::slice_subrange;

use crate::number;
use crate::text;

verus! {

/// The lower case of a text, as `str::to_lowercase` returns it.
pub uninterp spec fn lowercased(s: Seq<char>) -> Seq<char>;

/// `str::to_lowercase`. The result is a function of the text alone; the mapping of each
/// character is that of Unicode and is not stated.
pub assume_specification[ str::to_lowercase ](s: &str) -> (lower: String)
    ensures
        lower@ == lowercased(s@),
;

/// Whether a character is alphanumeric, as `char::is_alphanumeric` returns it.
pub uninterp spec fn alphanumeric(c: char) -> bool;

/// `char::is_alphanumeric`. The result is a function of the character alone; which characters
/// have the Unicode properties that it asks for is not stated.
pub assume_specification[ char::is_alphanumeric ](c: char) -> (yes: bool)
    ensures
        yes == alphanumeric(c),
;

/// The confidence of a fact that gives none.
pub const DEFAULT_CONFIDENCE: &'static str = "0.9";

/// One candidate fact. The confidence is kept as it was written.
#[derive(Clone, Debug, PartialEq, Eq)]
pub struct CandidateFact {
    pub subj: String,
    pub pred: String,
    pub obj: String,
    pub confidence: String,
}

/// What a candidate says.
#[verifier::ext_equal]
pub struct CandidateView {
    pub subj: Seq<char>,
    pub pred: Seq<char>,
    pub obj: Seq<char>,
    pub confidence: Seq<char>,
}

impl View for CandidateFact {
    type V = CandidateView;

    open spec fn view(&self) -> CandidateView {
        CandidateView {
            subj: self.subj@,
            pred: self.pred@,
            obj: self.obj@,
            confidence: self.confidence@,
        }
    }
}

impl CandidateFact {
    /// Copies a candidate.
    pub fn copy(&self) -> (copy: CandidateFact)
        ensures
            copy@ == self@,
    {
        CandidateFact {
            subj: self.subj.as_str().to_owned(),
            pred: self.pred.as_str().to_owned(),
            obj: self.obj.as_str().to_owned(),
            confidence: self.confidence.as_str().to_owned(),
        }
    }
}

/// What candidates say.
pub open spec fn candidate_views(candidates: Seq<CandidateFact>) -> Seq<CandidateView> {
    candidates.map_values(|candidate: CandidateFact| candidate@)
}

// ------------------------------------------------------------------ lines
/// A text without the closing brackets that it ends with.
pub open spec fn without_brackets(s: Seq<char>) -> Seq<char>
    decreases s.len(),
{
    if s.len() > 0 && s.last() == ']' {
        without_brackets(s.drop_last())
    } else {
        s
    }
}

/// The confidence that a text writes, as it is kept; the default where it writes none.
pub open spec fn confidence_of(s: Seq<char>, default_confidence: Seq<char>) -> Seq<char> {
    let written = text::trimmed(without_brackets(s));
    if number::real_text(written) {
        number::kept_real(written)
    } else {
        default_confidence
    }
}

/// The relation and the confidence between the two arrows.
pub open spec fn relation_of(middle: Seq<char>, default_confidence: Seq<char>) -> (
    Seq<char>,
    Seq<char>,
) {
    let whole = text::trimmed(middle);
    match text::cut_last_char(whole, '[') {
        Some((name, suffix)) if suffix.len() > 0 && suffix.last() == ']' => (
            text::trimmed(name),
            confidence_of(suffix, default_confidence),
        ),
        _ => (whole, default_confidence),
    }
}

/// The candidate that a line holds, or why it holds none.
pub open spec fn line_candidate(raw: Seq<char>, default_confidence: Seq<char>) -> Result<
    CandidateView,
    Seq<char>,
> {
    match text::cut(text::trimmed(raw), "--"@) {
        None => Err("no `--rel-->` structure"@),
        Some((subject, rest)) => match text::cut(rest, "-->"@) {
            None => Err("has `--` but no `-->`"@),
            Some((middle, object)) => {
                let (relation, confidence) = relation_of(middle, default_confidence);
                if relation.len() == 0 {
                    Err("empty relation"@)
                } else {
                    Ok(
                        CandidateView {
                            subj: text::trimmed(subject),
                            pred: relation,
                            obj: text::trimmed(object),
                            confidence,
                        },
                    )
                }
            },
        },
    }
}

/// Reads the confidence in brackets.
fn parse_confidence(suffix: &[char], default_confidence: &str) -> (confidence: String)
    ensures
        confidence@ == confidence_of(suffix@, default_confidence@),
{
    let mut end: usize = suffix.len();
    assert(suffix@.take(end as int) =~= suffix@);
    while end > 0 && suffix[end - 1] == ']'
        invariant
            end <= suffix@.len(),
            without_brackets(suffix@) == without_brackets(suffix@.take(end as int)),
        decreases end,
    {
        assert(suffix@.take(end as int).drop_last() =~= suffix@.take(end as int - 1));
        end = end - 1;
    }
    let open = slice_subrange(suffix, 0, end);
    assert(open@ =~= suffix@.take(end as int));
    let written = text::trim(open);
    if number::is_real_text(written) {
        number::keep_real(written)
    } else {
        default_confidence.to_owned()
    }
}

/// Reads the relation and the confidence between the two arrows.
fn parse_relation(middle: &[char], default_confidence: &str) -> (relation: (String, String))
    ensures
        (relation.0@, relation.1@) == relation_of(middle@, default_confidence@),
{
    let whole = text::trim(middle);
    if let Some((name, suffix)) = text::split_once_last_char(whole, '[') {
        if suffix.len() > 0 && suffix[suffix.len() - 1] == ']' {
            return (
                text::string_of(text::trim(name)),
                parse_confidence(suffix, default_confidence),
            );
        }
    }
    (text::string_of(whole), default_confidence.to_owned())
}

/// What a line gave, as a view.
pub open spec fn parsed_view(parsed: Result<CandidateFact, String>) -> Result<
    CandidateView,
    Seq<char>,
> {
    match parsed {
        Ok(candidate) => Ok(candidate@),
        Err(reason) => Err(reason@),
    }
}

/// Reads one line of the protocol.
pub fn parse_line(raw: &str, default_confidence: &str) -> (parsed: Result<CandidateFact, String>)
    ensures
        parsed_view(parsed) == line_candidate(raw@, default_confidence@),
{
    let chars: Vec<char> = text::chars_of(raw);
    let arrow: Vec<char> = text::chars_of("--");
    let head: Vec<char> = text::chars_of("-->");
    let line = text::trim(chars.as_slice());
    let (subject, rest) = match text::split_once(line, arrow.as_slice()) {
        None => {
            return Err("no `--rel-->` structure".to_owned());
        },
        Some(parts) => parts,
    };
    let (middle, object) = match text::split_once(rest, head.as_slice()) {
        None => {
            return Err("has `--` but no `-->`".to_owned());
        },
        Some(parts) => parts,
    };
    let (pred, confidence) = parse_relation(middle, default_confidence);
    if pred.as_str().is_empty() {
        return Err("empty relation".to_owned());
    }
    Ok(
        CandidateFact {
            subj: text::string_of(text::trim(subject)),
            pred,
            obj: text::string_of(text::trim(object)),
            confidence,
        },
    )
}

// ----------------------------------------------------------------- tokens
/// Whether a word in lower case is a pronoun or a role, which names no entity.
pub open spec fn blocked(lower: Seq<char>) -> bool {
    ||| lower == "i"@
    ||| lower == "me"@
    ||| lower == "my"@
    ||| lower == "mine"@
    ||| lower == "speaker"@
    ||| lower == "user"@
    ||| lower == "they"@
    ||| lower == "them"@
    ||| lower == "he"@
    ||| lower == "she"@
    ||| lower == "it"@
    ||| lower == "we"@
    ||| lower == "you"@
    ||| lower == "that"@
}

/// The number of words in a text, which white space parts.
pub open spec fn words(s: Seq<char>) -> int
    decreases s.len(),
{
    if s.len() == 0 {
        0
    } else {
        words(s.drop_last()) + if !text::white(s.last()) && (s.len() == 1 || text::white(
            s[s.len() - 2],
        )) {
            1int
        } else {
            0int
        }
    }
}

/// Whether each character of a name is alphanumeric, as `lettered` says, or one of the few
/// others that a name may hold.
pub open spec fn clean(s: Seq<char>, lettered: Seq<bool>) -> bool {
    forall|i: int|
        0 <= i < s.len() ==> (lettered[i] || (#[trigger] s[i]) == '_' || s[i] == '-' || s[i]
            == '\'' || s[i] == ' ')
}

/// Which characters of a text are alphanumeric.
pub open spec fn letters(s: Seq<char>) -> Seq<bool> {
    s.map_values(|c: char| alphanumeric(c))
}

/// Why a text is no name of an entity, given its lower case and which of its characters are
/// alphanumeric.
pub open spec fn token_fault(s: Seq<char>, lower: Seq<char>, lettered: Seq<bool>) -> Option<
    Seq<char>,
> {
    if s.len() == 0 {
        Some("empty entity name"@)
    } else if blocked(lower) {
        Some("'"@ + s + "' is a pronoun or role word — resolve it to the entity's real name"@)
    } else if text::byte_len(s) > 60 || words(s) > 8 {
        Some("looks like prose (more than 8 words) — entity names are short"@)
    } else if !clean(s, lettered) {
        Some(
            "contains punctuation or prose characters — entity names use letters, digits, '_', '-', apostrophes"@,
        )
    } else {
        None
    }
}

/// Why a text is no name of an entity.
pub open spec fn name_fault(s: Seq<char>) -> Option<Seq<char>> {
    token_fault(s, lowercased(s), letters(s))
}

/// Whether a word in lower case is a pronoun or a role.
fn is_blocked(lower: &str) -> (yes: bool)
    ensures
        yes == blocked(lower@),
{
    text::same_text(lower, "i") || text::same_text(lower, "me") || text::same_text(lower, "my")
        || text::same_text(lower, "mine") || text::same_text(lower, "speaker") || text::same_text(
        lower,
        "user",
    ) || text::same_text(lower, "they") || text::same_text(lower, "them") || text::same_text(
        lower,
        "he",
    ) || text::same_text(lower, "she") || text::same_text(lower, "it") || text::same_text(
        lower,
        "we",
    ) || text::same_text(lower, "you") || text::same_text(lower, "that")
}

/// The number of words in a text.
fn count_words(s: &[char]) -> (count: usize)
    ensures
        count == words(s@),
{
    let mut count: usize = 0;
    assert(s@.take(0) =~= seq![]);
    for i in 0..s.len()
        invariant
            count == words(s@.take(i as int)),
            count <= i,
    {
        assert(s@.take(i as int + 1).drop_last() =~= s@.take(i as int));
        if !text::is_white(s[i]) && (i == 0 || text::is_white(s[i - 1])) {
            count = count + 1;
        }
    }
    assert(s@.take(s@.len() as int) =~= s@);
    count
}

/// Says why a text is no name of an entity, given its lower case and which of its characters are
/// alphanumeric.
pub fn token_problem(s: &str, lower: &str, lettered: &Vec<bool>) -> (problem: Option<String>)
    requires
        lettered@.len() == s@.len(),
    ensures
        match problem {
            Some(problem) => token_fault(s@, lower@, lettered@) == Some(problem@),
            None => token_fault(s@, lower@, lettered@) is None,
        },
{
    let chars: Vec<char> = text::chars_of(s);
    if chars.len() == 0 {
        return Some("empty entity name".to_owned());
    }
    if is_blocked(lower) {
        let mut problem: String = "'".to_owned();
        problem.append(s);
        problem.append("' is a pronoun or role word — resolve it to the entity's real name");
        return Some(problem);
    }
    if s.as_bytes().len() > 60 || count_words(chars.as_slice()) > 8 {
        return Some("looks like prose (more than 8 words) — entity names are short".to_owned());
    }
    for i in 0..chars.len()
        invariant
            chars@ == s@,
            lettered@.len() == s@.len(),
            s@.len() > 0,
            !blocked(lower@),
            !(text::byte_len(s@) > 60 || words(s@) > 8),
            forall|j: int|
                0 <= j < i ==> (lettered@[j] || (#[trigger] s@[j]) == '_' || s@[j] == '-' || s@[j]
                    == '\'' || s@[j] == ' '),
    {
        let c: char = chars[i];
        if !(lettered[i] || c == '_' || c == '-' || c == '\'' || c == ' ') {
            assert(!clean(s@, lettered@)) by {
                assert(s@[i as int] == c);
            }
            return Some(
                "contains punctuation or prose characters — entity names use letters, digits, '_', '-', apostrophes".to_owned(),
            );
        }
    }
    None
}

/// Says why a text is no name of an entity.
pub fn entity_token_problem(s: &str) -> (problem: Option<String>)
    ensures
        match problem {
            Some(problem) => name_fault(s@) == Some(problem@),
            None => name_fault(s@) is None,
        },
{
    let lower: String = s.to_lowercase();
    let chars: Vec<char> = text::chars_of(s);
    let mut lettered: Vec<bool> = Vec::new();
    for i in 0..chars.len()
        invariant
            chars@ == s@,
            lettered@ == letters(s@).take(i as int),
    {
        lettered.push(chars[i].is_alphanumeric());
        assert(letters(s@).take(i as int + 1) =~= letters(s@).take(i as int).push(
            alphanumeric(s@[i as int]),
        ));
    }
    assert(letters(s@).take(s@.len() as int) =~= letters(s@));
    token_problem(s, lower.as_str(), &lettered)
}

/// Whether a text is the name of an entity.
pub fn valid_entity_token(s: &str) -> (valid: bool)
    ensures
        valid == (name_fault(s@) is None),
{
    entity_token_problem(s).is_none()
}

// ------------------------------------------------------------------ texts
/// Whether a relation is in lower snake case.
pub open spec fn snake_case(s: Seq<char>) -> bool {
    forall|i: int|
        0 <= i < s.len() ==> (text::lower_letter(#[trigger] s[i]) || text::digit(s[i]) || s[i]
            == '_')
}

/// The candidates of some lines; a line that holds none is passed over.
pub open spec fn line_facts(lines: Seq<Seq<char>>, default_confidence: Seq<char>) -> Seq<
    CandidateView,
>
    decreases lines.len(),
{
    if lines.len() == 0 {
        seq![]
    } else {
        let facts = line_facts(lines.drop_last(), default_confidence);
        match line_candidate(lines.last(), default_confidence) {
            Ok(candidate) => facts.push(candidate),
            Err(_) => facts,
        }
    }
}

/// The candidates of a text.
pub open spec fn protocol_facts(s: Seq<char>, default_confidence: Seq<char>) -> Seq<
    CandidateView,
> {
    line_facts(text::lines(s), default_confidence)
}

/// Whether a candidate names two entities and a relation in lower snake case.
pub open spec fn strict(candidate: CandidateView) -> bool {
    &&& name_fault(candidate.subj) is None
    &&& name_fault(candidate.obj) is None
    &&& candidate.pred.len() > 0
    &&& snake_case(candidate.pred)
}

/// The strict ones of some candidates.
pub open spec fn strict_facts(candidates: Seq<CandidateView>) -> Seq<CandidateView>
    decreases candidates.len(),
{
    if candidates.len() == 0 {
        seq![]
    } else {
        let facts = strict_facts(candidates.drop_last());
        if strict(candidates.last()) {
            facts.push(candidates.last())
        } else {
            facts
        }
    }
}

/// Why a candidate is not asserted.
pub open spec fn candidate_fault(candidate: CandidateView) -> Option<Seq<char>> {
    match name_fault(candidate.subj) {
        Some(fault) => Some(fault),
        None => match name_fault(candidate.obj) {
            Some(fault) => Some(fault),
            None => if snake_case(candidate.pred) {
                None
            } else {
                Some("relation must be lower snake_case (e.g. works_at)"@)
            },
        },
    }
}

/// The candidate of a line that is to be asserted, or why there is none.
pub open spec fn line_outcome(raw: Seq<char>, default_confidence: Seq<char>) -> Result<
    CandidateView,
    Seq<char>,
> {
    match line_candidate(raw, default_confidence) {
        Err(reason) => Err(reason),
        Ok(candidate) => match candidate_fault(candidate) {
            Some(fault) => Err(fault),
            None => Ok(candidate),
        },
    }
}

/// Whether a line holds white space alone.
pub open spec fn blank(line: Seq<char>) -> bool {
    text::trimmed(line).len() == 0
}

/// The candidates of some lines that are to be asserted, and each other line that is not blank
/// with the reason why it is dropped.
pub open spec fn reported_lines(lines: Seq<Seq<char>>, default_confidence: Seq<char>) -> (
    Seq<CandidateView>,
    Seq<(Seq<char>, Seq<char>)>,
)
    decreases lines.len(),
{
    if lines.len() == 0 {
        (seq![], seq![])
    } else {
        let (facts, dropped) = reported_lines(lines.drop_last(), default_confidence);
        let line = lines.last();
        if blank(line) {
            (facts, dropped)
        } else {
            match line_outcome(line, default_confidence) {
                Ok(candidate) => (facts.push(candidate), dropped),
                Err(reason) => (facts, dropped.push((text::trimmed(line), reason))),
            }
        }
    }
}

/// The candidates of a text that are to be asserted, and what is dropped.
pub open spec fn reported(s: Seq<char>, default_confidence: Seq<char>) -> (
    Seq<CandidateView>,
    Seq<(Seq<char>, Seq<char>)>,
) {
    reported_lines(text::lines(s), default_confidence)
}

/// Whether the confidence of each of some candidates is a real number.
pub open spec fn all_rated(candidates: Seq<CandidateView>) -> bool {
    forall|i: int|
        0 <= i < candidates.len() ==> number::real_text((#[trigger] candidates[i]).confidence)
}

/// All but the last of rated candidates are rated.
pub proof fn lemma_rated(candidates: Seq<CandidateView>)
    requires
        all_rated(candidates),
        candidates.len() > 0,
    ensures
        all_rated(candidates.drop_last()),
        number::real_text(candidates.last().confidence),
{
    let fewer = candidates.drop_last();
    assert forall|i: int| 0 <= i < fewer.len() implies number::real_text(
        (#[trigger] fewer[i]).confidence,
    ) by {
        assert(fewer[i] == candidates[i]);
    }
    assert(number::real_text(candidates[candidates.len() - 1].confidence));
}

/// The candidates of a text have real confidences, where the one for a line that gives none is.
pub proof fn read_facts_are_rated(s: Seq<char>, default_confidence: Seq<char>)
    requires
        number::real_text(default_confidence),
    ensures
        all_rated(protocol_facts(s, default_confidence)),
        all_rated(reported(s, default_confidence).0),
{
    lemma_lines_rated(text::lines(s), default_confidence);
}

/// A line has a real confidence.
proof fn lemma_line_rated(raw: Seq<char>, default_confidence: Seq<char>)
    requires
        number::real_text(default_confidence),
    ensures
        line_candidate(raw, default_confidence) matches Ok(candidate) ==> number::real_text(
            candidate.confidence,
        ),
{
    if let Some((_, rest)) = text::cut(text::trimmed(raw), "--"@) {
        if let Some((middle, _)) = text::cut(rest, "-->"@) {
            if let Some((_, suffix)) = text::cut_last_char(text::trimmed(middle), '[') {
                let written = text::trimmed(without_brackets(suffix));
                if number::real_text(written) {
                    number::kept_real_is_real(written);
                }
            }
        }
    }
}

proof fn lemma_lines_rated(lines: Seq<Seq<char>>, default_confidence: Seq<char>)
    requires
        number::real_text(default_confidence),
    ensures
        all_rated(line_facts(lines, default_confidence)),
        all_rated(reported_lines(lines, default_confidence).0),
    decreases lines.len(),
{
    if lines.len() > 0 {
        lemma_lines_rated(lines.drop_last(), default_confidence);
        lemma_line_rated(lines.last(), default_confidence);
    }
}

/// Pairs of texts, as views.
pub open spec fn pair_views(pairs: Seq<(String, String)>) -> Seq<(Seq<char>, Seq<char>)> {
    pairs.map_values(|pair: (String, String)| (pair.0@, pair.1@))
}

/// Reads the candidates of a text; a line that holds none is passed over.
pub fn parse_protocol(content: &str, default_confidence: &str) -> (facts: Vec<CandidateFact>)
    ensures
        candidate_views(facts@) == protocol_facts(content@, default_confidence@),
{
    let chars: Vec<char> = text::chars_of(content);
    let lines: Vec<String> = text::split_lines(chars.as_slice());
    let ghost all = text::texts(lines@);
    let mut facts: Vec<CandidateFact> = Vec::new();
    assert(candidate_views(facts@) =~= seq![]);
    for i in 0..lines.len()
        invariant
            all == text::texts(lines@),
            candidate_views(facts@) == line_facts(all.take(i as int), default_confidence@),
    {
        assert(all.take(i as int + 1).drop_last() =~= all.take(i as int));
        if let Ok(candidate) = parse_line(lines[i].as_str(), default_confidence) {
            let ghost before = candidate_views(facts@);
            let ghost said = candidate@;
            facts.push(candidate);
            assert(candidate_views(facts@) =~= before.push(said));
        }
    }
    assert(all.take(all.len() as int) =~= all);
    facts
}

/// Whether a relation is in lower snake case.
fn is_snake_case(s: &str) -> (yes: bool)
    ensures
        yes == snake_case(s@),
{
    let chars: Vec<char> = text::chars_of(s);
    for i in 0..chars.len()
        invariant
            chars@ == s@,
            forall|j: int|
                0 <= j < i ==> (text::lower_letter(#[trigger] s@[j]) || text::digit(s@[j]) || s@[j]
                    == '_'),
    {
        let c: char = chars[i];
        if !(('a' <= c && c <= 'z') || text::is_digit(c) || c == '_') {
            assert(s@[i as int] == c);
            return false;
        }
    }
    true
}

/// Reads the candidates of a text that name two entities and a relation in lower snake case;
/// every other line is passed over.
pub fn parse_protocol_strict(content: &str, default_confidence: &str) -> (facts: Vec<
    CandidateFact,
>)
    ensures
        candidate_views(facts@) == strict_facts(protocol_facts(content@, default_confidence@)),
{
    let candidates: Vec<CandidateFact> = parse_protocol(content, default_confidence);
    let ghost all = candidate_views(candidates@);
    let mut facts: Vec<CandidateFact> = Vec::new();
    assert(candidate_views(facts@) =~= seq![]);
    for i in 0..candidates.len()
        invariant
            all == candidate_views(candidates@),
            candidate_views(facts@) == strict_facts(all.take(i as int)),
    {
        assert(all.take(i as int + 1).drop_last() =~= all.take(i as int));
        let candidate = &candidates[i];
        if valid_entity_token(candidate.subj.as_str()) && valid_entity_token(
            candidate.obj.as_str(),
        ) && !candidate.pred.as_str().is_empty() && is_snake_case(candidate.pred.as_str()) {
            let ghost before = candidate_views(facts@);
            facts.push(candidate.copy());
            assert(candidate_views(facts@) =~= before.push(all[i as int]));
        }
    }
    assert(all.take(all.len() as int) =~= all);
    facts
}

/// Reads one line, and says why it is not asserted.
fn read_outcome(raw: &str, default_confidence: &str) -> (outcome: Result<CandidateFact, String>)
    ensures
        parsed_view(outcome) == line_outcome(raw@, default_confidence@),
{
    let candidate = match parse_line(raw, default_confidence) {
        Ok(candidate) => candidate,
        Err(reason) => {
            return Err(reason);
        },
    };
    if let Some(problem) = entity_token_problem(candidate.subj.as_str()) {
        return Err(problem);
    }
    if let Some(problem) = entity_token_problem(candidate.obj.as_str()) {
        return Err(problem);
    }
    if !is_snake_case(candidate.pred.as_str()) {
        return Err("relation must be lower snake_case (e.g. works_at)".to_owned());
    }
    Ok(candidate)
}

/// Reads the candidates of a text that are to be asserted, and says of each other line that is
/// not blank why it is dropped.
pub fn parse_protocol_reported(content: &str, default_confidence: &str) -> (read: (
    Vec<CandidateFact>,
    Vec<(String, String)>,
))
    ensures
        (candidate_views(read.0@), pair_views(read.1@)) == reported(
            content@,
            default_confidence@,
        ),
{
    let chars: Vec<char> = text::chars_of(content);
    let lines: Vec<String> = text::split_lines(chars.as_slice());
    let ghost all = text::texts(lines@);
    let mut facts: Vec<CandidateFact> = Vec::new();
    let mut dropped: Vec<(String, String)> = Vec::new();
    assert(candidate_views(facts@) =~= seq![]);
    assert(pair_views(dropped@) =~= seq![]);
    for i in 0..lines.len()
        invariant
            all == text::texts(lines@),
            (candidate_views(facts@), pair_views(dropped@)) == reported_lines(
                all.take(i as int),
                default_confidence@,
            ),
    {
        assert(all.take(i as int + 1).drop_last() =~= all.take(i as int));
        let line: Vec<char> = text::chars_of(lines[i].as_str());
        let shown = text::trim(line.as_slice());
        if shown.len() > 0 {
            match read_outcome(lines[i].as_str(), default_confidence) {
                Ok(candidate) => {
                    let ghost before = candidate_views(facts@);
                    let ghost said = candidate@;
                    facts.push(candidate);
                    assert(candidate_views(facts@) =~= before.push(said));
                },
                Err(reason) => {
                    let ghost before = pair_views(dropped@);
                    let ghost said = (shown@, reason@);
                    dropped.push((text::string_of(shown), reason));
                    assert(pair_views(dropped@) =~= before.push(said));
                },
            }
        }
    }
    assert(all.take(all.len() as int) =~= all);
    (facts, dropped)
}

// ------------------------------------------------------------------- laws
/// The number of lines that are not blank.
pub open spec fn written_lines(lines: Seq<Seq<char>>) -> int
    decreases lines.len(),
{
    if lines.len() == 0 {
        0
    } else {
        written_lines(lines.drop_last()) + if blank(lines.last()) {
            0int
        } else {
            1int
        }
    }
}

/// No line is lost: each one that is not blank is asserted or dropped with a reason.
pub proof fn every_line_is_accounted_for(lines: Seq<Seq<char>>, default_confidence: Seq<char>)
    ensures
        ({
            let (facts, dropped) = reported_lines(lines, default_confidence);
            facts.len() + dropped.len() == written_lines(lines)
        }),
    decreases lines.len(),
{
    if lines.len() > 0 {
        every_line_is_accounted_for(lines.drop_last(), default_confidence);
    }
}

/// A blank line holds no candidate.
proof fn lemma_blank(line: Seq<char>, default_confidence: Seq<char>)
    requires
        blank(line),
    ensures
        line_candidate(line, default_confidence) is Err,
{
    reveal_strlit("--");
    text::lemma_first_match(text::trimmed(line), "--"@);
}

/// What is asserted of a text with a report is what is asserted of it by strict reading.
pub proof fn reported_facts_are_the_strict_ones(
    lines: Seq<Seq<char>>,
    default_confidence: Seq<char>,
)
    ensures
        reported_lines(lines, default_confidence).0 == strict_facts(
            line_facts(lines, default_confidence),
        ),
    decreases lines.len(),
{
    if lines.len() > 0 {
        let fewer = lines.drop_last();
        reported_facts_are_the_strict_ones(fewer, default_confidence);
        if blank(lines.last()) {
            lemma_blank(lines.last(), default_confidence);
        }
        if let Ok(candidate) = line_candidate(lines.last(), default_confidence) {
            let facts = line_facts(lines, default_confidence);
            assert(facts.drop_last() =~= line_facts(fewer, default_confidence));
        }
    }
}

/// Strict reading asserts nothing that lenient reading does not.
pub proof fn strict_facts_are_protocol_facts(candidates: Seq<CandidateView>, i: int)
    requires
        0 <= i < strict_facts(candidates).len(),
    ensures
        candidates.contains(strict_facts(candidates)[i]),
        strict(strict_facts(candidates)[i]),
    decreases candidates.len(),
{
    if candidates.len() > 0 {
        let fewer = candidates.drop_last();
        if i < strict_facts(fewer).len() {
            strict_facts_are_protocol_facts(fewer, i);
            let k = choose|k: int| 0 <= k < fewer.len() && fewer[k] == strict_facts(fewer)[i];
            assert(candidates[k] == strict_facts(candidates)[i]);
        } else {
            assert(candidates[candidates.len() - 1] == strict_facts(candidates)[i]);
        }
    }
}

/// What stands before an arrow and what stands after it.
proof fn lemma_arrow(middle: Seq<char>, tail: Seq<char>)
    requires
        !middle.contains('>'),
    ensures
        text::cut(middle + "-->"@ + tail, "-->"@) == Some((middle, tail)),
{
    reveal_strlit("-->");
    let s = middle + "-->"@ + tail;
    let n = middle.len() as int;
    assert(s.subrange(n, n + 3) =~= "-->"@);
    assert(text::occurs_at(s, "-->"@, n));
    text::lemma_first_match(s, "-->"@);
    let k = text::first_match(s, "-->"@)->0;
    if k < n {
        assert(s.subrange(k, k + 3)[2] == '>');
        assert(s[k + 2] == '>');
        if k + 2 < n {
            assert(middle[k + 2] == '>');
        }
    }
    assert(k == n);
    assert(s.take(n) =~= middle);
    assert(s.skip(n + 3) =~= tail);
}

/// What stands before the first two dashes and what stands after them.
proof fn lemma_dashes(subject: Seq<char>, tail: Seq<char>)
    requires
        !text::contains_text(subject, "--"@),
    ensures
        text::cut(subject + " --"@ + tail, "--"@) == Some((subject + seq![' '], tail)),
{
    reveal_strlit("--");
    reveal_strlit(" --");
    let s = subject + " --"@ + tail;
    let n = subject.len() as int + 1;
    assert(s.subrange(n, n + 2) =~= "--"@);
    assert(text::occurs_at(s, "--"@, n));
    text::lemma_first_match(s, "--"@);
    let k = text::first_match(s, "--"@)->0;
    if k < n {
        assert(s.subrange(k, k + 2)[0] == '-' && s.subrange(k, k + 2)[1] == '-');
        assert(s[k] == '-' && s[k + 1] == '-');
        assert(s[n - 1] == ' ');
        if k + 1 < n - 1 {
            assert(subject.subrange(k, k + 2) =~= "--"@);
            assert(text::occurs_at(subject, "--"@, k));
        }
    }
    assert(k == n);
    assert(s.take(n) =~= subject + seq![' ']);
    assert(s.skip(n + 2) =~= tail);
}

/// A line is read in three parts: subject, what stands between the arrows, and object.
proof fn lemma_line_parts(
    subject: Seq<char>,
    middle: Seq<char>,
    object: Seq<char>,
    default_confidence: Seq<char>,
)
    requires
        text::trim_free(subject),
        !text::contains_text(subject, "--"@),
        !middle.contains('>'),
        text::trim_free(object),
        relation_of(middle, default_confidence).0.len() > 0,
    ensures
        line_candidate(
            subject + " --"@ + middle + "--> "@ + object,
            default_confidence,
        ) == Ok::<CandidateView, Seq<char>>(
            CandidateView {
                subj: subject,
                pred: relation_of(middle, default_confidence).0,
                obj: object,
                confidence: relation_of(middle, default_confidence).1,
            },
        ),
{
    let line = subject + " --"@ + middle + "--> "@ + object;
    let none = Seq::<char>::empty();
    let space = seq![' '];
    reveal_strlit("--> ");
    reveal_strlit("-->");
    reveal_strlit(" --");
    let rest = middle + "-->"@ + (space + object);
    assert(line =~= subject + " --"@ + rest);
    text::lemma_trim(none, line, none);
    assert(none + line + none =~= line);
    lemma_dashes(subject, rest);
    lemma_arrow(middle, space + object);
    text::lemma_trim(none, subject, space);
    assert(none + subject + space =~= subject + space);
    text::lemma_trim(space, object, none);
    assert(space + object + none =~= space + object);
}

/// The line `SUBJECT --RELATION--> OBJECT` says just that, with the default confidence.
pub proof fn triple_reads_back(
    subject: Seq<char>,
    relation: Seq<char>,
    object: Seq<char>,
    default_confidence: Seq<char>,
)
    requires
        text::trim_free(subject),
        !text::contains_text(subject, "--"@),
        relation.len() > 0,
        snake_case(relation),
        text::trim_free(object),
    ensures
        line_candidate(
            subject + " --"@ + relation + "--> "@ + object,
            default_confidence,
        ) == Ok::<CandidateView, Seq<char>>(
            CandidateView {
                subj: subject,
                pred: relation,
                obj: object,
                confidence: default_confidence,
            },
        ),
{
    let none = Seq::<char>::empty();
    assert(text::trim_free(relation));
    text::lemma_trim(none, relation, none);
    assert(none + relation + none =~= relation);
    lemma_last_char_none(relation, '[');
    lemma_line_parts(subject, relation, object, default_confidence);
}

proof fn lemma_last_char_none(s: Seq<char>, c: char)
    requires
        !s.contains(c),
    ensures
        text::last_char(s, c) is None,
    decreases s.len(),
{
    if s.len() > 0 {
        assert(s.contains(s.last()));
        let fewer = s.drop_last();
        if fewer.contains(c) {
            let i = choose|i: int| 0 <= i < fewer.len() && fewer[i] == c;
            assert(s[i] == c);
        }
        lemma_last_char_none(fewer, c);
    }
}

proof fn lemma_last_char_at(head: Seq<char>, c: char, tail: Seq<char>)
    requires
        !tail.contains(c),
    ensures
        text::last_char(head + seq![c] + tail, c) == Some(head.len() as int),
    decreases tail.len(),
{
    let s = head + seq![c] + tail;
    if tail.len() > 0 {
        assert(tail.contains(tail.last()));
        let fewer = tail.drop_last();
        if fewer.contains(c) {
            let i = choose|i: int| 0 <= i < fewer.len() && fewer[i] == c;
            assert(tail[i] == c);
        }
        lemma_last_char_at(head, c, fewer);
        assert(s.drop_last() =~= head + seq![c] + fewer);
    }
}

/// The line `SUBJECT --RELATION[CONFIDENCE]--> OBJECT` says just that; the confidence is kept in its
/// shortest form.
pub proof fn rated_triple_reads_back(
    subject: Seq<char>,
    relation: Seq<char>,
    confidence: Seq<char>,
    object: Seq<char>,
    default_confidence: Seq<char>,
)
    requires
        text::trim_free(subject),
        !text::contains_text(subject, "--"@),
        relation.len() > 0,
        snake_case(relation),
        number::real_text(confidence),
        text::trim_free(object),
    ensures
        line_candidate(
            subject + " --"@ + relation + "["@ + confidence + "]--> "@ + object,
            default_confidence,
        ) == Ok::<CandidateView, Seq<char>>(
            CandidateView {
                subj: subject,
                pred: relation,
                obj: object,
                confidence: number::kept_real(confidence),
            },
        ),
{
    reveal_strlit("[");
    reveal_strlit("]--> ");
    reveal_strlit("--> ");
    let none = Seq::<char>::empty();
    let suffix = confidence + seq![']'];
    let middle = relation + seq!['['] + suffix;
    assert(subject + " --"@ + relation + "["@ + confidence + "]--> "@ + object =~= subject + " --"@
        + middle + "--> "@ + object);
    number::real_text_is_plain(confidence);
    assert(confidence.len() > 0);
    assert(number::plain_char(confidence[0]) && number::plain_char(confidence.last()));
    assert(text::trim_free(relation));
    assert(text::trim_free(middle));
    text::lemma_trim(none, relation, none);
    text::lemma_trim(none, middle, none);
    text::lemma_trim(none, confidence, none);
    assert(none + relation + none =~= relation);
    assert(none + middle + none =~= middle);
    assert(none + confidence + none =~= confidence);
    assert(!suffix.contains('[')) by {
        if suffix.contains('[') {
            let i = choose|i: int| 0 <= i < suffix.len() && suffix[i] == '[';
            assert(number::plain_char(confidence[i]));
        }
    }
    lemma_last_char_at(relation, '[', suffix);
    assert(middle.take(relation.len() as int) =~= relation);
    assert(middle.skip(relation.len() as int + 1) =~= suffix);
    assert(suffix.drop_last() =~= confidence);
    reveal_with_fuel(without_brackets, 2);
    assert(!middle.contains('>')) by {
        if middle.contains('>') {
            let i = choose|i: int| 0 <= i < middle.len() && middle[i] == '>';
            if i < relation.len() {
                assert(relation[i] == '>');
            } else if relation.len() < i < relation.len() + 1 + confidence.len() {
                assert(number::plain_char(confidence[i - relation.len() - 1]));
            }
        }
    }
    lemma_line_parts(subject, middle, object, default_confidence);
}

} // verus!
