//! Atoms, rules and programs as they are written.
//!
//! An atom is a predicate and its terms, `current("alice", works_at, O)`. A word in quotation
//! marks is a symbol, a number is an integer, a word that begins with a capital letter or an
//! underscore is a variable, and any other word is a symbol. A rule is an atom, `:-`, and atoms
//! and comparisons with commas between them, which must all hold. A program is a row of facts
//! and rules, each with a point behind it; what follows `#` on a line is a comment.

use vstd::prelude::*;
use vstd::slice::slice_subrange;

use crate::engine;
use crate::engine::{Term, TermView};
use crate::number;
use crate::store_laws;
use crate::text;

verus! {

// ---------------------------------------------------------------- meaning
/// The pieces of a text from an index on, which a separator parts that stands in no brackets and in no
/// quotation marks. The piece that was begun begins at `start`.
pub open spec fn parts_from(
    s: Seq<char>,
    i: int,
    start: int,
    depth: int,
    quoted: bool,
    separator: char,
) -> Seq<Seq<char>>
    decreases s.len() - i,
{
    if i < 0 || i >= s.len() {
        seq![s.subrange(start, s.len() as int)]
    } else if s[i] == '"' {
        parts_from(s, i + 1, start, depth, !quoted, separator)
    } else if quoted {
        parts_from(s, i + 1, start, depth, true, separator)
    } else if s[i] == '(' {
        parts_from(s, i + 1, start, depth + 1, false, separator)
    } else if s[i] == ')' {
        parts_from(s, i + 1, start, depth - 1, false, separator)
    } else if s[i] == separator && depth == 0 {
        seq![s.subrange(start, i)] + parts_from(s, i + 1, i + 1, 0, false, separator)
    } else {
        parts_from(s, i + 1, start, depth, false, separator)
    }
}

/// The pieces of a text, which commas part; a blank text has none.
pub open spec fn parts_of(s: Seq<char>) -> Seq<Seq<char>> {
    if text::trimmed(s).len() == 0 {
        seq![]
    } else {
        parts_from(s, 0, 0, 0, false, ',')
    }
}

/// Whether a character can stand in a word without quotation marks.
pub open spec fn word_char(c: char) -> bool {
    !text::white(c) && c != '"' && c != '(' && c != ')' && c != ','
}

/// Whether a text is a word.
pub open spec fn is_word(s: Seq<char>) -> bool {
    s.len() > 0 && forall|i: int| 0 <= i < s.len() ==> word_char(#[trigger] s[i])
}

/// The term that a text writes.
pub open spec fn read_term(raw: Seq<char>) -> Option<TermView> {
    let s = text::trimmed(raw);
    if s.len() >= 2 && s[0] == '"' && s.last() == '"' && !s.subrange(1, s.len() - 1).contains(
        '"',
    ) {
        Some(TermView::Sym(s.subrange(1, s.len() - 1)))
    } else if !is_word(s) {
        None
    } else {
        match number::read_i64(s) {
            Some(i) => Some(TermView::Int(i)),
            None => if text::upper_letter(s[0]) || s[0] == '_' {
                Some(TermView::Var(s))
            } else {
                Some(TermView::Sym(s))
            },
        }
    }
}

/// The terms that texts write, where each writes one.
pub open spec fn read_terms(parts: Seq<Seq<char>>) -> Option<Seq<TermView>>
    decreases parts.len(),
{
    if parts.len() == 0 {
        Some(seq![])
    } else {
        match (read_terms(parts.drop_last()), read_term(parts.last())) {
            (Some(terms), Some(term)) => Some(terms.push(term)),
            _ => None,
        }
    }
}

/// A predicate and its terms.
#[verifier::ext_equal]
pub struct AtomView {
    pub pred: Seq<char>,
    pub args: Seq<TermView>,
}

/// The atom that a text writes.
pub open spec fn read_atom(raw: Seq<char>) -> Option<AtomView> {
    let s = text::trimmed(raw);
    match text::cut_char(s, '(') {
        None => None,
        Some((name, rest)) => {
            let pred = text::trimmed(name);
            if !is_word(pred) || rest.len() == 0 || rest.last() != ')' {
                None
            } else {
                match read_terms(parts_of(rest.drop_last())) {
                    None => None,
                    Some(args) => Some(AtomView { pred, args }),
                }
            }
        },
    }
}

/// How two terms are compared.
#[derive(Clone, Copy, Debug, PartialEq, Eq, Structural)]
pub enum Comparison {
    AtMost,
    AtLeast,
    Differs,
    Below,
    Above,
    Equals,
}

/// A comparison of two terms.
#[verifier::ext_equal]
pub struct GuardView {
    pub left: TermView,
    pub comparison: Comparison,
    pub right: TermView,
}

/// The comparison that a text writes with a sign.
pub open spec fn guard_with(
    s: Seq<char>,
    sign: Seq<char>,
    comparison: Comparison,
) -> Option<GuardView> {
    match text::cut(s, sign) {
        None => None,
        Some((left, right)) => match (read_term(left), read_term(right)) {
            (Some(left), Some(right)) => Some(GuardView { left, comparison, right }),
            _ => None,
        },
    }
}

/// The first of two comparisons that is there.
pub open spec fn first_guard(a: Option<GuardView>, b: Option<GuardView>) -> Option<GuardView> {
    if a is Some {
        a
    } else {
        b
    }
}

/// The comparison that a text writes.
pub open spec fn read_guard(s: Seq<char>) -> Option<GuardView> {
    first_guard(
        guard_with(s, "=<"@, Comparison::AtMost),
        first_guard(
            guard_with(s, ">="@, Comparison::AtLeast),
            first_guard(
                guard_with(s, "!="@, Comparison::Differs),
                first_guard(
                    guard_with(s, "<"@, Comparison::Below),
                    first_guard(
                        guard_with(s, ">"@, Comparison::Above),
                        guard_with(s, "="@, Comparison::Equals),
                    ),
                ),
            ),
        ),
    )
}

/// The atoms and the comparisons that texts write, where each writes one.
pub open spec fn read_literals(parts: Seq<Seq<char>>) -> Option<
    (Seq<AtomView>, Seq<GuardView>),
>
    decreases parts.len(),
{
    if parts.len() == 0 {
        Some((seq![], seq![]))
    } else {
        match read_literals(parts.drop_last()) {
            None => None,
            Some((atoms, guards)) => match read_atom(parts.last()) {
                Some(atom) => Some((atoms.push(atom), guards)),
                None => match read_guard(parts.last()) {
                    Some(guard) => Some((atoms, guards.push(guard))),
                    None => None,
                },
            },
        }
    }
}

/// A rule: the head holds where all atoms and comparisons of the body do. A fact is a rule
/// without a body.
#[verifier::ext_equal]
pub struct RuleView {
    pub head: AtomView,
    pub body: Seq<AtomView>,
    pub guards: Seq<GuardView>,
}

/// Whether a variable stands in one of some atoms.
pub open spec fn occurs(atoms: Seq<AtomView>, name: Seq<char>) -> bool {
    exists|i: int| 0 <= i < atoms.len() && (#[trigger] atoms[i]).args.contains(TermView::Var(name))
}

/// Whether a term is a constant, or a variable with a name that stands in one of some atoms.
pub open spec fn covered(atoms: Seq<AtomView>, term: TermView) -> bool {
    term matches TermView::Var(name) ==> name != "_"@ && occurs(atoms, name)
}

/// Whether all of some terms are covered.
pub open spec fn all_covered(atoms: Seq<AtomView>, terms: Seq<TermView>) -> bool {
    forall|i: int| 0 <= i < terms.len() ==> covered(atoms, #[trigger] terms[i])
}

/// Whether both terms of each comparison are covered.
pub open spec fn guards_covered(atoms: Seq<AtomView>, guards: Seq<GuardView>) -> bool {
    forall|i: int|
        0 <= i < guards.len() ==> covered(atoms, (#[trigger] guards[i]).left) && covered(
            atoms,
            guards[i].right,
        )
}

impl RuleView {
    /// Whether the clause is a fact.
    pub open spec fn is_fact(self) -> bool {
        self.body.len() == 0 && self.guards.len() == 0
    }

    /// Whether the atoms of the body give a value to each variable of the head and of the
    /// comparisons.
    pub open spec fn safe(self) -> bool {
        all_covered(self.body, self.head.args) && guards_covered(self.body, self.guards)
    }
}

/// The fact or the rule that a text writes, without the point behind it.
pub open spec fn read_clause(s: Seq<char>) -> Option<RuleView> {
    let rule = match text::cut(s, ":-"@) {
        None => match read_atom(s) {
            Some(head) => Some(RuleView { head, body: seq![], guards: seq![] }),
            None => None,
        },
        Some((head, body)) => match (read_atom(head), read_literals(parts_of(body))) {
            (Some(head), Some((atoms, guards))) => if parts_of(body).len() > 0 {
                Some(RuleView { head, body: atoms, guards })
            } else {
                None
            },
            _ => None,
        },
    };
    match rule {
        Some(rule) => if rule.safe() {
            Some(rule)
        } else {
            None
        },
        None => None,
    }
}

/// The clauses that texts write, where each writes one.
pub open spec fn read_clauses(parts: Seq<Seq<char>>) -> Option<Seq<RuleView>>
    decreases parts.len(),
{
    if parts.len() == 0 {
        Some(seq![])
    } else {
        match (read_clauses(parts.drop_last()), read_clause(parts.last())) {
            (Some(clauses), Some(clause)) => Some(clauses.push(clause)),
            _ => None,
        }
    }
}

/// A text from an index on without its comments.
pub open spec fn uncommented(s: Seq<char>, i: int, quoted: bool, comment: bool) -> Seq<char>
    decreases s.len() - i,
{
    if i < 0 || i >= s.len() {
        seq![]
    } else if s[i] == '\n' {
        seq!['\n'] + uncommented(s, i + 1, quoted, false)
    } else if comment {
        uncommented(s, i + 1, quoted, true)
    } else if s[i] == '#' && !quoted {
        uncommented(s, i + 1, false, true)
    } else {
        seq![s[i]] + uncommented(s, i + 1, quoted != (s[i] == '"'), false)
    }
}

/// The clauses of a program, where it can be read.
pub open spec fn read_program(s: Seq<char>) -> Option<Seq<RuleView>> {
    let parts = parts_from(uncommented(s, 0, false, false), 0, 0, 0, false, '.');
    if text::trimmed(parts.last()).len() > 0 {
        None
    } else {
        read_clauses(parts.drop_last())
    }
}

/// A text without the point that ends it, white space aside.
pub open spec fn without_point(s: Seq<char>) -> Seq<char> {
    let whole = text::trimmed_end(s);
    if whole.len() > 0 && whole.last() == '.' {
        whole.drop_last()
    } else {
        whole
    }
}

/// How a text that cannot be read is told.
pub open spec fn unreadable(s: Seq<char>) -> Seq<char> {
    "cannot parse "@ + text::quoted(s)
}

/// The atom that a goal writes.
pub open spec fn read_goal(goal: Seq<char>) -> Option<AtomView> {
    read_atom(without_point(goal))
}

/// A predicate and its terms.
#[derive(Clone, Debug, PartialEq, Eq)]
pub struct Atom {
    pub pred: String,
    pub args: Vec<Term>,
}

impl View for Atom {
    type V = AtomView;

    open spec fn view(&self) -> AtomView {
        AtomView { pred: self.pred@, args: engine::term_views(self.args@) }
    }
}

/// Atoms, as views.
pub open spec fn atom_views(atoms: Seq<Atom>) -> Seq<AtomView> {
    atoms.map_values(|atom: Atom| atom@)
}

/// A comparison of two terms.
#[derive(Clone, Debug, PartialEq, Eq)]
pub struct Guard {
    pub left: Term,
    pub comparison: Comparison,
    pub right: Term,
}

impl View for Guard {
    type V = GuardView;

    open spec fn view(&self) -> GuardView {
        GuardView { left: self.left@, comparison: self.comparison, right: self.right@ }
    }
}

/// Comparisons, as views.
pub open spec fn guard_views(guards: Seq<Guard>) -> Seq<GuardView> {
    guards.map_values(|guard: Guard| guard@)
}

/// A rule.
#[derive(Clone, Debug, PartialEq, Eq)]
pub struct Rule {
    pub head: Atom,
    pub body: Vec<Atom>,
    pub guards: Vec<Guard>,
}

impl View for Rule {
    type V = RuleView;

    open spec fn view(&self) -> RuleView {
        RuleView {
            head: self.head@,
            body: atom_views(self.body@),
            guards: guard_views(self.guards@),
        }
    }
}

/// Rules, as views.
pub open spec fn rule_views(rules: Seq<Rule>) -> Seq<RuleView> {
    rules.map_values(|rule: Rule| rule@)
}

// -------------------------------------------------------------- functions
/// Cuts a text at the separators that stand in no brackets and in no quotation marks.
fn split_at(s: &[char], separator: char) -> (parts: Vec<String>)
    ensures
        text::texts(parts@) == parts_from(s@, 0, 0, 0, false, separator),
        parts@.len() > 0,
{
    let mut parts: Vec<String> = Vec::new();
    assert(text::texts(parts@) =~= seq![]);
    let end: usize = s.len();
    let mut i: usize = 0;
    let mut start: usize = 0;
    let mut depth: i128 = 0;
    let mut quoted: bool = false;
    assert(text::texts(parts@) + parts_from(s@, 0, 0, 0, false, separator)
        =~= parts_from(s@, 0, 0, 0, false, separator));
    while i < end
        invariant
            end == s@.len(),
            start <= i <= end,
            -i <= depth <= i,
            text::texts(parts@) + parts_from(
                s@,
                i as int,
                start as int,
                depth as int,
                quoted,
                separator,
            ) == parts_from(s@, 0, 0, 0, false, separator),
        decreases end - i,
    {
        let c: char = s[i];
        if c == '"' {
            quoted = !quoted;
        } else if quoted {
        } else if c == '(' {
            depth = depth + 1;
        } else if c == ')' {
            depth = depth - 1;
        } else if c == separator && depth == 0 {
            let ghost before = text::texts(parts@);
            let piece = slice_subrange(s, start, i);
            parts.push(text::string_of(piece));
            proof {
                let rest = parts_from(s@, i as int + 1, i as int + 1, 0, false, separator);
                assert(text::texts(parts@) =~= before.push(piece@));
                assert(before + (seq![piece@] + rest) =~= before.push(piece@) + rest);
            }
            start = i + 1;
        }
        i = i + 1;
    }
    let ghost before = text::texts(parts@);
    let piece = slice_subrange(s, start, end);
    parts.push(text::string_of(piece));
    proof {
        assert(text::texts(parts@) =~= before.push(piece@));
        assert(before + seq![piece@] =~= before.push(piece@));
    }
    parts
}

/// Cuts a text at the commas.
fn split_parts(s: &[char]) -> (parts: Vec<String>)
    ensures
        text::texts(parts@) == parts_of(s@),
{
    if text::trim(s).len() == 0 {
        let parts: Vec<String> = Vec::new();
        assert(text::texts(parts@) =~= seq![]);
        return parts;
    }
    split_at(s, ',')
}

/// Whether a text is a word.
fn check_word(s: &[char]) -> (yes: bool)
    ensures
        yes == is_word(s@),
{
    for i in 0..s.len()
        invariant
            forall|j: int| 0 <= j < i ==> word_char(#[trigger] s@[j]),
    {
        let c: char = s[i];
        if text::is_white(c) || c == '"' || c == '(' || c == ')' || c == ',' {
            assert(!word_char(s@[i as int]));
            return false;
        }
    }
    s.len() > 0
}

/// A term that may be missing, as a view.
pub open spec fn term_view(term: Option<Term>) -> Option<TermView> {
    match term {
        Some(term) => Some(term@),
        None => None,
    }
}

/// Reads a term.
fn parse_term(raw: &str) -> (term: Option<Term>)
    ensures
        term_view(term) == read_term(raw@),
{
    let chars: Vec<char> = text::chars_of(raw);
    let s = text::trim(chars.as_slice());
    let end: usize = s.len();
    if end >= 2 && s[0] == '"' && s[end - 1] == '"' {
        let inner = slice_subrange(s, 1, end - 1);
        if !text::has_char(inner, '"') {
            return Some(Term::Sym(text::string_of(inner)));
        }
    }
    if !check_word(s) {
        return None;
    }
    match number::parse_i64(s) {
        Some(i) => Some(Term::Int(i)),
        None => {
            let first: char = s[0];
            if ('A' <= first && first <= 'Z') || first == '_' {
                Some(Term::Var(text::string_of(s)))
            } else {
                Some(Term::Sym(text::string_of(s)))
            }
        },
    }
}

/// Reads terms.
fn parse_terms(parts: &Vec<String>) -> (terms: Option<Vec<Term>>)
    ensures
        match terms {
            Some(terms) => read_terms(text::texts(parts@)) == Some(engine::term_views(terms@)),
            None => read_terms(text::texts(parts@)) is None,
        },
{
    let ghost all = text::texts(parts@);
    let mut terms: Vec<Term> = Vec::new();
    assert(engine::term_views(terms@) =~= seq![]);
    for i in 0..parts.len()
        invariant
            all == text::texts(parts@),
            read_terms(all.take(i as int)) == Some(engine::term_views(terms@)),
    {
        assert(all.take(i as int + 1).drop_last() =~= all.take(i as int));
        match parse_term(parts[i].as_str()) {
            None => {
                proof {
                    lemma_terms_missing(all, i as int + 1);
                }
                return None;
            },
            Some(term) => {
                let ghost before = engine::term_views(terms@);
                let ghost said = term@;
                terms.push(term);
                assert(engine::term_views(terms@) =~= before.push(said));
            },
        }
    }
    assert(all.take(all.len() as int) =~= all);
    Some(terms)
}

proof fn lemma_terms_missing(parts: Seq<Seq<char>>, n: int)
    requires
        0 <= n <= parts.len(),
        read_terms(parts.take(n)) is None,
    ensures
        read_terms(parts) is None,
    decreases parts.len(),
{
    if n == parts.len() {
        assert(parts.take(n) =~= parts);
    } else {
        assert(parts.drop_last().take(n) =~= parts.take(n));
        lemma_terms_missing(parts.drop_last(), n);
    }
}

/// An atom that may be missing, as a view.
pub open spec fn atom_view(atom: Option<Atom>) -> Option<AtomView> {
    match atom {
        Some(atom) => Some(atom@),
        None => None,
    }
}

/// Reads an atom.
pub fn parse_atom(raw: &str) -> (atom: Option<Atom>)
    ensures
        atom_view(atom) == read_atom(raw@),
{
    let chars: Vec<char> = text::chars_of(raw);
    let s = text::trim(chars.as_slice());
    let (name, rest) = match text::split_once_char(s, '(') {
        None => {
            return None;
        },
        Some(cut) => cut,
    };
    let pred = text::trim(name);
    let end: usize = rest.len();
    if !check_word(pred) || end == 0 || rest[end - 1] != ')' {
        return None;
    }
    let inner = slice_subrange(rest, 0, end - 1);
    assert(inner@ =~= rest@.drop_last());
    match parse_terms(&split_parts(inner)) {
        None => None,
        Some(args) => Some(Atom { pred: text::string_of(pred), args }),
    }
}

/// A text without the point that ends it.
pub fn strip_point<'a>(s: &'a [char]) -> (rest: &'a [char])
    ensures
        rest@ == without_point(s@),
{
    let whole = text::trim_end(s);
    let end: usize = whole.len();
    if end > 0 && whole[end - 1] == '.' {
        let rest = slice_subrange(whole, 0, end - 1);
        assert(rest@ =~= whole@.drop_last());
        rest
    } else {
        whole
    }
}

/// Reads a goal.
pub fn parse_goal(goal: &str) -> (atom: Option<Atom>)
    ensures
        atom_view(atom) == read_goal(goal@),
{
    let chars: Vec<char> = text::chars_of(goal);
    let bare: String = text::string_of(strip_point(chars.as_slice()));
    parse_atom(bare.as_str())
}

/// Tells a text that cannot be read.
pub fn tell_unreadable(s: &str) -> (told: String)
    ensures
        told@ == unreadable(s@),
{
    let mut told: String = "cannot parse ".to_owned();
    told.append(text::quote(s).as_str());
    told
}

proof fn lemma_word_plain(s: Seq<char>)
    requires
        is_word(s),
    ensures
        store_laws::plain(s),
{
    if s.contains('\t') {
        let i = choose|i: int| 0 <= i < s.len() && s[i] == '\t';
        assert(word_char(s[i]));
    }
    if s.contains('\n') {
        let i = choose|i: int| 0 <= i < s.len() && s[i] == '\n';
        assert(word_char(s[i]));
    }
}

proof fn lemma_clauses_plain(parts: Seq<Seq<char>>)
    ensures
        read_clauses(parts) matches Some(clauses) ==> forall|i: int|
            0 <= i < clauses.len() ==> store_laws::plain((#[trigger] clauses[i]).head.pred)
                && clauses[i].safe(),
    decreases parts.len(),
{
    if parts.len() > 0 {
        lemma_clauses_plain(parts.drop_last());
        if let Some(rule) = read_clause(parts.last()) {
            assert(is_word(rule.head.pred));
            lemma_word_plain(rule.head.pred);
        }
    }
}

/// The clauses of a program have predicates that can be written, and are safe.
pub proof fn program_is_plain(s: Seq<char>)
    ensures
        read_program(s) matches Some(clauses) ==> forall|i: int|
            0 <= i < clauses.len() ==> store_laws::plain((#[trigger] clauses[i]).head.pred)
                && clauses[i].safe(),
{
    lemma_clauses_plain(
        parts_from(uncommented(s, 0, false, false), 0, 0, 0, false, '.').drop_last(),
    );
}

/// Reads a comparison with a sign.
fn parse_guard_with(s: &[char], sign: &str, comparison: Comparison) -> (guard: Option<Guard>)
    ensures
        guard_view(guard) == guard_with(s@, sign@, comparison),
{
    let mark: Vec<char> = text::chars_of(sign);
    match text::split_once(s, mark.as_slice()) {
        None => None,
        Some((left, right)) => {
            let left: String = text::string_of(left);
            let right: String = text::string_of(right);
            match (parse_term(left.as_str()), parse_term(right.as_str())) {
                (Some(left), Some(right)) => Some(Guard { left, comparison, right }),
                _ => None,
            }
        },
    }
}

/// A comparison that may be missing, as a view.
pub open spec fn guard_view(guard: Option<Guard>) -> Option<GuardView> {
    match guard {
        Some(guard) => Some(guard@),
        None => None,
    }
}

/// Reads a comparison.
pub fn parse_guard(raw: &str) -> (guard: Option<Guard>)
    ensures
        guard_view(guard) == read_guard(raw@),
{
    let chars: Vec<char> = text::chars_of(raw);
    let s = chars.as_slice();
    if let Some(guard) = parse_guard_with(s, "=<", Comparison::AtMost) {
        return Some(guard);
    }
    if let Some(guard) = parse_guard_with(s, ">=", Comparison::AtLeast) {
        return Some(guard);
    }
    if let Some(guard) = parse_guard_with(s, "!=", Comparison::Differs) {
        return Some(guard);
    }
    if let Some(guard) = parse_guard_with(s, "<", Comparison::Below) {
        return Some(guard);
    }
    if let Some(guard) = parse_guard_with(s, ">", Comparison::Above) {
        return Some(guard);
    }
    parse_guard_with(s, "=", Comparison::Equals)
}

proof fn lemma_literals_missing(parts: Seq<Seq<char>>, n: int)
    requires
        0 <= n <= parts.len(),
        read_literals(parts.take(n)) is None,
    ensures
        read_literals(parts) is None,
    decreases parts.len(),
{
    if n == parts.len() {
        assert(parts.take(n) =~= parts);
    } else {
        assert(parts.drop_last().take(n) =~= parts.take(n));
        lemma_literals_missing(parts.drop_last(), n);
    }
}

/// Reads atoms and comparisons.
fn parse_literals(parts: &Vec<String>) -> (literals: Option<(Vec<Atom>, Vec<Guard>)>)
    ensures
        match literals {
            Some((atoms, guards)) => read_literals(text::texts(parts@)) == Some(
                (atom_views(atoms@), guard_views(guards@)),
            ),
            None => read_literals(text::texts(parts@)) is None,
        },
{
    let ghost all = text::texts(parts@);
    let mut atoms: Vec<Atom> = Vec::new();
    let mut guards: Vec<Guard> = Vec::new();
    assert(atom_views(atoms@) =~= seq![]);
    assert(guard_views(guards@) =~= seq![]);
    for i in 0..parts.len()
        invariant
            all == text::texts(parts@),
            read_literals(all.take(i as int)) == Some((atom_views(atoms@), guard_views(guards@))),
    {
        assert(all.take(i as int + 1).drop_last() =~= all.take(i as int));
        let ghost before = (atom_views(atoms@), guard_views(guards@));
        if let Some(atom) = parse_atom(parts[i].as_str()) {
            let ghost said = atom@;
            atoms.push(atom);
            assert(atom_views(atoms@) =~= before.0.push(said));
        } else if let Some(guard) = parse_guard(parts[i].as_str()) {
            let ghost said = guard@;
            guards.push(guard);
            assert(guard_views(guards@) =~= before.1.push(said));
        } else {
            proof {
                lemma_literals_missing(all, i as int + 1);
            }
            return None;
        }
    }
    assert(all.take(all.len() as int) =~= all);
    Some((atoms, guards))
}

/// Whether a term is covered by atoms.
fn is_covered(atoms: &Vec<Atom>, term: &Term) -> (yes: bool)
    ensures
        yes == covered(atom_views(atoms@), term@),
{
    let name: &String = match term {
        Term::Var(name) => name,
        _ => {
            return true;
        },
    };
    if text::same_text(name.as_str(), "_") {
        return false;
    }
    let ghost all = atom_views(atoms@);
    let ghost wanted = TermView::Var(name@);
    for i in 0..atoms.len()
        invariant
            all == atom_views(atoms@),
            wanted == TermView::Var(name@),
            forall|j: int| 0 <= j < i ==> !(#[trigger] all[j]).args.contains(wanted),
            term@ == wanted,
            name@ != "_"@,
    {
        let args: &Vec<Term> = &atoms[i].args;
        let ghost terms = engine::term_views(args@);
        assert(all[i as int].args == terms);
        for k in 0..args.len()
            invariant
                i < atoms@.len(),
                all == atom_views(atoms@),
                terms == engine::term_views(args@),
                all[i as int].args == terms,
                wanted == TermView::Var(name@),
                term@ == wanted,
                name@ != "_"@,
                forall|j: int| 0 <= j < k ==> #[trigger] terms[j] != wanted,
        {
            if let Term::Var(other) = &args[k] {
                if text::same_text(other.as_str(), name.as_str()) {
                    assert(terms[k as int] == wanted);
                    assert(all[i as int].args.contains(wanted));
                    return true;
                }
            }
            assert(terms[k as int] != wanted);
        }
    }
    false
}

/// Whether the atoms of the body give a value to each variable of the head and of the
/// comparisons.
fn is_safe(rule: &Rule) -> (yes: bool)
    ensures
        yes == rule@.safe(),
{
    let ghost atoms = rule@.body;
    for i in 0..rule.head.args.len()
        invariant
            atoms == rule@.body,
            forall|j: int| 0 <= j < i ==> covered(atoms, #[trigger] rule@.head.args[j]),
    {
        assert(rule@.head.args[i as int] == rule.head.args@[i as int]@);
        if !is_covered(&rule.body, &rule.head.args[i]) {
            return false;
        }
    }
    for i in 0..rule.guards.len()
        invariant
            atoms == rule@.body,
            all_covered(atoms, rule@.head.args),
            forall|j: int|
                0 <= j < i ==> covered(atoms, (#[trigger] rule@.guards[j]).left) && covered(
                    atoms,
                    rule@.guards[j].right,
                ),
    {
        assert(rule@.guards[i as int] == rule.guards@[i as int]@);
        if !is_covered(&rule.body, &rule.guards[i].left) || !is_covered(
            &rule.body,
            &rule.guards[i].right,
        ) {
            return false;
        }
    }
    true
}

/// A rule that may be missing, as a view.
pub open spec fn rule_view(rule: Option<Rule>) -> Option<RuleView> {
    match rule {
        Some(rule) => Some(rule@),
        None => None,
    }
}

/// Reads a fact or a rule, without the point behind it.
pub fn parse_clause(raw: &str) -> (rule: Option<Rule>)
    ensures
        rule_view(rule) == read_clause(raw@),
{
    let chars: Vec<char> = text::chars_of(raw);
    let arrow: Vec<char> = text::chars_of(":-");
    let rule: Option<Rule> = match text::split_once(chars.as_slice(), arrow.as_slice()) {
        None => match parse_atom(raw) {
            None => None,
            Some(head) => {
                let rule = Rule { head, body: Vec::new(), guards: Vec::new() };
                assert(rule@.body =~= seq![]);
                assert(rule@.guards =~= seq![]);
                Some(rule)
            },
        },
        Some((head, body)) => {
            let parts: Vec<String> = split_parts(body);
            let head: String = text::string_of(head);
            assert(text::texts(parts@).len() == parts@.len());
            match (parse_atom(head.as_str()), parse_literals(&parts)) {
                (Some(head), Some((body, guards))) => if parts.len() > 0 {
                    Some(Rule { head, body, guards })
                } else {
                    None
                },
                _ => None,
            }
        },
    };
    match rule {
        Some(rule) => if is_safe(&rule) {
            Some(rule)
        } else {
            None
        },
        None => None,
    }
}

proof fn lemma_clauses_missing(parts: Seq<Seq<char>>, n: int)
    requires
        0 <= n <= parts.len(),
        read_clauses(parts.take(n)) is None,
    ensures
        read_clauses(parts) is None,
    decreases parts.len(),
{
    if n == parts.len() {
        assert(parts.take(n) =~= parts);
    } else {
        assert(parts.drop_last().take(n) =~= parts.take(n));
        lemma_clauses_missing(parts.drop_last(), n);
    }
}

/// Takes the comments out of a text.
fn strip_comments(s: &[char]) -> (bare: Vec<char>)
    ensures
        bare@ == uncommented(s@, 0, false, false),
{
    let mut bare: Vec<char> = Vec::new();
    let mut quoted: bool = false;
    let mut comment: bool = false;
    assert(bare@ + uncommented(s@, 0, false, false) =~= uncommented(s@, 0, false, false));
    for i in 0..s.len()
        invariant
            bare@ + uncommented(s@, i as int, quoted, comment) == uncommented(
                s@,
                0,
                false,
                false,
            ),
    {
        let c: char = s[i];
        let ghost before = bare@;
        let ghost rest = uncommented(s@, i as int, quoted, comment);
        if c == '\n' {
            bare.push(c);
            comment = false;
        } else if comment {
        } else if c == '#' && !quoted {
            comment = true;
        } else {
            bare.push(c);
            quoted = quoted != (c == '"');
        }
        assert(bare@ + uncommented(s@, i as int + 1, quoted, comment) =~= before + rest);
    }
    assert(bare@ + Seq::<char>::empty() =~= bare@);
    bare
}

/// Reads a program.
pub fn parse_program(source: &str) -> (clauses: Option<Vec<Rule>>)
    ensures
        match clauses {
            Some(clauses) => read_program(source@) == Some(rule_views(clauses@)),
            None => read_program(source@) is None,
        },
{
    let chars: Vec<char> = text::chars_of(source);
    let bare: Vec<char> = strip_comments(chars.as_slice());
    let parts: Vec<String> = split_at(bare.as_slice(), '.');
    let ghost all = text::texts(parts@);
    let count: usize = parts.len() - 1;
    let rest: Vec<char> = text::chars_of(parts[count].as_str());
    assert(all.last() == rest@);
    if text::trim(rest.as_slice()).len() > 0 {
        return None;
    }
    let ghost written = all.drop_last();
    let mut clauses: Vec<Rule> = Vec::new();
    assert(rule_views(clauses@) =~= seq![]);
    assert(written.take(0) =~= seq![]);
    for i in 0..count
        invariant
            all == text::texts(parts@),
            count == parts@.len() - 1,
            written == all.drop_last(),
            read_program(source@) == read_clauses(written),
            read_clauses(written.take(i as int)) == Some(rule_views(clauses@)),
    {
        assert(written.take(i as int + 1).drop_last() =~= written.take(i as int));
        match parse_clause(parts[i].as_str()) {
            None => {
                proof {
                    lemma_clauses_missing(written, i as int + 1);
                }
                return None;
            },
            Some(clause) => {
                let ghost before = rule_views(clauses@);
                let ghost said = clause@;
                clauses.push(clause);
                assert(rule_views(clauses@) =~= before.push(said));
            },
        }
    }
    assert(written.take(written.len() as int) =~= written);
    Some(clauses)
}

/// Copies a term.
fn copy_term(term: &Term) -> (copy: Term)
    ensures
        copy@ == term@,
{
    match term {
        Term::Sym(name) => Term::Sym(name.as_str().to_owned()),
        Term::Int(i) => Term::Int(*i),
        Term::Var(name) => Term::Var(name.as_str().to_owned()),
    }
}

/// Copies an atom.
fn copy_atom(atom: &Atom) -> (copy: Atom)
    ensures
        copy@ == atom@,
{
    let ghost all = engine::term_views(atom.args@);
    let mut args: Vec<Term> = Vec::new();
    assert(engine::term_views(args@) =~= all.take(0));
    for i in 0..atom.args.len()
        invariant
            all == engine::term_views(atom.args@),
            engine::term_views(args@) == all.take(i as int),
    {
        let ghost before = engine::term_views(args@);
        args.push(copy_term(&atom.args[i]));
        assert(engine::term_views(args@) =~= before.push(all[i as int]));
        assert(all.take(i as int + 1) =~= all.take(i as int).push(all[i as int]));
    }
    assert(all.take(all.len() as int) =~= all);
    Atom { pred: atom.pred.as_str().to_owned(), args }
}

/// Copies a rule.
fn copy_rule(rule: &Rule) -> (copy: Rule)
    ensures
        copy@ == rule@,
{
    let ghost atoms = atom_views(rule.body@);
    let mut body: Vec<Atom> = Vec::new();
    assert(atom_views(body@) =~= atoms.take(0));
    for i in 0..rule.body.len()
        invariant
            atoms == atom_views(rule.body@),
            atom_views(body@) == atoms.take(i as int),
    {
        let ghost before = atom_views(body@);
        body.push(copy_atom(&rule.body[i]));
        assert(atom_views(body@) =~= before.push(atoms[i as int]));
        assert(atoms.take(i as int + 1) =~= atoms.take(i as int).push(atoms[i as int]));
    }
    assert(atoms.take(atoms.len() as int) =~= atoms);
    let ghost all = guard_views(rule.guards@);
    let mut guards: Vec<Guard> = Vec::new();
    assert(guard_views(guards@) =~= all.take(0));
    for i in 0..rule.guards.len()
        invariant
            all == guard_views(rule.guards@),
            guard_views(guards@) == all.take(i as int),
    {
        let ghost before = guard_views(guards@);
        let guard = Guard {
            left: copy_term(&rule.guards[i].left),
            comparison: rule.guards[i].comparison,
            right: copy_term(&rule.guards[i].right),
        };
        guards.push(guard);
        assert(guard_views(guards@) =~= before.push(all[i as int]));
        assert(all.take(i as int + 1) =~= all.take(i as int).push(all[i as int]));
    }
    assert(all.take(all.len() as int) =~= all);
    Rule { head: copy_atom(&rule.head), body, guards }
}

/// Copies rules.
pub fn copy_rules(rules: &Vec<Rule>) -> (copy: Vec<Rule>)
    ensures
        rule_views(copy@) == rule_views(rules@),
{
    let ghost all = rule_views(rules@);
    let mut copy: Vec<Rule> = Vec::new();
    assert(rule_views(copy@) =~= all.take(0));
    for i in 0..rules.len()
        invariant
            all == rule_views(rules@),
            rule_views(copy@) == all.take(i as int),
    {
        let ghost before = rule_views(copy@);
        copy.push(copy_rule(&rules[i]));
        assert(rule_views(copy@) =~= before.push(all[i as int]));
        assert(all.take(i as int + 1) =~= all.take(i as int).push(all[i as int]));
    }
    assert(all.take(all.len() as int) =~= all);
    copy
}

} // verus!
