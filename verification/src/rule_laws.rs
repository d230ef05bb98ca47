//! What the rules that are written mean.

use vstd::prelude::*;

use crate::clause;
use crate::clause::{AtomView, GuardView, RuleView};
use crate::engine::TermView;
use crate::grammar_laws;
use crate::text;

verus! {

/// What the body of a rule is made of: an atom, or a comparison.
pub enum Literal {
    Atom(AtomView),
    Guard(GuardView),
}

/// A part of a body as it is written.
pub open spec fn literal_written(literal: Literal) -> Seq<char> {
    match literal {
        Literal::Atom(atom) => grammar_laws::atom_written(atom),
        Literal::Guard(guard) => grammar_laws::guard_written(guard),
    }
}

/// Whether an atom can be written.
pub open spec fn atom_can_be_written(atom: AtomView) -> bool {
    grammar_laws::bare(atom.pred) && forall|i: int|
        0 <= i < atom.args.len() ==> grammar_laws::can_be_written(#[trigger] atom.args[i])
}

/// Whether a part of a body can be written. The terms of a comparison hold no character of a sign and
/// no bracket.
pub open spec fn literal_can_be_written(literal: Literal) -> bool {
    match literal {
        Literal::Atom(atom) => atom_can_be_written(atom),
        Literal::Guard(guard) => grammar_laws::signless(guard.left) && grammar_laws::signless(
            guard.right,
        ) && !grammar_laws::guard_written(guard).contains('('),
    }
}

/// The atoms among the parts of a body, in their order.
pub open spec fn atoms_of(literals: Seq<Literal>) -> Seq<AtomView> {
    literals.filter(|literal: Literal| literal is Atom).map_values(
        |literal: Literal| literal->Atom_0,
    )
}

/// The comparisons among the parts of a body, in their order.
pub open spec fn guards_of(literals: Seq<Literal>) -> Seq<GuardView> {
    literals.filter(|literal: Literal| literal is Guard).map_values(
        |literal: Literal| literal->Guard_0,
    )
}

/// The parts of a body as they are written.
pub open spec fn all_written(literals: Seq<Literal>) -> Seq<Seq<char>> {
    literals.map_values(|literal: Literal| literal_written(literal))
}

proof fn lemma_skip_plain(s: Seq<char>, i: int, j: int, start: int)
    requires
        0 <= i <= j <= s.len(),
        forall|k: int| i <= k < j ==> (#[trigger] s[k]) != '"' && s[k] != '(' && s[k] != ')',
    ensures
        clause::parts_from(s, i, start, 1, false, ',') == clause::parts_from(
            s,
            j,
            start,
            1,
            false,
            ',',
        ),
    decreases j - i,
{
    if i < j {
        lemma_skip_plain(s, i + 1, j, start);
        assert(s[i] != '"');
    }
}

proof fn lemma_skip_quoted(s: Seq<char>, i: int, j: int, start: int)
    requires
        0 <= i <= j <= s.len(),
        forall|k: int| i <= k < j ==> (#[trigger] s[k]) != '"',
    ensures
        clause::parts_from(s, i, start, 1, true, ',') == clause::parts_from(
            s,
            j,
            start,
            1,
            true,
            ',',
        ),
    decreases j - i,
{
    if i < j {
        lemma_skip_quoted(s, i + 1, j, start);
        assert(s[i] != '"');
    }
}

/// A written term is passed over whole within brackets.
proof fn lemma_skip_written(s: Seq<char>, i: int, start: int, term: TermView)
    requires
        grammar_laws::can_be_written(term),
        0 <= i,
        i + grammar_laws::written(term).len() <= s.len(),
        s.subrange(i, i + grammar_laws::written(term).len()) == grammar_laws::written(term),
    ensures
        clause::parts_from(s, i, start, 1, false, ',') == clause::parts_from(
            s,
            i + grammar_laws::written(term).len(),
            start,
            1,
            false,
            ',',
        ),
{
    let form = grammar_laws::written(term);
    let j = i + form.len();
    assert forall|k: int| i <= k < j implies s[k] == form[k - i] by {
        assert(s.subrange(i, j)[k - i] == s[k]);
    }
    match term {
        TermView::Sym(name) => {
            assert(s[i] == form[0]);
            assert forall|k: int| i + 1 <= k < j - 1 implies (#[trigger] s[k]) != '"' by {
                assert(form[k - i] == name[k - i - 1]);
                assert(name.contains(name[k - i - 1]));
            }
            lemma_skip_quoted(s, i + 1, j - 1, start);
            assert(s[j - 1] == form[form.len() - 1]);
        },
        TermView::Int(n) => {
            grammar_laws::lemma_decimal_bare(n as i64);
            assert forall|k: int| i <= k < j implies (#[trigger] s[k]) != '"' && s[k] != '('
                && s[k] != ')' by {
                assert(s[k] == form[k - i]);
            }
            lemma_skip_plain(s, i, j, start);
        },
        TermView::Var(_) => {
            assert forall|k: int| i <= k < j implies (#[trigger] s[k]) != '"' && s[k] != '('
                && s[k] != ')' by {
                assert(s[k] == form[k - i]);
            }
            lemma_skip_plain(s, i, j, start);
        },
    }
}

/// Written terms and the commas between them are passed over whole within brackets.
proof fn lemma_skip_terms(s: Seq<char>, i: int, start: int, terms: Seq<TermView>)
    requires
        forall|k: int| 0 <= k < terms.len() ==> grammar_laws::can_be_written(#[trigger] terms[k]),
        0 <= i,
        i + text::join(grammar_laws::all_written(terms), ", "@).len() <= s.len(),
        s.subrange(i, i + text::join(grammar_laws::all_written(terms), ", "@).len()) == text::join(
            grammar_laws::all_written(terms),
            ", "@,
        ),
    ensures
        clause::parts_from(s, i, start, 1, false, ',') == clause::parts_from(
            s,
            i + text::join(grammar_laws::all_written(terms), ", "@).len(),
            start,
            1,
            false,
            ',',
        ),
    decreases terms.len(),
{
    let texts = grammar_laws::all_written(terms);
    let whole = text::join(texts, ", "@);
    if terms.len() > 0 {
        let first = grammar_laws::written(terms[0]);
        let rest = terms.drop_first();
        reveal_strlit(", ");
        assert(texts[0] == first);
        assert(grammar_laws::can_be_written(terms[0]));
        let list = text::join(grammar_laws::all_written(rest), ", "@);
        let m = i + first.len();
        if terms.len() > 1 {
            text::lemma_join_first(texts, ", "@);
            assert(texts.drop_first() =~= grammar_laws::all_written(rest));
            assert(whole == first + ", "@ + list);
        } else {
            assert(whole == first);
        }
        assert forall|k: int| 0 <= k < whole.len() implies s[i + k] == #[trigger] whole[k] by {
            assert(s.subrange(i, i + whole.len())[k] == s[i + k]);
        }
        assert(s.subrange(i, m) =~= first) by {
            assert forall|k: int| 0 <= k < first.len() implies s.subrange(i, m)[k] == first[k] by {
                assert(whole[k] == first[k]);
            }
        }
        lemma_skip_written(s, i, start, terms[0]);
        if terms.len() > 1 {
            assert(whole[first.len() as int] == ',' && whole[first.len() as int + 1] == ' ');
            assert(s[m] == ',' && s[m + 1] == ' ');
            lemma_skip_plain(s, m, m + 2, start);
            assert(s.subrange(m + 2, m + 2 + list.len()) =~= list) by {
                assert forall|k: int| 0 <= k < list.len() implies s.subrange(
                    m + 2,
                    m + 2 + list.len(),
                )[k] == list[k] by {
                    assert(whole[first.len() + 2 + k] == list[k]);
                }
            }
            assert forall|k: int| 0 <= k < rest.len() implies grammar_laws::can_be_written(
                #[trigger] rest[k],
            ) by {
                assert(rest[k] == terms[k + 1]);
            }
            lemma_skip_terms(s, m + 2, start, rest);
        }
    }
}

/// A written part of a body is passed over whole.
proof fn lemma_skip_literal(s: Seq<char>, i: int, start: int, literal: Literal)
    requires
        literal_can_be_written(literal),
        0 <= i,
        i + literal_written(literal).len() <= s.len(),
        s.subrange(i, i + literal_written(literal).len()) == literal_written(literal),
    ensures
        clause::parts_from(s, i, start, 0, false, ',') == clause::parts_from(
            s,
            i + literal_written(literal).len(),
            start,
            0,
            false,
            ',',
        ),
{
    let form = literal_written(literal);
    assert forall|k: int| 0 <= k < form.len() implies s[i + k] == #[trigger] form[k] by {
        assert(s.subrange(i, i + form.len())[k] == s[i + k]);
    }
    match literal {
        Literal::Atom(atom) => {
            let list = text::join(grammar_laws::all_written(atom.args), ", "@);
            let m = i + atom.pred.len();
            assert forall|k: int| i <= k < m implies (#[trigger] s[k]) != '"' && s[k] != '('
                && s[k] != ')' && s[k] != ',' by {
                assert(form[k - i] == atom.pred[k - i]);
                assert(s[i + (k - i)] == form[k - i]);
            }
            grammar_laws::lemma_skip_plain(s, i, m, start);
            assert(form[atom.pred.len() as int] == '(');
            assert(s[m] == '(');
            assert(s.subrange(m + 1, m + 1 + list.len()) =~= list) by {
                assert forall|k: int| 0 <= k < list.len() implies s.subrange(
                    m + 1,
                    m + 1 + list.len(),
                )[k] == list[k] by {
                    assert(form[atom.pred.len() + 1 + k] == list[k]);
                }
            }
            lemma_skip_terms(s, m + 1, start, atom.args);
            assert(form[form.len() - 1] == ')');
            assert(s[i + (form.len() - 1)] == ')');
            assert(i + form.len() == m + 1 + list.len() + 1);
        },
        Literal::Guard(guard) => {
            let left = grammar_laws::written(guard.left);
            let right = grammar_laws::written(guard.right);
            let middle = seq![' '] + grammar_laws::sign(guard.comparison) + seq![' '];
            let m = i + left.len();
            let n = m + middle.len();
            assert(s.subrange(i, m) =~= left) by {
                assert forall|k: int| 0 <= k < left.len() implies s.subrange(i, m)[k]
                    == left[k] by {
                    assert(form[k] == left[k]);
                }
            }
            grammar_laws::lemma_skip_written(s, i, start, guard.left);
            assert forall|k: int| m <= k < n implies (#[trigger] s[k]) != '"' && s[k] != '('
                && s[k] != ')' && s[k] != ',' by {
                assert(form[k - i] == middle[k - m]);
                assert(s[i + (k - i)] == form[k - i]);
            }
            grammar_laws::lemma_skip_plain(s, m, n, start);
            assert(s.subrange(n, n + right.len()) =~= right) by {
                assert forall|k: int| 0 <= k < right.len() implies s.subrange(
                    n,
                    n + right.len(),
                )[k] == right[k] by {
                    assert(form[left.len() + middle.len() + k] == right[k]);
                }
            }
            grammar_laws::lemma_skip_written(s, n, start, guard.right);
        },
    }
}

/// The parts of a written body are its parts, with a space before each.
proof fn lemma_parts(front: Seq<char>, literals: Seq<Literal>)
    requires
        literals.len() > 0,
        forall|i: int| 0 <= i < literals.len() ==> literal_can_be_written(#[trigger] literals[i]),
    ensures
        ({
            let whole = front + seq![' '] + text::join(all_written(literals), ", "@);
            let at = front.len() as int;
            let parts = clause::parts_from(whole, at, at, 0, false, ',');
            &&& parts.len() == literals.len()
            &&& forall|k: int|
                0 <= k < literals.len() ==> #[trigger] parts[k] == seq![' '] + literal_written(
                    literals[k],
                )
        }),
    decreases literals.len(),
{
    let texts = all_written(literals);
    let whole = front + seq![' '] + text::join(texts, ", "@);
    let at = front.len() as int;
    let first = literal_written(literals[0]);
    reveal_strlit(", ");
    assert(texts[0] == first);
    assert(literal_can_be_written(literals[0]));
    let rest = texts.drop_first();
    if literals.len() > 1 {
        text::lemma_join_first(texts, ", "@);
    } else {
        assert(text::join(texts, ", "@) == first);
    }
    let to = at + 1 + first.len();
    assert(whole[at] == ' ');
    grammar_laws::lemma_skip_plain(whole, at, at + 1, at);
    assert(whole.subrange(at + 1, to) =~= first);
    lemma_skip_literal(whole, at + 1, at, literals[0]);
    assert(whole.subrange(at, to) =~= seq![' '] + first);
    let parts = clause::parts_from(whole, at, at, 0, false, ',');
    if literals.len() > 1 {
        let fewer = literals.drop_first();
        assert(all_written(fewer) =~= rest);
        let ahead = front + seq![' '] + first + seq![','];
        assert(whole =~= ahead + seq![' '] + text::join(rest, ", "@));
        assert(ahead.len() == to + 1);
        assert(whole[to] == ',');
        assert forall|i: int| 0 <= i < fewer.len() implies literal_can_be_written(
            #[trigger] fewer[i],
        ) by {
            assert(fewer[i] == literals[i + 1]);
        }
        lemma_parts(ahead, fewer);
        let others = clause::parts_from(whole, to + 1, to + 1, 0, false, ',');
        assert(parts == seq![seq![' '] + first] + others);
        assert forall|k: int| 0 <= k < literals.len() implies #[trigger] parts[k] == seq![' ']
            + literal_written(literals[k]) by {
            if k > 0 {
                assert(parts[k] == others[k - 1]);
                assert(fewer[k - 1] == literals[k]);
            }
        }
    } else {
        assert(to == whole.len());
        assert(parts == seq![whole.subrange(at, to)]);
    }
}

/// A written part of a body is read as what it is, with a space before it.
proof fn lemma_literal(literal: Literal)
    requires
        literal_can_be_written(literal),
    ensures
        match literal {
            Literal::Atom(atom) => clause::read_atom(seq![' '] + literal_written(literal)) == Some(
                atom,
            ),
            Literal::Guard(guard) => clause::read_atom(seq![' '] + literal_written(literal)) is None
                && clause::read_guard(seq![' '] + literal_written(literal)) == Some(guard),
        },
        literal_written(literal).len() > 0,
        !text::white(literal_written(literal)[0]),
        !text::white(literal_written(literal).last()),
{
    let none = Seq::<char>::empty();
    let form = literal_written(literal);
    match literal {
        Literal::Atom(atom) => {
            grammar_laws::written_atom_is_read(atom);
            grammar_laws::lemma_bare(atom.pred);
            assert(form[0] == atom.pred[0] && form.last() == ')');
        },
        Literal::Guard(guard) => {
            grammar_laws::lemma_written(guard.left);
            grammar_laws::lemma_written(guard.right);
            grammar_laws::lemma_comparison(
                seq![' '],
                guard.left,
                guard.right,
                guard.comparison,
            );
            assert(seq![' '] + form =~= seq![' '] + grammar_laws::written(guard.left) + (seq![' ']
                + grammar_laws::sign(guard.comparison) + seq![' ']) + grammar_laws::written(
                guard.right,
            ));
            assert(form[0] == grammar_laws::written(guard.left)[0]);
            assert(form.last() == grammar_laws::written(guard.right).last());
        },
    }
    text::lemma_trim(seq![' '], form, none);
    assert(seq![' '] + form + none =~= seq![' '] + form);
    text::lemma_trim(none, form, none);
    assert(none + form + none =~= form);
    if literal is Guard {
        text::lemma_first_char_none(form, '(');
    }
}

proof fn lemma_literals(parts: Seq<Seq<char>>, literals: Seq<Literal>)
    requires
        parts.len() == literals.len(),
        forall|k: int|
            0 <= k < parts.len() ==> #[trigger] parts[k] == seq![' '] + literal_written(
                literals[k],
            ),
        forall|i: int| 0 <= i < literals.len() ==> literal_can_be_written(#[trigger] literals[i]),
    ensures
        clause::read_literals(parts) == Some((atoms_of(literals), guards_of(literals))),
    decreases parts.len(),
{
    reveal(Seq::filter);
    if parts.len() > 0 {
        let fewer = parts.drop_last();
        let less = literals.drop_last();
        let n = parts.len() - 1;
        assert forall|k: int| 0 <= k < fewer.len() implies #[trigger] fewer[k] == seq![' ']
            + literal_written(less[k]) by {
            assert(fewer[k] == parts[k] && less[k] == literals[k]);
        }
        assert forall|i: int| 0 <= i < less.len() implies literal_can_be_written(
            #[trigger] less[i],
        ) by {
            assert(less[i] == literals[i]);
        }
        lemma_literals(fewer, less);
        assert(parts[n] == parts.last() && literals[n] == literals.last());
        lemma_literal(literals[n]);
        match literals[n] {
            Literal::Atom(atom) => {
                assert(atoms_of(literals) =~= atoms_of(less).push(atom));
                assert(guards_of(literals) =~= guards_of(less));
            },
            Literal::Guard(guard) => {
                assert(atoms_of(literals) =~= atoms_of(less));
                assert(guards_of(literals) =~= guards_of(less).push(guard));
            },
        }
    } else {
        assert(atoms_of(literals) =~= seq![]);
        assert(guards_of(literals) =~= seq![]);
    }
}

/// A rule that is written is read with its head, with all the atoms and all the comparisons of its
/// body, in their order, where it is safe; one that is not safe is not read.
pub proof fn written_rule_is_read(head: AtomView, literals: Seq<Literal>)
    requires
        atom_can_be_written(head),
        !grammar_laws::atom_written(head).contains(':'),
        literals.len() > 0,
        forall|i: int| 0 <= i < literals.len() ==> literal_can_be_written(#[trigger] literals[i]),
    ensures
        ({
            let rule = RuleView { head, body: atoms_of(literals), guards: guards_of(literals) };
            clause::read_clause(
                grammar_laws::atom_written(head) + " :- "@ + text::join(
                    all_written(literals),
                    ", "@,
                ),
            ) == if rule.safe() {
                Some(rule)
            } else {
                None
            }
        }),
{
    let form = grammar_laws::atom_written(head);
    let list = text::join(all_written(literals), ", "@);
    let s = form + " :- "@ + list;
    let none = Seq::<char>::empty();
    reveal_strlit(":-");
    reveal_strlit(" :- ");
    let n = form.len() as int + 1;
    assert(s.subrange(n, n + 2) =~= ":-"@);
    assert(text::occurs_at(s, ":-"@, n));
    text::lemma_first_match(s, ":-"@);
    let k = text::first_match(s, ":-"@)->0;
    assert(k == n) by {
        assert(s.subrange(k, k + 2)[0] == ':');
        assert(s[k] == ':');
        if k < form.len() {
            assert(form[k] == ':');
            assert(form.contains(':'));
        }
    }
    let body = seq![' '] + list;
    assert(s.take(n) =~= form + seq![' ']);
    assert(s.skip(n + 2) =~= body);
    grammar_laws::written_atom_is_read(head);
    grammar_laws::lemma_bare(head.pred);
    assert(form[0] == head.pred[0] && form.last() == ')');
    text::lemma_trim(none, form, seq![' ']);
    assert(none + form + seq![' '] =~= form + seq![' ']);
    text::lemma_trim(none, form, none);
    assert(none + form + none =~= form);
    lemma_parts(none, literals);
    assert(none + seq![' '] + list =~= body);
    let parts = clause::parts_from(body, 0, 0, 0, false, ',');
    lemma_literals(parts, literals);
    let texts = all_written(literals);
    lemma_literal(literals[0]);
    lemma_literal(literals[literals.len() - 1]);
    assert(texts[0] == literal_written(literals[0]));
    assert(texts.last() == literal_written(literals[literals.len() - 1]));
    if literals.len() > 1 {
        text::lemma_join_first(texts, ", "@);
        assert(list[0] == texts[0][0]);
        assert(list.last() == texts.last().last());
    }
    assert(text::trim_free(list));
    text::lemma_trim(seq![' '], list, none);
    assert(seq![' '] + list + none =~= body);
    assert(clause::parts_of(body) == parts);
}

/// An atom without variables is a fact of a program; one with variables is not read.
pub proof fn written_fact_is_read(head: AtomView)
    requires
        atom_can_be_written(head),
        !grammar_laws::atom_written(head).contains(':'),
    ensures
        clause::read_clause(grammar_laws::atom_written(head)) == if exists|i: int|
            0 <= i < head.args.len() && (#[trigger] head.args[i]) is Var {
            None
        } else {
            Some(RuleView { head, body: seq![], guards: seq![] })
        },
{
    let form = grammar_laws::atom_written(head);
    grammar_laws::written_atom_is_read(head);
    reveal_strlit(":-");
    text::lemma_first_match(form, ":-"@);
    if text::contains_text(form, ":-"@) {
        let i = choose|i: int| text::occurs_at(form, ":-"@, i);
        assert(form.subrange(i, i + 2)[0] == ':');
        assert(form[i] == ':');
        assert(form.contains(':'));
    }
    let rule = RuleView { head, body: seq![], guards: seq![] };
    if exists|i: int| 0 <= i < head.args.len() && (#[trigger] head.args[i]) is Var {
        let i = choose|i: int| 0 <= i < head.args.len() && (#[trigger] head.args[i]) is Var;
        assert(!clause::covered(rule.body, head.args[i]));
        assert(!rule.safe());
    } else {
        assert forall|i: int| 0 <= i < head.args.len() implies clause::covered(
            rule.body,
            #[trigger] head.args[i],
        ) by {
            assert(!(head.args[i] is Var));
        }
        assert(rule.safe());
    }
}

/// Clauses are read one after the other.
pub proof fn clauses_are_read_in_order(parts: Seq<Seq<char>>, part: Seq<char>)
    ensures
        clause::read_clauses(parts.push(part)) == match (
            clause::read_clauses(parts),
            clause::read_clause(part),
        ) {
            (Some(clauses), Some(clause)) => Some(clauses.push(clause)),
            _ => None,
        },
        clause::read_clauses(seq![]) == Some(Seq::<RuleView>::empty()),
{
    assert(parts.push(part).drop_last() =~= parts);
}

// ---------------------------------------------------------------- programs
/// How many brackets are open behind a place, and whether a quotation mark is.
spec fn scan(s: Seq<char>, i: int, j: int, depth: int, quoted: bool) -> (int, bool)
    decreases j - i,
{
    if i >= j {
        (depth, quoted)
    } else if s[i] == '"' {
        scan(s, i + 1, j, depth, !quoted)
    } else if quoted {
        scan(s, i + 1, j, depth, true)
    } else if s[i] == '(' {
        scan(s, i + 1, j, depth + 1, false)
    } else if s[i] == ')' {
        scan(s, i + 1, j, depth - 1, false)
    } else {
        scan(s, i + 1, j, depth, false)
    }
}

proof fn lemma_scan_parts(s: Seq<char>, i: int, j: int, start: int, depth: int, quoted: bool)
    requires
        0 <= i <= j <= s.len(),
        forall|k: int| i <= k < j ==> (#[trigger] s[k]) != '.',
    ensures
        clause::parts_from(s, i, start, depth, quoted, '.') == clause::parts_from(
            s,
            j,
            start,
            scan(s, i, j, depth, quoted).0,
            scan(s, i, j, depth, quoted).1,
            '.',
        ),
    decreases j - i,
{
    if i < j {
        assert(s[i] != '.');
        if s[i] == '"' {
            lemma_scan_parts(s, i + 1, j, start, depth, !quoted);
        } else if quoted {
            lemma_scan_parts(s, i + 1, j, start, depth, true);
        } else if s[i] == '(' {
            lemma_scan_parts(s, i + 1, j, start, depth + 1, false);
        } else if s[i] == ')' {
            lemma_scan_parts(s, i + 1, j, start, depth - 1, false);
        } else {
            lemma_scan_parts(s, i + 1, j, start, depth, false);
        }
    }
}

proof fn lemma_scan_add(s: Seq<char>, i: int, j: int, k: int, depth: int, quoted: bool)
    requires
        i <= j <= k,
    ensures
        scan(s, i, k, depth, quoted) == scan(
            s,
            j,
            k,
            scan(s, i, j, depth, quoted).0,
            scan(s, i, j, depth, quoted).1,
        ),
    decreases j - i,
{
    if i < j {
        if s[i] == '"' {
            lemma_scan_add(s, i + 1, j, k, depth, !quoted);
        } else if quoted {
            lemma_scan_add(s, i + 1, j, k, depth, true);
        } else if s[i] == '(' {
            lemma_scan_add(s, i + 1, j, k, depth + 1, false);
        } else if s[i] == ')' {
            lemma_scan_add(s, i + 1, j, k, depth - 1, false);
        } else {
            lemma_scan_add(s, i + 1, j, k, depth, false);
        }
    }
}

proof fn lemma_scan_plain(s: Seq<char>, i: int, j: int, depth: int)
    requires
        i <= j,
        forall|k: int| i <= k < j ==> (#[trigger] s[k]) != '"' && s[k] != '(' && s[k] != ')',
    ensures
        scan(s, i, j, depth, false) == (depth, false),
    decreases j - i,
{
    if i < j {
        assert(s[i] != '"');
        lemma_scan_plain(s, i + 1, j, depth);
    }
}

proof fn lemma_scan_quoted(s: Seq<char>, i: int, j: int, depth: int)
    requires
        i <= j,
        forall|k: int| i <= k < j ==> (#[trigger] s[k]) != '"',
    ensures
        scan(s, i, j, depth, true) == (depth, true),
    decreases j - i,
{
    if i < j {
        assert(s[i] != '"');
        lemma_scan_quoted(s, i + 1, j, depth);
    }
}

/// Whether a text is level in itself: wherever it stands, it opens what it closes.
spec fn level(t: Seq<char>) -> bool {
    forall|s: Seq<char>, i: int, j: int, depth: int|
        0 <= i && j == i + t.len() && j <= s.len() && s.subrange(i, j) == t ==> #[trigger] scan(
            s,
            i,
            j,
            depth,
            false,
        ) == (depth, false)
}

proof fn lemma_level_plain(t: Seq<char>)
    requires
        forall|k: int| 0 <= k < t.len() ==> (#[trigger] t[k]) != '"' && t[k] != '(' && t[k] != ')',
    ensures
        level(t),
{
    assert forall|s: Seq<char>, i: int, j: int, depth: int|
        0 <= i && j == i + t.len() && j <= s.len() && s.subrange(i, j) == t implies #[trigger] scan(
        s,
        i,
        j,
        depth,
        false,
    ) == (depth, false) by {
        assert forall|k: int| i <= k < j implies (#[trigger] s[k]) != '"' && s[k] != '(' && s[k]
            != ')' by {
            assert(s.subrange(i, j)[k - i] == s[k]);
            assert(t[k - i] == s[k]);
        }
        lemma_scan_plain(s, i, j, depth);
    }
}

proof fn lemma_level_quoted(name: Seq<char>)
    requires
        !name.contains('"'),
    ensures
        level(seq!['"'] + name + seq!['"']),
{
    let t = seq!['"'] + name + seq!['"'];
    assert forall|s: Seq<char>, i: int, j: int, depth: int|
        0 <= i && j == i + t.len() && j <= s.len() && s.subrange(i, j) == t implies #[trigger] scan(
        s,
        i,
        j,
        depth,
        false,
    ) == (depth, false) by {
        assert forall|k: int| i <= k < j implies s[k] == t[k - i] by {
            assert(s.subrange(i, j)[k - i] == s[k]);
        }
        assert(s[i] == '"' && s[j - 1] == '"');
        assert forall|k: int| i + 1 <= k < j - 1 implies (#[trigger] s[k]) != '"' by {
            assert(s[k] == name[k - i - 1]);
            assert(name.contains(name[k - i - 1]));
        }
        lemma_scan_quoted(s, i + 1, j - 1, depth);
        lemma_scan_add(s, i + 1, j - 1, j, depth, true);
        reveal_with_fuel(scan, 2);
    }
}

proof fn lemma_level_add(a: Seq<char>, b: Seq<char>)
    requires
        level(a),
        level(b),
    ensures
        level(a + b),
{
    let t = a + b;
    assert forall|s: Seq<char>, i: int, j: int, depth: int|
        0 <= i && j == i + t.len() && j <= s.len() && s.subrange(i, j) == t implies #[trigger] scan(
        s,
        i,
        j,
        depth,
        false,
    ) == (depth, false) by {
        let m = i + a.len();
        assert forall|k: int| 0 <= k < t.len() implies s[i + k] == #[trigger] t[k] by {
            assert(s.subrange(i, j)[k] == s[i + k]);
        }
        assert(s.subrange(i, m) =~= a) by {
            assert forall|k: int| 0 <= k < a.len() implies s.subrange(i, m)[k] == a[k] by {
                assert(t[k] == a[k]);
            }
        }
        assert(s.subrange(m, j) =~= b) by {
            assert forall|k: int| 0 <= k < b.len() implies s.subrange(m, j)[k] == b[k] by {
                assert(t[a.len() + k] == b[k]);
            }
        }
        assert(scan(s, i, m, depth, false) == (depth, false));
        assert(scan(s, m, j, depth, false) == (depth, false));
        lemma_scan_add(s, i, m, j, depth, false);
    }
}

proof fn lemma_level_brackets(t: Seq<char>)
    requires
        level(t),
    ensures
        level(seq!['('] + t + seq![')']),
{
    let whole = seq!['('] + t + seq![')'];
    assert forall|s: Seq<char>, i: int, j: int, depth: int|
        0 <= i && j == i + whole.len() && j <= s.len() && s.subrange(i, j) == whole implies
        #[trigger] scan(s, i, j, depth, false) == (depth, false) by {
        assert forall|k: int| 0 <= k < whole.len() implies s[i + k] == #[trigger] whole[k] by {
            assert(s.subrange(i, j)[k] == s[i + k]);
        }
        assert(whole[0] == '(' && whole[whole.len() - 1] == ')');
        assert(s[i + 0] == '(' && s[i + (whole.len() - 1)] == ')');
        assert(s.subrange(i + 1, j - 1) =~= t) by {
            assert forall|k: int| 0 <= k < t.len() implies s.subrange(i + 1, j - 1)[k] == t[k] by {
                assert(whole[k + 1] == t[k]);
            }
        }
        assert(scan(s, i + 1, j - 1, depth + 1, false) == (depth + 1, false));
        lemma_scan_add(s, i + 1, j - 1, j, depth + 1, false);
        reveal_with_fuel(scan, 2);
    }
}

proof fn lemma_level_term(term: TermView)
    requires
        grammar_laws::can_be_written(term),
    ensures
        level(grammar_laws::written(term)),
{
    match term {
        TermView::Sym(name) => lemma_level_quoted(name),
        TermView::Int(i) => {
            grammar_laws::lemma_decimal_bare(i as i64);
            lemma_level_plain(grammar_laws::written(term));
        },
        TermView::Var(name) => lemma_level_plain(name),
    }
}

proof fn lemma_level_join(parts: Seq<Seq<char>>)
    requires
        forall|i: int| 0 <= i < parts.len() ==> level(#[trigger] parts[i]),
    ensures
        level(text::join(parts, ", "@)),
    decreases parts.len(),
{
    reveal_strlit(", ");
    if parts.len() == 0 {
        lemma_level_plain(text::join(parts, ", "@));
    } else if parts.len() > 1 {
        let fewer = parts.drop_last();
        assert forall|i: int| 0 <= i < fewer.len() implies level(#[trigger] fewer[i]) by {
            assert(fewer[i] == parts[i]);
        }
        lemma_level_join(fewer);
        lemma_level_plain(", "@);
        lemma_level_add(text::join(fewer, ", "@), ", "@);
        assert(level(parts[parts.len() - 1]));
        lemma_level_add(text::join(fewer, ", "@) + ", "@, parts.last());
    } else {
        assert(level(parts[0]));
    }
}

proof fn lemma_level_atom(atom: AtomView)
    requires
        atom_can_be_written(atom),
    ensures
        level(grammar_laws::atom_written(atom)),
{
    let texts = grammar_laws::all_written(atom.args);
    let list = text::join(texts, ", "@);
    assert forall|i: int| 0 <= i < texts.len() implies level(#[trigger] texts[i]) by {
        lemma_level_term(atom.args[i]);
    }
    lemma_level_join(texts);
    lemma_level_brackets(list);
    lemma_level_plain(atom.pred);
    lemma_level_add(atom.pred, seq!['('] + list + seq![')']);
    assert(grammar_laws::atom_written(atom) =~= atom.pred + (seq!['('] + list + seq![')']));
}

proof fn lemma_level_literal(literal: Literal)
    requires
        literal_can_be_written(literal),
    ensures
        level(literal_written(literal)),
{
    match literal {
        Literal::Atom(atom) => lemma_level_atom(atom),
        Literal::Guard(guard) => {
            let left = grammar_laws::written(guard.left);
            let right = grammar_laws::written(guard.right);
            let middle = seq![' '] + grammar_laws::sign(guard.comparison) + seq![' '];
            lemma_level_term(guard.left);
            lemma_level_term(guard.right);
            lemma_level_plain(middle);
            lemma_level_add(left, middle);
            lemma_level_add(left + middle, right);
        },
    }
}

proof fn lemma_uncommented(s: Seq<char>, i: int, quoted: bool)
    requires
        0 <= i <= s.len(),
        !s.contains('#'),
    ensures
        clause::uncommented(s, i, quoted, false) == s.skip(i),
    decreases s.len() - i,
{
    if i < s.len() {
        assert(s[i] != '#') by {
            if s[i] == '#' {
                assert(s.contains(s[i]));
            }
        }
        if s[i] == '\n' {
            lemma_uncommented(s, i + 1, quoted);
        } else {
            lemma_uncommented(s, i + 1, quoted != (s[i] == '"'));
        }
        assert(s.skip(i) =~= seq![s[i]] + s.skip(i + 1));
    } else {
        assert(s.skip(i) =~= seq![]);
    }
}

/// A level text with a point behind it is a program of one clause.
proof fn lemma_program(t: Seq<char>)
    requires
        level(t),
        !t.contains('.'),
        !t.contains('#'),
    ensures
        clause::read_program(t + seq!['.']) == match clause::read_clause(t) {
            Some(rule) => Some(seq![rule]),
            None => None,
        },
{
    let s = t + seq!['.'];
    let n = t.len() as int;
    let none = Seq::<char>::empty();
    assert(!s.contains('#')) by {
        if s.contains('#') {
            let k = choose|k: int| 0 <= k < s.len() && s[k] == '#';
            assert(t[k] == '#');
        }
    }
    lemma_uncommented(s, 0, false);
    assert(s.skip(0) =~= s);
    assert(s.subrange(0, n) =~= t);
    assert(scan(s, 0, n, 0, false) == (0int, false));
    assert forall|k: int| 0 <= k < n implies (#[trigger] s[k]) != '.' by {
        assert(s[k] == t[k]);
        assert(t.contains(t[k]));
    }
    lemma_scan_parts(s, 0, n, 0, 0, false);
    assert(s[n] == '.');
    let parts = clause::parts_from(s, 0, 0, 0, false, '.');
    assert(clause::parts_from(s, n + 1, n + 1, 0, false, '.') == seq![s.subrange(n + 1, n + 1)]);
    assert(s.subrange(n + 1, n + 1) =~= none);
    assert(parts =~= seq![t, none]);
    assert(text::trimmed(none) == none);
    assert(parts.drop_last() =~= seq![t]);
    let empty = Seq::<Seq<char>>::empty();
    assert(empty.push(t) =~= seq![t]);
    clauses_are_read_in_order(empty, t);
    assert(Seq::<RuleView>::empty().push(clause::read_clause(t)->0) =~= seq![
        clause::read_clause(t)->0,
    ]);
}

/// A rule that is written, with a point behind it, is a program of that rule, where the rule is safe.
/// So programs of more clauses are read as well: programs that stand below one another are read as one.
pub proof fn written_program_is_read(head: AtomView, literals: Seq<Literal>)
    requires
        atom_can_be_written(head),
        !grammar_laws::atom_written(head).contains(':'),
        literals.len() > 0,
        forall|i: int| 0 <= i < literals.len() ==> literal_can_be_written(#[trigger] literals[i]),
        ({
            let t = grammar_laws::atom_written(head) + " :- "@ + text::join(
                all_written(literals),
                ", "@,
            );
            !t.contains('.') && !t.contains('#')
        }),
    ensures
        ({
            let rule = RuleView { head, body: atoms_of(literals), guards: guards_of(literals) };
            let t = grammar_laws::atom_written(head) + " :- "@ + text::join(
                all_written(literals),
                ", "@,
            );
            clause::read_program(t + seq!['.']) == if rule.safe() {
                Some(seq![rule])
            } else {
                None
            }
        }),
{
    let form = grammar_laws::atom_written(head);
    let texts = all_written(literals);
    let list = text::join(texts, ", "@);
    reveal_strlit(" :- ");
    written_rule_is_read(head, literals);
    lemma_level_atom(head);
    lemma_level_plain(" :- "@);
    lemma_level_add(form, " :- "@);
    assert forall|i: int| 0 <= i < texts.len() implies level(#[trigger] texts[i]) by {
        lemma_level_literal(literals[i]);
    }
    lemma_level_join(texts);
    lemma_level_add(form + " :- "@, list);
    lemma_program(form + " :- "@ + list);
}

/// A fact that is written, with a point behind it, is a program of that fact.
pub proof fn written_fact_is_a_program(head: AtomView)
    requires
        atom_can_be_written(head),
        !grammar_laws::atom_written(head).contains(':'),
        !grammar_laws::atom_written(head).contains('.'),
        !grammar_laws::atom_written(head).contains('#'),
        forall|i: int| 0 <= i < head.args.len() ==> !((#[trigger] head.args[i]) is Var),
    ensures
        clause::read_program(grammar_laws::atom_written(head) + seq!['.']) == Some(
            seq![RuleView { head, body: seq![], guards: seq![] }],
        ),
{
    written_fact_is_read(head);
    lemma_level_atom(head);
    lemma_program(grammar_laws::atom_written(head));
}

} // verus!
