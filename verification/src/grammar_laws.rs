//! What the terms, atoms, comparisons and rules that are written mean.

use vstd::prelude::*;

use crate::clause;
use crate::clause::{AtomView, Comparison, GuardView, RuleView};
use crate::engine::TermView;
use crate::number;
use crate::text;

verus! {

/// A text between quotation marks is the symbol of that name, whatever it begins with.
pub proof fn quoted_name_is_a_symbol(w: Seq<char>)
    requires
        !w.contains('"'),
    ensures
        clause::read_term(seq!['"'] + w + seq!['"']) == Some(TermView::Sym(w)),
{
    let s = seq!['"'] + w + seq!['"'];
    let none = Seq::<char>::empty();
    assert(none + s + none =~= s);
    text::lemma_trim(none, s, none);
    assert(s.subrange(1, s.len() - 1) =~= w);
}

/// Whether a text can stand bare: it holds no white space, quotation mark, bracket or comma.
pub open spec fn bare(w: Seq<char>) -> bool {
    w.len() > 0 && forall|i: int|
        0 <= i < w.len() ==> !text::white(#[trigger] w[i]) && w[i] != '"' && w[i] != '(' && w[i]
            != ')' && w[i] != ','
}

/// A bare word is a variable where it begins with a capital letter or a low line.
pub proof fn capitalised_word_is_a_variable(w: Seq<char>)
    requires
        bare(w),
        'A' <= w[0] <= 'Z' || w[0] == '_',
    ensures
        clause::read_term(w) == Some(TermView::Var(w)),
{
    lemma_bare(w);
    lemma_letter_is_no_digit(w);
}

/// A bare word is a symbol where it begins with a small letter.
pub proof fn small_word_is_a_symbol(w: Seq<char>)
    requires
        bare(w),
        'a' <= w[0] <= 'z',
    ensures
        clause::read_term(w) == Some(TermView::Sym(w)),
{
    lemma_bare(w);
    lemma_letter_is_no_digit(w);
}

proof fn lemma_letter_is_no_digit(w: Seq<char>)
    requires
        w.len() > 0,
        !text::digit(w[0]),
        w[0] != '+',
        w[0] != '-',
    ensures
        number::read_i64(w) is None,
{
    assert(number::without_plus(w) == w);
    assert(!text::digit(w[0]));
    assert(!number::all_digits(w));
}

pub proof fn lemma_bare(w: Seq<char>)
    requires
        bare(w),
    ensures
        text::trimmed(w) == w,
        text::trim_free(w),
        clause::is_word(w),
{
    let none = Seq::<char>::empty();
    assert(none + w + none =~= w);
    assert(!text::white(w[0]) && !text::white(w[w.len() - 1]));
    text::lemma_trim(none, w, none);
}

/// The decimal form of an integer is that integer.
pub proof fn decimal_is_an_integer(i: i64)
    ensures
        clause::read_term(number::decimal_int(i as int)) == Some(TermView::Int(i as int)),
{
    let s = number::decimal_int(i as int);
    number::decimal_int_reads_back(i);
    lemma_decimal_bare(i);
    lemma_bare(s);
}

pub proof fn lemma_decimal_bare(i: i64)
    ensures
        bare(number::decimal_int(i as int)),
{
    let s = number::decimal_int(i as int);
    let n = (if i < 0 {
        -i
    } else {
        i as int
    }) as nat;
    number::lemma_decimal(n);
    let form = number::decimal(n);
    assert forall|k: int| 0 <= k < s.len() implies !text::white(#[trigger] s[k]) && s[k] != '"'
        && s[k] != '(' && s[k] != ')' && s[k] != ',' by {
        if i < 0 {
            if k > 0 {
                assert(s[k] == form[k - 1]);
                assert(text::digit(form[k - 1]));
            }
        } else {
            assert(text::digit(form[k]));
        }
    }
}

/// A term as it is written: a symbol between quotation marks, an integer in decimal form, and a
/// variable by its name.
pub open spec fn written(term: TermView) -> Seq<char> {
    match term {
        TermView::Sym(name) => seq!['"'] + name + seq!['"'],
        TermView::Int(i) => number::decimal_int(i),
        TermView::Var(name) => name,
    }
}

/// Whether a term can be written: the name of a symbol holds no quotation mark, an integer has
/// 64 bits, and the name of a variable is a bare word with a capital letter or a low line first.
pub open spec fn can_be_written(term: TermView) -> bool {
    match term {
        TermView::Sym(name) => !name.contains('"'),
        TermView::Int(i) => i64::MIN <= i <= i64::MAX,
        TermView::Var(name) => bare(name) && ('A' <= name[0] <= 'Z' || name[0] == '_'),
    }
}

/// The written forms of terms.
pub open spec fn all_written(terms: Seq<TermView>) -> Seq<Seq<char>> {
    terms.map_values(|term: TermView| written(term))
}

/// An atom as it is written.
pub open spec fn atom_written(atom: AtomView) -> Seq<char> {
    atom.pred + seq!['('] + text::join(all_written(atom.args), ", "@) + seq![')']
}

pub proof fn lemma_written(term: TermView)
    requires
        can_be_written(term),
    ensures
        text::trim_free(written(term)),
        clause::read_term(written(term)) == Some(term),
        clause::read_term(seq![' '] + written(term)) == Some(term),
{
    let s = written(term);
    let none = Seq::<char>::empty();
    match term {
        TermView::Sym(name) => {
            quoted_name_is_a_symbol(name);
        },
        TermView::Int(i) => {
            decimal_is_an_integer(i as i64);
            lemma_decimal_bare(i as i64);
            lemma_bare(s);
        },
        TermView::Var(name) => {
            capitalised_word_is_a_variable(name);
            lemma_bare(s);
        },
    }
    assert(none + s + none =~= s);
    text::lemma_trim(none, s, none);
    assert(seq![' '] + s + none =~= seq![' '] + s);
    text::lemma_trim(seq![' '], s, none);
}

pub proof fn lemma_skip_plain(s: Seq<char>, i: int, j: int, start: int)
    requires
        0 <= i <= j <= s.len(),
        forall|k: int|
            i <= k < j ==> (#[trigger] s[k]) != '"' && s[k] != '(' && s[k] != ')' && s[k] != ',',
    ensures
        clause::parts_from(s, i, start, 0, false, ',') == clause::parts_from(
            s,
            j,
            start,
            0,
            false,
            ',',
        ),
    decreases j - i,
{
    if i < j {
        lemma_skip_plain(s, i + 1, j, start);
        assert(s[i] != '"');
    }
}

proof fn lemma_skip_quoted(s: Seq<char>, i: int, j: int, start: int)
    requires
        0 <= i <= j <= s.len(),
        forall|k: int| i <= k < j ==> (#[trigger] s[k]) != '"',
    ensures
        clause::parts_from(s, i, start, 0, true, ',') == clause::parts_from(
            s,
            j,
            start,
            0,
            true,
            ',',
        ),
    decreases j - i,
{
    if i < j {
        lemma_skip_quoted(s, i + 1, j, start);
        assert(s[i] != '"');
    }
}

/// A written term is passed over whole.
pub proof fn lemma_skip_written(s: Seq<char>, i: int, start: int, term: TermView)
    requires
        can_be_written(term),
        0 <= i,
        i + written(term).len() <= s.len(),
        s.subrange(i, i + written(term).len()) == written(term),
    ensures
        clause::parts_from(s, i, start, 0, false, ',') == clause::parts_from(
            s,
            i + written(term).len(),
            start,
            0,
            false,
            ',',
        ),
{
    let form = written(term);
    let j = i + form.len();
    assert forall|k: int| i <= k < j implies s[k] == form[k - i] by {
        assert(s.subrange(i, j)[k - i] == s[k]);
    }
    match term {
        TermView::Sym(name) => {
            assert(s[i] == form[0]);
            assert forall|k: int| i + 1 <= k < j - 1 implies (#[trigger] s[k]) != '"' by {
                assert(form[k - i] == name[k - i - 1]);
                assert(name.contains(name[k - i - 1]));
            }
            lemma_skip_quoted(s, i + 1, j - 1, start);
            assert(s[j - 1] == form[form.len() - 1]);
        },
        TermView::Int(n) => {
            lemma_decimal_bare(n as i64);
            assert forall|k: int| i <= k < j implies (#[trigger] s[k]) != '"' && s[k] != '('
                && s[k] != ')' && s[k] != ',' by {
                assert(s[k] == form[k - i]);
            }
            lemma_skip_plain(s, i, j, start);
        },
        TermView::Var(_) => {
            assert forall|k: int| i <= k < j implies (#[trigger] s[k]) != '"' && s[k] != '('
                && s[k] != ')' && s[k] != ',' by {
                assert(s[k] == form[k - i]);
            }
            lemma_skip_plain(s, i, j, start);
        },
    }
}

/// The parts of written terms are these terms, with the white space that stands before them.
proof fn lemma_parts(front: Seq<char>, lead: Seq<char>, terms: Seq<TermView>)
    requires
        terms.len() > 0,
        lead == Seq::<char>::empty() || lead == seq![' '],
        forall|i: int| 0 <= i < terms.len() ==> can_be_written(#[trigger] terms[i]),
    ensures
        ({
            let whole = front + lead + text::join(all_written(terms), ", "@);
            let at = front.len() as int;
            let parts = clause::parts_from(whole, at, at, 0, false, ',');
            &&& parts.len() == terms.len()
            &&& forall|k: int|
                0 <= k < terms.len() ==> #[trigger] parts[k] == (if k == 0 {
                    lead
                } else {
                    seq![' ']
                }) + written(terms[k])
        }),
    decreases terms.len(),
{
    let texts = all_written(terms);
    let whole = front + lead + text::join(texts, ", "@);
    let at = front.len() as int;
    let first = written(terms[0]);
    reveal_strlit(", ");
    assert(texts[0] == first);
    assert(can_be_written(terms[0]));
    let rest = texts.drop_first();
    if terms.len() > 1 {
        text::lemma_join_first(texts, ", "@);
        assert(text::join(texts, ", "@) =~= first + ", "@ + text::join(rest, ", "@));
    } else {
        assert(text::join(texts, ", "@) == first);
    }
    let from = at + lead.len();
    let to = from + first.len();
    assert(lead.len() > 0 ==> whole[at] == ' ');
    lemma_skip_plain(whole, at, from, at);
    assert(whole.subrange(from, to) =~= first);
    lemma_skip_written(whole, from, at, terms[0]);
    assert(whole.subrange(at, to) =~= lead + first);
    let parts = clause::parts_from(whole, at, at, 0, false, ',');
    if terms.len() > 1 {
        let fewer = terms.drop_first();
        assert(all_written(fewer) =~= rest);
        let ahead = front + lead + first + seq![','];
        assert(whole =~= ahead + seq![' '] + text::join(rest, ", "@));
        assert(ahead.len() == to + 1);
        assert(whole[to] == ',');
        assert forall|i: int| 0 <= i < fewer.len() implies can_be_written(#[trigger] fewer[i]) by {
            assert(fewer[i] == terms[i + 1]);
        }
        lemma_parts(ahead, seq![' '], fewer);
        let others = clause::parts_from(whole, to + 1, to + 1, 0, false, ',');
        assert(parts == seq![lead + first] + others);
        assert forall|k: int| 0 <= k < terms.len() implies #[trigger] parts[k] == (if k == 0 {
            lead
        } else {
            seq![' ']
        }) + written(terms[k]) by {
            if k > 0 {
                assert(parts[k] == others[k - 1]);
                assert(fewer[k - 1] == terms[k]);
            }
        }
    } else {
        assert(to == whole.len());
        assert(parts == seq![whole.subrange(at, to)]);
    }
}

proof fn lemma_terms(parts: Seq<Seq<char>>, terms: Seq<TermView>)
    requires
        parts.len() == terms.len(),
        forall|k: int|
            0 <= k < parts.len() ==> clause::read_term(#[trigger] parts[k]) == Some(terms[k]),
    ensures
        clause::read_terms(parts) == Some(terms),
    decreases parts.len(),
{
    if parts.len() > 0 {
        let fewer = parts.drop_last();
        assert forall|k: int| 0 <= k < fewer.len() implies clause::read_term(#[trigger] fewer[k])
            == Some(terms.drop_last()[k]) by {
            assert(fewer[k] == parts[k]);
        }
        lemma_terms(fewer, terms.drop_last());
        assert(parts[parts.len() - 1] == parts.last());
        assert(terms =~= terms.drop_last().push(terms.last()));
    } else {
        assert(terms =~= seq![]);
    }
}

/// The arguments that are written are the arguments that are read.
proof fn lemma_arguments(terms: Seq<TermView>)
    requires
        forall|i: int| 0 <= i < terms.len() ==> can_be_written(#[trigger] terms[i]),
    ensures
        clause::read_terms(clause::parts_of(text::join(all_written(terms), ", "@))) == Some(terms),
{
    let none = Seq::<char>::empty();
    let texts = all_written(terms);
    let whole = text::join(texts, ", "@);
    if terms.len() == 0 {
        assert(whole =~= none);
        assert(text::trimmed(whole) == none);
        lemma_terms(seq![], terms);
    } else {
        lemma_parts(none, none, terms);
        assert(none + none + whole =~= whole);
        let parts = clause::parts_from(whole, 0, 0, 0, false, ',');
        let n = terms.len() - 1;
        lemma_written(terms[0]);
        lemma_written(terms[n]);
        assert(texts[0] == written(terms[0]));
        assert(texts[n] == written(terms[n]));
        if terms.len() > 1 {
            text::lemma_join_first(texts, ", "@);
            assert(whole[0] == texts[0][0]);
            assert(whole.last() == texts.last().last());
        }
        assert(text::trim_free(whole));
        assert(none + whole + none =~= whole);
        text::lemma_trim(none, whole, none);
        assert forall|k: int| 0 <= k < parts.len() implies clause::read_term(#[trigger] parts[k])
            == Some(terms[k]) by {
            lemma_written(terms[k]);
            assert(none + written(terms[k]) =~= written(terms[k]));
        }
        lemma_terms(parts, terms);
    }
}

/// An atom that is written is read with its relation and its terms, in their order.
pub proof fn written_atom_is_read(atom: AtomView)
    requires
        bare(atom.pred),
        forall|i: int| 0 <= i < atom.args.len() ==> can_be_written(#[trigger] atom.args[i]),
    ensures
        clause::read_atom(atom_written(atom)) == Some(atom),
        clause::read_goal(atom_written(atom)) == Some(atom),
        clause::read_goal(atom_written(atom) + seq!['.']) == Some(atom),
{
    let none = Seq::<char>::empty();
    let s = atom_written(atom);
    let list = text::join(all_written(atom.args), ", "@);
    lemma_bare(atom.pred);
    assert(s[0] == atom.pred[0]);
    assert(s.last() == ')');
    assert(text::trim_free(s));
    assert(none + s + none =~= s);
    text::lemma_trim(none, s, none);
    assert(!atom.pred.contains('('));
    assert(s =~= atom.pred + seq!['('] + (list + seq![')']));
    text::lemma_cut_char(atom.pred, '(', list + seq![')']);
    assert((list + seq![')']).drop_last() =~= list);
    lemma_arguments(atom.args);
    let pointed = s + seq!['.'];
    assert(text::trimmed_end(pointed) == pointed);
    assert(pointed.drop_last() =~= s);
    assert(text::trimmed_end(s) == s);
}

/// Whether a term can stand beside a sign: its written form has no character of a sign.
pub open spec fn signless(term: TermView) -> bool {
    can_be_written(term) && !written(term).contains('=') && !written(term).contains('<')
        && !written(term).contains('>') && !written(term).contains('!')
}

proof fn lemma_no_sign(
    lead: Seq<char>,
    a: TermView,
    b: TermView,
    sign: Seq<char>,
    other: Seq<char>,
)
    requires
        signless(a),
        signless(b),
        forall|k: int|
            0 <= k < other.len() ==> (#[trigger] other[k]) == '=' || other[k] == '<' || other[k]
                == '>' || other[k] == '!',
        other.len() > 0,
        lead == Seq::<char>::empty() || lead == seq![' '],
        text::contains_text(
            lead + written(a) + (seq![' '] + sign + seq![' ']) + written(b),
            other,
        ),
    ensures
        text::contains_text(sign, other),
{
    let s = lead + written(a) + (seq![' '] + sign + seq![' ']) + written(b);
    let i = choose|i: int| text::occurs_at(s, other, i);
    let n = lead.len() + written(a).len() as int + 1;
    let m = n + sign.len();
    assert forall|k: int| 0 <= k < other.len() implies (#[trigger] other[k]) == s[i + k] && n <= i
        + k < m by {
        assert(s.subrange(i, i + other.len())[k] == other[k]);
        assert(s[i + k] == other[k]);
        if i + k < lead.len() {
            assert(lead[i + k] == ' ');
        } else if i + k < lead.len() + written(a).len() {
            assert(written(a)[i + k - lead.len()] == other[k]);
            assert(written(a).contains(other[k]));
        } else if i + k > m {
            assert(written(b)[i + k - m - 1] == other[k]);
            assert(written(b).contains(other[k]));
        }
    }
    assert(other[0] == s[i] && other[other.len() - 1] == s[i + other.len() - 1]);
    assert(sign.subrange(i - n, i - n + other.len()) =~= s.subrange(i, i + other.len()));
    assert(text::occurs_at(sign, other, i - n));
}

proof fn lemma_guard_with(
    lead: Seq<char>,
    a: TermView,
    b: TermView,
    sign: Seq<char>,
    comparison: Comparison,
)
    requires
        signless(a),
        signless(b),
        forall|k: int|
            0 <= k < sign.len() ==> (#[trigger] sign[k]) == '=' || sign[k] == '<' || sign[k] == '>'
                || sign[k] == '!',
        sign.len() > 0,
        lead == Seq::<char>::empty() || lead == seq![' '],
    ensures
        clause::guard_with(
            lead + written(a) + (seq![' '] + sign + seq![' ']) + written(b),
            sign,
            comparison,
        ) == Some(GuardView { left: a, comparison, right: b }),
{
    let s = lead + written(a) + (seq![' '] + sign + seq![' ']) + written(b);
    let n = lead.len() + written(a).len() as int + 1;
    assert(s.subrange(n, n + sign.len()) =~= sign);
    assert(text::occurs_at(s, sign, n));
    text::lemma_first_match(s, sign);
    let i = text::first_match(s, sign)->0;
    assert(i == n) by {
        assert(s.subrange(i, i + sign.len())[0] == sign[0]);
        assert(s[i] == sign[0]);
        if i < lead.len() {
            assert(lead[i] == ' ');
        } else if i < lead.len() + written(a).len() {
            assert(written(a)[i - lead.len()] == sign[0]);
            assert(written(a).contains(sign[0]));
        }
    }
    assert(s.take(i) =~= lead + written(a) + seq![' ']);
    assert(s.skip(i + sign.len()) =~= seq![' '] + written(b));
    lemma_written(a);
    lemma_written(b);
    let none = Seq::<char>::empty();
    text::lemma_trim(lead, written(a), seq![' ']);
    assert(none + written(a) + none =~= written(a));
    text::lemma_trim(none, written(a), none);
}

proof fn lemma_no_guard(s: Seq<char>, sign: Seq<char>, comparison: Comparison)
    requires
        !text::contains_text(s, sign),
    ensures
        clause::guard_with(s, sign, comparison) is None,
{
    text::lemma_first_match(s, sign);
}

/// The sign of a comparison.
pub open spec fn sign(comparison: Comparison) -> Seq<char> {
    match comparison {
        Comparison::AtMost => seq!['=', '<'],
        Comparison::AtLeast => seq!['>', '='],
        Comparison::Differs => seq!['!', '='],
        Comparison::Below => seq!['<'],
        Comparison::Above => seq!['>'],
        Comparison::Equals => seq!['='],
    }
}

pub proof fn lemma_comparison(lead: Seq<char>, a: TermView, b: TermView, comparison: Comparison)
    requires
        signless(a),
        signless(b),
        lead == Seq::<char>::empty() || lead == seq![' '],
    ensures
        clause::read_guard(
            lead + written(a) + (seq![' '] + sign(comparison) + seq![' ']) + written(b),
        ) == Some(GuardView { left: a, comparison, right: b }),
{
    let own = sign(comparison);
    let s = lead + written(a) + (seq![' '] + own + seq![' ']) + written(b);
    reveal_strlit("=<");
    reveal_strlit(">=");
    reveal_strlit("!=");
    reveal_strlit("<");
    reveal_strlit(">");
    reveal_strlit("=");
    assert("=<"@ =~= seq!['=', '<']);
    assert(">="@ =~= seq!['>', '=']);
    assert("!="@ =~= seq!['!', '=']);
    assert("<"@ =~= seq!['<']);
    assert(">"@ =~= seq!['>']);
    assert("="@ =~= seq!['=']);
    lemma_guard_with(lead, a, b, own, comparison);
    assert forall|other: Seq<char>|
        (other == "=<"@ || other == ">="@ || other == "!="@ || other == "<"@ || other == ">"@) && (
        own.len() < other.len() || own.len() == other.len() && own != other)
            implies !#[trigger] text::contains_text(s, other) by {
        if text::contains_text(s, other) {
            lemma_no_sign(lead, a, b, own, other);
            let i = choose|i: int| text::occurs_at(own, other, i);
            assert(own.subrange(i, i + other.len()) =~= own);
        }
    }
    assert("=<"@[0] == '=' && ">="@[0] == '>' && "!="@[0] == '!');
    assert("<"@[0] == '<' && ">"@[0] == '>' && "="@[0] == '=');
    match comparison {
        Comparison::AtMost => assert(own[0] == '=' && own.len() == 2 && own == "=<"@),
        Comparison::AtLeast => assert(own[0] == '>' && own.len() == 2 && own == ">="@),
        Comparison::Differs => assert(own[0] == '!' && own.len() == 2 && own == "!="@),
        Comparison::Below => assert(own[0] == '<' && own.len() == 1 && own == "<"@),
        Comparison::Above => assert(own[0] == '>' && own.len() == 1 && own == ">"@),
        Comparison::Equals => assert(own[0] == '=' && own.len() == 1 && own == "="@),
    }
    if own != "=<"@ {
        lemma_no_guard(s, "=<"@, Comparison::AtMost);
        if own != ">="@ {
            lemma_no_guard(s, ">="@, Comparison::AtLeast);
            if own != "!="@ {
                lemma_no_guard(s, "!="@, Comparison::Differs);
                if own != "<"@ {
                    lemma_no_guard(s, "<"@, Comparison::Below);
                    if own != ">"@ {
                        lemma_no_guard(s, ">"@, Comparison::Above);
                    }
                }
            }
        }
    }
}

/// A comparison as it is written: the sign stands between the terms.
pub open spec fn guard_written(guard: GuardView) -> Seq<char> {
    written(guard.left) + (seq![' '] + sign(guard.comparison) + seq![' ']) + written(guard.right)
}

/// Two terms with the sign of a comparison between them are read as that comparison of them.
pub proof fn written_comparison_is_read(guard: GuardView)
    requires
        signless(guard.left),
        signless(guard.right),
    ensures
        clause::read_guard(guard_written(guard)) == Some(guard),
{
    let none = Seq::<char>::empty();
    lemma_comparison(none, guard.left, guard.right, guard.comparison);
    assert(none + written(guard.left) + (seq![' '] + sign(guard.comparison) + seq![' '])
        + written(guard.right) =~= guard_written(guard));
}

/// What stands behind a number sign, up to the end of the line, is no clause.
pub proof fn comment_is_no_clause(comment: Seq<char>)
    requires
        !comment.contains('\n'),
    ensures
        clause::read_program(seq!['#'] + comment) == Some(Seq::<RuleView>::empty()),
        clause::read_program(seq!['#'] + comment + seq!['\n']) == Some(Seq::<RuleView>::empty()),
{
    let s = seq!['#'] + comment;
    let fed = s + seq!['\n'];
    let none = Seq::<char>::empty();
    lemma_comment(s, 1);
    lemma_comment(fed, 1);
    assert(s[0] == '#');
    assert(fed[0] == '#');
    assert(clause::uncommented(s, 0, false, false) =~= none);
    assert(clause::uncommented(fed, 0, false, false) =~= seq!['\n']);
    assert(none.subrange(0, 0) =~= none);
    assert(clause::parts_from(none, 0, 0, 0, false, '.') =~= seq![none]);
    assert(text::trimmed(none) == none);
    let feed = seq!['\n'];
    assert(feed.subrange(0, 1) =~= feed);
    reveal_with_fuel(clause::parts_from, 2);
    assert(clause::parts_from(feed, 0, 0, 0, false, '.') =~= seq![feed]);
    assert(feed.drop_first() =~= none);
    assert(text::trimmed_start(feed) == text::trimmed_start(none));
    assert(seq![none].drop_last() =~= Seq::<Seq<char>>::empty());
    assert(seq![feed].drop_last() =~= Seq::<Seq<char>>::empty());
}

proof fn lemma_comment(s: Seq<char>, i: int)
    requires
        0 <= i <= s.len(),
        forall|k: int| i <= k < s.len() - 1 ==> s[k] != '\n',
    ensures
        clause::uncommented(s, i, false, true) == if i < s.len() && s.last() == '\n' {
            seq!['\n']
        } else {
            Seq::<char>::empty()
        },
    decreases s.len() - i,
{
    if i < s.len() {
        lemma_comment(s, i + 1);
        if i == s.len() - 1 {
            assert(clause::uncommented(s, i + 1, false, false) =~= seq![]);
        }
    }
}

/// A clause that is read is safe: each variable of its head and of its comparisons stands in an
/// atom of its body, and is not the low line.
pub proof fn read_clauses_are_safe(s: Seq<char>, rule: RuleView, name: Seq<char>)
    requires
        clause::read_clause(s) == Some(rule),
        rule.head.args.contains(TermView::Var(name)) || exists|i: int|
            0 <= i < rule.guards.len() && ((#[trigger] rule.guards[i]).left == TermView::Var(name)
                || rule.guards[i].right == TermView::Var(name)),
    ensures
        name != seq!['_'],
        exists|i: int|
            0 <= i < rule.body.len() && (#[trigger] rule.body[i]).args.contains(
                TermView::Var(name),
            ),
{
    reveal_strlit("_");
    assert("_"@ =~= seq!['_']);
    if rule.head.args.contains(TermView::Var(name)) {
        let i = choose|i: int|
            0 <= i < rule.head.args.len() && rule.head.args[i] == TermView::Var(name);
        assert(clause::covered(rule.body, rule.head.args[i]));
    }
}

/// A bare word that is no number and begins with neither a capital letter of seven bits nor a low line
/// is a symbol, whatever else it begins with.
pub proof fn other_words_are_symbols(w: Seq<char>, k: int)
    requires
        bare(w),
        !('A' <= w[0] <= 'Z'),
        w[0] != '_',
        0 <= k < w.len(),
        !('0' <= w[k] <= '9'),
        k > 0 || w[0] != '+' && w[0] != '-',
    ensures
        clause::read_term(w) == Some(TermView::Sym(w)),
{
    lemma_bare(w);
    let digits = if w[0] == '-' {
        w.drop_first()
    } else {
        number::without_plus(w)
    };
    let at = if w[0] == '+' || w[0] == '-' {
        k - 1
    } else {
        k
    };
    assert(digits[at] == w[k]);
    assert(!text::digit(digits[at]));
    assert(number::read_i64(w) is None);
}

/// White space around a term means nothing.
pub proof fn space_around_a_term_means_nothing(before: Seq<char>, w: Seq<char>, behind: Seq<char>)
    requires
        text::trim_free(w),
        forall|i: int| 0 <= i < before.len() ==> text::white(#[trigger] before[i]),
        forall|i: int| 0 <= i < behind.len() ==> text::white(#[trigger] behind[i]),
    ensures
        clause::read_term(before + w + behind) == clause::read_term(w),
        clause::read_atom(before + w + behind) == clause::read_atom(w),
{
    let none = Seq::<char>::empty();
    text::lemma_trim(before, w, behind);
    text::lemma_trim(none, w, none);
    assert(none + w + none =~= w);
}

/// A quotation mark that is not closed, one within a word, and nothing at all are no terms.
pub proof fn broken_terms_are_not_read(w: Seq<char>, i: int)
    requires
        text::trim_free(w),
        0 <= i < w.len(),
        w[i] == '"' || w[i] == '(' || w[i] == ')' || w[i] == ',' || text::white(w[i]),
        w[0] != '"' || w.last() != '"' || w.len() == 1,
    ensures
        clause::read_term(w) is None,
        clause::read_term(Seq::<char>::empty()) is None,
{
    let none = Seq::<char>::empty();
    text::lemma_trim(none, w, none);
    assert(none + w + none =~= w);
    assert(!clause::word_char(w[i]));
    assert(text::trimmed(none) == none);
}

/// A text without an opening bracket, or whose last character is not a closing one, is no atom.
pub proof fn broken_atoms_are_not_read(s: Seq<char>)
    requires
        text::trim_free(s),
        !s.contains('(') || s.last() != ')',
    ensures
        clause::read_atom(s) is None,
{
    let none = Seq::<char>::empty();
    text::lemma_trim(none, s, none);
    assert(none + s + none =~= s);
    text::lemma_cut_char_parts(s, '(');
    match text::cut_char(s, '(') {
        None => {},
        Some((name, rest)) => {
            assert(s == name + seq!['('] + rest);
            assert(s[name.len() as int] == '(');
            assert(s.contains('('));
            if rest.len() > 0 {
                assert(s[s.len() - 1] == rest[rest.len() - 1]);
                assert(rest.last() != ')');
            }
        },
    }
}

} // verus!
