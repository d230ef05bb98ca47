//! Programs that stand one behind the other are one program.

use vstd::prelude::*;

use crate::clause;
use crate::text;

verus! {

/// Whether a text is white space alone.
spec fn blank(s: Seq<char>) -> bool {
    forall|i: int| 0 <= i < s.len() ==> text::white(#[trigger] s[i])
}

proof fn lemma_end_blank(s: Seq<char>)
    requires
        text::trimmed_end(s).len() == 0,
    ensures
        blank(s),
    decreases s.len(),
{
    if s.len() > 0 {
        let fewer = s.drop_last();
        lemma_end_blank(fewer);
        assert forall|i: int| 0 <= i < s.len() implies text::white(#[trigger] s[i]) by {
            if i < fewer.len() {
                assert(text::white(fewer[i]));
            }
        }
    }
}

proof fn lemma_start_blank(s: Seq<char>)
    requires
        blank(text::trimmed_start(s)),
    ensures
        blank(s),
    decreases s.len(),
{
    if s.len() > 0 && text::white(s[0]) {
        let rest = s.drop_first();
        lemma_start_blank(rest);
        assert forall|i: int| 0 <= i < s.len() implies text::white(#[trigger] s[i]) by {
            if i > 0 {
                assert(text::white(rest[i - 1]));
            }
        }
    }
}

/// White space before a text is trimmed with it.
proof fn lemma_blank_front(front: Seq<char>, s: Seq<char>)
    requires
        blank(front),
    ensures
        text::trimmed(front + s) == text::trimmed(s),
    decreases front.len(),
{
    if front.len() > 0 {
        let rest = front.drop_first();
        assert(text::white(front[0]));
        assert forall|i: int| 0 <= i < rest.len() implies text::white(#[trigger] rest[i]) by {
            assert(text::white(front[i + 1]));
        }
        lemma_blank_front(rest, s);
        assert((front + s).drop_first() =~= rest + s);
    } else {
        assert(front + s =~= s);
    }
}

/// What matches behind a text matches there by itself.
proof fn lemma_match_shift(front: Seq<char>, s: Seq<char>, part: Seq<char>, k: int)
    requires
        0 <= k,
    ensures
        text::first_match_from(front + s, part, front.len() + k) == match text::first_match_from(
            s,
            part,
            k,
        ) {
            Some(i) => Some(front.len() + i),
            None => None,
        },
    decreases s.len() + 1 - k,
{
    let whole = front + s;
    if k + part.len() <= s.len() {
        assert(whole.subrange(front.len() + k, front.len() + k + part.len()) =~= s.subrange(
            k,
            k + part.len(),
        ));
        if !text::occurs_at(s, part, k) {
            lemma_match_shift(front, s, part, k + 1);
        }
    }
}

/// The sign of a rule does not begin in white space.
proof fn lemma_match_blank(front: Seq<char>, s: Seq<char>, from: int)
    requires
        blank(front),
        0 <= from <= front.len(),
    ensures
        text::first_match_from(front + s, ":-"@, from) == text::first_match_from(
            front + s,
            ":-"@,
            front.len() as int,
        ),
    decreases front.len() - from,
{
    let whole = front + s;
    reveal_strlit(":-");
    if from < front.len() {
        assert(text::white(front[from]));
        if from + 2 <= whole.len() {
            assert(whole.subrange(from, from + 2)[0] == front[from]);
            assert(!text::occurs_at(whole, ":-"@, from));
        }
        lemma_match_blank(front, s, from + 1);
    }
}

/// White space before a clause changes nothing.
proof fn lemma_clause_blank(front: Seq<char>, s: Seq<char>)
    requires
        blank(front),
    ensures
        clause::read_clause(front + s) == clause::read_clause(s),
{
    let whole = front + s;
    reveal_strlit(":-");
    lemma_match_blank(front, s, 0);
    lemma_match_shift(front, s, ":-"@, 0);
    match text::first_match(s, ":-"@) {
        None => {
            lemma_blank_front(front, s);
        },
        Some(i) => {
            text::lemma_first_match(s, ":-"@);
            assert(whole.take(front.len() + i) =~= front + s.take(i));
            assert(whole.skip(front.len() + i + 2) =~= s.skip(i + 2));
            lemma_blank_front(front, s.take(i));
        },
    }
}

// ----------------------------------------------------------------- pieces
/// Whether quotation marks are open behind a text.
spec fn open_behind(s: Seq<char>, quoted: bool) -> bool
    decreases s.len(),
{
    if s.len() == 0 {
        quoted
    } else {
        open_behind(s.drop_first(), quoted != (s[0] == '"'))
    }
}

/// A piece that was begun is in no brackets and no quotation marks while it is blank.
spec fn begun(s: Seq<char>, i: int, start: int, depth: int, quoted: bool) -> bool {
    blank(s.subrange(start, i)) ==> depth == 0 && !quoted
}

/// A text whose last piece is blank ends in no brackets and no quotation marks: what stands behind
/// it is parted by itself.
proof fn lemma_parts_behind(
    s: Seq<char>,
    more: Seq<char>,
    i: int,
    start: int,
    depth: int,
    quoted: bool,
)
    requires
        0 <= start <= i <= s.len(),
        begun(s, i, start, depth, quoted),
        blank(clause::parts_from(s, i, start, depth, quoted, '.').last()),
    ensures
        ({
            let parts = clause::parts_from(s, i, start, depth, quoted, '.');
            let last = s.len() - parts.last().len();
            &&& parts.len() > 0
            &&& 0 <= last <= s.len()
            &&& parts.last() == s.subrange(last, s.len() as int)
            &&& !open_behind(s.skip(i), quoted)
            &&& clause::parts_from(s + more, i, start, depth, quoted, '.') == parts.drop_last()
                + clause::parts_from(s + more, s.len() as int, last, 0, false, '.')
        }),
    decreases s.len() - i,
{
    let whole = s + more;
    let parts = clause::parts_from(s, i, start, depth, quoted, '.');
    if i < s.len() {
        let c = s[i];
        assert(whole[i] == c);
        assert(s.skip(i).drop_first() =~= s.skip(i + 1));
        assert(s.skip(i)[0] == c);
        let longer = s.subrange(start, i + 1);
        assert(longer[i - start] == c);
        assert(blank(longer) ==> text::white(c));
        assert(blank(longer) ==> blank(s.subrange(start, i))) by {
            if blank(longer) {
                assert forall|k: int| 0 <= k < i - start implies text::white(
                    #[trigger] s.subrange(start, i)[k],
                ) by {
                    assert(text::white(longer[k]));
                }
            }
        }
        if c == '"' {
            lemma_parts_behind(s, more, i + 1, start, depth, !quoted);
        } else if quoted {
            lemma_parts_behind(s, more, i + 1, start, depth, true);
        } else if c == '(' {
            lemma_parts_behind(s, more, i + 1, start, depth + 1, false);
        } else if c == ')' {
            lemma_parts_behind(s, more, i + 1, start, depth - 1, false);
        } else if c == '.' && depth == 0 {
            let rest = clause::parts_from(s, i + 1, i + 1, 0, false, '.');
            lemma_parts_some(s, i + 1, i + 1, 0, false, '.');
            assert(parts.last() == rest.last());
            lemma_parts_behind(s, more, i + 1, i + 1, 0, false);
            assert(whole.subrange(start, i) =~= s.subrange(start, i));
            let first = seq![s.subrange(start, i)];
            let last = s.len() - parts.last().len();
            let behind = clause::parts_from(whole, s.len() as int, last, 0, false, '.');
            assert(parts.drop_last() =~= first + rest.drop_last());
            assert(first + (rest.drop_last() + behind) =~= parts.drop_last() + behind);
        } else {
            lemma_parts_behind(s, more, i + 1, start, depth, false);
        }
    } else {
        assert(parts[0] == s.subrange(start, s.len() as int));
        assert(s.skip(i) =~= seq![]);
        let behind = clause::parts_from(whole, i, start, 0, false, '.');
        assert(parts.drop_last() + behind =~= behind);
    }
}

/// A text has at least one piece.
proof fn lemma_parts_some(
    s: Seq<char>,
    i: int,
    start: int,
    depth: int,
    quoted: bool,
    separator: char,
)
    ensures
        clause::parts_from(s, i, start, depth, quoted, separator).len() > 0,
    decreases s.len() - i,
{
    if 0 <= i < s.len() {
        let c = s[i];
        if c == '"' {
            lemma_parts_some(s, i + 1, start, depth, !quoted, separator);
        } else if quoted {
            lemma_parts_some(s, i + 1, start, depth, true, separator);
        } else if c == '(' {
            lemma_parts_some(s, i + 1, start, depth + 1, false, separator);
        } else if c == ')' {
            lemma_parts_some(s, i + 1, start, depth - 1, false, separator);
        } else if c == separator && depth == 0 {
        } else {
            lemma_parts_some(s, i + 1, start, depth, false, separator);
        }
    }
}

/// Pieces that begin behind a text are the pieces of what stands there.
proof fn lemma_parts_shift(
    front: Seq<char>,
    s: Seq<char>,
    i: int,
    start: int,
    depth: int,
    quoted: bool,
)
    requires
        0 <= start <= i <= s.len(),
    ensures
        clause::parts_from(front + s, front.len() + i, front.len() + start, depth, quoted, '.')
            == clause::parts_from(s, i, start, depth, quoted, '.'),
    decreases s.len() - i,
{
    let whole = front + s;
    if i < s.len() {
        let c = s[i];
        assert(whole[front.len() + i] == c);
        assert(whole.subrange(front.len() + start, front.len() + i) =~= s.subrange(start, i));
        if c == '"' {
            lemma_parts_shift(front, s, i + 1, start, depth, !quoted);
        } else if quoted {
            lemma_parts_shift(front, s, i + 1, start, depth, true);
        } else if c == '(' {
            lemma_parts_shift(front, s, i + 1, start, depth + 1, false);
        } else if c == ')' {
            lemma_parts_shift(front, s, i + 1, start, depth - 1, false);
        } else if c == '.' && depth == 0 {
            lemma_parts_shift(front, s, i + 1, i + 1, 0, false);
        } else {
            lemma_parts_shift(front, s, i + 1, start, depth, false);
        }
    } else {
        assert(whole.subrange(front.len() + start, whole.len() as int) =~= s.subrange(
            start,
            s.len() as int,
        ));
    }
}

/// A piece that began before a text has more in front, and the others are the pieces of the text.
proof fn lemma_parts_front(
    front: Seq<char>,
    s: Seq<char>,
    i: int,
    start: int,
    depth: int,
    quoted: bool,
)
    requires
        0 <= start <= front.len(),
        0 <= i <= s.len(),
    ensures
        ({
            let parts = clause::parts_from(s, i, 0, depth, quoted, '.');
            &&& parts.len() > 0
            &&& clause::parts_from(front + s, front.len() + i, start, depth, quoted, '.')
                == parts.update(0, front.subrange(start, front.len() as int) + parts[0])
        }),
    decreases s.len() - i,
{
    let whole = front + s;
    let parts = clause::parts_from(s, i, 0, depth, quoted, '.');
    let begin = front.subrange(start, front.len() as int);
    lemma_parts_some(s, i, 0, depth, quoted, '.');
    if i < s.len() {
        let c = s[i];
        assert(whole[front.len() + i] == c);
        if c == '"' {
            lemma_parts_front(front, s, i + 1, start, depth, !quoted);
        } else if quoted {
            lemma_parts_front(front, s, i + 1, start, depth, true);
        } else if c == '(' {
            lemma_parts_front(front, s, i + 1, start, depth + 1, false);
        } else if c == ')' {
            lemma_parts_front(front, s, i + 1, start, depth - 1, false);
        } else if c == '.' && depth == 0 {
            lemma_parts_shift(front, s, i + 1, i + 1, 0, false);
            let rest = clause::parts_from(s, i + 1, i + 1, 0, false, '.');
            assert(whole.subrange(start, front.len() + i) =~= begin + s.subrange(0, i));
            assert(parts =~= seq![s.subrange(0, i)] + rest);
            assert(seq![begin + s.subrange(0, i)] + rest =~= parts.update(0, begin + parts[0]));
        } else {
            lemma_parts_front(front, s, i + 1, start, depth, false);
        }
    } else {
        assert(parts[0] == s.subrange(0, s.len() as int));
        assert(whole.subrange(start, whole.len() as int) =~= begin + s.subrange(
            0,
            s.len() as int,
        ));
        assert(clause::parts_from(whole, front.len() + i, start, depth, quoted, '.')
            =~= parts.update(0, begin + parts[0]));
    }
}

// --------------------------------------------------------------- comments
/// Whether quotation marks are open behind a text, comments aside.
spec fn quoted_behind(s: Seq<char>, i: int, quoted: bool, comment: bool) -> bool
    decreases s.len() - i,
{
    if i < 0 || i >= s.len() {
        quoted
    } else if s[i] == '\n' {
        quoted_behind(s, i + 1, quoted, false)
    } else if comment {
        quoted_behind(s, i + 1, quoted, true)
    } else if s[i] == '#' && !quoted {
        quoted_behind(s, i + 1, false, true)
    } else {
        quoted_behind(s, i + 1, quoted != (s[i] == '"'), false)
    }
}

/// Without comments the same quotation marks are open.
proof fn lemma_quoted_behind(s: Seq<char>, i: int, quoted: bool, comment: bool)
    requires
        0 <= i <= s.len(),
    ensures
        quoted_behind(s, i, quoted, comment) == open_behind(
            clause::uncommented(s, i, quoted, comment),
            quoted,
        ),
    decreases s.len() - i,
{
    if i < s.len() {
        let all = clause::uncommented(s, i, quoted, comment);
        if s[i] == '\n' {
            lemma_quoted_behind(s, i + 1, quoted, false);
            assert(all.drop_first() =~= clause::uncommented(s, i + 1, quoted, false));
        } else if comment {
            lemma_quoted_behind(s, i + 1, quoted, true);
        } else if s[i] == '#' && !quoted {
            lemma_quoted_behind(s, i + 1, false, true);
        } else {
            let after = quoted != (s[i] == '"');
            lemma_quoted_behind(s, i + 1, after, false);
            assert(all.drop_first() =~= clause::uncommented(s, i + 1, after, false));
        }
    }
}

/// What stands behind a text loses its comments by itself.
proof fn lemma_uncommented_shift(
    front: Seq<char>,
    s: Seq<char>,
    i: int,
    quoted: bool,
    comment: bool,
)
    requires
        0 <= i <= s.len(),
    ensures
        clause::uncommented(front + s, front.len() + i, quoted, comment) == clause::uncommented(
            s,
            i,
            quoted,
            comment,
        ),
    decreases s.len() - i,
{
    let whole = front + s;
    if i < s.len() {
        assert(whole[front.len() + i] == s[i]);
        if s[i] == '\n' {
            lemma_uncommented_shift(front, s, i + 1, quoted, false);
        } else if comment {
            lemma_uncommented_shift(front, s, i + 1, quoted, true);
        } else if s[i] == '#' && !quoted {
            lemma_uncommented_shift(front, s, i + 1, false, true);
        } else {
            lemma_uncommented_shift(front, s, i + 1, quoted != (s[i] == '"'), false);
        }
    }
}

/// A text on lines of its own behind another loses its comments by itself, apart from the quotation
/// marks that are open.
proof fn lemma_uncommented_add(a: Seq<char>, b: Seq<char>, i: int, quoted: bool, comment: bool)
    requires
        0 <= i <= a.len(),
    ensures
        clause::uncommented(a + seq!['\n'] + b, i, quoted, comment) == clause::uncommented(
            a,
            i,
            quoted,
            comment,
        ) + seq!['\n'] + clause::uncommented(b, 0, quoted_behind(a, i, quoted, comment), false),
    decreases a.len() - i,
{
    let whole = a + seq!['\n'] + b;
    let behind = clause::uncommented(b, 0, quoted_behind(a, i, quoted, comment), false);
    let own = clause::uncommented(a, i, quoted, comment);
    if i < a.len() {
        assert(whole[i] == a[i]);
        if a[i] == '\n' {
            lemma_uncommented_add(a, b, i + 1, quoted, false);
            let rest = clause::uncommented(a, i + 1, quoted, false);
            assert(seq!['\n'] + (rest + seq!['\n'] + behind) =~= own + seq!['\n'] + behind);
        } else if comment {
            lemma_uncommented_add(a, b, i + 1, quoted, true);
        } else if a[i] == '#' && !quoted {
            lemma_uncommented_add(a, b, i + 1, false, true);
        } else {
            let after = quoted != (a[i] == '"');
            lemma_uncommented_add(a, b, i + 1, after, false);
            let rest = clause::uncommented(a, i + 1, after, false);
            assert(seq![a[i]] + (rest + seq!['\n'] + behind) =~= own + seq!['\n'] + behind);
        }
    } else {
        assert(whole[i] == '\n');
        lemma_uncommented_shift(a + seq!['\n'], b, 0, quoted, false);
        assert(own + seq!['\n'] + behind =~= seq!['\n'] + behind);
    }
}

// ---------------------------------------------------------------- clauses
/// Clauses of texts one behind the other stand one behind the other.
proof fn lemma_clauses_add(a: Seq<Seq<char>>, b: Seq<Seq<char>>)
    requires
        clause::read_clauses(a) is Some,
        clause::read_clauses(b) is Some,
    ensures
        clause::read_clauses(a + b) == Some(
            clause::read_clauses(a)->0 + clause::read_clauses(b)->0,
        ),
    decreases b.len(),
{
    if b.len() == 0 {
        assert(a + b =~= a);
        assert(clause::read_clauses(a)->0 + clause::read_clauses(b)->0
            =~= clause::read_clauses(a)->0);
    } else {
        assert((a + b).drop_last() =~= a + b.drop_last());
        lemma_clauses_add(a, b.drop_last());
        assert(clause::read_clauses(a + b)->0 =~= clause::read_clauses(a)->0
            + clause::read_clauses(b)->0);
    }
}

/// Texts that write the same clauses write the same program.
proof fn lemma_clauses_same(a: Seq<Seq<char>>, b: Seq<Seq<char>>)
    requires
        a.len() == b.len(),
        forall|i: int|
            0 <= i < a.len() ==> clause::read_clause(#[trigger] a[i]) == clause::read_clause(b[i]),
    ensures
        clause::read_clauses(a) == clause::read_clauses(b),
    decreases a.len(),
{
    if a.len() > 0 {
        let fewer = a.drop_last();
        assert forall|i: int| 0 <= i < fewer.len() implies clause::read_clause(
            #[trigger] fewer[i],
        ) == clause::read_clause(b.drop_last()[i]) by {
            assert(fewer[i] == a[i]);
        }
        lemma_clauses_same(fewer, b.drop_last());
        assert(clause::read_clause(a[a.len() - 1]) == clause::read_clause(b[a.len() - 1]));
    }
}

/// Programs on lines of their own, one behind the other, are the program of the clauses of both.
pub proof fn programs_join(a: Seq<char>, b: Seq<char>)
    requires
        clause::read_program(a) is Some,
        clause::read_program(b) is Some,
    ensures
        clause::read_program(a + "\n"@ + b) == Some(
            clause::read_program(a)->0 + clause::read_program(b)->0,
        ),
{
    reveal_strlit("\n");
    let feed = seq!['\n'];
    assert("\n"@ =~= feed);
    let ua = clause::uncommented(a, 0, false, false);
    let ub = clause::uncommented(b, 0, false, false);
    let pa = clause::parts_from(ua, 0, 0, 0, false, '.');
    let pb = clause::parts_from(ub, 0, 0, 0, false, '.');
    lemma_parts_some(ua, 0, 0, 0, false, '.');
    lemma_parts_some(ub, 0, 0, 0, false, '.');
    lemma_end_blank(text::trimmed_start(pa.last()));
    lemma_start_blank(pa.last());
    lemma_end_blank(text::trimmed_start(pb.last()));
    lemma_start_blank(pb.last());
    let more = feed + ub;
    lemma_parts_behind(ua, more, 0, 0, 0, false);
    let last = ua.len() - pa.last().len();
    assert(ua.skip(0) =~= ua);
    lemma_quoted_behind(a, 0, false, false);
    lemma_uncommented_add(a, b, 0, false, false);
    let whole = ua + more;
    assert(clause::uncommented(a + "\n"@ + b, 0, false, false) =~= whole);
    lemma_parts_front(ua, more, 0, last, 0, false);
    assert(more[0] == '\n');
    lemma_parts_front(feed, ub, 0, 0, 0, false);
    let front = pa.last() + feed;
    let behind = clause::parts_from(whole, ua.len() as int, last, 0, false, '.');
    let first = front + pb[0];
    let pm = clause::parts_from(more, 0, 0, 0, false, '.');
    assert(pm == pb.update(0, feed + pb[0])) by {
        assert(feed.subrange(0, 1) =~= feed);
    }
    assert(behind =~= pb.update(0, first)) by {
        assert(pa.last() + (feed + pb[0]) =~= first);
    }
    assert(blank(front)) by {
        assert forall|i: int| 0 <= i < front.len() implies text::white(#[trigger] front[i]) by {
            if i < pa.last().len() {
                assert(text::white(pa.last()[i]));
            }
        }
    }
    let parts = pa.drop_last() + behind;
    assert(clause::parts_from(whole, 0, 0, 0, false, '.') == parts);
    lemma_clause_blank(front, pb[0]);
    lemma_blank_front(front, pb[0]);
    assert(parts.last() == behind.last());
    assert(parts.drop_last() =~= pa.drop_last() + behind.drop_last());
    let mine = behind.drop_last();
    let own = pb.drop_last();
    assert forall|i: int| 0 <= i < mine.len() implies clause::read_clause(#[trigger] mine[i])
        == clause::read_clause(own[i]) by {
        if i > 0 {
            assert(mine[i] == own[i]);
        }
    }
    lemma_clauses_same(mine, own);
    lemma_clauses_add(pa.drop_last(), mine);
}

} // verus!
