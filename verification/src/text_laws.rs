//! What holds of texts, stated over their characters alone.

use vstd::prelude::*;

use crate::number;
use crate::text;

verus! {

/// A text stands in another exactly where the other is something, the text and something more.
pub proof fn contained_text_stands_between(s: Seq<char>, part: Seq<char>)
    ensures
        text::contains_text(s, part) <==> exists|a: Seq<char>, b: Seq<char>|
            s == #[trigger] (a + part + b),
{
    if text::contains_text(s, part) {
        let i = choose|i: int| text::occurs_at(s, part, i);
        assert(s =~= s.take(i) + part + s.skip(i + part.len()));
    }
    if exists|a: Seq<char>, b: Seq<char>| s == #[trigger] (a + part + b) {
        let (a, b) = choose|a: Seq<char>, b: Seq<char>| s == #[trigger] (a + part + b);
        lemma_contained(a, part, b);
    }
}

/// What stands between two texts stands in the whole.
pub proof fn lemma_contained(a: Seq<char>, part: Seq<char>, b: Seq<char>)
    ensures
        text::contains_text(a + part + b, part),
{
    let s = a + part + b;
    let at = a.len() as int;
    assert(s.subrange(at, at + part.len()) =~= part);
    assert(text::occurs_at(s, part, a.len() as int));
}

/// What stands in a part of a text stands in the text.
pub proof fn lemma_contained_in(a: Seq<char>, middle: Seq<char>, b: Seq<char>, part: Seq<char>)
    requires
        text::contains_text(middle, part),
    ensures
        text::contains_text(a + middle + b, part),
{
    let i = choose|i: int| text::occurs_at(middle, part, i);
    let s = a + middle + b;
    assert(s.subrange(a.len() + i, a.len() + i + part.len()) =~= middle.subrange(
        i,
        i + part.len(),
    ));
    assert(text::occurs_at(s, part, a.len() + i));
}

/// A text without the white space at its end is what it begins with, and only white space was
/// behind it.
pub proof fn trimmed_end_is_a_beginning(s: Seq<char>)
    ensures
        ({
            let t = text::trimmed_end(s);
            &&& t.len() <= s.len()
            &&& t == s.take(t.len() as int)
            &&& forall|i: int| t.len() <= i < s.len() ==> text::white(#[trigger] s[i])
            &&& t.len() > 0 ==> !text::white(t.last())
        }),
    decreases s.len(),
{
    if s.len() > 0 && text::white(s.last()) {
        let rest = s.drop_last();
        trimmed_end_is_a_beginning(rest);
        let t = text::trimmed_end(s);
        assert(t =~= s.take(t.len() as int));
        assert forall|i: int| t.len() <= i < s.len() implies text::white(#[trigger] s[i]) by {
            if i < rest.len() {
                assert(rest[i] == s[i]);
            }
        }
    } else {
        assert(s =~= s.take(s.len() as int));
    }
}

/// A text is cut at the first place where a part stands in it, and is not cut where the part stands
/// nowhere.
pub proof fn text_is_cut_at_the_first_place(
    s: Seq<char>,
    part: Seq<char>,
    a: Seq<char>,
    b: Seq<char>,
)
    ensures
        match text::cut(s, part) {
            Some((head, tail)) => s == head + part + tail && (s == a + part + b ==> head.len()
                <= a.len()),
            None => s != a + part + b,
        },
{
    text::lemma_first_match(s, part);
    if s == a + part + b {
        let at = a.len() as int;
        assert(s.subrange(at, at + part.len()) =~= part);
        assert(text::occurs_at(s, part, at));
    }
    if let Some(i) = text::first_match(s, part) {
        assert(s =~= s.take(i) + part + s.skip(i + part.len()));
    }
}

proof fn lemma_last_char(s: Seq<char>, c: char)
    ensures
        match text::last_char(s, c) {
            Some(i) => 0 <= i < s.len() && s[i] == c && forall|j: int| i < j < s.len() ==> s[j] != c,
            None => forall|j: int| 0 <= j < s.len() ==> s[j] != c,
        },
    decreases s.len(),
{
    if s.len() > 0 && s.last() != c {
        let fewer = s.drop_last();
        lemma_last_char(fewer, c);
        assert forall|j: int| 0 <= j < fewer.len() implies fewer[j] == s[j] by {}
    }
}

/// A text is cut at the last place where a character stands in it: the character stands nowhere
/// behind.
pub proof fn text_is_cut_at_the_last_place(s: Seq<char>, c: char)
    ensures
        match text::cut_last_char(s, c) {
            Some((head, tail)) => s == head + seq![c] + tail && !tail.contains(c),
            None => !s.contains(c),
        },
{
    lemma_last_char(s, c);
    if let Some(i) = text::last_char(s, c) {
        assert(s =~= s.take(i) + seq![c] + s.skip(i + 1));
        let tail = s.skip(i + 1);
        if tail.contains(c) {
            let j = choose|j: int| 0 <= j < tail.len() && tail[j] == c;
            assert(s[i + 1 + j] == c);
        }
    }
}

/// The pieces of a text are what stands between its separators: joined with the separator they are
/// the text, and no piece holds it.
pub proof fn pieces_make_up_the_text(s: Seq<char>, c: char)
    ensures
        text::pieces(s, c).len() > 0,
        text::join(text::pieces(s, c), seq![c]) == s,
        forall|i: int|
            0 <= i < text::pieces(s, c).len() ==> !(#[trigger] text::pieces(s, c)[i]).contains(c),
    decreases s.len(),
{
    let all = text::pieces(s, c);
    text::lemma_cut_char_parts(s, c);
    if let Some((head, tail)) = text::cut_char(s, c) {
        let rest = text::pieces(tail, c);
        pieces_make_up_the_text(tail, c);
        assert(all.drop_first() =~= rest);
        text::lemma_join_first(all, seq![c]);
        assert forall|i: int| 0 <= i < all.len() implies !(#[trigger] all[i]).contains(c) by {
            if i > 0 {
                assert(all[i] == rest[i - 1]);
            }
        }
    }
}

/// The fields of a text are its pieces, but for the last one, which holds what is left when there is
/// room for no more.
pub proof fn fields_make_up_the_text(s: Seq<char>, c: char, n: nat)
    requires
        n > 0,
    ensures
        0 < text::fields(s, c, n).len() <= n,
        text::join(text::fields(s, c, n), seq![c]) == s,
        forall|i: int|
            0 <= i < text::fields(s, c, n).len() - 1 ==> !(#[trigger] text::fields(
                s,
                c,
                n,
            )[i]).contains(c),
        text::fields(s, c, n).len() < n ==> !text::fields(s, c, n).last().contains(c),
    decreases n,
{
    let all = text::fields(s, c, n);
    text::lemma_cut_char_parts(s, c);
    if n > 1 {
        if let Some((head, tail)) = text::cut_char(s, c) {
            let rest = text::fields(tail, c, (n - 1) as nat);
            fields_make_up_the_text(tail, c, (n - 1) as nat);
            assert(all.drop_first() =~= rest);
            text::lemma_join_first(all, seq![c]);
            assert forall|i: int| 0 <= i < all.len() - 1 implies !(#[trigger] all[i]).contains(
                c,
            ) by {
                if i > 0 {
                    assert(all[i] == rest[i - 1]);
                }
            }
            assert(all.last() == rest.last());
        }
    }
}

/// Parts are joined with the separator between them, and nowhere else.
pub proof fn joins_are_joined(a: Seq<Seq<char>>, b: Seq<Seq<char>>, separator: Seq<char>)
    requires
        a.len() > 0,
        b.len() > 0,
    ensures
        text::join(a + b, separator) == text::join(a, separator) + separator + text::join(
            b,
            separator,
        ),
        text::join(seq![a[0]], separator) == a[0],
        text::join(Seq::<Seq<char>>::empty(), separator) == Seq::<char>::empty(),
    decreases b.len(),
{
    assert((a + b).last() == b.last());
    assert((a + b).drop_last() =~= a + b.drop_last());
    if b.len() == 1 {
        assert(a + b.drop_last() =~= a);
    } else {
        joins_are_joined(a, b.drop_last(), separator);
        assert(text::join(a + b, separator) =~= text::join(a, separator) + separator + text::join(
            b,
            separator,
        ));
    }
}

/// A line ends with a line feed, which a carriage return may precede; a text that has none is one
/// line, and an empty text has no line.
pub proof fn lines_end_with_a_feed(line: Seq<char>, rest: Seq<char>)
    requires
        !line.contains('\n'),
        line.len() == 0 || line.last() != '\r',
    ensures
        text::lines(line + seq!['\n'] + rest) == seq![line] + text::lines(rest),
        text::lines(line + seq!['\r', '\n'] + rest) == seq![line] + text::lines(rest),
        line.len() > 0 ==> text::lines(line) == seq![line],
        text::lines(Seq::<char>::empty()).len() == 0,
{
    text::lemma_lines_first(line, rest);
    let returned = line + seq!['\r'];
    let s = line + seq!['\r', '\n'] + rest;
    assert(s =~= returned + seq!['\n'] + rest);
    assert(!returned.contains('\n')) by {
        if returned.contains('\n') {
            let k = choose|k: int| 0 <= k < returned.len() && returned[k] == '\n';
            assert(line[k] == '\n');
        }
    }
    text::lemma_cut_char(returned, '\n', rest);
    assert(returned.drop_last() =~= line);
    text::lemma_first_char_none(line, '\n');
}

/// The white characters among those of seven bits are the space and the five from the tab to the
/// carriage return.
pub proof fn ascii_white_space(c: char)
    requires
        c as int <= 0x7f,
    ensures
        text::white(c) <==> c as int == 0x20 || 9 <= c as int <= 13,
{
}

/// The other white characters are the next line, the spaces of typography and the separators of lines
/// and paragraphs.
pub proof fn other_white_space(c: char)
    requires
        c as int > 0x7f,
    ensures
        text::white(c) <==> c as int == 0x85 || c as int == 0xa0 || c as int == 0x1680 || 0x2000
            <= c as int <= 0x200a || c as int == 0x2028 || c as int == 0x2029 || c as int == 0x202f
            || c as int == 0x205f || c as int == 0x3000,
{
}

/// To trim a text takes the white space from around it, and nothing else.
pub proof fn trimming_takes_white_space(s: Seq<char>)
    ensures
        exists|a: Seq<char>, b: Seq<char>|
            s == #[trigger] (a + text::trimmed(s) + b) && all_white(a) && all_white(b),
        text::trimmed(s).len() > 0 ==> !text::white(text::trimmed(s)[0]) && !text::white(
            text::trimmed(s).last(),
        ),
        exists|b: Seq<char>| s == #[trigger] (text::trimmed_end(s) + b) && all_white(b),
        text::trimmed_end(s).len() > 0 ==> !text::white(text::trimmed_end(s).last()),
        exists|a: Seq<char>| s == #[trigger] (a + text::trimmed_start(s)) && all_white(a),
        text::trimmed_start(s).len() > 0 ==> !text::white(text::trimmed_start(s)[0]),
{
    let start = text::trimmed_start(s);
    let a = lemma_trimmed_start(s);
    let b = lemma_trimmed_end(start);
    let c = lemma_trimmed_end(s);
    assert(a + start == s);
    assert(text::trimmed(s) + b == start);
    assert(s =~= a + text::trimmed(s) + b);
    assert(s == text::trimmed_end(s) + c);
    if text::trimmed(s).len() > 0 {
        assert(text::trimmed(s)[0] == start[0]);
    }
}

/// Whether all characters of a text are white.
pub open spec fn all_white(s: Seq<char>) -> bool {
    forall|i: int| 0 <= i < s.len() ==> text::white(#[trigger] s[i])
}

proof fn lemma_trimmed_start(s: Seq<char>) -> (a: Seq<char>)
    ensures
        s == a + text::trimmed_start(s),
        all_white(a),
        text::trimmed_start(s).len() > 0 ==> !text::white(text::trimmed_start(s)[0]),
    decreases s.len(),
{
    if s.len() > 0 && text::white(s[0]) {
        let rest = lemma_trimmed_start(s.drop_first());
        let a = seq![s[0]] + rest;
        assert forall|i: int| 0 <= i < a.len() implies text::white(#[trigger] a[i]) by {
            if i > 0 {
                assert(a[i] == rest[i - 1]);
            }
        }
        assert(s =~= seq![s[0]] + s.drop_first());
        assert(s =~= a + text::trimmed_start(s));
        a
    } else {
        assert(s =~= Seq::<char>::empty() + s);
        seq![]
    }
}

proof fn lemma_trimmed_end(s: Seq<char>) -> (b: Seq<char>)
    ensures
        s == text::trimmed_end(s) + b,
        all_white(b),
        text::trimmed_end(s).len() > 0 ==> !text::white(text::trimmed_end(s).last()),
    decreases s.len(),
{
    if s.len() > 0 && text::white(s.last()) {
        let rest = lemma_trimmed_end(s.drop_last());
        let b = rest.push(s.last());
        assert forall|i: int| 0 <= i < b.len() implies text::white(#[trigger] b[i]) by {
            if i < rest.len() {
                assert(b[i] == rest[i]);
            }
        }
        assert(s =~= s.drop_last().push(s.last()));
        assert(s =~= text::trimmed_end(s) + b);
        b
    } else {
        assert(s =~= s + Seq::<char>::empty());
        seq![]
    }
}

/// Texts are ordered by the first character in which they differ, and a beginning stands before the
/// whole.
pub proof fn texts_are_ordered_by_characters(
    common: Seq<char>,
    x: char,
    y: char,
    a: Seq<char>,
    b: Seq<char>,
)
    ensures
        x != y ==> (text::before(common + seq![x] + a, common + seq![y] + b) <==> x < y),
        text::before(common, common + seq![x] + a),
        !text::before(common + seq![x] + a, common),
        !text::before(common, common),
    decreases common.len(),
{
    let left = common + seq![x] + a;
    let right = common + seq![y] + b;
    if common.len() > 0 {
        let rest = common.drop_first();
        texts_are_ordered_by_characters(rest, x, y, a, b);
        assert(left.drop_first() =~= rest + seq![x] + a);
        assert(right.drop_first() =~= rest + seq![y] + b);
    } else {
        assert(left[0] == x && right[0] == y);
    }
}

/// A text begins with another where it is that other and something behind.
pub proof fn beginnings_stand_first(prefix: Seq<char>, rest: Seq<char>, s: Seq<char>)
    ensures
        text::begins(prefix + rest, prefix),
        text::begins(s, prefix) ==> s == prefix + s.skip(prefix.len() as int),
{
    assert((prefix + rest).take(prefix.len() as int) =~= prefix);
    if text::begins(s, prefix) {
        assert(s =~= s.take(prefix.len() as int) + s.skip(prefix.len() as int));
    }
}

/// Numbers are written with ten digits, the highest place first.
pub proof fn numbers_are_written_in_tens(n: nat, d: nat)
    requires
        d < 10,
    ensures
        number::decimal(d) == seq![['0', '1', '2', '3', '4', '5', '6', '7', '8', '9']@[d as int]],
        n > 0 ==> number::decimal(10 * n + d) == number::decimal(n) + number::decimal(d),
        n > 0 ==> number::decimal_int(-n) == seq!['-'] + number::decimal(n),
        number::decimal_int(n as int) == number::decimal(n),
{
    if n > 0 {
        assert((10 * n + d) / 10 == n);
        assert((10 * n + d) % 10 == d);
        assert(number::decimal(10 * n + d) =~= number::decimal(n) + number::decimal(d));
    }
}

/// Numbers are written with sixteen digits in a given number of places, the highest first.
pub proof fn numbers_are_written_in_sixteens(n: nat, d: nat, width: nat)
    requires
        d < 16,
    ensures
        number::hex(n, width).len() == width,
        number::hex(d, 1) == seq![
            [
                '0',
                '1',
                '2',
                '3',
                '4',
                '5',
                '6',
                '7',
                '8',
                '9',
                'a',
                'b',
                'c',
                'd',
                'e',
                'f',
            ]@[d as int],
        ],
        number::hex(16 * n + d, width + 1) == number::hex(n, width) + number::hex(d, 1),
    decreases width,
{
    reveal_with_fuel(number::hex, 2);
    assert((16 * n + d) / 16 == n);
    assert((16 * n + d) % 16 == d);
    assert(number::hex(d, 1) =~= seq![number::digit_char(d as int)]);
    if width > 0 {
        numbers_are_written_in_sixteens(n / 16, d, (width - 1) as nat);
    }
    assert(number::hex(16 * n + d, width + 1) =~= number::hex(n, width) + number::hex(d, 1));
}

/// An unsigned number is read of digits alone, which a plus sign may precede, and of no more than its
/// bound.
pub proof fn numbers_are_read_of_digits(s: Seq<char>, max: nat)
    ensures
        number::read_unsigned(s, max) matches Some(n) ==> n <= max && s.len() > 0 && forall|i: int|
            (if s[0] == '+' {
                1int
            } else {
                0
            }) <= i < s.len() ==> '0' <= #[trigger] s[i] <= '9',
        number::read_unsigned(seq!['+'] + s, max) is Some ==> s.len() > 0,
{
    if let Some(n) = number::read_unsigned(s, max) {
        let digits = number::without_plus(s);
        if s[0] == '+' {
            assert forall|i: int| 1 <= i < s.len() implies '0' <= #[trigger] s[i] <= '9' by {
                assert(text::digit(digits[i - 1]));
            }
        } else {
            assert forall|i: int| 0 <= i < s.len() implies '0' <= #[trigger] s[i] <= '9' by {
                assert(text::digit(digits[i]));
            }
        }
    }
    assert((seq!['+'] + s).drop_first() =~= s);
}

} // verus!
