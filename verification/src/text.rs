//! Texts as sequences of characters: what it means to search, cut, trim, join
//! and order them, and the functions that do so.
//!
//! A text is read as a slice of characters and handed out as a `String`.

use vstd::prelude::*;
use vstd::slice::slice_subrange;

verus! {

/// `String::push` appends the given character to the end of the string.
pub assume_specification[ String::push ](string: &mut String, ch: char)
    ensures
        final(string)@ == old(string)@.push(ch),
;

/// The quoted form in which `{:?}` writes a string: in double quotes, with the characters that
/// it escapes.
pub uninterp spec fn quoted(s: Seq<char>) -> Seq<char>;

/// Formatting a string with `{:?}`, that is through `<str as Debug>::fmt`. The result is a
/// function of the string alone; which characters it escapes is not stated.
#[verifier::external_body]
pub(crate) fn quote(s: &str) -> (form: String)
    ensures
        form@ == quoted(s@),
{
    format!("{:?}", s)
}

// ---------------------------------------------------------------- meaning
/// The texts that a sequence of strings holds.
pub open spec fn texts(strings: Seq<String>) -> Seq<Seq<char>> {
    strings.map_values(|s: String| s@)
}

/// The index of the first `c` in `s` at or after `from`.
pub open spec fn first_char_from(s: Seq<char>, c: char, from: int) -> Option<int>
    decreases s.len() - from,
{
    if from < 0 || from >= s.len() {
        None
    } else if s[from] == c {
        Some(from)
    } else {
        first_char_from(s, c, from + 1)
    }
}

/// The index of the first `c` in `s`.
pub open spec fn first_char(s: Seq<char>, c: char) -> Option<int> {
    first_char_from(s, c, 0)
}

/// The index of the last `c` in `s`.
pub open spec fn last_char(s: Seq<char>, c: char) -> Option<int>
    decreases s.len(),
{
    if s.len() == 0 {
        None
    } else if s.last() == c {
        Some(s.len() - 1)
    } else {
        last_char(s.drop_last(), c)
    }
}

/// Whether `part` stands in `s` at index `i`.
pub open spec fn occurs_at(s: Seq<char>, part: Seq<char>, i: int) -> bool {
    0 <= i && i + part.len() <= s.len() && s.subrange(i, i + part.len()) == part
}

/// The index of the first `part` in `s` at or after `from`.
pub open spec fn first_match_from(s: Seq<char>, part: Seq<char>, from: int) -> Option<int>
    decreases s.len() + 1 - from,
{
    if from < 0 || from + part.len() > s.len() {
        None
    } else if occurs_at(s, part, from) {
        Some(from)
    } else {
        first_match_from(s, part, from + 1)
    }
}

/// The index of the first `part` in `s`.
pub open spec fn first_match(s: Seq<char>, part: Seq<char>) -> Option<int> {
    first_match_from(s, part, 0)
}

/// Whether `part` stands anywhere in `s`.
pub open spec fn contains_text(s: Seq<char>, part: Seq<char>) -> bool {
    exists|i: int| occurs_at(s, part, i)
}

/// `s` cut at its first `c`: what stands before it and what stands after it.
pub open spec fn cut_char(s: Seq<char>, c: char) -> Option<(Seq<char>, Seq<char>)> {
    match first_char(s, c) {
        Some(i) => Some((s.take(i), s.skip(i + 1))),
        None => None,
    }
}

/// `s` cut at its last `c`: what stands before it and what stands after it.
pub open spec fn cut_last_char(s: Seq<char>, c: char) -> Option<(Seq<char>, Seq<char>)> {
    match last_char(s, c) {
        Some(i) => Some((s.take(i), s.skip(i + 1))),
        None => None,
    }
}

/// `s` cut at its first `part`: what stands before it and what stands after it.
pub open spec fn cut(s: Seq<char>, part: Seq<char>) -> Option<(Seq<char>, Seq<char>)> {
    match first_match(s, part) {
        Some(i) => Some((s.take(i), s.skip(i + part.len()))),
        None => None,
    }
}

/// The pieces of `s` between the `c`s in it.
pub open spec fn pieces(s: Seq<char>, c: char) -> Seq<Seq<char>>
    decreases s.len(),
{
    match cut_char(s, c) {
        Some((head, tail)) => {
            proof {
                lemma_cut_char_parts(s, c);
            }
            seq![head] + pieces(tail, c)
        },
        None => seq![s],
    }
}

/// The pieces of `s` between the first `n - 1` of the `c`s in it; the last piece is the rest.
pub open spec fn fields(s: Seq<char>, c: char, n: nat) -> Seq<Seq<char>>
    decreases n,
{
    if n == 0 {
        seq![]
    } else if n == 1 {
        seq![s]
    } else {
        match cut_char(s, c) {
            Some((head, tail)) => seq![head] + fields(tail, c, (n - 1) as nat),
            None => seq![s],
        }
    }
}

/// `parts` in order with `separator` between each two neighbours.
pub open spec fn join(parts: Seq<Seq<char>>, separator: Seq<char>) -> Seq<char>
    decreases parts.len(),
{
    if parts.len() == 0 {
        seq![]
    } else if parts.len() == 1 {
        parts[0]
    } else {
        join(parts.drop_last(), separator) + separator + parts.last()
    }
}

/// `line` without the carriage return that ends it, if one does.
pub open spec fn without_return(line: Seq<char>) -> Seq<char> {
    if line.len() > 0 && line.last() == '\r' {
        line.drop_last()
    } else {
        line
    }
}

/// The lines of `s`: each ends at a line feed or at the end of the text. A carriage return
/// before the line feed belongs to the line ending; what follows the last line feed is a line
/// only where it is not empty.
pub open spec fn lines(s: Seq<char>) -> Seq<Seq<char>>
    decreases s.len(),
{
    if s.len() == 0 {
        seq![]
    } else {
        match first_char(s, '\n') {
            Some(i) => {
                proof {
                    lemma_first_char(s, '\n');
                }
                seq![without_return(s.take(i))] + lines(s.skip(i + 1))
            },
            None => seq![s],
        }
    }
}

/// Whether `c` is white space in the sense of the Unicode property `White_Space`.
pub open spec fn white(c: char) -> bool {
    ||| '\u{9}' <= c <= '\u{d}'
    ||| c == ' '
    ||| c == '\u{85}'
    ||| c == '\u{a0}'
    ||| c == '\u{1680}'
    ||| '\u{2000}' <= c <= '\u{200a}'
    ||| c == '\u{2028}'
    ||| c == '\u{2029}'
    ||| c == '\u{202f}'
    ||| c == '\u{205f}'
    ||| c == '\u{3000}'
}

/// Whether `c` is a control character, that is of the Unicode category `Cc`.
pub open spec fn control(c: char) -> bool {
    c <= '\u{1f}' || '\u{7f}' <= c <= '\u{9f}'
}

/// Whether `c` is one of the digits `0` to `9`.
pub open spec fn digit(c: char) -> bool {
    '0' <= c <= '9'
}

/// Whether `c` is one of the letters `a` to `z`.
pub open spec fn lower_letter(c: char) -> bool {
    'a' <= c <= 'z'
}

/// Whether `c` is one of the letters `A` to `Z`.
pub open spec fn upper_letter(c: char) -> bool {
    'A' <= c <= 'Z'
}

/// `s` without the white space that it begins with.
pub open spec fn trimmed_start(s: Seq<char>) -> Seq<char>
    decreases s.len(),
{
    if s.len() > 0 && white(s[0]) {
        trimmed_start(s.drop_first())
    } else {
        s
    }
}

/// `s` without the white space that it ends with.
pub open spec fn trimmed_end(s: Seq<char>) -> Seq<char>
    decreases s.len(),
{
    if s.len() > 0 && white(s.last()) {
        trimmed_end(s.drop_last())
    } else {
        s
    }
}

/// `s` without the white space at its two ends.
pub open spec fn trimmed(s: Seq<char>) -> Seq<char> {
    trimmed_end(trimmed_start(s))
}

/// Whether `s` begins with `prefix`.
pub open spec fn begins(s: Seq<char>, prefix: Seq<char>) -> bool {
    prefix.len() <= s.len() && s.take(prefix.len() as int) == prefix
}

/// Whether `a` stands before `b` in the lexical order by code point.
pub open spec fn before(a: Seq<char>, b: Seq<char>) -> bool
    decreases a.len(),
{
    if b.len() == 0 {
        false
    } else if a.len() == 0 {
        true
    } else if a[0] != b[0] {
        a[0] < b[0]
    } else {
        before(a.drop_first(), b.drop_first())
    }
}

/// The number of bytes that `s` takes in UTF-8.
pub open spec fn byte_len(s: Seq<char>) -> nat {
    vstd::utf8::encode_utf8(s).len()
}

/// The number of bytes that `c` takes in UTF-8.
pub open spec fn char_width(c: char) -> nat {
    vstd::utf8::encode_scalar(c as u32).len()
}

/// How many of the first characters of `s` take `bytes` bytes in UTF-8, where some number of
/// them does.
pub open spec fn chars_in_bytes(s: Seq<char>, bytes: int) -> Option<int>
    decreases s.len(),
{
    if bytes == 0 {
        Some(0)
    } else if s.len() == 0 || char_width(s[0]) > bytes {
        None
    } else {
        match chars_in_bytes(s.drop_first(), bytes - char_width(s[0])) {
            Some(n) => Some(n + 1),
            None => None,
        }
    }
}

// ------------------------------------------------------------- first facts
/// A first character stands where it is said to, and none stands before it.
pub proof fn lemma_first_char_from(s: Seq<char>, c: char, from: int)
    requires
        0 <= from,
    ensures
        match first_char_from(s, c, from) {
            Some(i) => from <= i < s.len() && s[i] == c && forall|j: int|
                from <= j < i ==> s[j] != c,
            None => forall|j: int| from <= j < s.len() ==> s[j] != c,
        },
    decreases s.len() - from,
{
    if from < s.len() && s[from] != c {
        lemma_first_char_from(s, c, from + 1);
    }
}

/// A first character stands where it is said to, and none stands before it.
pub proof fn lemma_first_char(s: Seq<char>, c: char)
    ensures
        match first_char(s, c) {
            Some(i) => 0 <= i < s.len() && s[i] == c && forall|j: int| 0 <= j < i ==> s[j] != c,
            None => !s.contains(c),
        },
{
    lemma_first_char_from(s, c, 0);
}

/// The first character is where it stands with none before it.
pub proof fn lemma_first_char_is(s: Seq<char>, c: char, i: int)
    requires
        0 <= i < s.len(),
        s[i] == c,
        forall|j: int| 0 <= j < i ==> s[j] != c,
    ensures
        first_char(s, c) == Some(i),
{
    lemma_first_char(s, c);
}

/// A text without `c` has no first `c`.
pub proof fn lemma_first_char_none(s: Seq<char>, c: char)
    requires
        !s.contains(c),
    ensures
        first_char(s, c) is None,
        cut_char(s, c) is None,
{
    lemma_first_char(s, c);
    if let Some(i) = first_char(s, c) {
        assert(s.contains(s[i]));
    }
}

/// Cutting at a separator that the head does not hold gives back head and tail.
pub proof fn lemma_cut_char(head: Seq<char>, c: char, tail: Seq<char>)
    requires
        !head.contains(c),
    ensures
        cut_char(head + seq![c] + tail, c) == Some((head, tail)),
{
    let s = head + seq![c] + tail;
    assert forall|j: int| 0 <= j < head.len() implies s[j] != c by {
        assert(s[j] == head[j]);
        assert(head.contains(head[j]));
    }
    lemma_first_char_is(s, c, head.len() as int);
    assert(s.take(head.len() as int) =~= head);
    assert(s.skip(head.len() as int + 1) =~= tail);
}

/// What a cut gives makes up the text, and the head does not hold the separator.
pub proof fn lemma_cut_char_parts(s: Seq<char>, c: char)
    ensures
        cut_char(s, c) matches Some((head, tail)) ==> {
            &&& s == head + seq![c] + tail
            &&& !head.contains(c)
            &&& head.len() + tail.len() + 1 == s.len()
        },
        cut_char(s, c) is None <==> !s.contains(c),
{
    lemma_first_char(s, c);
    if let Some(i) = first_char(s, c) {
        assert(s =~= s.take(i) + seq![c] + s.skip(i + 1));
        assert(s.contains(s[i]));
    }
}

/// A first match stands where it is said to, and none stands before it.
pub proof fn lemma_first_match_from(s: Seq<char>, part: Seq<char>, from: int)
    requires
        0 <= from,
    ensures
        match first_match_from(s, part, from) {
            Some(i) => from <= i && occurs_at(s, part, i) && forall|j: int|
                from <= j < i ==> !occurs_at(s, part, j),
            None => forall|j: int| from <= j ==> !occurs_at(s, part, j),
        },
    decreases s.len() + 1 - from,
{
    if from + part.len() <= s.len() && !occurs_at(s, part, from) {
        lemma_first_match_from(s, part, from + 1);
    }
}

/// There is a first match exactly where there is a match.
pub proof fn lemma_first_match(s: Seq<char>, part: Seq<char>)
    ensures
        match first_match(s, part) {
            Some(i) => occurs_at(s, part, i) && forall|j: int| 0 <= j < i ==> !occurs_at(s, part, j),
            None => !contains_text(s, part),
        },
        first_match(s, part) is Some <==> contains_text(s, part),
{
    lemma_first_match_from(s, part, 0);
}

/// The bytes of a text are those of its parts.
pub proof fn lemma_byte_len_add(a: Seq<char>, b: Seq<char>)
    ensures
        byte_len(a + b) == byte_len(a) + byte_len(b),
    decreases a.len(),
{
    if a.len() == 0 {
        assert(a + b =~= b);
    } else {
        assert((a + b).drop_first() =~= a.drop_first() + b);
        lemma_byte_len_add(a.drop_first(), b);
    }
}

/// The characters of a text take the bytes of the text.
pub proof fn lemma_chars_in_bytes(a: Seq<char>, b: Seq<char>)
    ensures
        chars_in_bytes(a + b, byte_len(a) as int) == Some(a.len() as int),
    decreases a.len(),
{
    if a.len() > 0 {
        assert((a + b).drop_first() =~= a.drop_first() + b);
        lemma_chars_in_bytes(a.drop_first(), b);
    }
}

/// A number of first characters that take some bytes is a number of characters, and they take
/// those bytes.
pub proof fn lemma_chars_in_bytes_bound(s: Seq<char>, bytes: int)
    ensures
        chars_in_bytes(s, bytes) matches Some(n) ==> 0 <= n <= s.len() && byte_len(s.take(n))
            == bytes,
    decreases s.len(),
{
    if bytes == 0 {
        assert(s.take(0) =~= seq![]);
    } else if s.len() > 0 && char_width(s[0]) <= bytes {
        lemma_chars_in_bytes_bound(s.drop_first(), bytes - char_width(s[0]));
        if let Some(n) = chars_in_bytes(s, bytes) {
            assert(s.take(n).drop_first() =~= s.drop_first().take(n - 1));
        }
    }
}

/// A join begins with its first part.
pub proof fn lemma_join_first(parts: Seq<Seq<char>>, separator: Seq<char>)
    requires
        parts.len() >= 2,
    ensures
        join(parts, separator) == parts[0] + separator + join(parts.drop_first(), separator),
    decreases parts.len(),
{
    if parts.len() == 2 {
        reveal_with_fuel(join, 2);
        assert(parts.drop_last() =~= seq![parts[0]]);
        assert(parts.drop_first() =~= seq![parts[1]]);
    } else {
        lemma_join_first(parts.drop_last(), separator);
        assert(parts.drop_last().drop_first() =~= parts.drop_first().drop_last());
        assert(join(parts, separator) =~= parts[0] + separator + join(
            parts.drop_first(),
            separator,
        ));
    }
}

/// Parts that do not hold the separator are the pieces of their join.
pub proof fn lemma_pieces_of_join(parts: Seq<Seq<char>>, c: char)
    requires
        parts.len() > 0,
        forall|i: int| 0 <= i < parts.len() ==> !(#[trigger] parts[i]).contains(c),
    ensures
        pieces(join(parts, seq![c]), c) == parts,
    decreases parts.len(),
{
    if parts.len() == 1 {
        lemma_first_char_none(parts[0], c);
        assert(seq![parts[0]] =~= parts);
    } else {
        let rest = parts.drop_first();
        lemma_join_first(parts, seq![c]);
        lemma_cut_char(parts[0], c, join(rest, seq![c]));
        assert forall|i: int| 0 <= i < rest.len() implies !(#[trigger] rest[i]).contains(c) by {
            assert(rest[i] == parts[i + 1]);
        }
        lemma_pieces_of_join(rest, c);
        assert(seq![parts[0]] + rest =~= parts);
    }
}

/// Three parts that do not hold the separator, and a rest, are the four fields of their join.
pub proof fn lemma_four_fields(
    p0: Seq<char>,
    p1: Seq<char>,
    p2: Seq<char>,
    p3: Seq<char>,
    c: char,
)
    requires
        !p0.contains(c),
        !p1.contains(c),
        !p2.contains(c),
    ensures
        fields(p0 + seq![c] + p1 + seq![c] + p2 + seq![c] + p3, c, 4) == seq![p0, p1, p2, p3],
{
    reveal_with_fuel(fields, 4);
    let rest2 = p2 + seq![c] + p3;
    let rest1 = p1 + seq![c] + rest2;
    let whole = p0 + seq![c] + rest1;
    assert(p0 + seq![c] + p1 + seq![c] + p2 + seq![c] + p3 =~= whole);
    lemma_cut_char(p0, c, rest1);
    lemma_cut_char(p1, c, rest2);
    lemma_cut_char(p2, c, p3);
    assert(fields(whole, c, 4) =~= seq![p0, p1, p2, p3]);
}

/// A line that holds no line feed and ends with no carriage return stands before the lines of
/// what follows its line feed.
pub proof fn lemma_lines_first(line: Seq<char>, rest: Seq<char>)
    requires
        !line.contains('\n'),
        line.len() == 0 || line.last() != '\r',
    ensures
        lines(line + seq!['\n'] + rest) == seq![line] + lines(rest),
{
    let s = line + seq!['\n'] + rest;
    lemma_cut_char(line, '\n', rest);
    assert(s.len() > 0);
}

/// The lines of texts that end with a line feed are the lines of both.
pub proof fn lemma_lines_add(a: Seq<char>, b: Seq<char>)
    requires
        a.len() == 0 || a.last() == '\n',
    ensures
        lines(a + b) == lines(a) + lines(b),
    decreases a.len(),
{
    if a.len() == 0 {
        assert(a + b =~= b);
        assert(lines(a) + lines(b) =~= lines(b));
    } else {
        lemma_first_char(a, '\n');
        assert(a.contains(a.last()));
        let i = first_char(a, '\n')->0;
        let rest = a.skip(i + 1);
        assert forall|j: int| 0 <= j < i implies (a + b)[j] != '\n' by {
            assert((a + b)[j] == a[j]);
        }
        lemma_first_char_is(a + b, '\n', i);
        assert((a + b).take(i) =~= a.take(i));
        assert((a + b).skip(i + 1) =~= rest + b);
        lemma_lines_add(rest, b);
        assert(seq![without_return(a.take(i))] + (lines(rest) + lines(b)) =~= (seq![
            without_return(a.take(i)),
        ] + lines(rest)) + lines(b));
    }
}

/// No line of a text holds a line feed.
pub proof fn lemma_lines_bare(s: Seq<char>)
    ensures
        forall|i: int| 0 <= i < lines(s).len() ==> !(#[trigger] lines(s)[i]).contains('\n'),
    decreases s.len(),
{
    if s.len() > 0 {
        lemma_first_char(s, '\n');
        if let Some(i) = first_char(s, '\n') {
            lemma_lines_bare(s.skip(i + 1));
            let line = without_return(s.take(i));
            assert(!line.contains('\n')) by {
                if line.contains('\n') {
                    let k = choose|k: int| 0 <= k < line.len() && line[k] == '\n';
                    assert(s[k] == '\n');
                }
            }
            assert forall|k: int| 0 <= k < lines(s).len() implies !(#[trigger] lines(s)[k]).contains(
                '\n',
            ) by {
                if k > 0 {
                    assert(lines(s)[k] == lines(s.skip(i + 1))[k - 1]);
                }
            }
        } else {
            assert(lines(s) =~= seq![s]);
        }
    }
}

/// Whether a text neither begins nor ends with white space, and is not empty.
pub open spec fn trim_free(s: Seq<char>) -> bool {
    s.len() > 0 && !white(s[0]) && !white(s.last())
}

/// White space around a text is trimmed.
pub proof fn lemma_trim(before: Seq<char>, s: Seq<char>, after: Seq<char>)
    requires
        trim_free(s),
        forall|i: int| 0 <= i < before.len() ==> white(#[trigger] before[i]),
        forall|i: int| 0 <= i < after.len() ==> white(#[trigger] after[i]),
    ensures
        trimmed(before + s + after) == s,
    decreases before.len() + after.len(),
{
    let whole = before + s + after;
    if before.len() > 0 {
        assert(white(before[0]));
        assert(whole[0] == before[0]);
        assert(whole.drop_first() =~= before.drop_first() + s + after);
        lemma_trim(before.drop_first(), s, after);
    } else {
        assert(whole[0] == s[0]);
        assert(trimmed_start(whole) == whole);
        if after.len() > 0 {
            assert(white(after.last()));
            assert(whole.last() == after.last());
            let fewer = before + s + after.drop_last();
            assert(whole.drop_last() =~= fewer);
            lemma_trim(before, s, after.drop_last());
            assert(fewer[0] == s[0]);
            assert(trimmed_start(fewer) == fewer);
        } else {
            assert(whole =~= s);
        }
    }
}

// --------------------------------------------------------------- functions
/// The characters of `text`, in order.
pub fn chars_of(text: &str) -> (chars: Vec<char>)
    ensures
        chars@ == text@,
{
    let mut chars: Vec<char> = Vec::new();
    for c in it: text.chars()
        invariant
            it.seq() == text@,
            chars@ == text@.take(it.index() as int),
    {
        chars.push(c);
        assert(text@.take(it.index() as int + 1) =~= text@.take(it.index() as int).push(c));
    }
    chars
}

/// The string that holds `chars`, in order.
pub fn string_of(chars: &[char]) -> (string: String)
    ensures
        string@ == chars@,
{
    let mut string: String = String::new();
    for i in 0..chars.len()
        invariant
            string@ == chars@.take(i as int),
    {
        string.push(chars[i]);
        assert(chars@.take(i as int + 1) =~= chars@.take(i as int).push(chars@[i as int]));
    }
    assert(chars@.take(chars.len() as int) =~= chars@);
    string
}

/// Whether two slices hold the same characters.
pub fn same_chars(a: &[char], b: &[char]) -> (same: bool)
    ensures
        same == (a@ == b@),
{
    if a.len() != b.len() {
        return false;
    }
    for i in 0..a.len()
        invariant
            a@.len() == b@.len(),
            a@.take(i as int) == b@.take(i as int),
    {
        if a[i] != b[i] {
            assert(a@[i as int] != b@[i as int]);
            return false;
        }
        assert(a@.take(i as int + 1) =~= a@.take(i as int).push(a@[i as int]));
        assert(b@.take(i as int + 1) =~= b@.take(i as int).push(b@[i as int]));
    }
    assert(a@.take(a.len() as int) =~= a@);
    assert(b@.take(a.len() as int) =~= b@);
    true
}

/// Whether two texts are the same.
pub fn same_text(a: &str, b: &str) -> (same: bool)
    ensures
        same == (a@ == b@),
{
    if a.as_bytes().len() != b.as_bytes().len() {
        return false;
    }
    let a_chars: Vec<char> = chars_of(a);
    let b_chars: Vec<char> = chars_of(b);
    same_chars(a_chars.as_slice(), b_chars.as_slice())
}

/// Whether a slice holds the characters of `text`.
pub fn is_text(chars: &[char], text: &str) -> (same: bool)
    ensures
        same == (chars@ == text@),
{
    let text_chars: Vec<char> = chars_of(text);
    same_chars(chars, text_chars.as_slice())
}

/// Where the first `c` stands.
pub fn find_char(s: &[char], c: char) -> (index: Option<usize>)
    ensures
        match index {
            Some(i) => first_char(s@, c) == Some(i as int) && i < s@.len(),
            None => first_char(s@, c) is None,
        },
{
    for i in 0..s.len()
        invariant
            first_char(s@, c) == first_char_from(s@, c, i as int),
    {
        if s[i] == c {
            return Some(i);
        }
    }
    None
}

/// Where the last `c` stands.
pub fn find_last_char(s: &[char], c: char) -> (index: Option<usize>)
    ensures
        match index {
            Some(i) => last_char(s@, c) == Some(i as int) && i < s@.len(),
            None => last_char(s@, c) is None,
        },
{
    let mut end: usize = s.len();
    assert(s@.take(end as int) =~= s@);
    while end > 0
        invariant
            end <= s@.len(),
            last_char(s@, c) == last_char(s@.take(end as int), c),
        decreases end,
    {
        assert(s@.take(end as int).drop_last() =~= s@.take(end as int - 1));
        if s[end - 1] == c {
            return Some(end - 1);
        }
        end = end - 1;
    }
    None
}

/// Whether `part` stands in `s` at `at`.
pub fn stands_at(s: &[char], part: &[char], at: usize) -> (found: bool)
    ensures
        found == occurs_at(s@, part@, at as int),
{
    if part.len() > s.len() || at > s.len() - part.len() {
        return false;
    }
    same_chars(slice_subrange(s, at, at + part.len()), part)
}

/// Where the first `part` stands.
pub fn find_text(s: &[char], part: &[char]) -> (index: Option<usize>)
    ensures
        match index {
            Some(i) => first_match(s@, part@) == Some(i as int) && i + part@.len() <= s@.len(),
            None => first_match(s@, part@) is None,
        },
{
    if part.len() > s.len() {
        return None;
    }
    let last: usize = s.len() - part.len();
    for i in 0..last
        invariant
            last == s@.len() - part@.len(),
            first_match(s@, part@) == first_match_from(s@, part@, i as int),
    {
        if stands_at(s, part, i) {
            return Some(i);
        }
    }
    assert(first_match_from(s@, part@, last as int + 1) is None);
    if stands_at(s, part, last) {
        Some(last)
    } else {
        None
    }
}

/// Cuts at the first `c`.
pub fn split_once_char<'a>(s: &'a [char], c: char) -> (parts: Option<(&'a [char], &'a [char])>)
    ensures
        match parts {
            Some((head, tail)) => cut_char(s@, c) == Some((head@, tail@)),
            None => cut_char(s@, c) is None,
        },
{
    let end: usize = s.len();
    match find_char(s, c) {
        Some(i) => {
            let head = slice_subrange(s, 0, i);
            let tail = slice_subrange(s, i + 1, end);
            assert(head@ =~= s@.take(i as int));
            assert(tail@ =~= s@.skip(i as int + 1));
            Some((head, tail))
        },
        None => None,
    }
}

/// Cuts at the last `c`.
pub fn split_once_last_char<'a>(s: &'a [char], c: char) -> (parts: Option<
    (&'a [char], &'a [char]),
>)
    ensures
        match parts {
            Some((head, tail)) => cut_last_char(s@, c) == Some((head@, tail@)),
            None => cut_last_char(s@, c) is None,
        },
{
    let end: usize = s.len();
    match find_last_char(s, c) {
        Some(i) => {
            let head = slice_subrange(s, 0, i);
            let tail = slice_subrange(s, i + 1, end);
            assert(head@ =~= s@.take(i as int));
            assert(tail@ =~= s@.skip(i as int + 1));
            Some((head, tail))
        },
        None => None,
    }
}

/// Cuts at the first `part`.
pub fn split_once<'a>(s: &'a [char], part: &[char]) -> (parts: Option<(&'a [char], &'a [char])>)
    ensures
        match parts {
            Some((head, tail)) => cut(s@, part@) == Some((head@, tail@)),
            None => cut(s@, part@) is None,
        },
{
    let end: usize = s.len();
    match find_text(s, part) {
        Some(i) => {
            let head = slice_subrange(s, 0, i);
            let tail = slice_subrange(s, i + part.len(), end);
            assert(head@ =~= s@.take(i as int));
            assert(tail@ =~= s@.skip(i as int + part@.len()));
            Some((head, tail))
        },
        None => None,
    }
}

/// The pieces between the `c`s.
pub fn split_char(s: &[char], c: char) -> (parts: Vec<String>)
    ensures
        texts(parts@) == pieces(s@, c),
{
    let mut parts: Vec<String> = Vec::new();
    let mut rest = s;
    loop
        invariant
            texts(parts@) + pieces(rest@, c) == pieces(s@, c),
        decreases rest@.len(),
    {
        proof {
            lemma_cut_char_parts(rest@, c);
        }
        let ghost whole = pieces(s@, c);
        let ghost done = texts(parts@);
        match split_once_char(rest, c) {
            Some((head, tail)) => {
                parts.push(string_of(head));
                assert(texts(parts@) =~= done.push(head@));
                assert(done + (seq![head@] + pieces(tail@, c)) =~= done.push(head@) + pieces(
                    tail@,
                    c,
                ));
                rest = tail;
            },
            None => {
                parts.push(string_of(rest));
                assert(texts(parts@) =~= done + seq![rest@]);
                return parts;
            },
        }
    }
}

/// The lines of a text.
pub fn split_lines(s: &[char]) -> (parts: Vec<String>)
    ensures
        texts(parts@) == lines(s@),
{
    let mut parts: Vec<String> = Vec::new();
    let mut rest = s;
    while rest.len() > 0
        invariant
            texts(parts@) + lines(rest@) == lines(s@),
        decreases rest@.len(),
    {
        proof {
            lemma_first_char(rest@, '\n');
        }
        let ghost done = texts(parts@);
        match split_once_char(rest, '\n') {
            Some((head, tail)) => {
                let head: &[char] = if head.len() > 0 && head[head.len() - 1] == '\r' {
                    let cut = slice_subrange(head, 0, head.len() - 1);
                    assert(cut@ =~= head@.drop_last());
                    cut
                } else {
                    head
                };
                parts.push(string_of(head));
                assert(texts(parts@) =~= done.push(head@));
                assert(done + (seq![head@] + lines(tail@)) =~= done.push(head@) + lines(tail@));
                rest = tail;
            },
            None => {
                parts.push(string_of(rest));
                assert(texts(parts@) =~= done + seq![rest@]);
                return parts;
            },
        }
    }
    assert(texts(parts@) + lines(rest@) =~= texts(parts@));
    parts
}

/// Whether a character is white space.
pub fn is_white(c: char) -> (yes: bool)
    ensures
        yes == white(c),
{
    ('\u{9}' <= c && c <= '\u{d}') || c == ' ' || c == '\u{85}' || c == '\u{a0}' || c == '\u{1680}'
        || ('\u{2000}' <= c && c <= '\u{200a}') || c == '\u{2028}' || c == '\u{2029}' || c
        == '\u{202f}' || c == '\u{205f}' || c == '\u{3000}'
}

/// Whether a character is a control character.
pub fn is_control(c: char) -> (yes: bool)
    ensures
        yes == control(c),
{
    c <= '\u{1f}' || ('\u{7f}' <= c && c <= '\u{9f}')
}

/// Whether a character is a decimal digit.
pub fn is_digit(c: char) -> (yes: bool)
    ensures
        yes == digit(c),
{
    '0' <= c && c <= '9'
}

/// Takes the white space off the beginning.
pub fn trim_start<'a>(s: &'a [char]) -> (rest: &'a [char])
    ensures
        rest@ == trimmed_start(s@),
{
    let mut rest = s;
    while rest.len() > 0 && is_white(rest[0])
        invariant
            trimmed_start(rest@) == trimmed_start(s@),
        decreases rest@.len(),
    {
        let shorter = slice_subrange(rest, 1, rest.len());
        assert(shorter@ =~= rest@.drop_first());
        rest = shorter;
    }
    rest
}

/// Takes the white space off the end.
pub fn trim_end<'a>(s: &'a [char]) -> (rest: &'a [char])
    ensures
        rest@ == trimmed_end(s@),
{
    let mut rest = s;
    while rest.len() > 0 && is_white(rest[rest.len() - 1])
        invariant
            trimmed_end(rest@) == trimmed_end(s@),
        decreases rest@.len(),
    {
        let shorter = slice_subrange(rest, 0, rest.len() - 1);
        assert(shorter@ =~= rest@.drop_last());
        rest = shorter;
    }
    rest
}

/// Takes the white space off both ends.
pub fn trim<'a>(s: &'a [char]) -> (rest: &'a [char])
    ensures
        rest@ == trimmed(s@),
{
    trim_end(trim_start(s))
}

/// The text after `prefix`, where the text begins with it.
pub fn strip_prefix<'a>(s: &'a [char], prefix: &str) -> (rest: Option<&'a [char]>)
    ensures
        match rest {
            Some(r) => begins(s@, prefix@) && r@ == s@.skip(prefix@.len() as int),
            None => !begins(s@, prefix@),
        },
{
    let part: Vec<char> = chars_of(prefix);
    let end: usize = s.len();
    if stands_at(s, part.as_slice(), 0) {
        assert(s@.take(prefix@.len() as int) =~= s@.subrange(0, prefix@.len() as int));
        let rest = slice_subrange(s, part.len(), end);
        assert(rest@ =~= s@.skip(prefix@.len() as int));
        Some(rest)
    } else {
        assert(begins(s@, prefix@) ==> s@.subrange(0, prefix@.len() as int) =~= s@.take(
            prefix@.len() as int,
        ));
        None
    }
}

/// Whether `part` stands anywhere in the text.
pub fn has_text(s: &[char], part: &[char]) -> (yes: bool)
    ensures
        yes == contains_text(s@, part@),
{
    let found = find_text(s, part);
    proof {
        lemma_first_match(s@, part@);
    }
    found.is_some()
}

/// Whether the text holds `c`.
pub fn has_char(s: &[char], c: char) -> (yes: bool)
    ensures
        yes == s@.contains(c),
{
    proof {
        lemma_cut_char_parts(s@, c);
    }
    find_char(s, c).is_some()
}

/// Joins texts with a separator between each two neighbours.
pub fn join_strings(parts: &Vec<String>, separator: &str) -> (joined: String)
    ensures
        joined@ == join(texts(parts@), separator@),
{
    let mut joined: String = String::new();
    for i in 0..parts.len()
        invariant
            joined@ == join(texts(parts@).take(i as int), separator@),
    {
        let ghost all = texts(parts@);
        assert(all.take(i as int + 1).drop_last() =~= all.take(i as int));
        if i > 0 {
            joined.append(separator);
        }
        joined.append(parts[i].as_str());
        assert(joined@ =~= join(all.take(i as int + 1), separator@));
    }
    assert(texts(parts@).take(parts.len() as int) =~= texts(parts@));
    joined
}

/// Whether `a` stands before `b` in the lexical order by code point.
pub fn is_before(a: &str, b: &str) -> (yes: bool)
    ensures
        yes == before(a@, b@),
{
    let a_chars: Vec<char> = chars_of(a);
    let b_chars: Vec<char> = chars_of(b);
    let mut i: usize = 0;
    assert(a@.skip(0) =~= a@ && b@.skip(0) =~= b@);
    while i < a_chars.len() && i < b_chars.len()
        invariant
            a_chars@ == a@,
            b_chars@ == b@,
            i <= a@.len(),
            i <= b@.len(),
            before(a@, b@) == before(a@.skip(i as int), b@.skip(i as int)),
        decreases a@.len() - i,
    {
        if a_chars[i] != b_chars[i] {
            return a_chars[i] < b_chars[i];
        }
        assert(a@.skip(i as int).drop_first() =~= a@.skip(i as int + 1));
        assert(b@.skip(i as int).drop_first() =~= b@.skip(i as int + 1));
        i = i + 1;
    }
    i < b_chars.len()
}

/// The number of bytes that a character takes in UTF-8.
pub fn width_of(c: char) -> (width: usize)
    ensures
        width == char_width(c),
        1 <= width <= 4,
{
    proof {
        vstd::utf8::char_is_scalar(c);
    }
    if c <= '\u{7f}' {
        1
    } else if c <= '\u{7ff}' {
        2
    } else if c <= '\u{ffff}' {
        3
    } else {
        4
    }
}

/// How many of the first characters take `bytes` bytes in UTF-8.
pub fn count_chars(s: &[char], bytes: usize) -> (count: Option<usize>)
    ensures
        match count {
            Some(n) => chars_in_bytes(s@, bytes as int) == Some(n as int) && n <= s@.len(),
            None => chars_in_bytes(s@, bytes as int) is None,
        },
{
    let mut left: usize = bytes;
    let mut count: usize = 0;
    assert(s@.skip(0) =~= s@);
    while left > 0
        invariant
            count <= s@.len(),
            chars_in_bytes(s@, bytes as int) == match chars_in_bytes(
                s@.skip(count as int),
                left as int,
            ) {
                Some(n) => Some(n + count),
                None => None,
            },
        decreases s@.len() - count,
    {
        let ghost rest = s@.skip(count as int);
        if count == s.len() {
            return None;
        }
        let width: usize = width_of(s[count]);
        assert(rest[0] == s@[count as int]);
        assert(rest.drop_first() =~= s@.skip(count as int + 1));
        if width > left {
            return None;
        }
        left = left - width;
        count = count + 1;
    }
    Some(count)
}

/// Cuts at the first three `c`s.
pub fn split_four<'a>(s: &'a [char], c: char) -> (parts: Option<
    (&'a [char], &'a [char], &'a [char], &'a [char]),
>)
    ensures
        match parts {
            Some((p0, p1, p2, p3)) => fields(s@, c, 4) == seq![p0@, p1@, p2@, p3@],
            None => fields(s@, c, 4).len() != 4,
        },
{
    reveal_with_fuel(fields, 4);
    match split_once_char(s, c) {
        None => None,
        Some((p0, rest0)) => match split_once_char(rest0, c) {
            None => None,
            Some((p1, rest1)) => match split_once_char(rest1, c) {
                None => None,
                Some((p2, p3)) => {
                    assert(fields(s@, c, 4) =~= seq![p0@, p1@, p2@, p3@]);
                    Some((p0, p1, p2, p3))
                },
            },
        },
    }
}

} // verus!
