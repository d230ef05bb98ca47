//! Numbers as text: decimal and hexadecimal forms, and what reads back as a number.

use vstd::prelude::*;
use vstd::slice::slice_subrange;

use crate::text;

verus! {

// ---------------------------------------------------------------- meaning
/// The character of a hexadecimal digit, in lower case.
pub open spec fn digit_char(d: int) -> char {
    if d < 10 {
        (48 + d) as char
    } else {
        (87 + d) as char
    }
}

/// The decimal form of `n`.
pub open spec fn decimal(n: nat) -> Seq<char>
    decreases n,
{
    if n < 10 {
        seq![digit_char(n as int)]
    } else {
        decimal(n / 10).push(digit_char((n % 10) as int))
    }
}

/// The decimal form of `i`, with a minus sign where it is negative.
pub open spec fn decimal_int(i: int) -> Seq<char> {
    if i < 0 {
        seq!['-'] + decimal((-i) as nat)
    } else {
        decimal(i as nat)
    }
}

/// `form` with zeros before it up to `width` characters.
pub open spec fn zero_padded(form: Seq<char>, width: nat) -> Seq<char> {
    if form.len() >= width {
        form
    } else {
        Seq::new((width - form.len()) as nat, |i: int| '0') + form
    }
}

/// The decimal form of `i` with zeros up to `width` characters; a minus sign stands first and
/// counts as one of them.
pub open spec fn padded_int(i: int, width: nat) -> Seq<char> {
    if i < 0 {
        seq!['-'] + zero_padded(decimal((-i) as nat), if width > 0 {
            (width - 1) as nat
        } else {
            0
        })
    } else {
        zero_padded(decimal(i as nat), width)
    }
}

/// The last `width` hexadecimal digits of `n`.
pub open spec fn hex(n: nat, width: nat) -> Seq<char>
    decreases width,
{
    if width == 0 {
        seq![]
    } else {
        hex(n / 16, (width - 1) as nat).push(digit_char((n % 16) as int))
    }
}

/// Whether every character of `s` is a decimal digit.
pub open spec fn all_digits(s: Seq<char>) -> bool {
    forall|i: int| 0 <= i < s.len() ==> text::digit(#[trigger] s[i])
}

/// The number that the decimal digits in `s` write.
pub open spec fn digits_value(s: Seq<char>) -> nat
    decreases s.len(),
{
    if s.len() == 0 {
        0
    } else {
        digits_value(s.drop_last()) * 10 + (s.last() as nat - 48) as nat
    }
}

/// The number that `s` writes, where it is a row of at least one decimal digit.
pub open spec fn read_digits(s: Seq<char>) -> Option<nat> {
    if s.len() > 0 && all_digits(s) {
        Some(digits_value(s))
    } else {
        None
    }
}

/// `s` without the plus sign that it begins with, if it does.
pub open spec fn without_plus(s: Seq<char>) -> Seq<char> {
    if s.len() > 0 && s[0] == '+' {
        s.drop_first()
    } else {
        s
    }
}

/// The number up to `max` that `s` writes: decimal digits, with or without a plus sign.
pub open spec fn read_unsigned(s: Seq<char>, max: nat) -> Option<nat> {
    match read_digits(without_plus(s)) {
        Some(n) => if n <= max {
            Some(n)
        } else {
            None
        },
        None => None,
    }
}

/// The 64-bit signed number that `s` writes: decimal digits, with or without a sign.
pub open spec fn read_i64(s: Seq<char>) -> Option<int> {
    if s.len() > 0 && s[0] == '-' {
        match read_digits(s.drop_first()) {
            Some(n) => if n <= 0x8000_0000_0000_0000 {
                Some(-n)
            } else {
                None
            },
            None => None,
        }
    } else {
        match read_unsigned(s, 0x7fff_ffff_ffff_ffff) {
            Some(n) => Some(n as int),
            None => None,
        }
    }
}

/// `c` in lower case, where it is one of the letters `A` to `Z`.
pub open spec fn ascii_lower(c: char) -> char {
    if 'A' <= c <= 'Z' {
        (c as int + 32) as char
    } else {
        c
    }
}

/// Whether `s` is `word` with any of its letters in upper case; `word` is in lower case.
pub open spec fn is_word(s: Seq<char>, word: Seq<char>) -> bool {
    s.len() == word.len() && forall|i: int| 0 <= i < s.len() ==> ascii_lower(#[trigger] s[i]) == word[i]
}

/// `s` without the sign that it begins with, if it does.
pub open spec fn without_sign(s: Seq<char>) -> Seq<char> {
    if s.len() > 0 && (s[0] == '+' || s[0] == '-') {
        s.drop_first()
    } else {
        s
    }
}

/// Whether `s` is a row of decimal digits with at most one point in it, and not the point alone.
pub open spec fn mantissa(s: Seq<char>) -> bool {
    match text::cut_char(s, '.') {
        Some((whole, part)) => all_digits(whole) && all_digits(part) && whole.len() + part.len()
            > 0,
        None => s.len() > 0 && all_digits(s),
    }
}

/// The index of the first `e` or `E` in `s` at or after `from`.
pub open spec fn exponent_mark(s: Seq<char>, from: int) -> Option<int>
    decreases s.len() - from,
{
    if from < 0 || from >= s.len() {
        None
    } else if s[from] == 'e' || s[from] == 'E' {
        Some(from)
    } else {
        exponent_mark(s, from + 1)
    }
}

/// Whether `s` writes a real number: an optional sign, then `inf`, `infinity` or `nan` in any
/// case, or decimal digits with an optional point and an optional exponent.
pub open spec fn real_text(s: Seq<char>) -> bool {
    let body = without_sign(s);
    ||| is_word(body, seq!['i', 'n', 'f'])
    ||| is_word(body, seq!['i', 'n', 'f', 'i', 'n', 'i', 't', 'y'])
    ||| is_word(body, seq!['n', 'a', 'n'])
    ||| match exponent_mark(body, 0) {
        Some(i) => mantissa(body.take(i)) && {
            let exponent = without_sign(body.skip(i + 1));
            exponent.len() > 0 && all_digits(exponent)
        },
        None => mantissa(body),
    }
}

/// `s` without the zeros that it begins with.
pub open spec fn without_zeros_start(s: Seq<char>) -> Seq<char>
    decreases s.len(),
{
    if s.len() > 0 && s[0] == '0' {
        without_zeros_start(s.drop_first())
    } else {
        s
    }
}

/// `s` without the zeros that it ends with.
pub open spec fn without_zeros_end(s: Seq<char>) -> Seq<char>
    decreases s.len(),
{
    if s.len() > 0 && s.last() == '0' {
        without_zeros_end(s.drop_last())
    } else {
        s
    }
}

/// How many characters a decimal number has at most that is told apart from all others of that
/// length by a real number of 64 bits.
pub const SHORT_DECIMAL: usize = 15;

/// A decimal number without the zeros that say nothing.
pub open spec fn shortest(s: Seq<char>) -> Seq<char> {
    let (whole, part) = match text::cut_char(s, '.') {
        Some((whole, part)) => (whole, part),
        None => (s, seq![]),
    };
    let head = without_zeros_start(whole);
    let tail = without_zeros_end(part);
    (if head.len() == 0 {
        seq!['0']
    } else {
        head
    }) + (if tail.len() == 0 {
        seq![]
    } else {
        seq!['.'] + tail
    })
}

/// The text of a real number as it is kept: a short decimal number is written in its shortest form,
/// any other as it is.
pub open spec fn kept_real(s: Seq<char>) -> Seq<char> {
    let body = without_sign(s);
    if mantissa(body) && body.len() <= SHORT_DECIMAL {
        (if s[0] == '-' {
            seq!['-']
        } else {
            seq![]
        }) + shortest(body)
    } else {
        s
    }
}

// ------------------------------------------------------------------- laws
/// The decimal form of a number is a row of digits that reads back as the number.
pub proof fn lemma_decimal(n: nat)
    ensures
        decimal(n).len() > 0,
        all_digits(decimal(n)),
        digits_value(decimal(n)) == n,
        read_digits(decimal(n)) == Some(n),
    decreases n,
{
    if n < 10 {
        assert(decimal(n).drop_last() =~= seq![]);
        assert(digits_value(seq![]) == 0);
        assert(decimal(n).last() == digit_char(n as int));
    } else {
        lemma_decimal(n / 10);
        assert(decimal(n).drop_last() =~= decimal(n / 10));
    }
}

/// A number up to the bound reads back from its decimal form.
pub proof fn decimal_reads_back(n: nat, max: nat)
    requires
        n <= max,
    ensures
        read_unsigned(decimal(n), max) == Some(n),
{
    lemma_decimal(n);
    assert(text::digit(decimal(n)[0]));
}

/// Whether a character can stand in the text of a real number.
pub open spec fn plain_char(c: char) -> bool {
    text::digit(c) || c == '.' || c == '+' || c == '-' || text::lower_letter(c)
        || text::upper_letter(c)
}

/// Whether all characters of a text can stand in the text of a real number.
pub open spec fn plain(s: Seq<char>) -> bool {
    forall|i: int| 0 <= i < s.len() ==> plain_char(#[trigger] s[i])
}

proof fn lemma_exponent_mark(s: Seq<char>, from: int)
    requires
        0 <= from,
    ensures
        exponent_mark(s, from) matches Some(i) ==> from <= i < s.len() && (s[i] == 'e' || s[i]
            == 'E'),
    decreases s.len() - from,
{
    if from < s.len() && s[from] != 'e' && s[from] != 'E' {
        lemma_exponent_mark(s, from + 1);
    }
}

proof fn lemma_word_plain(s: Seq<char>, word: Seq<char>)
    requires
        is_word(s, word),
        forall|i: int| 0 <= i < word.len() ==> text::lower_letter(#[trigger] word[i]),
    ensures
        plain(s),
{
    assert forall|i: int| 0 <= i < s.len() implies plain_char(#[trigger] s[i]) by {
        assert(ascii_lower(s[i]) == word[i]);
        assert(text::lower_letter(word[i]));
    }
}

proof fn lemma_mantissa_plain(s: Seq<char>)
    requires
        mantissa(s),
    ensures
        plain(s),
{
    text::lemma_cut_char_parts(s, '.');
    if let Some((whole, part)) = text::cut_char(s, '.') {
        assert forall|i: int| 0 <= i < s.len() implies plain_char(#[trigger] s[i]) by {
            if i < whole.len() {
                assert(text::digit(whole[i]));
            } else if i > whole.len() {
                assert(text::digit(part[i - whole.len() - 1]));
            }
        }
    }
}

/// The text of a real number holds digits, points, signs and letters alone.
pub proof fn real_text_is_plain(s: Seq<char>)
    requires
        real_text(s),
    ensures
        plain(s),
{
    let body = without_sign(s);
    let inf = seq!['i', 'n', 'f'];
    let infinity = seq!['i', 'n', 'f', 'i', 'n', 'i', 't', 'y'];
    let nan = seq!['n', 'a', 'n'];
    if is_word(body, inf) {
        lemma_word_plain(body, inf);
    } else if is_word(body, infinity) {
        lemma_word_plain(body, infinity);
    } else if is_word(body, nan) {
        lemma_word_plain(body, nan);
    } else {
        lemma_exponent_mark(body, 0);
        match exponent_mark(body, 0) {
            Some(k) => {
                let tail = body.skip(k + 1);
                let exponent = without_sign(tail);
                let head = body.take(k);
                lemma_mantissa_plain(head);
                assert forall|i: int| 0 <= i < body.len() implies plain_char(
                    #[trigger] body[i],
                ) by {
                    if i < k {
                        assert(plain_char(head[i]));
                    } else if i > k {
                        assert(body[i] == tail[i - k - 1]);
                        if tail.len() == exponent.len() {
                            assert(text::digit(exponent[i - k - 1]));
                        } else if i > k + 1 {
                            assert(text::digit(exponent[i - k - 2]));
                        }
                    }
                }
            },
            None => {
                lemma_mantissa_plain(body);
            },
        }
    }
    assert forall|i: int| 0 <= i < s.len() implies plain_char(#[trigger] s[i]) by {
        if s.len() == body.len() {
            assert(plain_char(body[i]));
        } else if i > 0 {
            assert(plain_char(body[i - 1]));
        }
    }
}

proof fn lemma_zeros_start(s: Seq<char>)
    requires
        all_digits(s),
    ensures
        all_digits(without_zeros_start(s)),
        without_zeros_start(s).len() > 0 ==> without_zeros_start(s)[0] != '0',
    decreases s.len(),
{
    if s.len() > 0 && s[0] == '0' {
        let rest = s.drop_first();
        assert forall|i: int| 0 <= i < rest.len() implies text::digit(#[trigger] rest[i]) by {
            assert(text::digit(s[i + 1]));
        }
        lemma_zeros_start(rest);
    }
}

proof fn lemma_zeros_end(s: Seq<char>)
    requires
        all_digits(s),
    ensures
        all_digits(without_zeros_end(s)),
        without_zeros_end(s).len() > 0 ==> without_zeros_end(s).last() != '0',
    decreases s.len(),
{
    if s.len() > 0 && s.last() == '0' {
        let rest = s.drop_last();
        assert forall|i: int| 0 <= i < rest.len() implies text::digit(#[trigger] rest[i]) by {
            assert(text::digit(s[i]));
        }
        lemma_zeros_end(rest);
    }
}

/// The text that is kept of a real number writes a real number.
pub proof fn kept_real_is_real(s: Seq<char>)
    requires
        real_text(s),
    ensures
        real_text(kept_real(s)),
{
    let body = without_sign(s);
    if mantissa(body) && body.len() <= SHORT_DECIMAL {
        let (whole, part) = match text::cut_char(body, '.') {
            Some((whole, part)) => (whole, part),
            None => (body, seq![]),
        };
        lemma_zeros_start(whole);
        lemma_zeros_end(part);
        let head = if without_zeros_start(whole).len() == 0 {
            seq!['0']
        } else {
            without_zeros_start(whole)
        };
        let tail = without_zeros_end(part);
        let short = shortest(body);
        let kept = kept_real(s);
        assert(all_digits(head));
        assert(text::digit(head[0]));
        if tail.len() == 0 {
            assert(short =~= head);
            text::lemma_first_char(short, '.');
            if let Some(i) = text::first_char(short, '.') {
                assert(text::digit(short[i]));
            }
        } else {
            assert(short =~= head + seq!['.'] + tail);
            assert(!head.contains('.')) by {
                if head.contains('.') {
                    let i = choose|i: int| 0 <= i < head.len() && head[i] == '.';
                    assert(text::digit(head[i]));
                }
            }
            text::lemma_cut_char(head, '.', tail);
        }
        assert(mantissa(short));
        lemma_exponent_mark(short, 0);
        if let Some(k) = exponent_mark(short, 0) {
            if k < head.len() {
                assert(text::digit(head[k]));
            } else if k > head.len() {
                assert(text::digit(tail[k - head.len() - 1]));
            }
        }
        assert(short[0] == head[0]);
        if s[0] == '-' {
            assert(kept.drop_first() =~= short);
        } else {
            assert(kept =~= short);
        }
        assert(without_sign(kept) == short);
    }
}

/// A 64-bit signed number reads back from its decimal form.
pub proof fn decimal_int_reads_back(i: i64)
    ensures
        read_i64(decimal_int(i as int)) == Some(i as int),
{
    if i < 0 {
        lemma_decimal((-i) as nat);
        assert(decimal_int(i as int).drop_first() =~= decimal((-i) as nat));
    } else {
        lemma_decimal(i as nat);
        assert(text::digit(decimal(i as nat)[0]));
    }
}

// -------------------------------------------------------------- functions
fn digit_of(d: u64) -> (c: char)
    requires
        d < 16,
    ensures
        c == digit_char(d as int),
{
    if d < 10 {
        (48u8 + d as u8) as char
    } else {
        (87u8 + d as u8) as char
    }
}

/// Appends the decimal form of `n`.
pub fn push_decimal(out: &mut String, n: u64)
    ensures
        final(out)@ == old(out)@ + decimal(n as nat),
    decreases n,
{
    if n >= 10 {
        push_decimal(out, n / 10);
    }
    out.push(digit_of(n % 10));
    assert(out@ =~= old(out)@ + decimal(n as nat));
}

/// The decimal form of a size.
pub fn size_text(n: usize) -> (form: String)
    ensures
        form@ == decimal(n as nat),
{
    let mut form: String = String::new();
    push_decimal(&mut form, n as u64);
    assert(form@ =~= decimal(n as nat));
    form
}

/// The decimal form of a signed number.
pub fn int_text(i: i64) -> (form: String)
    ensures
        form@ == decimal_int(i as int),
{
    let mut form: String = String::new();
    if i < 0 {
        form.push('-');
        let magnitude: u64 = if i == i64::MIN {
            0x8000_0000_0000_0000
        } else {
            (-i) as u64
        };
        push_decimal(&mut form, magnitude);
    } else {
        push_decimal(&mut form, i as u64);
    }
    assert(form@ =~= decimal_int(i as int));
    form
}

/// Appends the last `width` hexadecimal digits of `n`.
pub fn push_hex(out: &mut String, n: u64, width: usize)
    ensures
        final(out)@ == old(out)@ + hex(n as nat, width as nat),
    decreases width,
{
    if width > 0 {
        push_hex(out, n / 16, width - 1);
        out.push(digit_of(n % 16));
    }
    assert(out@ =~= old(out)@ + hex(n as nat, width as nat));
}

/// Appends the decimal form of `i`, filled with zeros up to `width` characters.
pub fn push_padded(out: &mut String, i: i64, width: usize)
    ensures
        final(out)@ == old(out)@ + padded_int(i as int, width as nat),
{
    let mut form: String = String::new();
    let mut least: usize = width;
    let ghost start = out@;
    if i < 0 {
        out.push('-');
        if least > 0 {
            least = least - 1;
        }
        let magnitude: u64 = if i == i64::MIN {
            0x8000_0000_0000_0000
        } else {
            (-i) as u64
        };
        push_decimal(&mut form, magnitude);
    } else {
        push_decimal(&mut form, i as u64);
    }
    let ghost sign = out@;
    let ghost magnitude = if i < 0 {
        (-i) as nat
    } else {
        i as nat
    };
    assert(form@ =~= decimal(magnitude));
    let length: usize = form.as_str().unicode_len();
    let mut written: usize = length;
    while written < least
        invariant
            length == form@.len(),
            length <= written,
            written <= least || written == length,
            out@ == sign + Seq::new((written - length) as nat, |i: int| '0'),
        decreases least - written,
    {
        out.push('0');
        written = written + 1;
        assert(out@ =~= sign + Seq::new((written - length) as nat, |i: int| '0'));
    }
    out.append(form.as_str());
    assert(out@ =~= start + padded_int(i as int, width as nat));
}

/// Reads a row of decimal digits that writes at most a 64-bit number.
fn parse_digits(s: &[char]) -> (value: Option<u64>)
    ensures
        match read_digits(s@) {
            Some(n) => value == if n <= u64::MAX {
                Some(n as u64)
            } else {
                None
            },
            None => value is None,
        },
{
    if s.len() == 0 {
        return None;
    }
    let mut value: u64 = 0;
    let mut fits: bool = true;
    assert(s@.take(0) =~= seq![]);
    for i in 0..s.len()
        invariant
            all_digits(s@.take(i as int)),
            fits ==> value == digits_value(s@.take(i as int)),
            !fits ==> digits_value(s@.take(i as int)) > u64::MAX,
    {
        let c = s[i];
        let ghost next = s@.take(i as int + 1);
        assert(next.drop_last() =~= s@.take(i as int));
        if !text::is_digit(c) {
            assert(!text::digit(s@[i as int]));
            return None;
        }
        let d: u64 = (c as u32 - 48) as u64;
        if fits {
            if value <= (u64::MAX - d) / 10 {
                value = value * 10 + d;
            } else {
                fits = false;
            }
        }
        assert(all_digits(next)) by {
            assert forall|j: int| 0 <= j < next.len() implies text::digit(#[trigger] next[j]) by {
                if j < i {
                    assert(next[j] == s@.take(i as int)[j]);
                }
            }
        }
    }
    assert(s@.take(s.len() as int) =~= s@);
    if fits {
        Some(value)
    } else {
        None
    }
}

/// Reads an unsigned number.
pub fn parse_u64(s: &[char]) -> (value: Option<u64>)
    ensures
        match value {
            Some(n) => read_unsigned(s@, u64::MAX as nat) == Some(n as nat),
            None => read_unsigned(s@, u64::MAX as nat) is None,
        },
{
    if s.len() > 0 && s[0] == '+' {
        let rest = slice_subrange(s, 1, s.len());
        assert(rest@ =~= s@.drop_first());
        parse_digits(rest)
    } else {
        parse_digits(s)
    }
}

/// Reads a size.
pub fn parse_usize(s: &[char]) -> (value: Option<usize>)
    ensures
        match value {
            Some(n) => read_unsigned(s@, usize::MAX as nat) == Some(n as nat),
            None => read_unsigned(s@, usize::MAX as nat) is None,
        },
{
    match parse_u64(s) {
        Some(n) => if n <= usize::MAX as u64 {
            Some(n as usize)
        } else {
            None
        },
        None => None,
    }
}

/// Reads a signed number.
pub fn parse_i64(s: &[char]) -> (value: Option<i64>)
    ensures
        match value {
            Some(i) => read_i64(s@) == Some(i as int),
            None => read_i64(s@) is None,
        },
{
    if s.len() > 0 && s[0] == '-' {
        let rest = slice_subrange(s, 1, s.len());
        assert(rest@ =~= s@.drop_first());
        match parse_digits(rest) {
            Some(n) => if n < 0x8000_0000_0000_0000 {
                Some(-(n as i64))
            } else if n == 0x8000_0000_0000_0000 {
                Some(i64::MIN)
            } else {
                None
            },
            None => None,
        }
    } else {
        match parse_u64(s) {
            Some(n) => if n <= 0x7fff_ffff_ffff_ffff {
                Some(n as i64)
            } else {
                None
            },
            None => None,
        }
    }
}

fn only_digits(s: &[char]) -> (yes: bool)
    ensures
        yes == all_digits(s@),
{
    for i in 0..s.len()
        invariant
            forall|j: int| 0 <= j < i ==> text::digit(#[trigger] s@[j]),
    {
        if !text::is_digit(s[i]) {
            assert(!text::digit(s@[i as int]));
            return false;
        }
    }
    true
}

fn matches_word(s: &[char], word: &[char]) -> (yes: bool)
    ensures
        yes == is_word(s@, word@),
{
    if s.len() != word.len() {
        return false;
    }
    for i in 0..s.len()
        invariant
            s@.len() == word@.len(),
            forall|j: int| 0 <= j < i ==> ascii_lower(#[trigger] s@[j]) == word@[j],
    {
        let c = s[i];
        let lower: char = if 'A' <= c && c <= 'Z' {
            (c as u8 + 32) as char
        } else {
            c
        };
        assert(lower == ascii_lower(s@[i as int]));
        if lower != word[i] {
            return false;
        }
    }
    true
}

fn skip_sign<'a>(s: &'a [char]) -> (rest: &'a [char])
    ensures
        rest@ == without_sign(s@),
{
    if s.len() > 0 && (s[0] == '+' || s[0] == '-') {
        let rest = slice_subrange(s, 1, s.len());
        assert(rest@ =~= s@.drop_first());
        rest
    } else {
        s
    }
}

fn is_mantissa(s: &[char]) -> (yes: bool)
    ensures
        yes == mantissa(s@),
{
    match text::split_once_char(s, '.') {
        Some((whole, part)) => only_digits(whole) && only_digits(part) && (whole.len() > 0
            || part.len() > 0),
        None => s.len() > 0 && only_digits(s),
    }
}

/// Whether a text writes a real number.
pub fn is_real_text(s: &[char]) -> (yes: bool)
    ensures
        yes == real_text(s@),
{
    let body = skip_sign(s);
    if matches_word(body, &['i', 'n', 'f']) || matches_word(
        body,
        &['i', 'n', 'f', 'i', 'n', 'i', 't', 'y'],
    ) || matches_word(body, &['n', 'a', 'n']) {
        return true;
    }
    let end: usize = body.len();
    for i in 0..end
        invariant
            end == body@.len(),
            exponent_mark(body@, 0) == exponent_mark(body@, i as int),
            body@ == without_sign(s@),
            !is_word(body@, seq!['i', 'n', 'f']),
            !is_word(body@, seq!['i', 'n', 'f', 'i', 'n', 'i', 't', 'y']),
            !is_word(body@, seq!['n', 'a', 'n']),
    {
        if body[i] == 'e' || body[i] == 'E' {
            let number = slice_subrange(body, 0, i);
            let exponent = skip_sign(slice_subrange(body, i + 1, end));
            assert(number@ =~= body@.take(i as int));
            assert(body@.subrange(i as int + 1, end as int) =~= body@.skip(i as int + 1));
            return is_mantissa(number) && exponent.len() > 0 && only_digits(exponent);
        }
    }
    is_mantissa(body)
}

/// Writes the text of a real number as it is kept.
pub fn keep_real(s: &[char]) -> (kept: String)
    requires
        real_text(s@),
    ensures
        kept@ == kept_real(s@),
{
    let body = skip_sign(s);
    if !is_mantissa(body) || body.len() > SHORT_DECIMAL {
        return text::string_of(s);
    }
    let (whole, part): (&[char], &[char]) = match text::split_once_char(body, '.') {
        Some((whole, part)) => (whole, part),
        None => (body, slice_subrange(body, body.len(), body.len())),
    };
    assert(text::cut_char(body@, '.') is None ==> part@ =~= seq![]);
    let mut from: usize = 0;
    assert(whole@.skip(0) =~= whole@);
    while from < whole.len() && whole[from] == '0'
        invariant
            from <= whole@.len(),
            without_zeros_start(whole@) == without_zeros_start(whole@.skip(from as int)),
        decreases whole@.len() - from,
    {
        assert(whole@.skip(from as int).drop_first() =~= whole@.skip(from as int + 1));
        from = from + 1;
    }
    let mut to: usize = part.len();
    assert(part@.take(to as int) =~= part@);
    while to > 0 && part[to - 1] == '0'
        invariant
            to <= part@.len(),
            without_zeros_end(part@) == without_zeros_end(part@.take(to as int)),
        decreases to,
    {
        assert(part@.take(to as int).drop_last() =~= part@.take(to as int - 1));
        to = to - 1;
    }
    let head = slice_subrange(whole, from, whole.len());
    let tail = slice_subrange(part, 0, to);
    assert(head@ =~= whole@.skip(from as int));
    assert(tail@ =~= part@.take(to as int));
    let mut kept: String = String::new();
    if s.len() > 0 && s[0] == '-' {
        kept.push('-');
    }
    let ghost sign = kept@;
    if head.len() == 0 {
        kept.push('0');
    } else {
        kept.append(text::string_of(head).as_str());
    }
    if tail.len() > 0 {
        kept.push('.');
        kept.append(text::string_of(tail).as_str());
    }
    assert(kept@ =~= sign + shortest(body@));
    kept
}

} // verus!
