//! Where a memory is kept, and when something was captured.

use vstd::prelude::*;

use crate::clock;
use crate::number;
use crate::text;
use crate::workspace;

verus! {

/// The number of a day counts the days: the first of January 1970 has the number 0, and the day
/// after another has the next number. The months have their lengths, February by the leap years.
pub proof fn days_are_counted(year: int, month: int, day: int)
    requires
        1 <= month <= 12,
        1 <= day,
        day <= (if month == 2 {
            if year % 400 == 0 || year % 4 == 0 && year % 100 != 0 {
                29int
            } else {
                28int
            }
        } else if month == 4 || month == 6 || month == 9 || month == 11 {
            30int
        } else {
            31int
        }),
    ensures
        clock::valid_date(year, month, day),
        clock::day_number(1970, 1, 1) == 0,
        ({
            let length: int = if month == 2 {
                if year % 400 == 0 || year % 4 == 0 && year % 100 != 0 {
                    29
                } else {
                    28
                }
            } else if month == 4 || month == 6 || month == 9 || month == 11 {
                30
            } else {
                31
            };
            let next = if day < length {
                clock::day_number(year, month, day + 1)
            } else if month < 12 {
                clock::day_number(year, month + 1, 1)
            } else {
                clock::day_number(year + 1, 1, 1)
            };
            &&& clock::day_number(year, month, day) + 1 == next
            &&& !clock::valid_date(year, month, length + 1)
        }),
{
    clock::lemma_months(year);
    clock::lemma_next_year(year);
    clock::lemma_months(year + 1);
    clock::lemma_months(1970);
}

/// A date is one where its month has that day: February has twenty-nine days in a year that four
/// divides, but for those that a hundred divides and four hundred does not.
pub proof fn dates_are_those_of_the_calendar(year: int, month: int, day: int)
    ensures
        clock::valid_date(year, month, day) <==> 1 <= month <= 12 && 1 <= day && (day <= 28 || day
            <= 30 && month != 2 || day == 31 && (month == 1 || month == 3 || month == 5 || month
            == 7 || month == 8 || month == 10 || month == 12) || day == 29 && month == 2 && (year
            % 400 == 0 || year % 4 == 0 && year % 100 != 0)),
{
}

/// A moment is written as its date and its time, each part in its places: the year in four, the
/// others in two.
pub proof fn moments_are_written_in_their_places(
    year: int,
    month: int,
    day: int,
    hour: int,
    minute: int,
    second: int,
)
    requires
        1000 <= year <= 9999,
        10 <= month <= 99,
        10 <= day <= 99,
        0 <= hour <= 9,
        10 <= minute <= 99,
        0 <= second <= 9,
    ensures
        clock::stamp(year, month, day, hour, minute, second) == number::decimal(year as nat) + "-"@
            + number::decimal(month as nat) + "-"@ + number::decimal(day as nat) + "T"@ + seq!['0']
            + number::decimal(hour as nat) + ":"@ + number::decimal(minute as nat) + ":"@ + seq![
            '0',
        ] + number::decimal(second as nat) + "Z"@,
{
    reveal_with_fuel(number::decimal, 4);
    assert(number::decimal(year as nat).len() == 4);
    assert(number::decimal(month as nat).len() == 2);
    assert(number::decimal(day as nat).len() == 2);
    assert(number::decimal(hour as nat).len() == 1);
    assert(number::decimal(minute as nat).len() == 2);
    assert(number::decimal(second as nat).len() == 1);
    let zero = Seq::new(1, |i: int| '0');
    assert(zero =~= seq!['0']);
    assert(number::padded_int(hour, 2) == zero + number::decimal(hour as nat));
    assert(number::padded_int(second, 2) == zero + number::decimal(second as nat));
    assert(clock::stamp(year, month, day, hour, minute, second) =~= number::decimal(year as nat)
        + "-"@ + number::decimal(month as nat) + "-"@ + number::decimal(day as nat) + "T"@ + seq!['0']
        + number::decimal(hour as nat) + ":"@ + number::decimal(minute as nat) + ":"@ + seq!['0']
        + number::decimal(second as nat) + "Z"@);
}

/// A number with fewer digits than places has zeros before them, so many that the places are full;
/// the sign of a negative number takes one place.
pub proof fn places_are_filled_with_zeros(n: nat, width: nat)
    requires
        0 < width,
    ensures
        ({
            let form = number::decimal(n);
            let padded = number::padded_int(n as int, width);
            &&& form.len() >= width ==> padded == form
            &&& form.len() < width ==> padded.len() == width && padded.skip(width - form.len())
                == form && forall|i: int|
                0 <= i < width - form.len() ==> #[trigger] padded[i] == '0'
            &&& n > 0 ==> number::padded_int(-n, width) == seq!['-'] + number::padded_int(
                n as int,
                (width - 1) as nat,
            )
        }),
{
    let form = number::decimal(n);
    let padded = number::padded_int(n as int, width);
    if form.len() < width {
        assert(padded.skip(width - form.len()) =~= form);
    }
}

/// The key of a store is a hash of the bytes of its identity, each byte in its turn, in sixteen
/// places.
pub proof fn keys_are_hashes(bytes: Seq<u8>, byte: u8, identity: Seq<char>)
    ensures
        workspace::hash_of(Seq::<u8>::empty()) == 0xcbf29ce484222325u64,
        workspace::hash_of(bytes.push(byte)) == (workspace::hash_of(bytes) ^ (
        byte as u64)).wrapping_mul(0x100000001b3u64),
        workspace::key_of(identity) == number::hex(
            workspace::hash_of(vstd::utf8::encode_utf8(identity)) as nat,
            16,
        ),
{
    assert(bytes.push(byte).drop_last() =~= bytes);
}

/// The store of a workspace stands among the workspaces, under its id; one of a repository among the
/// repositories. Memory and evidence have one key.
pub proof fn stores_have_their_place(id: Seq<char>, repository: Seq<char>)
    ensures
        ({
            let store = workspace::store_of(Some(id), repository);
            &&& store.identity == "workspace:"@ + id
            &&& store.marked
            &&& store.directory == "workspaces"@
            &&& store.snapshot == workspace::key_of("workspace:"@ + id) + ".snapshot"@
            &&& store.evidence == workspace::key_of("workspace:"@ + id) + ".evidence"@
        }),
        ({
            let store = workspace::store_of(None, repository);
            &&& store.identity == repository
            &&& !store.marked
            &&& store.directory == "repositories"@
            &&& store.snapshot == workspace::key_of(repository) + ".snapshot"@
            &&& store.evidence == workspace::key_of(repository) + ".evidence"@
        }),
{
}

/// A repository is known by its remote, without white space around, and by where it stands when it
/// has none.
pub proof fn repositories_have_their_identity(remote: Seq<char>, root: Seq<char>)
    ensures
        workspace::identity_of(None, root) == root,
        text::trim_free(remote) ==> workspace::identity_of(Some(remote), root) == remote
            && workspace::identity_of(Some(seq![' '] + remote + seq!['\n']), root) == remote,
        workspace::identity_of(Some(seq!['\n']), root) == root,
        workspace::identity_of(Some(Seq::<char>::empty()), root) == root,
{
    let none = Seq::<char>::empty();
    let feed = seq!['\n'];
    if text::trim_free(remote) {
        text::lemma_trim(none, remote, none);
        assert(none + remote + none =~= remote);
        text::lemma_trim(seq![' '], remote, feed);
    }
    assert(feed.drop_first() =~= none);
    assert(text::trimmed_start(feed) == text::trimmed_start(none));
}

/// The id of a workspace is the one of the first line of its marker that names one.
pub proof fn first_line_with_an_id_counts(
    before: Seq<Seq<char>>,
    line: Seq<char>,
    behind: Seq<Seq<char>>,
)
    requires
        forall|i: int|
            0 <= i < before.len() ==> workspace::line_id(#[trigger] before[i]) is None,
        workspace::line_id(line) is Some,
    ensures
        workspace::first_id(before + seq![line] + behind) == workspace::line_id(line),
        workspace::first_id(before) is None,
    decreases before.len(),
{
    let all = before + seq![line] + behind;
    if before.len() > 0 {
        let rest = before.drop_first();
        assert(workspace::line_id(before[0]) is None);
        assert forall|i: int| 0 <= i < rest.len() implies workspace::line_id(#[trigger] rest[i]) is
            None by {
            assert(rest[i] == before[i + 1]);
        }
        first_line_with_an_id_counts(rest, line, behind);
        assert(all.drop_first() =~= rest + seq![line] + behind);
        assert(all[0] == before[0]);
    } else {
        assert(all[0] == line);
    }
}

/// A comment, an empty line and a line about something else name no id.
pub proof fn other_lines_name_no_id(line: Seq<char>)
    requires
        text::trim_free(line),
        line[0] == '#' || line[0] != 'i',
    ensures
        workspace::line_id(line) is None,
        workspace::line_id(Seq::<char>::empty()) is None,
{
    let none = Seq::<char>::empty();
    text::lemma_trim(none, line, none);
    assert(none + line + none =~= line);
    reveal_strlit("id");
    assert("id"@[0] == 'i');
    if text::begins(line, "id"@) {
        assert(line.take(2)[0] == line[0]);
    }
}

/// An id is made of letters and digits of seven bits, points, low lines and hyphens, and is not
/// empty; a marker with another one is refused.
pub proof fn ids_are_plain(marker: Seq<char>, content: Seq<char>, id: Seq<char>)
    requires
        workspace::first_id(text::lines(content)) == Some(id),
    ensures
        workspace::marker_id(marker, content) == (if id.len() > 0 && forall|i: int|
            0 <= i < id.len() ==> ('a' <= #[trigger] id[i] <= 'z' || 'A' <= id[i] <= 'Z' || '0'
                <= id[i] <= '9' || id[i] == '.' || id[i] == '_' || id[i] == '-') {
            Ok::<Seq<char>, Seq<char>>(id)
        } else {
            Err("workspace marker "@ + marker + " has invalid id "@ + text::quoted(id))
        }),
{
    if workspace::valid_id(id) {
        assert forall|i: int| 0 <= i < id.len() implies ('a' <= #[trigger] id[i] <= 'z' || 'A'
            <= id[i] <= 'Z' || '0' <= id[i] <= '9' || id[i] == '.' || id[i] == '_' || id[i]
            == '-') by {
            assert(workspace::id_char(id[i]));
        }
    } else if id.len() > 0 {
        let i = choose|i: int| 0 <= i < id.len() && !workspace::id_char(#[trigger] id[i]);
        assert(!('a' <= id[i] <= 'z' || 'A' <= id[i] <= 'Z' || '0' <= id[i] <= '9' || id[i] == '.'
            || id[i] == '_' || id[i] == '-'));
    }
}

/// A moment is written with the date of its day and the hours, minutes and seconds that passed of it.
pub proof fn moments_are_written_with_date_and_time(
    year: int,
    month: int,
    day: int,
    hour: int,
    minute: int,
    second: int,
)
    requires
        clock::valid_date(year, month, day),
        0 <= hour < 24,
        0 <= minute < 60,
        0 <= second < 60,
    ensures
        clock::writes_moment(
            clock::day_number(year, month, day) * 86400 + hour * 3600 + minute * 60 + second,
            clock::stamp(year, month, day, hour, minute, second),
        ),
{
    lemma_time(clock::day_number(year, month, day), hour, minute, second);
}

proof fn lemma_time(days: int, hour: int, minute: int, second: int)
    requires
        0 <= hour < 24,
        0 <= minute < 60,
        0 <= second < 60,
    ensures
        ({
            let seconds = days * 86400 + hour * 3600 + minute * 60 + second;
            &&& seconds / 86400 == days
            &&& seconds % 86400 / 3600 == hour
            &&& seconds % 3600 / 60 == minute
            &&& seconds % 60 == second
        }),
{
    let seconds = days * 86400 + hour * 3600 + minute * 60 + second;
    let rest = hour * 3600 + minute * 60 + second;
    let last = minute * 60 + second;
    vstd::arithmetic::div_mod::lemma_fundamental_div_mod_converse(seconds, 86400, days, rest);
    vstd::arithmetic::div_mod::lemma_fundamental_div_mod_converse(rest, 3600, hour, last);
    vstd::arithmetic::div_mod::lemma_fundamental_div_mod_converse(
        seconds,
        3600,
        days * 24 + hour,
        last,
    );
    vstd::arithmetic::div_mod::lemma_fundamental_div_mod_converse(last, 60, minute, second);
    vstd::arithmetic::div_mod::lemma_fundamental_div_mod_converse(
        seconds,
        60,
        days * 1440 + hour * 60 + minute,
        second,
    );
}

/// The time is the number of seconds that passed, and the beginning before that.
pub proof fn time_is_what_passed(elapsed: u64)
    requires
        elapsed <= i64::MAX,
    ensures
        clock::time_of(Some(elapsed)) == elapsed,
        clock::time_of(None) == 0,
{
}

/// White space around a line of a marker, and around its equality sign, means nothing.
pub proof fn space_in_a_marker_means_nothing(
    before: Seq<char>,
    line: Seq<char>,
    behind: Seq<char>,
    id: Seq<char>,
)
    requires
        text::trim_free(line),
        forall|i: int| 0 <= i < before.len() ==> text::white(#[trigger] before[i]),
        forall|i: int| 0 <= i < behind.len() ==> text::white(#[trigger] behind[i]),
    ensures
        workspace::line_id(before + line + behind) == workspace::line_id(line),
        workspace::line_id("id=\""@ + id + "\""@) == Some(id),
        workspace::line_id("id = \""@ + id + "\""@) == Some(id),
{
    let none = Seq::<char>::empty();
    text::lemma_trim(before, line, behind);
    text::lemma_trim(none, line, none);
    assert(none + line + none =~= line);
    workspace::marker_line_names_its_id(id);
    reveal_strlit("id=\"");
    reveal_strlit("\"");
    reveal_strlit("id");
    let close = "id=\""@ + id + "\""@;
    let value = seq!['"'] + id + seq!['"'];
    assert(close =~= seq!['i', 'd', '='] + value);
    text::lemma_trim(none, close, none);
    assert(none + close + none =~= close);
    assert(close.take(2) =~= "id"@);
    let rest = close.skip(2);
    assert(rest =~= seq!['='] + value);
    assert(text::trimmed_start(rest) == rest);
    assert(rest.skip(1) =~= value);
    text::lemma_trim(none, value, none);
    assert(none + value + none =~= value);
    assert(value.subrange(1, value.len() - 1) =~= id);
}

} // verus!
