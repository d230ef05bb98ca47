//! What holds of every search.

use vstd::prelude::*;

use crate::search;
use crate::search::{MatchesView, PolicyView};
use crate::snapshot::RecordView;
use crate::sorted;
use crate::text;

verus! {

/// Whether `rows` are the first `n` of the distinct texts in `found`, in order: where there are
/// fewer, they are all, and otherwise each text that is left out stands after them.
pub open spec fn is_first(rows: Seq<Seq<char>>, found: Seq<Seq<char>>, n: int) -> bool {
    &&& sorted::ordered(rows)
    &&& rows.len() <= n
    &&& forall|i: int| 0 <= i < rows.len() ==> found.contains(#[trigger] rows[i])
    &&& forall|x: Seq<char>| #[trigger]
        found.contains(x) ==> rows.contains(x) || (rows.len() == n && all_before(rows, x))
}

/// Whether all of some texts stand before another.
pub open spec fn all_before(rows: Seq<Seq<char>>, x: Seq<char>) -> bool {
    forall|i: int| 0 <= i < rows.len() ==> text::before(#[trigger] rows[i], x)
}

/// What is kept of some rows is the first of them, as many as there is room for.
pub proof fn kept_rows_are_the_first(found: Seq<Seq<char>>, capacity: int)
    requires
        0 <= capacity,
    ensures
        ({
            let kept = MatchesView::none(capacity).after_all(found);
            &&& is_first(kept.rows, found, capacity)
            &&& kept.capacity == capacity
            &&& kept.peak_count == kept.rows.len()
        }),
    decreases found.len(),
{
    if found.len() > 0 {
        let fewer = found.drop_last();
        let row = found.last();
        kept_rows_are_the_first(fewer, capacity);
        let before = MatchesView::none(capacity).after_all(fewer);
        let all = sorted::placed(before.rows, row);
        let after = before.after(row);
        sorted::lemma_placed(before.rows, row);
        assert forall|i: int| 0 <= i < after.rows.len() implies found.contains(
            #[trigger] after.rows[i],
        ) by {
            assert(all.contains(all[i]));
            if before.rows.contains(all[i]) {
                let j = choose|j: int| 0 <= j < before.rows.len() && before.rows[j] == all[i];
                assert(fewer.contains(before.rows[j]));
                let k = choose|k: int| 0 <= k < fewer.len() && fewer[k] == all[i];
                assert(found[k] == all[i]);
            } else {
                assert(found[found.len() - 1] == all[i]);
            }
        }
        assert forall|x: Seq<char>| #[trigger] found.contains(x) implies after.rows.contains(x) || (
        after.rows.len() == capacity && all_before(after.rows, x)) by {
            let k = choose|k: int| 0 <= k < found.len() && found[k] == x;
            if k < fewer.len() {
                assert(fewer[k] == x);
                assert(fewer.contains(x));
            }
            lemma_kept_or_after(before.rows, row, capacity, x);
        }
    }
}

/// A text that was kept, or is the one that comes, or stands after all that were kept, is kept
/// or stands after all that are kept.
proof fn lemma_kept_or_after(rows: Seq<Seq<char>>, row: Seq<char>, capacity: int, x: Seq<char>)
    requires
        sorted::ordered(rows),
        rows.len() <= capacity,
        rows.contains(x) || x == row || (rows.len() == capacity && all_before(rows, x)),
    ensures
        ({
            let all = sorted::placed(rows, row);
            let kept = if all.len() <= capacity {
                all
            } else {
                all.take(capacity)
            };
            kept.contains(x) || (kept.len() == capacity && all_before(kept, x))
        }),
{
    let all = sorted::placed(rows, row);
    sorted::lemma_placed(rows, row);
    if all.contains(x) {
        let i = choose|i: int| 0 <= i < all.len() && all[i] == x;
        if all.len() > capacity {
            let kept = all.take(capacity);
            if i < capacity {
                assert(kept[i] == x);
            } else {
                assert forall|j: int| 0 <= j < kept.len() implies text::before(
                    #[trigger] kept[j],
                    x,
                ) by {
                    assert(text::before(all[j], all[i]));
                }
            }
        }
    } else {
        assert(rows.len() == capacity && all_before(rows, x));
        let kept = if all.len() <= capacity {
            all
        } else {
            all.take(capacity)
        };
        assert(kept.len() == capacity);
        assert forall|j: int| 0 <= j < kept.len() implies text::before(#[trigger] kept[j], x) by {
            assert(all.contains(all[j]));
            if rows.contains(all[j]) {
                let k = choose|k: int| 0 <= k < rows.len() && rows[k] == all[j];
                assert(text::before(rows[k], x));
            } else {
                assert(all[j] == row);
                assert(all.len() == capacity + 1);
                assert(all.contains(all[capacity]));
                assert(text::before(all[j], all[capacity]));
                if all[capacity] == row {
                    sorted::before_is_irreflexive(row);
                }
                assert(rows.contains(all[capacity]));
                let k = choose|k: int| 0 <= k < rows.len() && rows[k] == all[capacity];
                assert(text::before(rows[k], x));
                sorted::before_is_transitive(row, all[capacity], x);
            }
        }
    }
}

/// The first texts are the same, however they are said.
pub proof fn first_rows_are_unique(
    a: Seq<Seq<char>>,
    b: Seq<Seq<char>>,
    found: Seq<Seq<char>>,
    n: int,
)
    requires
        is_first(a, found, n),
        is_first(b, found, n),
    ensures
        a == b,
{
    let shorter = if a.len() <= b.len() {
        a.len() as int
    } else {
        b.len() as int
    };
    lemma_same_start(a, b, found, n, shorter);
    if a.len() < b.len() {
        lemma_no_longer(a, b, found, n);
    }
    if b.len() < a.len() {
        lemma_same_start(b, a, found, n, shorter);
        lemma_no_longer(b, a, found, n);
    }
    assert(a =~= b);
}

proof fn lemma_same_start(
    a: Seq<Seq<char>>,
    b: Seq<Seq<char>>,
    found: Seq<Seq<char>>,
    n: int,
    k: int,
)
    requires
        is_first(a, found, n),
        is_first(b, found, n),
        0 <= k <= a.len(),
        k <= b.len(),
    ensures
        forall|i: int| 0 <= i < k ==> a[i] == b[i],
    decreases k,
{
    if k > 0 {
        lemma_same_start(a, b, found, n, k - 1);
        sorted::before_is_total(a[k - 1], b[k - 1]);
        if text::before(a[k - 1], b[k - 1]) {
            lemma_not_smaller(a, b, found, n, k - 1);
        }
        if text::before(b[k - 1], a[k - 1]) {
            lemma_not_smaller(b, a, found, n, k - 1);
        }
    }
}

proof fn lemma_not_smaller(
    a: Seq<Seq<char>>,
    b: Seq<Seq<char>>,
    found: Seq<Seq<char>>,
    n: int,
    k: int,
)
    requires
        is_first(a, found, n),
        is_first(b, found, n),
        0 <= k < a.len(),
        k < b.len(),
        forall|i: int| 0 <= i < k ==> a[i] == b[i],
    ensures
        !text::before(a[k], b[k]),
{
    if text::before(a[k], b[k]) {
        let x = a[k];
        assert(found.contains(x));
        sorted::before_is_irreflexive(x);
        if b.contains(x) {
            let j = choose|j: int| 0 <= j < b.len() && b[j] == x;
            if j < k {
                assert(text::before(a[j], a[k]));
            } else if j > k {
                assert(text::before(b[k], b[j]));
                sorted::before_is_transitive(x, b[k], x);
            }
        } else {
            assert(text::before(b[k], x));
            sorted::before_is_transitive(x, b[k], x);
        }
    }
}

proof fn lemma_no_longer(a: Seq<Seq<char>>, b: Seq<Seq<char>>, found: Seq<Seq<char>>, n: int)
    requires
        is_first(a, found, n),
        is_first(b, found, n),
        forall|i: int| 0 <= i < a.len() && i < b.len() ==> a[i] == b[i],
    ensures
        a.len() >= b.len(),
{
    if a.len() < b.len() {
        let k = a.len() as int;
        let x = b[k];
        assert(found.contains(x));
        if a.contains(x) {
            let j = choose|j: int| 0 <= j < a.len() && a[j] == x;
            assert(text::before(b[j], b[k]));
            sorted::before_is_irreflexive(x);
        }
    }
}

/// In which order lines are found, and how often, does not matter to what is kept of them.
pub proof fn order_does_not_matter(a: Seq<Seq<char>>, b: Seq<Seq<char>>, capacity: int)
    requires
        0 <= capacity,
        forall|x: Seq<char>| a.contains(x) <==> b.contains(x),
    ensures
        MatchesView::none(capacity).after_all(a).rows == MatchesView::none(capacity).after_all(
            b,
        ).rows,
{
    let kept = MatchesView::none(capacity).after_all(a).rows;
    kept_rows_are_the_first(a, capacity);
    kept_rows_are_the_first(b, capacity);
    assert forall|i: int| 0 <= i < kept.len() implies b.contains(#[trigger] kept[i]) by {
        assert(a.contains(kept[i]));
    }
    assert(is_first(kept, b, capacity));
    first_rows_are_unique(kept, MatchesView::none(capacity).after_all(b).rows, b, capacity);
}

/// A search finds the first matching lines in order, no more than its limit, and says that it
/// left some out exactly where it did. It never keeps more than one row above the limit.
pub proof fn search_finds_the_first(
    pattern: Seq<char>,
    limit: int,
    policy: PolicyView,
    records: Seq<RecordView>,
    peak: int,
)
    requires
        0 <= limit < usize::MAX,
    ensures
        ({
            let found = search::lines_found(
                pattern,
                policy.rows(search::time_of(records), records),
            );
            let output = search::search_result(pattern, limit, policy, records, peak);
            &&& is_first(output.rows, found, limit)
            &&& output.truncated <==> exists|x: Seq<char>|
                found.contains(x) && !output.rows.contains(x)
            &&& output.result_count <= limit + 1
        }),
{
    let found = search::lines_found(pattern, policy.rows(search::time_of(records), records));
    let output = search::search_result(pattern, limit, policy, records, peak);
    let kept = search::kept(pattern, limit, policy, records);
    kept_rows_are_the_first(found, limit + 1);
    let rows = output.rows;
    assert forall|i: int| 0 <= i < rows.len() implies found.contains(#[trigger] rows[i]) by {
        assert(rows[i] == kept.rows[i]);
    }
    assert forall|i: int, j: int| 0 <= i < j < rows.len() implies text::before(
        #[trigger] rows[i],
        #[trigger] rows[j],
    ) by {
        assert(text::before(kept.rows[i], kept.rows[j]));
    }
    assert forall|x: Seq<char>| #[trigger] found.contains(x) implies rows.contains(x) || (
    rows.len() == limit && all_before(rows, x)) by {
        if kept.rows.contains(x) {
            let i = choose|i: int| 0 <= i < kept.rows.len() && kept.rows[i] == x;
            if i < rows.len() {
                assert(rows[i] == x);
            } else {
                assert forall|j: int| 0 <= j < rows.len() implies text::before(
                    #[trigger] rows[j],
                    x,
                ) by {
                    assert(text::before(kept.rows[j], kept.rows[i]));
                }
            }
        } else {
            assert forall|j: int| 0 <= j < rows.len() implies text::before(
                #[trigger] rows[j],
                x,
            ) by {
                assert(text::before(kept.rows[j], x));
            }
        }
    }
    if output.truncated {
        let x = kept.rows[limit];
        assert(found.contains(x));
        if rows.contains(x) {
            let i = choose|i: int| 0 <= i < rows.len() && rows[i] == x;
            assert(text::before(kept.rows[i], kept.rows[limit]));
            sorted::before_is_irreflexive(x);
        }
        assert(found.contains(x) && !rows.contains(x));
    } else {
        assert forall|x: Seq<char>| found.contains(x) implies rows.contains(x) by {}
    }
}

/// The rows that are searched are those of the records that have one: of the facts that hold at
/// the time of the snapshot and lie in a scope that is searched.
pub proof fn searched_rows_are_those_of_records(
    policy: PolicyView,
    now: int,
    records: Seq<RecordView>,
    row: Seq<char>,
)
    ensures
        policy.rows(now, records).contains(row) <==> exists|i: int|
            0 <= i < records.len() && policy.row(now, #[trigger] records[i]) == Some(row),
    decreases records.len(),
{
    let rows = policy.rows(now, records);
    if records.len() > 0 {
        let fewer = records.drop_last();
        let old_rows = policy.rows(now, fewer);
        searched_rows_are_those_of_records(policy, now, fewer, row);
        if rows.contains(row) {
            let k = choose|k: int| 0 <= k < rows.len() && rows[k] == row;
            if k < old_rows.len() {
                assert(old_rows[k] == row);
                let i = choose|i: int|
                    0 <= i < fewer.len() && policy.row(now, #[trigger] fewer[i]) == Some(row);
                assert(records[i] == fewer[i]);
            } else {
                assert(policy.row(now, records[records.len() - 1]) == Some(row));
            }
        }
        if exists|i: int|
            0 <= i < records.len() && policy.row(now, #[trigger] records[i]) == Some(row) {
            let i = choose|i: int|
                0 <= i < records.len() && policy.row(now, #[trigger] records[i]) == Some(row);
            if i < fewer.len() {
                assert(fewer[i] == records[i]);
                let k = choose|k: int| 0 <= k < old_rows.len() && old_rows[k] == row;
                assert(rows[k] == row);
            } else {
                assert(rows[rows.len() - 1] == row);
            }
        }
    }
}

proof fn lemma_one_row(pattern: Seq<char>, row: Seq<char>)
    requires
        !row.contains('\n'),
        row.len() == 0 || row[0] != '\u{feff}',
    ensures
        search::lines_found(pattern, seq![row]) == if search::regex_matches(pattern, row) {
            seq![row]
        } else {
            Seq::<Seq<char>>::empty()
        },
{
    let fed = row + seq!['\n'];
    let none = Seq::<char>::empty();
    reveal_with_fuel(search::stream, 2);
    assert(seq![row].drop_last() =~= Seq::<Seq<char>>::empty());
    assert(search::stream(seq![row]) =~= fed);
    assert(search::without_mark(fed) == fed);
    assert(fed =~= row + seq!['\n'] + none);
    text::lemma_cut_char(row, '\n', none);
    text::lemma_first_char_is(fed, '\n', row.len() as int);
    assert(fed.take(row.len() as int + 1) =~= fed);
    assert(fed.skip(row.len() as int + 1) =~= none);
    reveal_with_fuel(search::fed_lines, 2);
    assert(search::fed_lines(fed) =~= seq![fed]);
    assert(search::without_feed(fed) =~= row);
    reveal(Seq::filter);
    reveal_with_fuel(Seq::filter, 2);
    assert(seq![fed].drop_last() =~= Seq::<Seq<char>>::empty());
    assert(search::matching(pattern, seq![fed]) =~= if search::regex_matches(pattern, row) {
        seq![fed]
    } else {
        Seq::<Seq<char>>::empty()
    });
    assert(search::lines_found(pattern, seq![row]) =~= if search::regex_matches(pattern, row) {
        seq![row]
    } else {
        Seq::<Seq<char>>::empty()
    });
}

/// Rows that hold no line feed are matched one by one: what is found is each row that the pattern
/// matches, whole, in the order of the rows.
pub proof fn rows_are_matched_one_by_one(pattern: Seq<char>, rows: Seq<Seq<char>>)
    requires
        forall|i: int|
            0 <= i < rows.len() ==> !(#[trigger] rows[i]).contains('\n') && (rows[i].len() == 0
                || rows[i][0] != '\u{feff}'),
    ensures
        search::lines_found(pattern, rows) == rows.filter(
            |row: Seq<char>| search::regex_matches(pattern, row),
        ),
    decreases rows.len(),
{
    let matched = |row: Seq<char>| search::regex_matches(pattern, row);
    reveal(Seq::filter);
    if rows.len() > 0 {
        let fewer = rows.drop_last();
        let last = rows.last();
        assert(rows[rows.len() - 1] == last);
        assert forall|i: int| 0 <= i < fewer.len() implies !(#[trigger] fewer[i]).contains('\n') && (
        fewer[i].len() == 0 || fewer[i][0] != '\u{feff}') by {
            assert(fewer[i] == rows[i]);
        }
        rows_are_matched_one_by_one(pattern, fewer);
        lemma_one_row(pattern, last);
        reveal_with_fuel(search::stream, 2);
        assert(seq![last].drop_last() =~= Seq::<Seq<char>>::empty());
        assert(search::stream(seq![last]) =~= last + seq!['\n']);
        search::search_in_parts(pattern, fewer, seq![last]);
        assert(rows =~= fewer + seq![last]);
        assert(search::lines_found(pattern, rows) =~= rows.filter(matched));
    } else {
        assert(search::stream(rows) =~= seq![]);
        assert(search::lines_found(pattern, rows) =~= rows.filter(matched));
    }
}

} // verus!
