//! Lists of distinct texts in lexical order.

use vstd::prelude::*;

use crate::text;

verus! {

/// Whether each text stands before all that follow it, so that no two are equal.
pub open spec fn ordered(rows: Seq<Seq<char>>) -> bool {
    forall|i: int, j: int|
        0 <= i < j < rows.len() ==> text::before(#[trigger] rows[i], #[trigger] rows[j])
}

/// `rows` with `row` at its place in the order, unless it is there already.
pub open spec fn placed(rows: Seq<Seq<char>>, row: Seq<char>) -> Seq<Seq<char>>
    decreases rows.len(),
{
    if rows.len() == 0 {
        seq![row]
    } else if rows[0] == row {
        rows
    } else if text::before(row, rows[0]) {
        seq![row] + rows
    } else {
        seq![rows[0]] + placed(rows.drop_first(), row)
    }
}

/// `rows` with each of `more` at its place.
pub open spec fn placed_all(rows: Seq<Seq<char>>, more: Seq<Seq<char>>) -> Seq<Seq<char>>
    decreases more.len(),
{
    if more.len() == 0 {
        rows
    } else {
        placed(placed_all(rows, more.drop_last()), more.last())
    }
}

/// No text stands before itself.
pub proof fn before_is_irreflexive(a: Seq<char>)
    ensures
        !text::before(a, a),
    decreases a.len(),
{
    if a.len() > 0 {
        before_is_irreflexive(a.drop_first());
    }
}

/// Of two different texts one stands before the other.
pub proof fn before_is_total(a: Seq<char>, b: Seq<char>)
    ensures
        a != b ==> text::before(a, b) || text::before(b, a),
    decreases a.len(),
{
    if a.len() == 0 || b.len() == 0 {
        if a.len() == b.len() {
            assert(a =~= b);
        }
    } else if a[0] == b[0] {
        before_is_total(a.drop_first(), b.drop_first());
        if a.drop_first() == b.drop_first() {
            assert(a =~= seq![a[0]] + a.drop_first());
            assert(b =~= seq![b[0]] + b.drop_first());
        }
    }
}

/// What stands before a text stands before all that the text stands before.
pub proof fn before_is_transitive(a: Seq<char>, b: Seq<char>, c: Seq<char>)
    requires
        text::before(a, b),
        text::before(b, c),
    ensures
        text::before(a, c),
    decreases a.len(),
{
    if a.len() > 0 && b.len() > 0 && c.len() > 0 && a[0] == b[0] && b[0] == c[0] {
        before_is_transitive(a.drop_first(), b.drop_first(), c.drop_first());
    }
}

/// Where a text is placed.
pub proof fn lemma_placed_at(rows: Seq<Seq<char>>, row: Seq<char>, at: int)
    requires
        0 <= at <= rows.len(),
        forall|j: int| 0 <= j < at ==> text::before(#[trigger] rows[j], row),
        at == rows.len() || rows[at] == row || text::before(row, rows[at]),
    ensures
        placed(rows, row) == if at < rows.len() && rows[at] == row {
            rows
        } else {
            rows.take(at) + seq![row] + rows.skip(at)
        },
    decreases rows.len(),
{
    if at == 0 {
        if rows.len() == 0 {
            assert(placed(rows, row) =~= rows.take(0) + seq![row] + rows.skip(0));
        } else if rows[0] != row {
            assert(seq![row] + rows =~= rows.take(0) + seq![row] + rows.skip(0));
        }
    } else {
        assert(text::before(rows[0], row));
        before_is_irreflexive(row);
        if text::before(row, rows[0]) {
            before_is_transitive(row, rows[0], row);
        }
        let rest = rows.drop_first();
        assert forall|j: int| 0 <= j < at - 1 implies text::before(#[trigger] rest[j], row) by {
            assert(rest[j] == rows[j + 1]);
        }
        lemma_placed_at(rest, row, at - 1);
        if at < rows.len() && rows[at] == row {
            assert(rest[at - 1] == row);
            assert(seq![rows[0]] + rest =~= rows);
        } else {
            assert(placed(rows, row) =~= rows.take(at) + seq![row] + rows.skip(at));
        }
    }
}

/// Placing a text keeps the order, and adds that text alone.
pub proof fn lemma_placed(rows: Seq<Seq<char>>, row: Seq<char>)
    requires
        ordered(rows),
    ensures
        ordered(placed(rows, row)),
        forall|x: Seq<char>|
            #![trigger placed(rows, row).contains(x)]
            placed(rows, row).contains(x) <==> rows.contains(x) || x == row,
        placed(rows, row).len() == rows.len() + if rows.contains(row) {
            0int
        } else {
            1int
        },
{
    let at = lemma_place(rows, row);
    lemma_placed_at(rows, row, at);
    let all = placed(rows, row);
    if at < rows.len() && rows[at] == row {
        assert(rows.contains(row));
    } else {
        assert forall|j: int| 0 <= j < rows.len() implies rows[j] != row by {
            before_is_irreflexive(row);
            if j > at {
                assert(text::before(rows[at], rows[j]));
                before_is_transitive(row, rows[at], rows[j]);
            }
        }
        assert(!rows.contains(row));
        assert forall|i: int, j: int| 0 <= i < j < all.len() implies text::before(
            #[trigger] all[i],
            #[trigger] all[j],
        ) by {
            if j < at {
            } else if j == at {
            } else if i == at {
                if j - 1 > at {
                    assert(text::before(rows[at], rows[j - 1]));
                    before_is_transitive(row, rows[at], rows[j - 1]);
                }
            } else {
                let k = if i < at {
                    i
                } else {
                    i - 1
                };
                assert(text::before(rows[k], rows[j - 1]));
            }
        }
        assert forall|x: Seq<char>| #[trigger] all.contains(x) <==> rows.contains(x) || x
            == row by {
            if all.contains(x) {
                let i = choose|i: int| 0 <= i < all.len() && all[i] == x;
                if i < at {
                    assert(rows[i] == x);
                } else if i > at {
                    assert(rows[i - 1] == x);
                }
            }
            if rows.contains(x) {
                let i = choose|i: int| 0 <= i < rows.len() && rows[i] == x;
                if i < at {
                    assert(all[i] == x);
                } else {
                    assert(all[i + 1] == x);
                }
            }
            if x == row {
                assert(all[at] == x);
            }
        }
    }
}

/// The place of a text in an ordered list.
proof fn lemma_place(rows: Seq<Seq<char>>, row: Seq<char>) -> (at: int)
    requires
        ordered(rows),
    ensures
        0 <= at <= rows.len(),
        forall|j: int| 0 <= j < at ==> text::before(#[trigger] rows[j], row),
        at == rows.len() || rows[at] == row || text::before(row, rows[at]),
    decreases rows.len(),
{
    if rows.len() == 0 {
        0
    } else {
        before_is_total(rows[0], row);
        if !text::before(rows[0], row) {
            0
        } else {
            let rest = rows.drop_first();
            assert forall|i: int, j: int| 0 <= i < j < rest.len() implies text::before(
                #[trigger] rest[i],
                #[trigger] rest[j],
            ) by {
                assert(text::before(rows[i + 1], rows[j + 1]));
            }
            let at = lemma_place(rest, row);
            assert forall|j: int| 0 <= j < at + 1 implies text::before(#[trigger] rows[j], row) by {
                if j > 0 {
                    assert(rest[j - 1] == rows[j]);
                }
            }
            if at < rest.len() {
                assert(rest[at] == rows[at + 1]);
            }
            at + 1
        }
    }
}

/// Placing texts keeps the order, and adds those texts alone.
pub proof fn lemma_placed_all(rows: Seq<Seq<char>>, more: Seq<Seq<char>>)
    requires
        ordered(rows),
    ensures
        ordered(placed_all(rows, more)),
        forall|x: Seq<char>|
            #![trigger placed_all(rows, more).contains(x)]
            placed_all(rows, more).contains(x) <==> rows.contains(x) || more.contains(x),
    decreases more.len(),
{
    if more.len() > 0 {
        let fewer = more.drop_last();
        lemma_placed_all(rows, fewer);
        let mid = placed_all(rows, fewer);
        lemma_placed(mid, more.last());
        assert forall|x: Seq<char>| #[trigger]
            placed_all(rows, more).contains(x) <==> rows.contains(x) || more.contains(x) by {
            assert(placed(mid, more.last()).contains(x) <==> mid.contains(x) || x == more.last());
            if more.contains(x) {
                let i = choose|i: int| 0 <= i < more.len() && more[i] == x;
                if i < fewer.len() {
                    assert(fewer[i] == x);
                }
            }
            if fewer.contains(x) {
                let i = choose|i: int| 0 <= i < fewer.len() && fewer[i] == x;
                assert(more[i] == x);
            }
            if x == more.last() {
                assert(more[more.len() - 1] == x);
            }
        }
    }
}

/// Placing a text that is there changes nothing.
pub proof fn lemma_placed_again(rows: Seq<Seq<char>>, row: Seq<char>)
    requires
        ordered(rows),
        rows.contains(row),
    ensures
        placed(rows, row) == rows,
{
    let at = choose|at: int| 0 <= at < rows.len() && rows[at] == row;
    lemma_placed_at(rows, row, at);
}

/// Placing texts that are there changes nothing.
pub proof fn lemma_placed_all_again(rows: Seq<Seq<char>>, more: Seq<Seq<char>>)
    requires
        ordered(rows),
        forall|i: int| 0 <= i < more.len() ==> rows.contains(#[trigger] more[i]),
    ensures
        placed_all(rows, more) == rows,
    decreases more.len(),
{
    if more.len() > 0 {
        let fewer = more.drop_last();
        assert forall|i: int| 0 <= i < fewer.len() implies rows.contains(#[trigger] fewer[i]) by {
            assert(fewer[i] == more[i]);
        }
        lemma_placed_all_again(rows, fewer);
        assert(rows.contains(more[more.len() - 1]));
        lemma_placed_again(rows, more.last());
    }
}

/// Placing the texts of an ordered list one after the other makes that list.
pub proof fn lemma_placed_in_order(rows: Seq<Seq<char>>)
    requires
        ordered(rows),
    ensures
        placed_all(seq![], rows) == rows,
    decreases rows.len(),
{
    if rows.len() > 0 {
        let fewer = rows.drop_last();
        assert forall|i: int, j: int| 0 <= i < j < fewer.len() implies text::before(
            #[trigger] fewer[i],
            #[trigger] fewer[j],
        ) by {
            assert(text::before(rows[i], rows[j]));
        }
        lemma_placed_in_order(fewer);
        assert forall|j: int| 0 <= j < fewer.len() implies text::before(
            #[trigger] fewer[j],
            rows.last(),
        ) by {
            assert(text::before(rows[j], rows[rows.len() - 1]));
        }
        lemma_placed_at(fewer, rows.last(), fewer.len() as int);
        assert(fewer.take(fewer.len() as int) + seq![rows.last()] + fewer.skip(fewer.len() as int)
            =~= rows);
    } else {
        assert(placed_all(seq![], rows) =~= rows);
    }
}

/// Whether a list holds a text.
pub fn has(rows: &Vec<String>, row: &str) -> (yes: bool)
    ensures
        yes == text::texts(rows@).contains(row@),
{
    let ghost all = text::texts(rows@);
    for i in 0..rows.len()
        invariant
            all == text::texts(rows@),
            forall|j: int| 0 <= j < i ==> all[j] != row@,
    {
        if text::same_text(rows[i].as_str(), row) {
            assert(all[i as int] == row@);
            return true;
        }
    }
    false
}

/// Places a text in a list.
pub fn place(rows: &mut Vec<String>, row: String)
    ensures
        text::texts(final(rows)@) == placed(text::texts(old(rows)@), row@),
{
    let ghost all = text::texts(rows@);
    let ghost whole = rows@;
    let mut at: usize = 0;
    while at < rows.len() && text::is_before(rows[at].as_str(), row.as_str())
        invariant
            rows@ == whole,
            all == text::texts(whole),
            at <= rows@.len(),
            forall|j: int| 0 <= j < at ==> text::before(#[trigger] all[j], row@),
        decreases rows@.len() - at,
    {
        at = at + 1;
    }
    proof {
        if at < rows@.len() {
            before_is_total(all[at as int], row@);
        }
        lemma_placed_at(all, row@, at as int);
    }
    if at < rows.len() && text::same_text(rows[at].as_str(), row.as_str()) {
        return;
    }
    rows.insert(at, row);
    assert(text::texts(rows@) =~= all.take(at as int) + seq![row@] + all.skip(at as int));
}

} // verus!
