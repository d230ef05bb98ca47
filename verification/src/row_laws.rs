//! What the rows that are searched show, and of which facts they are.

use vstd::prelude::*;

use crate::number;
use crate::search;
use crate::search::PolicyView;
use crate::snapshot::{RecordView, ValueView};
use crate::text;
use crate::text_laws;

verus! {

/// How a value is shown: a symbol as its name, an integer in decimal digits.
pub proof fn values_are_shown_plainly(name: Seq<char>, i: int)
    ensures
        search::shown(ValueView::Symbol(name)) == name,
        search::shown(ValueView::Integer(i)) == number::decimal_int(i),
{
}

/// Each part stands in a join.
pub proof fn parts_stand_in_their_join(parts: Seq<Seq<char>>, separator: Seq<char>, i: int)
    requires
        0 <= i < parts.len(),
    ensures
        text::contains_text(text::join(parts, separator), parts[i]),
    decreases parts.len(),
{
    let none = Seq::<char>::empty();
    if parts.len() == 1 {
        assert(none + parts[0] + none =~= parts[0]);
        text_laws::lemma_contained(none, parts[0], none);
    } else {
        let fewer = parts.drop_last();
        let first = text::join(fewer, separator);
        let whole = text::join(parts, separator);
        if i < fewer.len() {
            parts_stand_in_their_join(fewer, separator, i);
            assert(whole =~= none + first + (separator + parts.last()));
            text_laws::lemma_contained_in(none, first, separator + parts.last(), parts[i]);
        } else {
            assert(whole =~= (first + separator) + parts.last() + none);
            text_laws::lemma_contained(first + separator, parts.last(), none);
        }
    }
}

/// What a row shows: the scope, the subject, the relation and the object, and all references.
pub open spec fn full_row(
    scope: Seq<char>,
    subject: ValueView,
    relation: ValueView,
    object: ValueView,
    references: Seq<Seq<char>>,
) -> Seq<char> {
    scope + "\t"@ + search::shown(subject) + " --"@ + search::shown(relation) + "--> "@
        + search::shown(object) + "\tprovenance="@ + text::join(references, ","@)
}

/// Whether a time is one from a first moment on, and before a last one.
pub open spec fn lies_between(from: ValueView, now: int, to: ValueView) -> bool {
    from is Integer && to is Integer && from->Integer_0 <= now && now < to->Integer_0
}

/// Whether a fact of the relation without scopes is valid at a time.
pub open spec fn edge_valid(arguments: Seq<ValueView>, now: int) -> bool {
    arguments.len() == 6 && lies_between(arguments[3], now, arguments[4])
}

/// Whether a fact of the relation with scopes is valid at a time, in a scope.
pub open spec fn scoped_valid(arguments: Seq<ValueView>, now: int, scope: Seq<char>) -> bool {
    arguments.len() == 7 && arguments[0] == ValueView::Symbol(scope) && lies_between(
        arguments[4],
        now,
        arguments[5],
    )
}

/// Which facts have a row that is searched, and what it shows. A fact without a scope has one where
/// it is valid now and such facts are searched; one with a scope, where it is valid now and its
/// scope is searched. The row shows all references of the fact, each of which stands in it. No
/// other record has a row.
pub proof fn searched_row_shows_its_fact(
    policy: PolicyView,
    now: int,
    predicate: Seq<char>,
    confidence: Seq<char>,
    provenance: Seq<Seq<char>>,
    arguments: Seq<ValueView>,
)
    ensures
        ({
            let record = RecordView::Fact { predicate, confidence, provenance, arguments };
            let row = policy.row(now, record);
            &&& predicate == "edge"@ ==> row == if policy.include_legacy && edge_valid(
                arguments,
                now,
            ) {
                Some(
                    full_row(policy.legacy, arguments[0], arguments[1], arguments[2], provenance),
                )
            } else {
                None
            }
            &&& predicate == "scoped_edge"@ ==> (row is Some <==> exists|scope: Seq<char>|
                #[trigger] scoped_valid(arguments, now, scope) && (policy.selected is None
                    || policy.selected->0.contains(scope)))
            &&& predicate == "scoped_edge"@ && row is Some ==> arguments[0] is Symbol && row
                == Some(
                full_row(
                    arguments[0]->Symbol_0,
                    arguments[1],
                    arguments[2],
                    arguments[3],
                    provenance,
                ),
            )
            &&& predicate != "edge"@ && predicate != "scoped_edge"@ ==> row is None
            &&& row is Some ==> forall|i: int|
                0 <= i < provenance.len() ==> text::contains_text(
                    row->0,
                    #[trigger] provenance[i],
                )
        }),
{
    let record = RecordView::Fact { predicate, confidence, provenance, arguments };
    let row = policy.row(now, record);
    reveal_strlit("edge");
    reveal_strlit("scoped_edge");
    assert("edge"@.len() != "scoped_edge"@.len());
    if predicate == "scoped_edge"@ && row is Some {
        assert(scoped_valid(arguments, now, arguments[0]->Symbol_0));
    }
    if row is Some {
        let list = text::join(provenance, ","@);
        assert forall|i: int| 0 <= i < provenance.len() implies text::contains_text(
            row->0,
            #[trigger] provenance[i],
        ) by {
            parts_stand_in_their_join(provenance, ","@, i);
            let front = row->0.take(row->0.len() - list.len());
            let none = Seq::<char>::empty();
            assert(row->0 =~= front + list + none);
            text_laws::lemma_contained_in(front, list, none, provenance[i]);
        }
    }
}

/// A record that is no fact has no row.
pub proof fn only_facts_are_searched(policy: PolicyView, now: int, record: RecordView)
    requires
        !(record is Fact),
    ensures
        policy.row(now, record) is None,
{
}

/// The rows of records one after the other are the rows of the first and then those of the rest, and
/// a record has one row or none.
pub proof fn rows_follow_the_records(
    policy: PolicyView,
    now: int,
    records: Seq<RecordView>,
    record: RecordView,
)
    ensures
        policy.rows(now, seq![]) == Seq::<Seq<char>>::empty(),
        policy.rows(now, records.push(record)) == policy.rows(now, records) + match policy.row(
            now,
            record,
        ) {
            Some(row) => seq![row],
            None => seq![],
        },
{
    assert(records.push(record).drop_last() =~= records);
    assert(policy.rows(now, records.push(record)) =~= policy.rows(now, records)
        + match policy.row(now, record) {
        Some(row) => seq![row],
        None => seq![],
    });
}

} // verus!
