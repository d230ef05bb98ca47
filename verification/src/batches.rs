//! Batches of rules, which are installed into a memory and can be taken back.

use vstd::prelude::*;

use crate::agent;
use crate::agent::MemoryView;
use crate::clause;
use crate::clause::RuleView;
use crate::datalog;
use crate::datalog::RowView;
use crate::defaults;
use crate::engine::EngineView;
use crate::number;
use crate::persistence;
use crate::program_join;
use crate::query_laws;
use crate::snapshot::ValueView;
use crate::text;
use crate::update_laws;

verus! {

/// A batch of rules: its id, and the text that was installed.
#[derive(Clone, Debug, PartialEq, Eq)]
pub struct Batch {
    pub id: String,
    pub source: String,
}

/// A batch of rules, as a view.
#[verifier::ext_equal]
pub struct BatchView {
    pub id: Seq<char>,
    pub source: Seq<char>,
}

impl View for Batch {
    type V = BatchView;

    open spec fn view(&self) -> BatchView {
        BatchView { id: self.id@, source: self.source@ }
    }
}

/// Batches, as views.
pub open spec fn batch_views(batches: Seq<Batch>) -> Seq<BatchView> {
    batches.map_values(|batch: Batch| batch@)
}

/// The id of the batch with a number.
pub open spec fn batch_id(number: int) -> Seq<char> {
    "batch"@ + number::decimal(number as nat)
}

/// The rules that a memory began with and those of batches, one after the other, each on lines of
/// its own.
pub open spec fn program_text(base: Seq<char>, batches: Seq<BatchView>) -> Seq<char>
    decreases batches.len(),
{
    if batches.len() == 0 {
        base
    } else {
        program_text(base, batches.drop_last()) + "\n"@ + batches.last().source
    }
}

/// Whether the rules that a memory began with and those of batches are programs.
pub open spec fn readable(base: Seq<char>, batches: Seq<BatchView>) -> bool {
    &&& clause::read_program(base) is Some
    &&& forall|i: int|
        0 <= i < batches.len() ==> clause::read_program((#[trigger] batches[i]).source) is Some
}

/// Which of some batches has an id.
pub open spec fn place_of(batches: Seq<BatchView>, id: Seq<char>) -> Option<int>
    decreases batches.len(),
{
    if batches.len() == 0 {
        None
    } else {
        match place_of(batches.drop_last(), id) {
            Some(i) => Some(i),
            None => if batches.last().id == id {
                Some(batches.len() - 1)
            } else {
                None
            },
        }
    }
}

impl MemoryView {
    /// The memory when its rules are those of a text.
    pub open spec fn with_program(self, text: Seq<char>) -> MemoryView {
        MemoryView {
            engine: EngineView {
                names: datalog::with_rule_names(self.engine.names, agent::clauses_of(text)),
                rules: agent::clauses_of(text),
                ..self.engine
            },
            rules: text,
            ..self
        }
    }

    /// The memory after a batch was installed: its rules stand behind the others, and its facts are
    /// asserted.
    pub open spec fn with_batch(self, source: Seq<char>) -> MemoryView {
        let batches = self.batches.push(BatchView { id: batch_id(self.installed + 1), source });
        let after = self.with_program(program_text(self.base, batches));
        MemoryView {
            engine: agent::with_clauses(after.engine, agent::clauses_of(source)),
            batches,
            installed: self.installed + 1,
            ..after
        }
    }

    /// The memory after a batch was taken back: its rules are gone, and what facts it asserted stay.
    pub open spec fn without_batch(self, i: int) -> MemoryView {
        MemoryView {
            batches: self.batches.remove(i),
            ..self.with_program(program_text(self.base, self.batches.remove(i)))
        }
    }
}

/// What is first among some batches has the id, and no earlier one has.
pub proof fn lemma_place_of(batches: Seq<BatchView>, id: Seq<char>)
    ensures
        match place_of(batches, id) {
            Some(i) => 0 <= i < batches.len() && batches[i].id == id && forall|j: int|
                0 <= j < i ==> (#[trigger] batches[j]).id != id,
            None => forall|j: int| 0 <= j < batches.len() ==> (#[trigger] batches[j]).id != id,
        },
    decreases batches.len(),
{
    if batches.len() > 0 {
        let fewer = batches.drop_last();
        lemma_place_of(fewer, id);
        match place_of(fewer, id) {
            Some(i) => {
                assert forall|j: int| 0 <= j < i implies (#[trigger] batches[j]).id != id by {
                    assert(fewer[j] == batches[j]);
                }
            },
            None => {
                assert forall|j: int| 0 <= j < fewer.len() implies (#[trigger] batches[j]).id
                    != id by {
                    assert(fewer[j] == batches[j]);
                }
            },
        }
    }
}

/// Programs one behind the other are a program.
pub proof fn lemma_program_reads(base: Seq<char>, batches: Seq<BatchView>)
    requires
        readable(base, batches),
    ensures
        clause::read_program(program_text(base, batches)) is Some,
    decreases batches.len(),
{
    if batches.len() > 0 {
        let fewer = batches.drop_last();
        assert forall|i: int| 0 <= i < fewer.len() implies clause::read_program(
            (#[trigger] fewer[i]).source,
        ) is Some by {
            assert(fewer[i] == batches[i]);
        }
        lemma_program_reads(base, fewer);
        assert(clause::read_program(batches[batches.len() - 1].source) is Some);
        program_join::programs_join(program_text(base, fewer), batches.last().source);
    }
}

/// Clauses without facts assert nothing.
proof fn lemma_rules_assert_nothing(engine: EngineView, clauses: Seq<RuleView>)
    requires
        forall|i: int| 0 <= i < clauses.len() ==> !(#[trigger] clauses[i]).is_fact(),
    ensures
        agent::with_clauses(engine, clauses) == engine,
    decreases clauses.len(),
{
    if clauses.len() > 0 {
        let fewer = clauses.drop_last();
        assert forall|i: int| 0 <= i < fewer.len() implies !(#[trigger] fewer[i]).is_fact() by {
            assert(fewer[i] == clauses[i]);
        }
        assert(!clauses[clauses.len() - 1].is_fact());
        lemma_rules_assert_nothing(engine, fewer);
    }
}

/// Asserting clauses changes neither the rules nor the time.
pub proof fn lemma_clauses_keep_rules(engine: EngineView, clauses: Seq<RuleView>)
    ensures
        agent::with_clauses(engine, clauses).rules == engine.rules,
        agent::with_clauses(engine, clauses).now == engine.now,
    decreases clauses.len(),
{
    if clauses.len() > 0 {
        let before = agent::with_clauses(engine, clauses.drop_last());
        lemma_clauses_keep_rules(engine, clauses.drop_last());
        lemma_symbols_keep_rules(before, agent::ground_key(clauses.last().head));
    }
}

proof fn lemma_symbols_keep_rules(engine: EngineView, key: Seq<ValueView>)
    ensures
        persistence::with_symbols(engine, key).rules == engine.rules,
        persistence::with_symbols(engine, key).now == engine.now,
        persistence::with_symbols(engine, key).facts == engine.facts,
    decreases key.len(),
{
    if key.len() > 0 {
        lemma_symbols_keep_rules(engine, key.drop_last());
    }
}

/// Asserting clauses takes no fact back.
proof fn lemma_clauses_keep_facts(
    engine: EngineView,
    clauses: Seq<RuleView>,
    pred: Seq<char>,
    key: Seq<ValueView>,
)
    requires
        update_laws::has_fact(engine.facts, pred, key),
    ensures
        update_laws::has_fact(agent::with_clauses(engine, clauses).facts, pred, key),
    decreases clauses.len(),
{
    if clauses.len() > 0 {
        let before = agent::with_clauses(engine, clauses.drop_last());
        let head = clauses.last().head;
        lemma_clauses_keep_facts(engine, clauses.drop_last(), pred, key);
        lemma_symbols_keep_rules(before, agent::ground_key(head));
        update_laws::declare_adds_one(
            before.facts,
            head.pred,
            agent::ground_key(head),
            agent::program_ann(),
            pred,
            key,
        );
    }
}

/// A batch adds its rules behind those that are there, and what held holds with them.
pub proof fn batch_adds_rules(memory: MemoryView, source: Seq<char>, row: RowView)
    requires
        memory.rules == program_text(memory.base, memory.batches),
        memory.engine.rules == agent::clauses_of(memory.rules),
        readable(memory.base, memory.batches),
        clause::read_program(source) is Some,
    ensures
        ({
            let after = memory.with_batch(source);
            &&& after.engine.rules == memory.engine.rules + agent::clauses_of(source)
            &&& datalog::holds(memory.engine, memory.engine.rules, row) ==> datalog::holds(
                after.engine,
                after.engine.rules,
                row,
            )
        }),
{
    let after = memory.with_batch(source);
    let clauses = agent::clauses_of(source);
    let start = memory.with_program(program_text(memory.base, after.batches)).engine;
    assert(after.batches.drop_last() =~= memory.batches);
    lemma_program_reads(memory.base, memory.batches);
    program_join::programs_join(memory.rules, source);
    lemma_clauses_keep_rules(start, clauses);
    if datalog::holds(memory.engine, memory.engine.rules, row) {
        query_laws::more_rules_hold_more(memory.engine, memory.engine.rules, clauses, row);
        let rules = defaults::all_rules(after.engine.rules);
        assert forall|rows: Set<RowView>| #[trigger]
            datalog::closed_under(after.engine, rules, rows) implies rows.contains(row) by {
            assert forall|r: RowView| #[trigger]
                datalog::stated(memory.engine, r) implies rows.contains(r) by {
                if update_laws::has_fact(memory.engine.facts, r.pred, r.key) {
                    lemma_clauses_keep_facts(start, clauses, r.pred, r.key);
                }
                assert(datalog::stated(after.engine, r));
            }
            assert(datalog::closed_under(memory.engine, rules, rows));
        }
    }
}

/// A batch can be reverted: to install it and to take it back leaves the rules, the batches and the
/// time as they were. Where it holds rules alone, the facts are as they were too, and the same rows
/// hold.
pub proof fn batch_is_reverted(memory: MemoryView, source: Seq<char>, row: RowView)
    requires
        memory.rules == program_text(memory.base, memory.batches),
        memory.engine.rules == agent::clauses_of(memory.rules),
    ensures
        ({
            let after = memory.with_batch(source).without_batch(memory.batches.len() as int);
            &&& after.rules == memory.rules
            &&& after.batches == memory.batches
            &&& after.engine.rules == memory.engine.rules
            &&& after.engine.now == memory.engine.now
            &&& (forall|i: int|
                0 <= i < agent::clauses_of(source).len() ==> !(#[trigger] agent::clauses_of(
                    source,
                )[i]).is_fact()) ==> {
                &&& after.engine.facts == memory.engine.facts
                &&& datalog::holds(after.engine, after.engine.rules, row) <==> datalog::holds(
                    memory.engine,
                    memory.engine.rules,
                    row,
                )
            }
        }),
{
    let with = memory.with_batch(source);
    let after = with.without_batch(memory.batches.len() as int);
    let clauses = agent::clauses_of(source);
    let start = memory.with_program(program_text(memory.base, with.batches)).engine;
    assert(with.batches.remove(memory.batches.len() as int) =~= memory.batches);
    lemma_clauses_keep_rules(start, clauses);
    if forall|i: int| 0 <= i < clauses.len() ==> !(#[trigger] clauses[i]).is_fact() {
        lemma_rules_assert_nothing(start, clauses);
        datalog::lemma_same_store(after.engine, memory.engine, memory.engine.rules, row);
    }
}

// -------------------------------------------------------------- functions
/// Writes the rules that a memory began with and those of batches.
pub fn write_program(base: &str, batches: &Vec<Batch>) -> (written: String)
    ensures
        written@ == program_text(base@, batch_views(batches@)),
{
    let ghost all = batch_views(batches@);
    let mut written: String = base.to_owned();
    assert(all.take(0) =~= Seq::<BatchView>::empty());
    for i in 0..batches.len()
        invariant
            all == batch_views(batches@),
            written@ == program_text(base@, all.take(i as int)),
    {
        assert(all.take(i as int + 1).drop_last() =~= all.take(i as int));
        written.append("\n");
        written.append(batches[i].source.as_str());
    }
    assert(all.take(all.len() as int) =~= all);
    written
}

/// Which of some batches has an id.
pub fn find_batch(batches: &Vec<Batch>, id: &str) -> (place: Option<usize>)
    ensures
        match place {
            Some(i) => i < batches@.len() && place_of(batch_views(batches@), id@) == Some(i as int),
            None => place_of(batch_views(batches@), id@) is None,
        },
{
    let ghost all = batch_views(batches@);
    for i in 0..batches.len()
        invariant
            all == batch_views(batches@),
            forall|j: int| 0 <= j < i ==> (#[trigger] all[j]).id != id@,
    {
        assert(all[i as int] == batches@[i as int]@);
        if text::same_text(batches[i].id.as_str(), id) {
            proof {
                lemma_place_of(all, id@);
                assert(all[i as int].id == id@);
                let k = place_of(all, id@)->0;
                if k < i {
                    assert(all[k].id != id@);
                }
            }
            return Some(i);
        }
    }
    proof {
        lemma_place_of(all, id@);
        if let Some(k) = place_of(all, id@) {
            assert(all[k].id != id@);
        }
    }
    None
}

/// Copies batches.
pub fn copy_batches(batches: &Vec<Batch>) -> (copy: Vec<Batch>)
    ensures
        batch_views(copy@) == batch_views(batches@),
{
    let ghost all = batch_views(batches@);
    let mut copy: Vec<Batch> = Vec::new();
    assert(batch_views(copy@) =~= all.take(0));
    for i in 0..batches.len()
        invariant
            all == batch_views(batches@),
            batch_views(copy@) == all.take(i as int),
    {
        let ghost before = batch_views(copy@);
        copy.push(
            Batch {
                id: batches[i].id.as_str().to_owned(),
                source: batches[i].source.as_str().to_owned(),
            },
        );
        assert(batch_views(copy@) =~= before.push(all[i as int]));
        assert(all.take(i as int + 1) =~= all.take(i as int).push(all[i as int]));
    }
    assert(all.take(all.len() as int) =~= all);
    copy
}

} // verus!
