//! How a memory is written to a snapshot and read from one.
//!
//! A snapshot holds the time, the added rules, the episodes, the conflicts and all facts of the
//! store. What rules derive is no fact of the store, and is not written.

use vstd::prelude::*;

use crate::agent;
use crate::agent::{Episode, EpisodeView, MemoryView};
use crate::clause;
use crate::clause::Rule;
use crate::engine;
use crate::engine::{Ann, AnnView, Engine, EngineView, Fact, FactView, Value};
use crate::program_laws;
use crate::snapshot;
use crate::snapshot::{
    ErrorView, RecordView, SnapshotError, SnapshotReader, SnapshotRecord, SnapshotValue,
    ValueView,
};
use crate::text;

verus! {

/// The record of an episode.
pub open spec fn episode_record(episode: EpisodeView) -> RecordView {
    RecordView::Episode {
        id: episode.id,
        timestamp: episode.ts,
        speaker: episode.speaker,
        text: episode.text,
    }
}

/// The records of a fact: one for each of its confidences.
pub open spec fn confidence_records(fact: FactView) -> Seq<RecordView> {
    fact.ann.conf.map_values(
        |confidence: Seq<char>|
            RecordView::Fact {
                predicate: fact.pred,
                confidence,
                provenance: fact.ann.prov,
                arguments: fact.key,
            },
    )
}

/// The records of facts.
pub open spec fn fact_records(facts: Seq<FactView>) -> Seq<RecordView>
    decreases facts.len(),
{
    if facts.len() == 0 {
        seq![]
    } else {
        fact_records(facts.drop_last()) + confidence_records(facts.last())
    }
}

/// The records of a memory.
pub open spec fn memory_records(memory: MemoryView) -> Seq<RecordView> {
    seq![RecordView::Now(memory.engine.now), RecordView::Rules(memory.rules)]
        + memory.episodes.map_values(|episode: EpisodeView| episode_record(episode))
        + memory.escalations.map_values(|told: Seq<char>| RecordView::Escalation(told))
        + fact_records(memory.engine.facts)
}

/// The values of a key as they are written.
pub fn written_values(engine: &Engine, key: &Vec<Value>) -> (values: Vec<SnapshotValue>)
    requires
        engine.wf(),
        engine::known_key(engine@.names, key@),
    ensures
        snapshot::value_views(values@) == engine::key_view(engine@.names, key@),
{
    let ghost all = engine::key_view(engine@.names, key@);
    let mut values: Vec<SnapshotValue> = Vec::new();
    assert(snapshot::value_views(values@) =~= all.take(0));
    for i in 0..key.len()
        invariant
            engine.wf(),
            engine::known_key(engine@.names, key@),
            all == engine::key_view(engine@.names, key@),
            snapshot::value_views(values@) == all.take(i as int),
    {
        assert(engine::known(engine@.names, key@[i as int]));
        let ghost before = snapshot::value_views(values@);
        let value: SnapshotValue = match key[i] {
            Value::Sym(_) => SnapshotValue::Symbol(engine.display(&key[i])),
            Value::Int(integer) => SnapshotValue::Integer(integer),
        };
        let ghost said = value@;
        values.push(value);
        assert(said == all[i as int]);
        assert(snapshot::value_views(values@) =~= before.push(all[i as int]));
        assert(all.take(i as int + 1) =~= all.take(i as int).push(all[i as int]));
    }
    assert(all.take(all.len() as int) =~= all);
    values
}

/// Writes the records of a fact.
fn push_fact(records: &mut Vec<SnapshotRecord>, engine: &Engine, fact: &Fact)
    requires
        engine.wf(),
        engine::known_key(engine@.names, fact.key@),
    ensures
        snapshot::record_views(final(records)@) == snapshot::record_views(old(records)@)
            + confidence_records(engine::fact_view(engine@.names, *fact)),
{
    let ghost start = snapshot::record_views(records@);
    let ghost view = engine::fact_view(engine@.names, *fact);
    let ghost all = confidence_records(view);
    assert(start + all.take(0) =~= start);
    for i in 0..fact.ann.conf.len()
        invariant
            engine.wf(),
            engine::known_key(engine@.names, fact.key@),
            view == engine::fact_view(engine@.names, *fact),
            all == confidence_records(view),
            snapshot::record_views(records@) == start + all.take(i as int),
    {
        let ghost before = snapshot::record_views(records@);
        let record = SnapshotRecord::Fact {
            predicate: fact.pred.as_str().to_owned(),
            confidence: fact.ann.conf[i].as_str().to_owned(),
            provenance: engine::copy_strings(&fact.ann.prov),
            arguments: written_values(engine, &fact.key),
        };
        let ghost said = record@;
        records.push(record);
        assert(said == all[i as int]);
        assert(snapshot::record_views(records@) =~= before.push(all[i as int]));
        assert(start + all.take(i as int + 1) =~= before.push(all[i as int]));
    }
    assert(all.take(all.len() as int) =~= all);
}

/// The records of a memory that consists of the given parts.
pub fn list_records(
    engine: &Engine,
    rules: &str,
    episodes: &Vec<Episode>,
    escalations: &Vec<String>,
) -> (records: Vec<SnapshotRecord>)
    requires
        engine.wf(),
    ensures
        snapshot::record_views(records@) == seq![
            RecordView::Now(engine@.now),
            RecordView::Rules(rules@),
        ] + agent::episode_views(episodes@).map_values(
            |episode: EpisodeView| episode_record(episode),
        ) + text::texts(escalations@).map_values(|told: Seq<char>| RecordView::Escalation(told))
            + fact_records(engine@.facts),
{
    let mut records: Vec<SnapshotRecord> = Vec::new();
    records.push(SnapshotRecord::Now(engine.now()));
    records.push(SnapshotRecord::Rules(rules.to_owned()));
    let ghost header = seq![RecordView::Now(engine@.now), RecordView::Rules(rules@)];
    let ghost eps = agent::episode_views(episodes@).map_values(
        |episode: EpisodeView| episode_record(episode),
    );
    let ghost escs = text::texts(escalations@).map_values(
        |told: Seq<char>| RecordView::Escalation(told),
    );
    assert(snapshot::record_views(records@) =~= header + eps.take(0));
    for i in 0..episodes.len()
        invariant
            eps == agent::episode_views(episodes@).map_values(
                |episode: EpisodeView| episode_record(episode),
            ),
            snapshot::record_views(records@) == header + eps.take(i as int),
    {
        let ghost before = snapshot::record_views(records@);
        let episode = &episodes[i];
        let speaker: Option<String> = match &episode.speaker {
            Some(name) => Some(name.as_str().to_owned()),
            None => None,
        };
        let record = SnapshotRecord::Episode {
            id: episode.id.as_str().to_owned(),
            timestamp: episode.ts,
            speaker,
            text: episode.text.as_str().to_owned(),
        };
        let ghost said = record@;
        records.push(record);
        assert(said == eps[i as int]);
        assert(snapshot::record_views(records@) =~= before.push(eps[i as int]));
        assert(header + eps.take(i as int + 1) =~= before.push(eps[i as int]));
    }
    assert(eps.take(eps.len() as int) =~= eps);
    assert(header + eps + escs.take(0) =~= header + eps);
    for i in 0..escalations.len()
        invariant
            escs == text::texts(escalations@).map_values(
                |told: Seq<char>| RecordView::Escalation(told),
            ),
            snapshot::record_views(records@) == header + eps + escs.take(i as int),
    {
        let ghost before = snapshot::record_views(records@);
        records.push(SnapshotRecord::Escalation(escalations[i].as_str().to_owned()));
        assert(snapshot::record_views(records@) =~= before.push(escs[i as int]));
        assert(header + eps + escs.take(i as int + 1) =~= before.push(escs[i as int]));
    }
    assert(escs.take(escs.len() as int) =~= escs);
    let facts: &Vec<Fact> = engine.facts();
    let ghost all = engine@.facts;
    let ghost start = snapshot::record_views(records@);
    assert(start + fact_records(all.take(0)) =~= start);
    for i in 0..facts.len()
        invariant
            engine.wf(),
            all == engine@.facts,
            engine::known_facts(engine@.names, facts@),
            engine::fact_views(engine@.names, facts@) == all,
            snapshot::record_views(records@) == start + fact_records(all.take(i as int)),
    {
        assert(all.take(i as int + 1).drop_last() =~= all.take(i as int));
        assert(engine::known_key(engine@.names, facts@[i as int].key@));
        assert(all[i as int] == engine::fact_view(engine@.names, facts@[i as int]));
        push_fact(&mut records, engine, &facts[i]);
        assert(start + (fact_records(all.take(i as int)) + confidence_records(all[i as int]))
            =~= start + fact_records(all.take(i as int)) + confidence_records(all[i as int]));
    }
    assert(all.take(all.len() as int) =~= all);
    records
}

// ---------------------------------------------------------------- loading
/// Why a memory cannot be loaded.
#[derive(Clone, Debug, PartialEq, Eq)]
pub enum LoadError {
    /// The snapshot cannot be read.
    Snapshot(SnapshotError),
    /// The second record does not hold the rules.
    MissingRules,
    /// The rules cannot be read.
    Rules(String),
    /// A record after the second tells the time or the rules again.
    DuplicateHeader,
}

/// Why a memory cannot be loaded, as a view.
pub enum LoadErrorView {
    Snapshot(ErrorView),
    MissingRules,
    Rules(Seq<char>),
    DuplicateHeader,
}

impl View for LoadError {
    type V = LoadErrorView;

    open spec fn view(&self) -> LoadErrorView {
        match self {
            LoadError::Snapshot(error) => LoadErrorView::Snapshot(error@),
            LoadError::MissingRules => LoadErrorView::MissingRules,
            LoadError::Rules(rules) => LoadErrorView::Rules(rules@),
            LoadError::DuplicateHeader => LoadErrorView::DuplicateHeader,
        }
    }
}

/// How a failure to load is told to a reader.
pub open spec fn load_error_text(error: LoadErrorView) -> Seq<char> {
    match error {
        LoadErrorView::Snapshot(error) => snapshot::error_text(error),
        LoadErrorView::MissingRules => "snapshot is missing its RULES record"@,
        LoadErrorView::Rules(rules) => clause::unreadable(rules),
        LoadErrorView::DuplicateHeader => "snapshot contains a duplicate header record"@,
    }
}

impl LoadError {
    /// Tells the failure to a reader.
    pub fn message(&self) -> (told: String)
        ensures
            told@ == load_error_text(self@),
    {
        match self {
            LoadError::Snapshot(error) => error.message(),
            LoadError::MissingRules => "snapshot is missing its RULES record".to_owned(),
            LoadError::Rules(rules) => clause::tell_unreadable(rules.as_str()),
            LoadError::DuplicateHeader => "snapshot contains a duplicate header record".to_owned(),
        }
    }
}

/// The store in which the symbols among some values are interned.
pub open spec fn with_symbols(engine: EngineView, values: Seq<ValueView>) -> EngineView
    decreases values.len(),
{
    if values.len() == 0 {
        engine
    } else {
        let before = with_symbols(engine, values.drop_last());
        match values.last() {
            ValueView::Symbol(name) => before.with_name(name),
            ValueView::Integer(_) => before,
        }
    }
}

/// The memory after a record was taken; a second header is not taken.
pub open spec fn taken(memory: MemoryView, record: RecordView) -> Option<MemoryView> {
    match record {
        RecordView::Episode { id, timestamp, speaker, text } => Some(
            MemoryView {
                episodes: memory.episodes.push(
                    EpisodeView { id, text, ts: timestamp, speaker },
                ),
                ..memory
            },
        ),
        RecordView::Escalation(told) => Some(
            MemoryView { escalations: memory.escalations.push(told), ..memory },
        ),
        RecordView::Fact { predicate, confidence, provenance, arguments } => Some(
            MemoryView {
                engine: with_symbols(memory.engine, arguments).with_fact(
                    predicate,
                    arguments,
                    AnnView::base(confidence, provenance),
                ),
                ..memory
            },
        ),
        RecordView::Now(_) => None,
        RecordView::Rules(_) => None,
    }
}

/// How far loading has come.
pub enum Progress {
    /// Nothing was read but the magic line.
    Start,
    /// The time was read.
    Timed(int),
    /// The rules were read, and perhaps more.
    Filled { now: int, memory: MemoryView },
}

/// How far loading has come after one more record.
pub open spec fn absorbed(
    progress: Progress,
    record: RecordView,
) -> Result<Progress, LoadErrorView> {
    match progress {
        Progress::Start => match record {
            RecordView::Now(now) => Ok(Progress::Timed(now)),
            _ => Err(LoadErrorView::Snapshot(ErrorView::MissingNow)),
        },
        Progress::Timed(now) => match record {
            RecordView::Rules(rules) => if clause::read_program(rules) is Some {
                Ok(Progress::Filled { now, memory: MemoryView::fresh(rules) })
            } else {
                Err(LoadErrorView::Rules(rules))
            },
            _ => Err(LoadErrorView::MissingRules),
        },
        Progress::Filled { now, memory } => match taken(memory, record) {
            Some(memory) => Ok(Progress::Filled { now, memory }),
            None => Err(LoadErrorView::DuplicateHeader),
        },
    }
}

/// How far loading has come after the first `n` lines.
pub open spec fn loaded_upto(
    version: snapshot::SnapshotVersion,
    lines: Seq<Seq<char>>,
    n: int,
) -> Result<Progress, LoadErrorView>
    decreases n,
{
    if n <= 1 {
        Ok(Progress::Start)
    } else {
        match loaded_upto(version, lines, n - 1) {
            Err(error) => Err(error),
            Ok(progress) => match snapshot::line_gives(Some(version), n, lines[n - 1]) {
                Err(error) => Err(LoadErrorView::Snapshot(error)),
                Ok(None) => Ok(progress),
                Ok(Some(record)) => absorbed(progress, record),
            },
        }
    }
}

/// The memory that lines hold, or why they hold none.
pub open spec fn load_lines(lines: Seq<Seq<char>>) -> Result<
    MemoryView,
    LoadErrorView,
> {
    if lines.len() == 0 {
        Err(LoadErrorView::Snapshot(ErrorView::InvalidMagic(seq![])))
    } else {
        match snapshot::version_of(lines[0]) {
            None => Err(LoadErrorView::Snapshot(ErrorView::InvalidMagic(lines[0]))),
            Some(version) => match loaded_upto(version, lines, lines.len() as int) {
                Err(error) => Err(error),
                Ok(Progress::Start) => Err(LoadErrorView::Snapshot(ErrorView::MissingNow)),
                Ok(Progress::Timed(_)) => Err(LoadErrorView::MissingRules),
                Ok(Progress::Filled { now, memory }) => Ok(
                    MemoryView { counter: memory.episodes.len() as int, ..memory }.turned(now),
                ),
            },
        }
    }
}

/// The memory that a snapshot holds, or why it holds none.
pub open spec fn load_text(content: Seq<char>) -> Result<
    MemoryView,
    LoadErrorView,
> {
    load_lines(text::lines(content))
}

/// The parts of a memory that is loaded.
pub struct LoadedParts {
    pub now: i64,
    pub engine: Engine,
    pub rules: String,
    pub episodes: Vec<Episode>,
    pub escalations: Vec<String>,
}

impl LoadedParts {
    /// Whether the store is well formed, the rules can be read, and the facts that they state are
    /// kept.
    pub open spec fn whole(&self) -> bool {
        &&& self.engine.wf()
        &&& clause::read_program(self.rules@) is Some
        &&& self.engine@.rules == agent::clauses_of(self.rules@)
        &&& program_laws::keeps(self.engine@.facts, program_laws::program_facts(self.rules@))
    }

    /// The memory that the parts make, before it is at its time.
    pub open spec fn memory(&self) -> MemoryView {
        MemoryView {
            engine: self.engine@,
            episodes: agent::episode_views(self.episodes@),
            escalations: text::texts(self.escalations@),
            counter: 0,
            rules: self.rules@,
            suppositions: 0,
            base: self.rules@,
            batches: seq![],
            installed: 0,
            turn: seq![],
        }
    }

    /// The symbols and integers of the arguments of a fact.
    fn resolve(&mut self, arguments: &Vec<SnapshotValue>) -> (key: Vec<Value>)
        requires
            old(self).engine.wf(),
        ensures
            final(self).engine.wf(),
            final(self).now == old(self).now,
            final(self).memory() == (MemoryView {
                engine: with_symbols(old(self).engine@, snapshot::value_views(arguments@)),
                ..old(self).memory()
            }),
            engine::known_key(final(self).engine@.names, key@),
            engine::key_view(final(self).engine@.names, key@) == snapshot::value_views(
                arguments@,
            ),
    {
        let ghost start = self.memory();
        let ghost all = snapshot::value_views(arguments@);
        let mut key: Vec<Value> = Vec::new();
        assert(engine::key_view(self.engine@.names, key@) =~= all.take(0));
        let ghost now = self.now;
        for i in 0..arguments.len()
            invariant
                all == snapshot::value_views(arguments@),
                self.engine.wf(),
                self.now == now,
                self.memory() == (MemoryView {
                    engine: with_symbols(start.engine, all.take(i as int)),
                    ..start
                }),
                engine::known_key(self.engine@.names, key@),
                engine::key_view(self.engine@.names, key@) == all.take(i as int),
        {
            assert(all.take(i as int + 1).drop_last() =~= all.take(i as int));
            let ghost names = self.engine@.names;
            let ghost before = key@;
            let value: Value = match &arguments[i] {
                SnapshotValue::Symbol(name) => {
                    let value: Value = self.engine.sym(name.as_str());
                    proof {
                        engine::lemma_interned(names, name@);
                        engine::lemma_more_names_key(names, self.engine@.names, before);
                    }
                    value
                },
                SnapshotValue::Integer(integer) => Value::Int(*integer),
            };
            key.push(value);
            proof {
                assert(engine::value_view(self.engine@.names, value) == all[i as int]);
                assert(engine::key_view(self.engine@.names, key@) =~= engine::key_view(
                    self.engine@.names,
                    before,
                ).push(all[i as int]));
                assert(all.take(i as int + 1) =~= all.take(i as int).push(all[i as int]));
            }
        }
        assert(all.take(all.len() as int) =~= all);
        key
    }

    /// Takes a record.
    fn take_record(&mut self, record: SnapshotRecord) -> (done: Result<(), LoadError>)
        requires
            old(self).engine.wf(),
            snapshot::sound_record(record@),
        ensures
            match done {
                Ok(_) => {
                    &&& final(self).engine.wf()
                    &&& final(self).now == old(self).now
                    &&& taken(old(self).memory(), record@) == Some(final(self).memory())
                },
                Err(error) => {
                    &&& taken(old(self).memory(), record@) is None
                    &&& error@ == LoadErrorView::DuplicateHeader
                },
            },
    {
        let ghost before = self.memory();
        match record {
            SnapshotRecord::Episode { id, timestamp, speaker, text } => {
                let episode = Episode { id, text, ts: timestamp, speaker };
                let ghost said = episode@;
                self.episodes.push(episode);
                assert(agent::episode_views(self.episodes@) =~= before.episodes.push(said));
                Ok(())
            },
            SnapshotRecord::Escalation(told) => {
                let ghost said = told@;
                self.escalations.push(told);
                assert(text::texts(self.escalations@) =~= before.escalations.push(said));
                Ok(())
            },
            SnapshotRecord::Fact { predicate, confidence, provenance, arguments } => {
                let key: Vec<Value> = self.resolve(&arguments);
                let ann: Ann = Ann::base(confidence.as_str(), &provenance);
                self.engine.declare(predicate.as_str(), &key, ann);
                Ok(())
            },
            SnapshotRecord::Now(_) => Err(LoadError::DuplicateHeader),
            SnapshotRecord::Rules(_) => Err(LoadError::DuplicateHeader),
        }
    }
}

/// What is wrong with the first lines of a snapshot.
pub open spec fn load_problem(lines: Seq<Seq<char>>) -> Option<
    LoadErrorView,
> {
    if lines.len() == 0 {
        None
    } else {
        match snapshot::version_of(lines[0]) {
            None => Some(LoadErrorView::Snapshot(ErrorView::InvalidMagic(lines[0]))),
            Some(version) => match loaded_upto(version, lines, lines.len() as int) {
                Ok(_) => None,
                Err(error) => Some(error),
            },
        }
    }
}

/// How far loading has come depends on the lines that were read alone.
proof fn lemma_loaded_same(
    version: snapshot::SnapshotVersion,
    a: Seq<Seq<char>>,
    b: Seq<Seq<char>>,
    n: int,
)
    requires
        n <= a.len(),
        n <= b.len(),
        forall|i: int| 1 <= i < n ==> a[i] == b[i],
    ensures
        loaded_upto(version, a, n) == loaded_upto(version, b, n),
    decreases n,
{
    if n > 1 {
        lemma_loaded_same(version, a, b, n - 1);
    }
}

/// An error in the first lines is the error of all.
proof fn lemma_loaded_error(
    version: snapshot::SnapshotVersion,
    lines: Seq<Seq<char>>,
    n: int,
    m: int,
)
    requires
        1 <= n <= m,
        loaded_upto(version, lines, n) is Err,
    ensures
        loaded_upto(version, lines, m) == loaded_upto(version, lines, n),
    decreases m,
{
    if n < m {
        lemma_loaded_error(version, lines, n, m - 1);
    }
}

/// What is wrong with the first lines is wrong with the snapshot.
proof fn lemma_load_problem(lines: Seq<Seq<char>>, n: int)
    requires
        1 <= n <= lines.len(),
        load_problem(lines.take(n)) is Some,
    ensures
        load_lines(lines) == Err::<MemoryView, LoadErrorView>(
            load_problem(lines.take(n))->0,
        ),
{
    let part = lines.take(n);
    assert(part[0] == lines[0]);
    if let Some(version) = snapshot::version_of(lines[0]) {
        lemma_loaded_same(version, part, lines, n);
        lemma_loaded_error(version, lines, n, lines.len() as int);
    }
}

/// Loads a memory line by line.
pub struct SnapshotLoader {
    reader: SnapshotReader,
    now: Option<i64>,
    parts: Option<LoadedParts>,
    lines: Ghost<Seq<Seq<char>>>,
}

impl SnapshotLoader {
    /// The lines that were read.
    pub closed spec fn lines(&self) -> Seq<Seq<char>> {
        self.lines@
    }

    spec fn progress(&self) -> Progress {
        match self.parts {
            Some(parts) => Progress::Filled { now: parts.now as int, memory: parts.memory() },
            None => match self.now {
                Some(now) => Progress::Timed(now as int),
                None => Progress::Start,
            },
        }
    }

    /// Whether a further line can be read.
    pub closed spec fn ready(&self) -> bool {
        &&& self.reader@.ready()
        &&& self.reader@.line_number == self.lines@.len()
        &&& self.parts matches Some(parts) ==> parts.whole()
        &&& self.lines@.len() == 0 ==> self.progress() is Start
        &&& self.lines@.len() > 0 ==> {
            &&& self.reader@.version == snapshot::version_of(self.lines@[0])
            &&& self.reader@.version is Some
            &&& loaded_upto(
                self.reader@.version->0,
                self.lines@,
                self.lines@.len() as int,
            ) == Ok::<Progress, LoadErrorView>(self.progress())
        }
    }

    /// A loader that has read nothing.
    pub fn new() -> (loader: SnapshotLoader)
        ensures
            loader.ready(),
            loader.lines() == Seq::<Seq<char>>::empty(),
    {
        SnapshotLoader {
            reader: SnapshotReader::new(),
            now: None,
            parts: None,
            lines: Ghost(Seq::empty()),
        }
    }

    /// Takes one line of the snapshot, without its line ending. After a failure loading is over.
    pub fn push_line(&mut self, line: &str) -> (done: Result<(), LoadError>)
        requires
            old(self).ready(),
            old(self).lines().len() < usize::MAX,
            !line@.contains('\n'),
        ensures
            ({
                let lines = old(self).lines().push(line@);
                match done {
                    Ok(_) => {
                        &&& load_problem(lines) is None
                        &&& final(self).ready()
                        &&& final(self).lines() == lines
                    },
                    Err(error) => {
                        &&& load_problem(lines) is Some
                        &&& error@ == load_problem(lines)->0
                    },
                }
            }),
    {
        let ghost before = self.lines@;
        let ghost lines = before.push(line@);
        let ghost progress = self.progress();
        proof {
            if before.len() > 0 {
                lemma_loaded_same(
                    self.reader@.version->0,
                    before,
                    lines,
                    before.len() as int,
                );
            }
        }
        proof {
            if before.len() > 0 {
                snapshot::read_records_are_sound(self.reader@.version->0, line@);
            }
        }
        let given = self.reader.accept(line, 0);
        self.lines = Ghost(lines);
        match given {
            Err(error) => Err(LoadError::Snapshot(error)),
            Ok(None) => Ok(()),
            Ok(Some(record)) => {
                assert(load_problem(lines) == match absorbed(progress, record@) {
                    Ok(_) => None,
                    Err(error) => Some(error),
                });
                let mut filled: Option<LoadedParts> = None;
                std::mem::swap(&mut self.parts, &mut filled);
                match filled {
                    Some(parts) => {
                        proof {
                            program_laws::record_keeps_program(parts.memory(), record@);
                        }
                        let mut parts = parts;
                        if let Err(error) = parts.take_record(record) {
                            return Err(error);
                        }
                        self.parts = Some(parts);
                        Ok(())
                    },
                    None => match self.now {
                        None => match record {
                            SnapshotRecord::Now(now) => {
                                self.now = Some(now);
                                Ok(())
                            },
                            _ => Err(LoadError::Snapshot(SnapshotError::MissingNow)),
                        },
                        Some(now) => match record {
                            SnapshotRecord::Rules(rules) => {
                                let clauses: Vec<Rule> = match agent::parse_rules(
                                    rules.as_str(),
                                ) {
                                    Some(clauses) => clauses,
                                    None => {
                                        return Err(LoadError::Rules(rules));
                                    },
                                };
                                let parts = LoadedParts {
                                    now,
                                    engine: agent::first_engine(&clauses),
                                    rules,
                                    episodes: Vec::new(),
                                    escalations: Vec::new(),
                                };
                                proof {
                                    program_laws::program_facts_are_certain(parts.rules@);
                                }
                                assert(agent::episode_views(parts.episodes@) =~= seq![]);
                                assert(text::texts(parts.escalations@) =~= seq![]);
                                self.parts = Some(parts);
                                Ok(())
                            },
                            _ => Err(LoadError::MissingRules),
                        },
                    },
                }
            },
        }
    }

    /// Takes one line of the snapshot as it was read, with its line ending.
    pub fn read_line(&mut self, line: &str) -> (done: Result<(), LoadError>)
        requires
            old(self).ready(),
            old(self).lines().len() < usize::MAX,
            !snapshot::without_ending(line@).contains('\n'),
        ensures
            ({
                let lines = old(self).lines().push(snapshot::without_ending(line@));
                match done {
                    Ok(_) => {
                        &&& load_problem(lines) is None
                        &&& final(self).ready()
                        &&& final(self).lines() == lines
                    },
                    Err(error) => {
                        &&& load_problem(lines) is Some
                        &&& error@ == load_problem(lines)->0
                    },
                }
            }),
    {
        self.push_line(snapshot::strip_ending(line).as_str())
    }

    /// Ends loading.
    pub fn finish(self) -> (loaded: Result<LoadedParts, LoadError>)
        requires
            self.ready(),
        ensures
            match load_lines(self.lines()) {
                Ok(memory) => loaded matches Ok(parts) && parts.whole() && memory
                    == (MemoryView {
                    counter: parts.episodes@.len() as int,
                    ..parts.memory()
                }).turned(parts.now as int),
                Err(error) => loaded matches Err(failure) && failure@ == error,
            },
    {
        match self.reader.finish() {
            Err(error) => {
                assert(self.lines@.len() <= 1);
                Err(LoadError::Snapshot(error))
            },
            Ok(_) => match self.parts {
                Some(parts) => Ok(parts),
                None => {
                    proof {
                        lemma_progress(
                            self.reader@.version->0,
                            self.lines@,
                            self.lines@.len() as int,
                        );
                    }
                    Err(LoadError::MissingRules)
                },
            },
        }
    }
}

/// After the magic line and another the time is known.
proof fn lemma_progress(
    version: snapshot::SnapshotVersion,
    lines: Seq<Seq<char>>,
    n: int,
)
    requires
        1 < n,
        loaded_upto(version, lines, n) is Ok,
    ensures
        !(loaded_upto(version, lines, n)->Ok_0 is Start),
    decreases n,
{
    if n > 2 {
        lemma_progress(version, lines, n - 1);
    }
}

/// Loads the parts of a memory from a snapshot.
pub fn load_parts(content: &str) -> (loaded: Result<LoadedParts, LoadError>)
    ensures
        match load_text(content@) {
            Ok(memory) => loaded matches Ok(parts) && parts.whole() && memory == (MemoryView {
                counter: parts.episodes@.len() as int,
                ..parts.memory()
            }).turned(parts.now as int),
            Err(error) => loaded matches Err(failure) && failure@ == error,
        },
{
    let mut loader: SnapshotLoader = SnapshotLoader::new();
    let chars: Vec<char> = text::chars_of(content);
    let lines: Vec<String> = text::split_lines(chars.as_slice());
    let ghost all = text::texts(lines@);
    assert(all.take(0) =~= seq![]);
    proof {
        text::lemma_lines_bare(content@);
    }
    for i in 0..lines.len()
        invariant
            all == text::texts(lines@),
            all == text::lines(content@),
            loader.ready(),
            loader.lines() == all.take(i as int),
            forall|j: int| 0 <= j < all.len() ==> !(#[trigger] all[j]).contains('\n'),
    {
        assert(all.take(i as int + 1) =~= all.take(i as int).push(all[i as int]));
        if let Err(error) = loader.push_line(lines[i].as_str()) {
            proof {
                lemma_load_problem(all, i as int + 1);
            }
            return Err(error);
        }
    }
    assert(all.take(all.len() as int) =~= all);
    loader.finish()
}

} // verus!
