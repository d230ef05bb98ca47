//! The memory of an agent: episodes are observed, candidates are extracted from them, and the
//! store of facts is updated.

use vstd::prelude::*;

use crate::batches;
use crate::batches::{Batch, BatchView};
use crate::clause;
use crate::clause::{AtomView, Rule, RuleView};
use crate::codec_laws;
use crate::context;
use crate::context::Grade;
use crate::datalog;
use crate::datalog::RowView;
use crate::engine;
use crate::engine::{Ann, AnnView, Engine, EngineView, Fact, Term, TermView, Value};
use crate::news;
use crate::news::Mark;
use crate::number;
use crate::persistence;
use crate::persistence::{LoadError, LoadedParts};
use crate::program_join;
use crate::program_laws;
use crate::protocol;
use crate::protocol::{CandidateFact, CandidateView, DEFAULT_CONFIDENCE};
use crate::query;
use crate::query_laws;
use crate::snapshot;
use crate::snapshot::ValueView;
use crate::store_laws;
use crate::text;
use crate::update;
use crate::update::{Outcome, OutcomeView};

verus! {

// --------------------------------------------------------------- episodes
/// An episode: the unit of observation and of provenance.
#[derive(Clone, Debug, PartialEq, Eq)]
pub struct Episode {
    pub id: String,
    pub text: String,
    pub ts: i64,
    /// Who speaks, where that is known: first-person references resolve to this entity.
    pub speaker: Option<String>,
}

/// What an episode holds.
#[verifier::ext_equal]
pub struct EpisodeView {
    pub id: Seq<char>,
    pub text: Seq<char>,
    pub ts: int,
    pub speaker: Option<Seq<char>>,
}

impl View for Episode {
    type V = EpisodeView;

    open spec fn view(&self) -> EpisodeView {
        EpisodeView {
            id: self.id@,
            text: self.text@,
            ts: self.ts as int,
            speaker: snapshot::optional_text(self.speaker),
        }
    }
}

/// What episodes hold.
pub open spec fn episode_views(episodes: Seq<Episode>) -> Seq<EpisodeView> {
    episodes.map_values(|episode: Episode| episode@)
}

// ------------------------------------------------------------- extraction
/// What an extractor keeps between episodes: the confidence of a line that gives none, and the
/// candidates of each episode that it has read, by the id of the episode.
#[verifier::ext_equal]
pub struct ReaderView {
    pub confidence: Seq<char>,
    pub seen: Seq<(Seq<char>, Seq<CandidateView>)>,
}

impl ReaderView {
    /// Whether the confidences are real numbers.
    pub open spec fn sound(self) -> bool {
        &&& number::real_text(self.confidence)
        &&& forall|i: int| 0 <= i < self.seen.len() ==> protocol::all_rated((#[trigger] self.seen[i]).1)
    }
}

/// Extracts candidates from episodes. An implementation asks a model in production.
pub trait Extractor {
    /// What the extractor keeps.
    spec fn reader(&self) -> ReaderView;

    /// Whether the extractor can find candidates in an episode, and keep `after` from then on.
    spec fn can_find(
        &self,
        episode: EpisodeView,
        found: Seq<CandidateView>,
        after: ReaderView,
    ) -> bool;

    /// Extracts the candidates of an episode. Their confidences are real numbers.
    fn extract(&mut self, episode: &Episode) -> (found: Vec<CandidateFact>)
        requires
            old(self).reader().sound(),
        ensures
            final(self).reader().sound(),
            protocol::all_rated(protocol::candidate_views(found@)),
            old(self).can_find(
                episode@,
                protocol::candidate_views(found@),
                final(self).reader(),
            ),
    ;

    /// The number of calls of the model and of its failures.
    fn stats(&self) -> (stats: (usize, usize))
        default_ensures
            stats == (0usize, 0usize),
    {
        (0, 0)
    }
}

/// Whether an extractor can tell these counts: they are what its own `stats` returns.
pub open spec fn can_tell<X: Extractor + ?Sized>(extractor: &X, stats: (usize, usize)) -> bool {
    call_ensures(X::stats, (extractor,), stats)
}

/// Asks an extractor for its counts.
fn tell_stats<X: Extractor + ?Sized>(extractor: &X) -> (stats: (usize, usize))
    ensures
        can_tell(extractor, stats),
{
    extractor.stats()
}

/// An extractor in a box is one, so that implementations can be exchanged behind one type of
/// memory.
impl Extractor for Box<dyn Extractor> {
    open spec fn reader(&self) -> ReaderView {
        (**self).reader()
    }

    open spec fn can_find(
        &self,
        episode: EpisodeView,
        found: Seq<CandidateView>,
        after: ReaderView,
    ) -> bool {
        (**self).can_find(episode, found, after)
    }

    fn extract(&mut self, episode: &Episode) -> Vec<CandidateFact> {
        (**self).extract(episode)
    }

    /// The counts that the extractor in the box tells.
    fn stats(&self) -> (stats: (usize, usize))
        ensures
            can_tell::<dyn Extractor>(&**self, stats),
    {
        tell_stats::<dyn Extractor>(&**self)
    }
}

/// What was extracted from episodes before, by the id of the episode.
pub struct Seen {
    entries: Vec<(String, Vec<CandidateFact>)>,
}

/// What was extracted, as a view.
pub open spec fn entry_views(entries: Seq<(String, Vec<CandidateFact>)>) -> Seq<
    (Seq<char>, Seq<CandidateView>),
> {
    entries.map_values(
        |entry: (String, Vec<CandidateFact>)| (entry.0@, protocol::candidate_views(entry.1@)),
    )
}

/// What was extracted from an episode before.
pub open spec fn recalled(seen: Seq<(Seq<char>, Seq<CandidateView>)>, id: Seq<char>) -> Option<
    Seq<CandidateView>,
>
    decreases seen.len(),
{
    if seen.len() == 0 {
        None
    } else if seen[0].0 == id {
        Some(seen[0].1)
    } else {
        recalled(seen.drop_first(), id)
    }
}

/// An episode that is not recalled was not read.
pub proof fn lemma_unread(seen: Seq<(Seq<char>, Seq<CandidateView>)>, id: Seq<char>)
    ensures
        recalled(seen, id) is None <==> forall|i: int|
            0 <= i < seen.len() ==> (#[trigger] seen[i]).0 != id,
    decreases seen.len(),
{
    if seen.len() > 0 {
        let rest = seen.drop_first();
        lemma_unread(rest, id);
        if recalled(seen, id) is None {
            assert forall|i: int| 0 <= i < seen.len() implies (#[trigger] seen[i]).0 != id by {
                if i > 0 {
                    assert(rest[i - 1] == seen[i]);
                }
            }
        }
        if forall|i: int| 0 <= i < seen.len() ==> (#[trigger] seen[i]).0 != id {
            assert(seen[0].0 != id);
            assert forall|i: int| 0 <= i < rest.len() implies (#[trigger] rest[i]).0 != id by {
                assert(rest[i] == seen[i + 1]);
            }
        }
    }
}

/// Copies candidates.
fn copy_candidates(candidates: &Vec<CandidateFact>) -> (copy: Vec<CandidateFact>)
    ensures
        protocol::candidate_views(copy@) == protocol::candidate_views(candidates@),
{
    let ghost all = protocol::candidate_views(candidates@);
    let mut copy: Vec<CandidateFact> = Vec::new();
    assert(protocol::candidate_views(copy@) =~= all.take(0));
    for i in 0..candidates.len()
        invariant
            all == protocol::candidate_views(candidates@),
            protocol::candidate_views(copy@) == all.take(i as int),
    {
        let ghost before = protocol::candidate_views(copy@);
        copy.push(candidates[i].copy());
        assert(protocol::candidate_views(copy@) =~= before.push(all[i as int]));
        assert(all.take(i as int + 1) =~= all.take(i as int).push(all[i as int]));
    }
    assert(all.take(all.len() as int) =~= all);
    copy
}

impl View for Seen {
    type V = Seq<(Seq<char>, Seq<CandidateView>)>;

    closed spec fn view(&self) -> Seq<(Seq<char>, Seq<CandidateView>)> {
        entry_views(self.entries@)
    }
}

impl Seen {
    /// Nothing was extracted yet.
    pub fn new() -> (seen: Seen)
        ensures
            seen@ == Seq::<(Seq<char>, Seq<CandidateView>)>::empty(),
    {
        let seen = Seen { entries: Vec::new() };
        assert(seen@ =~= seq![]);
        seen
    }

    /// The number of episodes that were read.
    pub fn len(&self) -> (count: usize)
        ensures
            count == self@.len(),
    {
        self.entries.len()
    }

    /// What was extracted from an episode before.
    pub fn recall(&self, id: &str) -> (known: Option<Vec<CandidateFact>>)
        ensures
            match known {
                Some(candidates) => recalled(self@, id@) == Some(
                    protocol::candidate_views(candidates@),
                ),
                None => recalled(self@, id@) is None,
            },
    {
        let ghost all = self@;
        assert(all.skip(0) =~= all);
        for i in 0..self.entries.len()
            invariant
                all == self@,
                recalled(all, id@) == recalled(all.skip(i as int), id@),
        {
            assert(all.skip(i as int)[0] == all[i as int]);
            assert(all.skip(i as int).drop_first() =~= all.skip(i as int + 1));
            if text::same_text(self.entries[i].0.as_str(), id) {
                return Some(copy_candidates(&self.entries[i].1));
            }
        }
        None
    }

    /// Notes what was extracted from an episode.
    pub fn note(&mut self, id: &str, candidates: &Vec<CandidateFact>)
        ensures
            final(self)@ == old(self)@.push((id@, protocol::candidate_views(candidates@))),
    {
        let ghost all = self@;
        self.entries.push((id.to_owned(), copy_candidates(candidates)));
        assert(self@ =~= all.push((id@, protocol::candidate_views(candidates@))));
    }
}

/// Reads the lines of the protocol in an episode, at a fixed confidence where a line gives none.
/// An episode is never read twice.
pub struct MockExtractor {
    pub confidence: String,
    pub seen: Seen,
}

impl MockExtractor {
    pub fn new(confidence: &str) -> (extractor: MockExtractor)
        requires
            number::real_text(confidence@),
        ensures
            extractor.confidence@ == confidence@,
            extractor.seen@ == Seq::<(Seq<char>, Seq<CandidateView>)>::empty(),
            extractor.reader().sound(),
    {
        MockExtractor { confidence: confidence.to_owned(), seen: Seen::new() }
    }
}

proof fn lemma_recalled_rated(seen: Seq<(Seq<char>, Seq<CandidateView>)>, id: Seq<char>)
    requires
        forall|i: int| 0 <= i < seen.len() ==> protocol::all_rated((#[trigger] seen[i]).1),
    ensures
        recalled(seen, id) matches Some(known) ==> protocol::all_rated(known),
    decreases seen.len(),
{
    if seen.len() > 0 {
        let rest = seen.drop_first();
        assert(protocol::all_rated(seen[0].1));
        assert forall|i: int| 0 <= i < rest.len() implies protocol::all_rated(
            (#[trigger] rest[i]).1,
        ) by {
            assert(rest[i] == seen[i + 1]);
        }
        lemma_recalled_rated(rest, id);
    }
}

impl Extractor for MockExtractor {
    open spec fn reader(&self) -> ReaderView {
        ReaderView { confidence: self.confidence@, seen: self.seen@ }
    }

    open spec fn can_find(
        &self,
        episode: EpisodeView,
        found: Seq<CandidateView>,
        after: ReaderView,
    ) -> bool {
        match recalled(self.seen@, episode.id) {
            Some(known) => found == known && after == self.reader(),
            None => {
                &&& found == protocol::protocol_facts(episode.text, self.confidence@)
                &&& after == ReaderView {
                    confidence: self.confidence@,
                    seen: self.seen@.push((episode.id, found)),
                }
            },
        }
    }

    fn extract(&mut self, episode: &Episode) -> (candidates: Vec<CandidateFact>)
        ensures
            final(self).confidence == old(self).confidence,
            match recalled(old(self).seen@, episode.id@) {
                Some(known) => {
                    &&& protocol::candidate_views(candidates@) == known
                    &&& final(self).seen@ == old(self).seen@
                },
                None => {
                    &&& protocol::candidate_views(candidates@) == protocol::protocol_facts(
                        episode.text@,
                        old(self).confidence@,
                    )
                    &&& final(self).seen@ == old(self).seen@.push(
                        (episode.id@, protocol::candidate_views(candidates@)),
                    )
                },
            },
    {
        proof {
            assert forall|i: int| 0 <= i < self.seen@.len() implies protocol::all_rated(
                (#[trigger] self.seen@[i]).1,
            ) by {
                assert(protocol::all_rated(self.reader().seen[i].1));
            }
            lemma_recalled_rated(self.seen@, episode.id@);
            protocol::read_facts_are_rated(episode.text@, self.confidence@);
        }
        let ghost before = self.seen@;
        if let Some(known) = self.seen.recall(episode.id.as_str()) {
            return known;
        }
        let candidates: Vec<CandidateFact> = protocol::parse_protocol(
            episode.text.as_str(),
            self.confidence.as_str(),
        );
        self.seen.note(episode.id.as_str(), &candidates);
        proof {
            assert forall|i: int| 0 <= i < self.seen@.len() implies protocol::all_rated(
                (#[trigger] self.seen@[i]).1,
            ) by {
                if i < before.len() {
                    assert(self.seen@[i] == old(self).reader().seen[i]);
                    assert(protocol::all_rated(old(self).reader().seen[i].1));
                }
            }
        }
        candidates
    }
}

/// What a model is asked before the text of an episode.
pub const EXTRACTION_PROMPT: &'static str = "Extract the factual triples from the episode below. Answer with one triple per line in exactly this format, nothing else:\nSUBJECT --RELATION[CONFIDENCE]--> OBJECT\nCONFIDENCE is a number in [0,1] (omit [CONFIDENCE] for 0.9). RELATION must be one of: works_at, manager, likes, job_title, member_of, located_in, links. Employment (works at, joined, was hired by, left) is ALWAYS works_at - for a job change emit only the NEW employer as a works_at triple. Reporting lines (reports to, manager is) are ALWAYS manager, with the person as the subject. Use the closest match for anything else; skip facts that fit none. SUBJECT and OBJECT must be real entity names exactly as written in the episode: NEVER a pronoun or a role word (speaker, user, the manager) - always the full name. Output ONLY the triple lines: no reasoning, no explanations, no bullets, no questions. Skip opinions and small talk.\nEpisode:\n";

/// What an extraction needs next.
#[derive(Clone, Debug, PartialEq, Eq)]
pub enum Extraction {
    /// Nothing: the episode was read before, and these are its candidates.
    Known(Vec<CandidateFact>),
    /// The answer of a model to this prompt.
    Ask(String),
}

/// A model that can be asked. It answers with a text, or tells why it could not.
pub trait Model {
    fn call(&mut self, prompt: &str) -> Result<String, String>;
}

/// An extractor that asks a model. It owns the prompt, the reading of the answer and the memory
/// of earlier answers. An episode is never asked about twice, and a failed call counts as an answer
/// without facts.
pub struct LlmExtractor<M: Model> {
    pub model: M,
    pub default_confidence: String,
    pub seen: Seen,
    /// The ids of the episodes about which a call failed.
    pub failed: Vec<String>,
}

/// What an extractor that asks a model keeps between episodes.
#[verifier::ext_equal]
pub struct ModelView {
    pub confidence: Seq<char>,
    pub seen: Seq<(Seq<char>, Seq<CandidateView>)>,
    pub failed: Seq<Seq<char>>,
}

impl<M: Model> View for LlmExtractor<M> {
    type V = ModelView;

    open spec fn view(&self) -> ModelView {
        ModelView {
            confidence: self.default_confidence@,
            seen: self.seen@,
            failed: text::texts(self.failed@),
        }
    }
}

/// Whether no two entries are of one episode.
pub open spec fn read_once(seen: Seq<(Seq<char>, Seq<CandidateView>)>) -> bool {
    forall|i: int, j: int| 0 <= i < j < seen.len() ==> (#[trigger] seen[i]).0 != (#[trigger] seen[j]).0
}

impl ModelView {
    /// An extractor that has read nothing.
    pub open spec fn fresh() -> ModelView {
        ModelView { confidence: DEFAULT_CONFIDENCE@, seen: seq![], failed: seq![] }
    }

    /// The number of calls of the model: one for each episode that was read.
    pub open spec fn calls(self) -> int {
        self.seen.len() as int
    }

    /// What the model is asked about an episode, if it is asked.
    pub open spec fn asks(self, episode: EpisodeView) -> Option<Seq<char>> {
        match recalled(self.seen, episode.id) {
            Some(_) => None,
            None => Some(EXTRACTION_PROMPT@ + episode.text),
        }
    }

    /// The candidates in what the model answers; a failed call has none.
    pub open spec fn found_in(self, answer: Option<Seq<char>>) -> Seq<CandidateView> {
        match answer {
            Some(response) => protocol::protocol_facts(response, self.confidence),
            None => Seq::<CandidateView>::empty(),
        }
    }

    /// The candidates of an episode about which the model, if it is asked, answers so.
    pub open spec fn extracted(
        self,
        episode: EpisodeView,
        answer: Option<Seq<char>>,
    ) -> Seq<CandidateView> {
        match recalled(self.seen, episode.id) {
            Some(known) => known,
            None => self.found_in(answer),
        }
    }

    /// The extractor after an episode about which the model, if it is asked, answers so.
    pub open spec fn after(self, episode: EpisodeView, answer: Option<Seq<char>>) -> ModelView {
        match self.asks(episode) {
            None => self,
            Some(_) => ModelView {
                confidence: self.confidence,
                seen: self.seen.push((episode.id, self.found_in(answer))),
                failed: if answer is None {
                    self.failed.push(episode.id)
                } else {
                    self.failed
                },
            },
        }
    }

    /// What is kept, apart from what failed.
    pub open spec fn reader(self) -> ReaderView {
        ReaderView { confidence: self.confidence, seen: self.seen }
    }
}

/// What a model answered; a failed call answers nothing.
pub open spec fn answer_view(answer: Result<String, String>) -> Option<Seq<char>> {
    match answer {
        Ok(response) => Some(response@),
        Err(_) => None,
    }
}

impl<M: Model> LlmExtractor<M> {
    pub fn new(model: M) -> (extractor: LlmExtractor<M>)
        ensures
            extractor@ == ModelView::fresh(),
            extractor.model == model,
            extractor.reader().sound(),
    {
        let extractor = LlmExtractor {
            model,
            default_confidence: DEFAULT_CONFIDENCE.to_owned(),
            seen: Seen::new(),
            failed: Vec::new(),
        };
        proof {
            store_laws::default_is_real();
            assert(extractor@.failed =~= seq![]);
        }
        extractor
    }

    /// Begins the extraction of an episode: it is recalled, or the model is to be asked.
    pub fn begin(&self, episode: &Episode) -> (next: Extraction)
        ensures
            match next {
                Extraction::Known(candidates) => {
                    &&& self@.asks(episode@) is None
                    &&& recalled(self@.seen, episode.id@) == Some(
                        protocol::candidate_views(candidates@),
                    )
                },
                Extraction::Ask(prompt) => self@.asks(episode@) == Some(prompt@),
            },
    {
        if let Some(known) = self.seen.recall(episode.id.as_str()) {
            return Extraction::Known(known);
        }
        let mut prompt: String = EXTRACTION_PROMPT.to_owned();
        prompt.append(episode.text.as_str());
        Extraction::Ask(prompt)
    }

    /// Ends the extraction of an episode with what the model answered.
    pub fn finish(&mut self, episode: &Episode, answer: Result<String, String>) -> (candidates: Vec<
        CandidateFact,
    >)
        requires
            old(self)@.asks(episode@) is Some,
        ensures
            protocol::candidate_views(candidates@) == old(self)@.found_in(answer_view(answer)),
            final(self)@ == old(self)@.after(episode@, answer_view(answer)),
    {
        let ghost before = self@.failed;
        let candidates: Vec<CandidateFact> = match answer {
            Ok(response) => protocol::parse_protocol(
                response.as_str(),
                self.default_confidence.as_str(),
            ),
            Err(_) => {
                self.failed.push(episode.id.as_str().to_owned());
                assert(text::texts(self.failed@) =~= before.push(episode.id@));
                Vec::new()
            },
        };
        assert(answer is Err ==> protocol::candidate_views(candidates@) =~= seq![]);
        self.seen.note(episode.id.as_str(), &candidates);
        candidates
    }
}

/// The model is asked about an episode that was not read before, and about no other.
impl<M: Model> Extractor for LlmExtractor<M> {
    open spec fn reader(&self) -> ReaderView {
        self@.reader()
    }

    open spec fn can_find(
        &self,
        episode: EpisodeView,
        found: Seq<CandidateView>,
        after: ReaderView,
    ) -> bool {
        exists|answer: Option<Seq<char>>| #[trigger]
            self@.extracted(episode, answer) == found && after == self@.after(
                episode,
                answer,
            ).reader()
    }

    fn extract(&mut self, episode: &Episode) -> (candidates: Vec<CandidateFact>)
        ensures
            exists|answer: Option<Seq<char>>|
                #[trigger] old(self)@.extracted(episode@, answer) == protocol::candidate_views(
                    candidates@,
                ) && final(self)@ == old(self)@.after(episode@, answer),
            old(self)@.asks(episode@) is None ==> final(self).model == old(self).model,
    {
        let ghost before = self@;
        proof {
            assert forall|i: int| 0 <= i < before.seen.len() implies protocol::all_rated(
                (#[trigger] before.seen[i]).1,
            ) by {
                assert(protocol::all_rated(self.reader().seen[i].1));
            }
            lemma_recalled_rated(before.seen, episode.id@);
        }
        match self.begin(episode) {
            Extraction::Known(known) => {
                assert(before.extracted(episode@, None) == protocol::candidate_views(known@));
                known
            },
            Extraction::Ask(prompt) => {
                let answer: Result<String, String> = self.model.call(prompt.as_str());
                let ghost said = answer_view(answer);
                let candidates: Vec<CandidateFact> = self.finish(episode, answer);
                proof {
                    if let Some(response) = said {
                        protocol::read_facts_are_rated(response, before.confidence);
                    }
                    assert(before.extracted(episode@, said) == protocol::candidate_views(
                        candidates@,
                    ));
                    assert forall|i: int| 0 <= i < self@.seen.len() implies protocol::all_rated(
                        (#[trigger] self@.seen[i]).1,
                    ) by {
                        if i < before.seen.len() {
                            assert(self@.seen[i] == before.seen[i]);
                        }
                    }
                }
                candidates
            },
        }
    }

    /// The number of calls of the model and of its failures.
    fn stats(&self) -> (stats: (usize, usize))
        ensures
            stats.0 == self@.calls(),
            stats.1 == self@.failed.len(),
    {
        (self.seen.len(), self.failed.len())
    }
}

// ----------------------------------------------------------------- report
/// What observing an episode did.
#[derive(Clone, Debug, PartialEq, Eq)]
pub struct IngestReport {
    pub added: usize,
    pub updated: usize,
    pub noop: usize,
    pub escalations: Vec<String>,
}

/// What observing an episode did, as a view.
#[verifier::ext_equal]
pub struct ReportView {
    pub added: int,
    pub updated: int,
    pub noop: int,
    pub escalations: Seq<Seq<char>>,
}

impl View for IngestReport {
    type V = ReportView;

    open spec fn view(&self) -> ReportView {
        ReportView {
            added: self.added as int,
            updated: self.updated as int,
            noop: self.noop as int,
            escalations: text::texts(self.escalations@),
        }
    }
}

impl ReportView {
    /// Nothing was done.
    pub open spec fn nothing() -> ReportView {
        ReportView { added: 0, updated: 0, noop: 0, escalations: seq![] }
    }

    /// After a candidate came to an outcome.
    pub open spec fn after(self, outcome: OutcomeView) -> ReportView {
        match outcome {
            OutcomeView::Added => ReportView { added: self.added + 1, ..self },
            OutcomeView::Noop => ReportView { noop: self.noop + 1, ..self },
            OutcomeView::Updated => ReportView { updated: self.updated + 1, ..self },
            OutcomeView::Conflict(told) => ReportView {
                added: self.added + 1,
                escalations: self.escalations.push(told),
                ..self
            },
        }
    }

    /// The number of candidates that were observed.
    pub open spec fn total(self) -> int {
        self.added + self.updated + self.noop
    }
}

impl Default for IngestReport {
    fn default() -> (report: IngestReport)
        ensures
            report@ == ReportView::nothing(),
    {
        let report = IngestReport { added: 0, updated: 0, noop: 0, escalations: Vec::new() };
        assert(report@.escalations =~= seq![]);
        report
    }
}

impl IngestReport {
    /// Notes what a candidate came to.
    fn note(&mut self, outcome: Outcome)
        requires
            old(self)@.total() < usize::MAX,
        ensures
            final(self)@ == old(self)@.after(outcome@),
    {
        match outcome {
            Outcome::Added => {
                self.added = self.added + 1;
            },
            Outcome::Noop => {
                self.noop = self.noop + 1;
            },
            Outcome::Updated => {
                self.updated = self.updated + 1;
            },
            Outcome::Conflict(told) => {
                let ghost before = text::texts(self.escalations@);
                let ghost said = told@;
                self.added = self.added + 1;
                self.escalations.push(told);
                assert(text::texts(self.escalations@) =~= before.push(said));
            },
        }
    }
}

/// Observes a candidate that belongs to no scope, and reports it.
pub fn apply_update(
    engine: &mut Engine,
    candidate: &CandidateFact,
    episode: &Episode,
    report: &mut IngestReport,
    provenance: &Vec<String>,
)
    requires
        old(engine).wf(),
        number::real_text(candidate.confidence@),
        old(report)@.total() < usize::MAX,
    ensures
        final(engine).wf(),
        ({
            let (store, outcome) = update::updated(
                old(engine)@,
                None,
                candidate@,
                episode.id@,
                text::texts(provenance@),
            );
            final(engine)@ == store && final(report)@ == old(report)@.after(outcome)
        }),
{
    let outcome = update::apply_candidate(
        engine,
        None,
        candidate,
        episode.id.as_str(),
        provenance,
    );
    report.note(outcome);
}

/// Observes a candidate in a scope, and reports it.
pub fn apply_scoped_update(
    engine: &mut Engine,
    candidate: &CandidateFact,
    episode: &Episode,
    report: &mut IngestReport,
    scope: &str,
    provenance: &Vec<String>,
)
    requires
        old(engine).wf(),
        number::real_text(candidate.confidence@),
        old(report)@.total() < usize::MAX,
    ensures
        final(engine).wf(),
        ({
            let (store, outcome) = update::updated(
                old(engine)@,
                Some(scope@),
                candidate@,
                episode.id@,
                text::texts(provenance@),
            );
            final(engine)@ == store && final(report)@ == old(report)@.after(outcome)
        }),
{
    let outcome = update::apply_candidate(
        engine,
        Some(scope),
        candidate,
        episode.id.as_str(),
        provenance,
    );
    report.note(outcome);
}

/// What observing candidates one after the other does, and its report.
pub open spec fn all_updated(
    engine: EngineView,
    scope: Option<Seq<char>>,
    candidates: Seq<CandidateView>,
    episode: Seq<char>,
    provenance: Seq<Seq<char>>,
) -> (EngineView, ReportView)
    decreases candidates.len(),
{
    if candidates.len() == 0 {
        (engine, ReportView::nothing())
    } else {
        let (before, report) = all_updated(
            engine,
            scope,
            candidates.drop_last(),
            episode,
            provenance,
        );
        let (after, outcome) = update::updated(
            before,
            scope,
            candidates.last(),
            episode,
            provenance,
        );
        (after, report.after(outcome))
    }
}

/// Observes candidates one after the other.
fn apply_all(
    engine: &mut Engine,
    scope: Option<&str>,
    candidates: &Vec<CandidateFact>,
    episode: &Episode,
    provenance: &Vec<String>,
) -> (report: IngestReport)
    requires
        old(engine).wf(),
        protocol::all_rated(protocol::candidate_views(candidates@)),
    ensures
        final(engine).wf(),
        (final(engine)@, report@) == all_updated(
            old(engine)@,
            update::scope_view(scope),
            protocol::candidate_views(candidates@),
            episode.id@,
            text::texts(provenance@),
        ),
{
    let ghost start = engine@;
    let ghost place = update::scope_view(scope);
    let ghost all = protocol::candidate_views(candidates@);
    let mut report: IngestReport = IngestReport::default();
    for i in 0..candidates.len()
        invariant
            place == update::scope_view(scope),
            all == protocol::candidate_views(candidates@),
            protocol::all_rated(all),
            engine.wf(),
            report@.total() == i,
            (engine@, report@) == all_updated(
                start,
                place,
                all.take(i as int),
                episode.id@,
                text::texts(provenance@),
            ),
    {
        assert(all.take(i as int + 1).drop_last() =~= all.take(i as int));
        assert(number::real_text(all[i as int].confidence));
        match scope {
            None => {
                apply_update(engine, &candidates[i], episode, &mut report, provenance);
            },
            Some(name) => {
                apply_scoped_update(
                    engine,
                    &candidates[i],
                    episode,
                    &mut report,
                    name,
                    provenance,
                );
            },
        }
    }
    assert(all.take(all.len() as int) =~= all);
    report
}

// ----------------------------------------------------------------- memory
/// The rules that every memory has.
pub const DEFAULT_RULES: &'static str = "# temporal projection: what is true NOW\ncurrent(E,R,O) :- edge(E,R,O,VF,VT,_), now(T), VF =< T, T < VT.\ncurrent(E,R,O) :- scoped_edge(_,E,R,O,VF,VT,_), now(T), VF =< T, T < VT.\nscoped_current(S,E,R,O) :- scoped_edge(S,E,R,O,VF,VT,_), now(T), VF =< T, T < VT.\n# curated exclusivity table for the update policy\nexclusive(\"works_at\").\n";

/// How many facts a context window tells of those that were created.
pub const NEWS_LINES: usize = 20;

/// The annotation of a fact that a program states.
pub open spec fn program_ann() -> AnnView {
    AnnView::base("1"@, seq![])
}

/// The values that the terms of a fact stand for.
pub open spec fn ground_key(atom: AtomView) -> Seq<ValueView> {
    atom.args.map_values(|term: TermView| engine::ground(term))
}

/// The store after a clause: a fact is asserted, and a rule asserts nothing.
pub open spec fn with_clause(engine: EngineView, clause: RuleView) -> EngineView {
    if clause.is_fact() {
        persistence::with_symbols(engine, ground_key(clause.head)).with_fact(
            clause.head.pred,
            ground_key(clause.head),
            program_ann(),
        )
    } else {
        engine
    }
}

/// The store after clauses.
pub open spec fn with_clauses(engine: EngineView, clauses: Seq<RuleView>) -> EngineView
    decreases clauses.len(),
{
    if clauses.len() == 0 {
        engine
    } else {
        with_clause(with_clauses(engine, clauses.drop_last()), clauses.last())
    }
}

/// The store to which the rules of a program were added, and nothing else.
pub open spec fn blank_store(clauses: Seq<RuleView>) -> EngineView {
    EngineView {
        names: datalog::with_rule_names(seq![], clauses),
        facts: seq![],
        now: 0,
        rules: clauses,
    }
}

/// The store that a memory begins with: the default rules say that one relation is exclusive,
/// the facts of the added program are asserted, and its rules are added.
pub open spec fn first_store(clauses: Seq<RuleView>) -> EngineView {
    with_clauses(
        blank_store(clauses).with_name("works_at"@).with_fact(
            "exclusive"@,
            seq![ValueView::Symbol("works_at"@)],
            program_ann(),
        ),
        clauses,
    )
}

/// Whether the head of each clause has a predicate that can be written.
pub open spec fn stated_plainly(clauses: Seq<RuleView>) -> bool {
    forall|i: int| 0 <= i < clauses.len() ==> store_laws::plain((#[trigger] clauses[i]).head.pred)
}

/// Asserts the fact of a clause.
fn assert_clause(engine: &mut Engine, clause: &Rule)
    requires
        old(engine).wf(),
        store_laws::plain(clause@.head.pred),
    ensures
        final(engine).wf(),
        final(engine)@ == with_clause(old(engine)@, clause@),
{
    if clause.body.len() > 0 || clause.guards.len() > 0 {
        assert(clause@.body.len() == clause.body@.len());
        assert(clause@.guards.len() == clause.guards@.len());
        return;
    }
    let ghost start = engine@;
    let ghost all = ground_key(clause@.head);
    let mut key: Vec<Value> = Vec::new();
    assert(engine::key_view(engine@.names, key@) =~= all.take(0));
    for i in 0..clause.head.args.len()
        invariant
            engine.wf(),
            all == ground_key(clause@.head),
            engine@ == persistence::with_symbols(start, all.take(i as int)),
            engine::known_key(engine@.names, key@),
            engine::key_view(engine@.names, key@) == all.take(i as int),
    {
        assert(all.take(i as int + 1).drop_last() =~= all.take(i as int));
        assert(all[i as int] == engine::ground(clause.head.args@[i as int]@));
        let ghost names = engine@.names;
        let ghost before = key@;
        let value: Value = match &clause.head.args[i] {
            Term::Sym(name) => engine.sym(name.as_str()),
            Term::Int(integer) => Value::Int(*integer),
            Term::Var(name) => engine.sym(name.as_str()),
        };
        key.push(value);
        proof {
            if let ValueView::Symbol(name) = all[i as int] {
                engine::lemma_interned(names, name);
            } else {
                assert(names.is_prefix_of(names)) by {
                    assert(names.subrange(0, names.len() as int) =~= names);
                }
            }
            engine::lemma_more_names_key(names, engine@.names, before);
            assert(engine::value_view(engine@.names, value) == all[i as int]);
            assert(engine::key_view(engine@.names, key@) =~= engine::key_view(
                engine@.names,
                before,
            ).push(all[i as int]));
            assert(all.take(i as int + 1) =~= all.take(i as int).push(all[i as int]));
        }
    }
    assert(all.take(all.len() as int) =~= all);
    proof {
        store_laws::default_is_real();
    }
    let none: Vec<String> = Vec::new();
    assert(text::texts(none@) =~= seq![]);
    engine.declare(clause.head.pred.as_str(), &key, Ann::base("1", &none));
}

/// Asserts the facts among clauses.
pub fn assert_clauses(store: Engine, clauses: &Vec<Rule>) -> (engine: Engine)
    requires
        store.wf(),
        stated_plainly(clause::rule_views(clauses@)),
    ensures
        engine.wf(),
        engine@ == with_clauses(store@, clause::rule_views(clauses@)),
{
    let ghost all = clause::rule_views(clauses@);
    let mut engine: Engine = store;
    let ghost start = engine@;
    for i in 0..clauses.len()
        invariant
            engine.wf(),
            all == clause::rule_views(clauses@),
            stated_plainly(all),
            engine@ == with_clauses(start, all.take(i as int)),
    {
        assert(all.take(i as int + 1).drop_last() =~= all.take(i as int));
        assert(store_laws::plain(all[i as int].head.pred));
        assert_clause(&mut engine, &clauses[i]);
    }
    assert(all.take(all.len() as int) =~= all);
    engine
}

/// The store that a memory begins with.
pub fn first_engine(clauses: &Vec<Rule>) -> (engine: Engine)
    requires
        stated_plainly(clause::rule_views(clauses@)),
    ensures
        engine.wf(),
        engine@ == first_store(clause::rule_views(clauses@)),
{
    let mut engine: Engine = Engine::new();
    engine.set_rules(clause::copy_rules(clauses));
    let mut key: Vec<Value> = Vec::new();
    key.push(engine.sym("works_at"));
    assert(engine::key_view(engine@.names, key@) =~= seq![ValueView::Symbol("works_at"@)]);
    let none: Vec<String> = Vec::new();
    assert(text::texts(none@) =~= seq![]);
    proof {
        store_laws::default_is_real();
        store_laws::relations_are_plain(None);
    }
    engine.declare("exclusive", &key, Ann::base("1", &none));
    assert_clauses(engine, clauses)
}

/// The clauses of the rules of a memory.
pub open spec fn clauses_of(rules: Seq<char>) -> Seq<RuleView> {
    match clause::read_program(rules) {
        Some(clauses) => clauses,
        None => seq![],
    }
}

/// Reads the rules of a memory.
pub fn parse_rules(rules: &str) -> (clauses: Option<Vec<Rule>>)
    ensures
        match clauses {
            Some(clauses) => {
                &&& clause::read_program(rules@) is Some
                &&& clause::rule_views(clauses@) == clauses_of(rules@)
                &&& stated_plainly(clause::rule_views(clauses@))
            },
            None => clause::read_program(rules@) is None,
        },
{
    let clauses: Option<Vec<Rule>> = clause::parse_program(rules);
    proof {
        clause::program_is_plain(rules@);
        if let Some(written) = clause::read_program(rules@) {
            assert forall|i: int| 0 <= i < written.len() implies store_laws::plain(
                (#[trigger] written[i]).head.pred,
            ) by {}
            assert(stated_plainly(written));
        }
    }
    clauses
}

/// The memory of an agent.
pub struct AgentMemory<X: Extractor> {
    pub engine: Engine,
    extractor: X,
    episodes: Vec<Episode>,
    escalations: Vec<String>,
    episode_counter: u64,
    extra_rules: String,
    hyp_counter: u64,
    base_rules: String,
    batches: Vec<Batch>,
    batch_counter: u64,
    turn: Vec<Mark>,
}

/// What a memory holds.
#[verifier::ext_equal]
pub struct MemoryView {
    /// The store of facts.
    pub engine: EngineView,
    /// The episodes, in the order in which they were observed.
    pub episodes: Seq<EpisodeView>,
    /// The conflicts that were told and not resolved.
    pub escalations: Seq<Seq<char>>,
    /// The number of episodes that were begun.
    pub counter: int,
    /// The rules that were added to the default rules.
    pub rules: Seq<char>,
    /// The number of episodes that were only supposed.
    pub suppositions: int,
    /// The rules that the memory began with.
    pub base: Seq<char>,
    /// The batches of rules that are installed.
    pub batches: Seq<BatchView>,
    /// The number of batches that were installed.
    pub installed: int,
    /// The facts that were there at the last turn.
    pub turn: Seq<RowView>,
}

impl<X: Extractor> View for AgentMemory<X> {
    type V = MemoryView;

    closed spec fn view(&self) -> MemoryView {
        MemoryView {
            engine: self.engine@,
            episodes: episode_views(self.episodes@),
            escalations: text::texts(self.escalations@),
            counter: self.episode_counter as int,
            rules: self.extra_rules@,
            suppositions: self.hyp_counter as int,
            base: self.base_rules@,
            batches: batches::batch_views(self.batches@),
            installed: self.batch_counter as int,
            turn: news::mark_views(self.turn@),
        }
    }
}

/// The id of the episode with a number.
pub open spec fn episode_id(number: int) -> Seq<char> {
    "ep"@ + number::decimal(number as nat)
}

impl MemoryView {
    /// A memory that has observed nothing.
    pub open spec fn fresh(rules: Seq<char>) -> MemoryView {
        MemoryView {
            engine: first_store(clauses_of(rules)),
            episodes: seq![],
            escalations: seq![],
            counter: 0,
            rules,
            suppositions: 0,
            base: rules,
            batches: seq![],
            installed: 0,
            turn: seq![],
        }
    }

    /// The memory after a turn at a time: what is created from then on is new.
    pub open spec fn turned(self, now: int) -> MemoryView {
        MemoryView { turn: datalog::fact_rows(self.engine.facts), ..self.at(now) }
    }

    /// The memory when the time is set.
    pub open spec fn at(self, now: int) -> MemoryView {
        MemoryView { engine: EngineView { now, ..self.engine }, ..self }
    }

    /// How the first facts are told that were created since the last turn.
    pub open spec fn news(self) -> Seq<Seq<char>> {
        let all = news::news(self.engine.facts, self.turn);
        if all.len() <= NEWS_LINES {
            all
        } else {
            all.take(NEWS_LINES as int)
        }
    }

    /// The episode that is supposed next.
    pub open spec fn supposed_episode(self, content: Seq<char>) -> EpisodeView {
        EpisodeView {
            id: "hyp"@ + number::decimal((self.suppositions + 1) as nat),
            text: content,
            ts: self.engine.now,
            speaker: None,
        }
    }

    /// The episode that begins next.
    pub open spec fn next_episode(
        self,
        text: Seq<char>,
        ts: int,
        speaker: Option<Seq<char>>,
    ) -> EpisodeView {
        EpisodeView { id: episode_id(self.counter + 1), text, ts, speaker }
    }

    /// The memory after candidates were observed in the next episode, and the report.
    pub open spec fn observed(
        self,
        episode: EpisodeView,
        scope: Option<Seq<char>>,
        candidates: Seq<CandidateView>,
        provenance: Seq<Seq<char>>,
    ) -> (MemoryView, ReportView) {
        let (engine, report) = all_updated(
            self.at(episode.ts).engine,
            scope,
            candidates,
            episode.id,
            provenance,
        );
        (
            MemoryView {
                engine,
                episodes: self.episodes.push(episode),
                escalations: self.escalations + report.escalations,
                counter: self.counter + 1,
                ..self
            },
            report,
        )
    }

    /// The memory after the facts in a text were observed, and the report.
    pub open spec fn told(
        self,
        content: Seq<char>,
        ts: int,
        scope: Option<Seq<char>>,
        provenance: Seq<Seq<char>>,
    ) -> (MemoryView, ReportView) {
        self.observed(
            self.next_episode(content, ts, None),
            scope,
            protocol::reported(content, DEFAULT_CONFIDENCE@).0,
            provenance,
        )
    }
}

/// A text with a number behind it.
fn numbered(word: &str, number: u64) -> (id: String)
    ensures
        id@ == word@ + number::decimal(number as nat),
{
    let mut id: String = word.to_owned();
    number::push_decimal(&mut id, number);
    id
}

/// The keys of the facts that candidates would make at a time.
pub open spec fn supposed_keys(candidates: Seq<CandidateView>, now: int) -> Seq<Seq<ValueView>> {
    candidates.map_values(|candidate: CandidateView| update::open_key(None, candidate, now))
}

/// The store in which the symbols of candidates are interned.
pub open spec fn all_prepared(engine: EngineView, candidates: Seq<CandidateView>) -> EngineView
    decreases candidates.len(),
{
    if candidates.len() == 0 {
        engine
    } else {
        update::prepared(
            all_prepared(engine, candidates.drop_last()),
            None,
            candidates.last(),
        )
    }
}

/// The store in which keys are asserted as facts without a scope.
pub open spec fn with_edges(engine: EngineView, keys: Seq<Seq<ValueView>>) -> EngineView
    decreases keys.len(),
{
    if keys.len() == 0 {
        engine
    } else {
        with_edges(engine, keys.drop_last()).with_fact(
            "edge"@,
            keys.last(),
            AnnView::base(DEFAULT_CONFIDENCE@, seq![]),
        )
    }
}

/// Keys, as views.
pub open spec fn key_views(names: Seq<Seq<char>>, keys: Seq<Vec<Value>>) -> Seq<Seq<ValueView>> {
    keys.map_values(|key: Vec<Value>| engine::key_view(names, key@))
}

/// The keys of the facts that candidates would make now; nothing is asserted.
pub fn suppose_candidates(engine: &mut Engine, candidates: &Vec<CandidateFact>) -> (keys: Vec<
    Vec<Value>,
>)
    requires
        old(engine).wf(),
    ensures
        final(engine).wf(),
        final(engine)@ == all_prepared(old(engine)@, protocol::candidate_views(candidates@)),
        final(engine)@.now == old(engine)@.now,
        forall|i: int|
            0 <= i < keys@.len() ==> engine::known_key(
                final(engine)@.names,
                (#[trigger] keys@[i])@,
            ),
        key_views(final(engine)@.names, keys@) == supposed_keys(
            protocol::candidate_views(candidates@),
            old(engine)@.now,
        ),
{
    let ghost start = engine@;
    let ghost all = protocol::candidate_views(candidates@);
    let now: i64 = engine.now();
    let mut keys: Vec<Vec<Value>> = Vec::new();
    assert(key_views(engine@.names, keys@) =~= supposed_keys(all.take(0), start.now));
    for i in 0..candidates.len()
        invariant
            all == protocol::candidate_views(candidates@),
            engine.wf(),
            now == start.now,
            engine@ == all_prepared(start, all.take(i as int)),
            engine@.now == start.now,
            forall|j: int|
                0 <= j < keys@.len() ==> engine::known_key(
                    engine@.names,
                    (#[trigger] keys@[j])@,
                ),
            key_views(engine@.names, keys@) == supposed_keys(all.take(i as int), start.now),
    {
        assert(all.take(i as int + 1).drop_last() =~= all.take(i as int));
        let ghost names = engine@.names;
        let ghost before = keys@;
        let key: Vec<Value> = update::candidate_key(engine, &candidates[i]);
        let ghost made = key;
        keys.push(key);
        proof {
            assert(key_views(names, before).len() == i);
            assert forall|j: int| 0 <= j < keys@.len() implies engine::known_key(
                engine@.names,
                (#[trigger] keys@[j])@,
            ) && engine::key_view(engine@.names, keys@[j]@) == supposed_keys(
                all.take(i as int + 1),
                start.now,
            )[j] by {
                if j < before.len() {
                    assert(engine::known_key(names, before[j]@));
                    engine::lemma_more_names_key(names, engine@.names, before[j]@);
                    assert(key_views(names, before)[j] == supposed_keys(
                        all.take(i as int),
                        start.now,
                    )[j]);
                } else {
                    assert(keys@[j] == made);
                }
            }
            assert(key_views(engine@.names, keys@) =~= supposed_keys(
                all.take(i as int + 1),
                start.now,
            ));
        }
    }
    assert(all.take(all.len() as int) =~= all);
    keys
}

impl<X: Extractor> AgentMemory<X> {
    /// Whether the store is well formed, the extractor tells real confidences, the rules can be
    /// read and are those that the memory began with and of the batches, and the facts that they
    /// state are kept, unless batches were installed.
    pub closed spec fn wf(&self) -> bool {
        &&& self.engine.wf()
        &&& self.extractor.reader().sound()
        &&& clause::read_program(self.extra_rules@) is Some
        &&& self.engine@.rules == clauses_of(self.extra_rules@)
        &&& self.extra_rules@ == batches::program_text(
            self.base_rules@,
            batches::batch_views(self.batches@),
        )
        &&& batches::readable(self.base_rules@, batches::batch_views(self.batches@))
        &&& self.batches@.len() <= self.batch_counter
        &&& self.batch_counter == 0 ==> program_laws::keeps(
            self.engine@.facts,
            program_laws::program_facts(self.extra_rules@),
        )
    }

    /// The facts of a memory are regular, its integers are of 64 bits, and its rules can be read.
    pub proof fn lemma_wf(&self)
        requires
            self.wf(),
        ensures
            store_laws::regular(self@.engine.facts),
            codec_laws::in_i64(self@.engine.now),
            forall|i: int|
                0 <= i < self@.engine.facts.len() ==> codec_laws::values_fit(
                    (#[trigger] self@.engine.facts[i]).key,
                ),
            forall|i: int|
                0 <= i < self@.episodes.len() ==> codec_laws::in_i64(
                    (#[trigger] self@.episodes[i]).ts,
                ),
            clause::read_program(self@.rules) is Some,
            self@.engine.rules == clauses_of(self@.rules),
            self@.rules == batches::program_text(self@.base, self@.batches),
            batches::readable(self@.base, self@.batches),
            0 <= self@.installed,
            self@.installed == 0 ==> program_laws::keeps(
                self@.engine.facts,
                program_laws::program_facts(self@.rules),
            ),
    {
        self.engine.lemma_regular();
        assert forall|i: int| 0 <= i < self@.episodes.len() implies codec_laws::in_i64(
            (#[trigger] self@.episodes[i]).ts,
        ) by {
            assert(self@.episodes[i] == self.episodes@[i]@);
        }
    }

    /// The extractor.
    pub closed spec fn source(&self) -> X {
        self.extractor
    }

    /// Whether `after` is the memory, and `report` the report, after candidates were observed
    /// that the extractor can find in an episode.
    pub open spec fn observes(self, episode: EpisodeView, after: Self, report: ReportView) -> bool {
        exists|candidates: Seq<CandidateView>|
            {
                &&& #[trigger] self.source().can_find(
                    episode,
                    candidates,
                    after.source().reader(),
                )
                &&& (after@, report) == self@.observed(episode, None, candidates, seq![])
            }
    }

    /// A memory that has observed nothing, in which `extra_rules` are added to the default rules.
    /// The facts among them are asserted. The others stand beside the default rules: what they give
    /// holds like what a fact says, in the answers to goals, in what the update policy finds open
    /// or exclusive and in the context window. A text that is no program of facts and of rules with
    /// atoms and comparisons is an error: negation, aggregates and arithmetic are not read.
    pub fn new(extractor: X, extra_rules: &str) -> (begun: Result<AgentMemory<X>, String>)
        requires
            extractor.reader().sound(),
        ensures
            match begun {
                Ok(memory) => {
                    &&& clause::read_program(extra_rules@) is Some
                    &&& memory.wf()
                    &&& memory@ == MemoryView::fresh(extra_rules@)
                    &&& memory.source() == extractor
                },
                Err(told) => {
                    &&& clause::read_program(extra_rules@) is None
                    &&& told@ == clause::unreadable(extra_rules@)
                },
            },
    {
        let clauses: Vec<Rule> = match parse_rules(extra_rules) {
            Some(clauses) => clauses,
            None => {
                return Err(clause::tell_unreadable(extra_rules));
            },
        };
        let engine: Engine = first_engine(&clauses);
        proof {
            program_laws::program_facts_are_certain(extra_rules@);
        }
        let memory = AgentMemory {
            engine,
            extractor,
            episodes: Vec::new(),
            escalations: Vec::new(),
            episode_counter: 0,
            extra_rules: extra_rules.to_owned(),
            hyp_counter: 0,
            base_rules: extra_rules.to_owned(),
            batches: Vec::new(),
            batch_counter: 0,
            turn: Vec::new(),
        };
        assert(memory@.batches =~= seq![]);
        assert(memory@.turn =~= seq![]);
        assert(memory@.episodes =~= seq![]);
        assert(memory@.escalations =~= seq![]);
        Ok(memory)
    }

    /// Begins an episode at a time.
    fn begin_episode(&mut self, content: &str, ts: i64, speaker: Option<&str>) -> (episode: Episode)
        requires
            old(self).wf(),
            old(self)@.counter < u64::MAX,
        ensures
            final(self).wf(),
            final(self)@ == (MemoryView { counter: old(self)@.counter + 1, ..old(self)@.at(
                ts as int,
            ) }),
            episode@ == old(self)@.next_episode(
                content@,
                ts as int,
                update::scope_view(speaker),
            ),
            final(self).source() == old(self).source(),
    {
        self.engine.set_now(ts);
        self.episode_counter = self.episode_counter + 1;
        let speaker: Option<String> = match speaker {
            Some(name) => Some(name.to_owned()),
            None => None,
        };
        Episode {
            id: numbered("ep", self.episode_counter),
            text: content.to_owned(),
            ts,
            speaker,
        }
    }

    /// Observes candidates in the episode that was begun, and ends it.
    fn end_episode(
        &mut self,
        episode: Episode,
        scope: Option<&str>,
        candidates: &Vec<CandidateFact>,
        provenance: &Vec<String>,
    ) -> (report: IngestReport)
        requires
            old(self).wf(),
            protocol::all_rated(protocol::candidate_views(candidates@)),
        ensures
            final(self).wf(),
            ({
                let (engine, told) = all_updated(
                    old(self)@.engine,
                    update::scope_view(scope),
                    protocol::candidate_views(candidates@),
                    episode.id@,
                    text::texts(provenance@),
                );
                &&& report@ == told
                &&& final(self)@ == MemoryView {
                    engine,
                    episodes: old(self)@.episodes.push(episode@),
                    escalations: old(self)@.escalations + told.escalations,
                    ..old(self)@
                }
            }),
            final(self).source() == old(self).source(),
    {
        let ghost before = self@;
        let ghost said = episode@;
        proof {
            program_laws::observation_keeps_program(
                before.engine,
                update::scope_view(scope),
                protocol::candidate_views(candidates@),
                said.id,
                text::texts(provenance@),
                program_laws::program_facts(before.rules),
            );
        }
        let report = apply_all(&mut self.engine, scope, candidates, &episode, provenance);
        self.episodes.push(episode);
        assert(episode_views(self.episodes@) =~= before.episodes.push(said));
        let ghost all = text::texts(report.escalations@);
        for i in 0..report.escalations.len()
            invariant
                all == text::texts(report.escalations@),
                text::texts(self.escalations@) == before.escalations + all.take(i as int),
                self.engine.wf(),
                self.extractor == old(self).extractor,
                self.extra_rules == old(self).extra_rules,
                self.batches == old(self).batches,
                self@ == (MemoryView {
                    engine: self.engine@,
                    episodes: before.episodes.push(said),
                    escalations: text::texts(self.escalations@),
                    ..before
                }),
                (self.engine@, report@) == all_updated(
                    before.engine,
                    update::scope_view(scope),
                    protocol::candidate_views(candidates@),
                    said.id,
                    text::texts(provenance@),
                ),
        {
            let ghost old_list = text::texts(self.escalations@);
            self.escalations.push(report.escalations[i].as_str().to_owned());
            assert(text::texts(self.escalations@) =~= old_list.push(all[i as int]));
            assert(before.escalations + all.take(i as int + 1) =~= old_list.push(all[i as int]));
        }
        assert(all.take(all.len() as int) =~= all);
        report
    }

    /// Observes an episode whose candidates are given. Where they came from does not matter.
    pub fn ingest(
        &mut self,
        content: &str,
        ts: i64,
        speaker: Option<&str>,
        candidates: &Vec<CandidateFact>,
    ) -> (report: IngestReport)
        requires
            old(self).wf(),
            old(self)@.counter < u64::MAX,
            protocol::all_rated(protocol::candidate_views(candidates@)),
        ensures
            final(self).wf(),
            (final(self)@, report@) == old(self)@.observed(
                old(self)@.next_episode(content@, ts as int, update::scope_view(speaker)),
                None,
                protocol::candidate_views(candidates@),
                seq![],
            ),
            final(self).source() == old(self).source(),
    {
        let episode = self.begin_episode(content, ts, speaker);
        let none: Vec<String> = Vec::new();
        assert(text::texts(none@) =~= seq![]);
        self.end_episode(episode, None, candidates, &none)
    }

    /// Extracts the candidates of an episode and observes them.
    fn observe_episode(&mut self, content: &str, ts: i64, speaker: Option<&str>) -> (report:
        IngestReport)
        requires
            old(self).wf(),
            old(self)@.counter < u64::MAX,
        ensures
            final(self).wf(),
            old(self).observes(
                old(self)@.next_episode(content@, ts as int, update::scope_view(speaker)),
                *final(self),
                report@,
            ),
    {
        let ghost before = self@;
        let episode = self.begin_episode(content, ts, speaker);
        let ghost said = episode@;
        let candidates: Vec<CandidateFact> = self.extractor.extract(&episode);
        let none: Vec<String> = Vec::new();
        assert(text::texts(none@) =~= seq![]);
        let report = self.end_episode(episode, None, &candidates, &none);
        proof {
            let found = protocol::candidate_views(candidates@);
            assert((self@, report@) == before.observed(said, None, found, seq![]));
            assert(old(self).source().can_find(said, found, self.source().reader()));
        }
        report
    }

    /// Observes an episode at the present time. Which candidates it holds, the extractor says.
    pub fn observe(&mut self, content: &str) -> (report: IngestReport)
        requires
            old(self).wf(),
            old(self)@.counter < u64::MAX,
        ensures
            final(self).wf(),
            old(self).observes(
                old(self)@.next_episode(content@, old(self)@.engine.now, None),
                *final(self),
                report@,
            ),
    {
        let ts: i64 = self.engine.now();
        self.observe_episode(content, ts, None)
    }

    /// Observes an episode of a known speaker. Which candidates it holds, the extractor says.
    pub fn observe_as(&mut self, content: &str, ts: i64, speaker: &str) -> (report: IngestReport)
        requires
            old(self).wf(),
            old(self)@.counter < u64::MAX,
        ensures
            final(self).wf(),
            old(self).observes(
                old(self)@.next_episode(content@, ts as int, Some(speaker@)),
                *final(self),
                report@,
            ),
    {
        self.observe_episode(content, ts, Some(speaker))
    }

    /// Observes an episode at a time, from which its facts are valid. Which candidates it holds,
    /// the extractor says.
    pub fn observe_at(&mut self, content: &str, ts: i64) -> (report: IngestReport)
        requires
            old(self).wf(),
            old(self)@.counter < u64::MAX,
        ensures
            final(self).wf(),
            old(self).observes(
                old(self)@.next_episode(content@, ts as int, None),
                *final(self),
                report@,
            ),
    {
        self.observe_episode(content, ts, None)
    }

    /// Observes the facts in a text, and says which of its lines were dropped.
    fn observe_told(
        &mut self,
        content: &str,
        ts: i64,
        scope: Option<&str>,
        provenance: &Vec<String>,
    ) -> (told: (IngestReport, Vec<(String, String)>))
        requires
            old(self).wf(),
            old(self)@.counter < u64::MAX,
        ensures
            final(self).wf(),
            (final(self)@, told.0@) == old(self)@.told(
                content@,
                ts as int,
                update::scope_view(scope),
                text::texts(provenance@),
            ),
            protocol::pair_views(told.1@) == protocol::reported(content@, DEFAULT_CONFIDENCE@).1,
            final(self).source() == old(self).source(),
    {
        let (candidates, dropped) = protocol::parse_protocol_reported(
            content,
            DEFAULT_CONFIDENCE,
        );
        proof {
            store_laws::default_is_real();
            protocol::read_facts_are_rated(content@, DEFAULT_CONFIDENCE@);
        }
        let episode = self.begin_episode(content, ts, None);
        (self.end_episode(episode, scope, &candidates, provenance), dropped)
    }

    /// Observes the facts in a text, and says which of its lines were dropped.
    pub fn observe_extracted(&mut self, content: &str, ts: i64) -> (told: (
        IngestReport,
        Vec<(String, String)>,
    ))
        requires
            old(self).wf(),
            old(self)@.counter < u64::MAX,
        ensures
            final(self).wf(),
            (final(self)@, told.0@) == old(self)@.told(content@, ts as int, None, seq![]),
            protocol::pair_views(told.1@) == protocol::reported(content@, DEFAULT_CONFIDENCE@).1,
            final(self).source() == old(self).source(),
    {
        let none: Vec<String> = Vec::new();
        assert(text::texts(none@) =~= seq![]);
        self.observe_extracted_with_provenance(content, ts, &none)
    }

    /// Observes the facts in a text with references of the caller, beside the episode itself.
    pub fn observe_extracted_with_provenance(
        &mut self,
        content: &str,
        ts: i64,
        provenance: &Vec<String>,
    ) -> (told: (IngestReport, Vec<(String, String)>))
        requires
            old(self).wf(),
            old(self)@.counter < u64::MAX,
        ensures
            final(self).wf(),
            (final(self)@, told.0@) == old(self)@.told(
                content@,
                ts as int,
                None,
                text::texts(provenance@),
            ),
            protocol::pair_views(told.1@) == protocol::reported(content@, DEFAULT_CONFIDENCE@).1,
            final(self).source() == old(self).source(),
    {
        self.observe_told(content, ts, None, provenance)
    }

    /// Observes the facts in a text in a scope. The same triple in two scopes is two facts.
    pub fn observe_scoped_extracted_with_provenance(
        &mut self,
        content: &str,
        ts: i64,
        scope: &str,
        provenance: &Vec<String>,
    ) -> (told: (IngestReport, Vec<(String, String)>))
        requires
            old(self).wf(),
            old(self)@.counter < u64::MAX,
        ensures
            final(self).wf(),
            (final(self)@, told.0@) == old(self)@.told(
                content@,
                ts as int,
                Some(scope@),
                text::texts(provenance@),
            ),
            protocol::pair_views(told.1@) == protocol::reported(content@, DEFAULT_CONFIDENCE@).1,
            final(self).source() == old(self).source(),
    {
        self.observe_told(content, ts, Some(scope), provenance)
    }

    /// Makes a turn: sets the time, and notes what is there, so that the next context window can tell
    /// what was created since. What holds then is computed when it is asked for.
    pub fn maintain(&mut self, now: i64)
        requires
            old(self).wf(),
        ensures
            final(self).wf(),
            final(self)@ == old(self)@.turned(now as int),
            final(self).source() == old(self).source(),
    {
        let ghost before = self@;
        self.engine.set_now(now);
        self.turn = news::mark_facts(&self.engine);
        assert(self@ =~= before.turned(now as int));
    }

    /// The conflicts that were told and not resolved.
    pub fn escalations(&self) -> (list: &Vec<String>)
        ensures
            text::texts(list@) == self@.escalations,
    {
        &self.escalations
    }

    /// Dismisses a conflict; there is none behind the last.
    pub fn resolve_escalation(&mut self, idx: usize)
        requires
            old(self).wf(),
        ensures
            final(self).wf(),
            final(self)@ == (MemoryView {
                escalations: if idx < old(self)@.escalations.len() {
                    old(self)@.escalations.remove(idx as int)
                } else {
                    old(self)@.escalations
                },
                ..old(self)@
            }),
            final(self).source() == old(self).source(),
    {
        let ghost before = self@;
        if idx < self.escalations.len() {
            let _ = self.escalations.remove(idx);
            assert(self@.escalations =~= before.escalations.remove(idx as int));
        }
    }

    /// The episodes, in the order in which they were observed.
    pub fn episodes(&self) -> (list: &Vec<Episode>)
        ensures
            episode_views(list@) == self@.episodes,
    {
        &self.episodes
    }

    /// The number of calls of the extractor's model and of its failures.
    pub fn extractor_stats(&self) -> (stats: (usize, usize))
        ensures
            call_ensures(X::stats, (&self.source(),), stats),
    {
        self.extractor.stats()
    }

    /// Restricts the memory to the facts of some scopes and those without one. A memory that was
    /// restricted is not one to save.
    pub fn retain_scopes(&mut self, scopes: &Vec<String>)
        requires
            old(self).wf(),
        ensures
            final(self).wf(),
            final(self)@ == (MemoryView {
                engine: EngineView {
                    names: engine::joined(old(self)@.engine.names, text::texts(scopes@)),
                    facts: engine::in_scopes(old(self)@.engine.facts, text::texts(scopes@)),
                    ..old(self)@.engine
                },
                ..old(self)@
            }),
            final(self).source() == old(self).source(),
    {
        proof {
            if self@.installed == 0 {
                program_laws::restriction_keeps_program(
                    self@.engine.facts,
                    text::texts(scopes@),
                    program_laws::program_facts(self@.rules),
                );
            }
        }
        self.engine.retain_scopes(scopes);
    }

    /// Removes the facts without a scope from a memory that is restricted.
    pub fn remove_unscoped_facts(&mut self)
        requires
            old(self).wf(),
        ensures
            final(self).wf(),
            final(self)@ == (MemoryView {
                engine: EngineView {
                    facts: engine::without_unscoped(old(self)@.engine.facts),
                    ..old(self)@.engine
                },
                ..old(self)@
            }),
            final(self).source() == old(self).source(),
    {
        proof {
            if self@.installed == 0 {
                program_laws::restriction_keeps_program(
                    self@.engine.facts,
                    seq![],
                    program_laws::program_facts(self@.rules),
                );
            }
        }
        self.engine.remove_unscoped_facts();
    }

    /// Writes the memory to a snapshot.
    pub fn save(&self) -> (content: String)
        requires
            self.wf(),
        ensures
            content@ == snapshot::snapshot_text(persistence::memory_records(self@)),
    {
        let records = persistence::list_records(
            &self.engine,
            self.extra_rules.as_str(),
            &self.episodes,
            &self.escalations,
        );
        snapshot::encode_snapshot(&records)
    }

    /// The memory that was loaded in parts.
    pub fn from_parts(extractor: X, parts: LoadedParts) -> (memory: AgentMemory<X>)
        requires
            parts.whole(),
            extractor.reader().sound(),
        ensures
            memory.wf(),
            memory@ == (MemoryView {
                counter: parts.episodes@.len() as int,
                ..parts.memory()
            }).turned(parts.now as int),
            memory.source() == extractor,
    {
        let mut engine: Engine = parts.engine;
        engine.set_now(parts.now);
        let episode_counter: u64 = parts.episodes.len() as u64;
        let base_rules: String = parts.rules.as_str().to_owned();
        let turn: Vec<Mark> = news::mark_facts(&engine);
        let memory = AgentMemory {
            engine,
            extractor,
            episodes: parts.episodes,
            escalations: parts.escalations,
            episode_counter,
            extra_rules: parts.rules,
            hyp_counter: 0,
            base_rules,
            batches: Vec::new(),
            batch_counter: 0,
            turn,
        };
        assert(memory@.batches =~= seq![]);
        memory
    }

    /// Loads a memory from a snapshot. Its rules are read as those of a memory that begins, and do
    /// no more than they do there: rules that cannot be read are an error, the facts among them
    /// are asserted, and the facts of the snapshot after them.
    pub fn load(extractor: X, content: &str) -> (loaded: Result<AgentMemory<X>, LoadError>)
        requires
            extractor.reader().sound(),
        ensures
            match persistence::load_text(content@) {
                Ok(view) => loaded matches Ok(memory) && memory.wf() && memory@ == view
                    && memory.source() == extractor,
                Err(error) => loaded matches Err(failure) && failure@ == error,
            },
    {
        match persistence::load_parts(content) {
            Ok(parts) => Ok(AgentMemory::from_parts(extractor, parts)),
            Err(error) => Err(error),
        }
    }

    /// Whether `after` is the memory, and `keys` the facts that are not asserted, after an episode
    /// was supposed in which the extractor can find candidates.
    pub open spec fn supposes(
        self,
        episode: EpisodeView,
        after: Self,
        keys: Seq<Seq<ValueView>>,
    ) -> bool {
        exists|candidates: Seq<CandidateView>|
            {
                &&& #[trigger] self.source().can_find(
                    episode,
                    candidates,
                    after.source().reader(),
                )
                &&& after@ == MemoryView {
                    engine: all_prepared(self@.engine, candidates),
                    suppositions: self@.suppositions + 1,
                    ..self@
                }
                &&& keys == supposed_keys(candidates, self@.engine.now)
            }
    }

    /// Supposes an episode: says which facts it would assert, in the relation of facts without
    /// a scope, and asserts nothing. Its id is never that of an episode that is observed.
    pub fn suppose(&mut self, content: &str) -> (keys: Vec<Vec<Value>>)
        requires
            old(self).wf(),
            old(self)@.suppositions < u64::MAX,
        ensures
            final(self).wf(),
            forall|i: int|
                0 <= i < keys@.len() ==> engine::known_key(
                    final(self)@.engine.names,
                    (#[trigger] keys@[i])@,
                ),
            old(self).supposes(
                old(self)@.supposed_episode(content@),
                *final(self),
                key_views(final(self)@.engine.names, keys@),
            ),
    {
        let ghost before = self@;
        self.hyp_counter = self.hyp_counter + 1;
        let episode = Episode {
            id: numbered("hyp", self.hyp_counter),
            text: content.to_owned(),
            ts: self.engine.now(),
            speaker: None,
        };
        let candidates: Vec<CandidateFact> = self.extractor.extract(&episode);
        let keys: Vec<Vec<Value>> = suppose_candidates(&mut self.engine, &candidates);
        proof {
            let said = protocol::candidate_views(candidates@);
            assert(episode@ == before.supposed_episode(content@));
            assert(self@ == MemoryView {
                engine: all_prepared(before.engine, said),
                suppositions: before.suppositions + 1,
                ..before
            });
            assert(old(self).source().can_find(episode@, said, self.source().reader()));
            query_laws::supposition_asserts_nothing(before.engine, said);
        }
        keys
    }

    /// Answers a goal as if the facts of an episode were asserted, and counts those that would be
    /// new. Nothing is asserted.
    pub fn what_if(&mut self, content: &str, goal: &str) -> (told: Result<
        (Vec<String>, usize),
        String,
    >)
        requires
            old(self).wf(),
            old(self)@.suppositions < u64::MAX,
        ensures
            final(self).wf(),
            exists|keys: Seq<Seq<ValueView>>|
                {
                    &&& #[trigger] old(self).supposes(
                        old(self)@.supposed_episode(content@),
                        *final(self),
                        keys,
                    )
                    &&& match told {
                        Ok((rows, added)) => {
                            &&& query::answer_is(
                                with_edges(final(self)@.engine, keys),
                                clauses_of(old(self)@.rules),
                                goal@,
                                Ok(rows),
                            )
                            &&& added == with_edges(final(self)@.engine, keys).facts.len()
                                - final(self)@.engine.facts.len()
                        },
                        Err(message) => query::answer_is(
                            with_edges(final(self)@.engine, keys),
                            clauses_of(old(self)@.rules),
                            goal@,
                            Err(message),
                        ),
                    }
                },
    {
        proof {
            store_laws::default_is_real();
            store_laws::relations_are_plain(None);
        }
        let keys: Vec<Vec<Value>> = self.suppose(content);
        let mut engine: Engine = self.engine.copy();
        let ghost names = engine@.names;
        let ghost all = key_views(names, keys@);
        let none: Vec<String> = Vec::new();
        assert(text::texts(none@) =~= seq![]);
        for i in 0..keys.len()
            invariant
                engine.wf(),
                engine@.names == names,
                all == key_views(names, keys@),
                text::texts(none@) == Seq::<Seq<char>>::empty(),
                number::real_text(DEFAULT_CONFIDENCE@),
                store_laws::plain("edge"@),
                forall|j: int|
                    0 <= j < keys@.len() ==> engine::known_key(names, (#[trigger] keys@[j])@),
                engine@ == with_edges(self@.engine, all.take(i as int)),
                engine@.facts.len() >= self@.engine.facts.len(),
        {
            assert(all.take(i as int + 1).drop_last() =~= all.take(i as int));
            assert(all[i as int] == engine::key_view(names, keys@[i as int]@));
            proof {
                engine::lemma_place_of(engine@.facts, "edge"@, all[i as int]);
            }
            engine.declare("edge", &keys[i], Ann::base(DEFAULT_CONFIDENCE, &none));
        }
        assert(all.take(all.len() as int) =~= all);
        let added: usize = engine.facts().len() - self.engine.facts().len();
        match query::ask(&engine, self.engine.rules(), goal) {
            Ok(rows) => Ok((rows, added)),
            Err(message) => Err(message),
        }
    }

    /// Installs a batch of rules, and says its id. Its rules stand behind those that are there, and
    /// the facts among them are asserted. A text that is no program is an error.
    pub fn install_rules(&mut self, src: &str) -> (installed: Result<String, String>)
        requires
            old(self).wf(),
            old(self)@.installed < u64::MAX,
        ensures
            final(self).wf(),
            final(self).source() == old(self).source(),
            match installed {
                Ok(id) => {
                    &&& clause::read_program(src@) is Some
                    &&& id@ == batches::batch_id(old(self)@.installed + 1)
                    &&& final(self)@ == old(self)@.with_batch(src@)
                },
                Err(told) => {
                    &&& clause::read_program(src@) is None
                    &&& told@ == clause::unreadable(src@)
                    &&& final(self)@ == old(self)@
                },
            },
    {
        let ghost before = self@;
        let clauses: Vec<Rule> = match parse_rules(src) {
            Some(clauses) => clauses,
            None => {
                return Err(clause::tell_unreadable(src));
            },
        };
        let mut text: String = self.extra_rules.as_str().to_owned();
        text.append("\n");
        text.append(src);
        let mut more: Vec<Rule> = clause::copy_rules(&clauses);
        let mut all: Vec<Rule> = clause::copy_rules(self.engine.rules());
        all.append(&mut more);
        self.batch_counter = self.batch_counter + 1;
        let id: String = numbered("batch", self.batch_counter);
        self.batches.push(Batch { id: id.as_str().to_owned(), source: src.to_owned() });
        let ghost listed = before.batches.push(
            BatchView { id: batches::batch_id(before.installed + 1), source: src@ },
        );
        proof {
            assert(batches::batch_views(self.batches@) =~= listed);
            assert(listed.drop_last() =~= before.batches);
            assert(text@ =~= batches::program_text(before.base, listed));
            program_join::programs_join(before.rules, src@);
            assert(clause::rule_views(all@) =~= clauses_of(text@));
            assert forall|i: int| 0 <= i < listed.len() implies clause::read_program(
                (#[trigger] listed[i]).source,
            ) is Some by {
                if i < before.batches.len() {
                    assert(clause::read_program(before.batches[i].source) is Some);
                }
            }
        }
        let mut engine: Engine = self.engine.copy();
        engine.set_rules(all);
        proof {
            batches::lemma_clauses_keep_rules(engine@, clauses_of(src@));
        }
        self.engine = assert_clauses(engine, &clauses);
        self.extra_rules = text;
        assert(self@ =~= before.with_batch(src@));
        Ok(id)
    }

    /// Takes a batch of rules back, and says whether there was one with this id. What its rules gave
    /// holds no more; what facts it asserted stay.
    pub fn uninstall_rules(&mut self, id: &str) -> (done: bool)
        requires
            old(self).wf(),
        ensures
            final(self).wf(),
            final(self).source() == old(self).source(),
            match batches::place_of(old(self)@.batches, id@) {
                Some(i) => done && final(self)@ == old(self)@.without_batch(i),
                None => !done && final(self)@ == old(self)@,
            },
    {
        let ghost before = self@;
        let place: usize = match batches::find_batch(&self.batches, id) {
            Some(place) => place,
            None => {
                return false;
            },
        };
        let mut rest: Vec<Batch> = batches::copy_batches(&self.batches);
        rest.remove(place);
        let ghost listed = before.batches.remove(place as int);
        proof {
            assert(batches::batch_views(rest@).len() == before.batches.len() - 1);
            assert(batches::batch_views(rest@) =~= listed);
            assert forall|i: int| 0 <= i < listed.len() implies clause::read_program(
                (#[trigger] listed[i]).source,
            ) is Some by {
                let k = if i < place {
                    i
                } else {
                    i + 1
                };
                assert(clause::read_program(before.batches[k].source) is Some);
            }
            batches::lemma_program_reads(before.base, listed);
        }
        let text: String = batches::write_program(self.base_rules.as_str(), &rest);
        if let Some(clauses) = parse_rules(text.as_str()) {
            let mut engine: Engine = self.engine.copy();
            engine.set_rules(clauses);
            self.engine = engine;
            self.batches = rest;
            self.extra_rules = text;
            assert(self@ =~= before.without_batch(place as int));
        }
        true
    }

    /// The batches of rules that are installed, each with its id and its text.
    pub fn rule_batches(&self) -> (list: Vec<Batch>)
        ensures
            batches::batch_views(list@) == self@.batches,
    {
        batches::copy_batches(&self.batches)
    }

    /// The clauses of the rules that were added to the default rules.
    pub fn clauses(&self) -> (clauses: Vec<Rule>)
        requires
            self.wf(),
        ensures
            clause::rule_views(clauses@) == clauses_of(self@.rules),
    {
        clause::copy_rules(self.engine.rules())
    }

    /// The symbol with a name, which is new where there was none.
    pub fn sym(&mut self, name: &str) -> (value: Value)
        requires
            old(self).wf(),
        ensures
            final(self).wf(),
            final(self)@ == (MemoryView {
                engine: old(self)@.engine.with_name(name@),
                ..old(self)@
            }),
            final(self).source() == old(self).source(),
            engine::known(final(self)@.engine.names, value),
            engine::value_view(final(self)@.engine.names, value) == ValueView::Symbol(name@),
    {
        self.engine.sym(name)
    }

    /// Asserts a fact as it is, past the update policy.
    pub fn declare(&mut self, pred: &str, key: &Vec<Value>, ann: Ann)
        requires
            old(self).wf(),
            engine::known_key(old(self)@.engine.names, key@),
            store_laws::regular_ann(ann@),
            store_laws::plain(pred@),
        ensures
            final(self).wf(),
            final(self)@ == (MemoryView {
                engine: old(self)@.engine.with_fact(
                    pred@,
                    engine::key_view(old(self)@.engine.names, key@),
                    ann@,
                ),
                ..old(self)@
            }),
            final(self).source() == old(self).source(),
    {
        proof {
            if self@.installed == 0 {
                program_laws::declaration_keeps_program(
                    self@.engine.facts,
                    pred@,
                    engine::key_view(self@.engine.names, key@),
                    ann@,
                    program_laws::program_facts(self@.rules),
                );
            }
        }
        self.engine.declare(pred, key, ann);
    }

    /// Sets the time.
    pub fn set_now(&mut self, now: i64)
        requires
            old(self).wf(),
        ensures
            final(self).wf(),
            final(self)@ == (MemoryView {
                engine: EngineView { now: now as int, ..old(self)@.engine },
                ..old(self)@
            }),
            final(self).source() == old(self).source(),
    {
        self.engine.set_now(now);
    }

    /// Answers an atom such as `current("alice", R, O)`.
    pub fn ask(&self, goal: &str) -> (answers: Result<Vec<String>, String>)
        requires
            self.wf(),
        ensures
            query::answer_is(self@.engine, clauses_of(self@.rules), goal@, answers),
    {
        query::ask(&self.engine, self.engine.rules(), goal)
    }

    /// Answers a query: an atom, or a rule that is added for the query and whose head is answered.
    pub fn answer(&self, expression: &str) -> (answers: Result<Vec<String>, String>)
        requires
            self.wf(),
        ensures
            query::expression_answer_is(
                self@.engine,
                clauses_of(self@.rules),
                expression@,
                answers,
            ),
    {
        query::answer(&self.engine, self.clauses(), expression)
    }

    /// Answers an atom after a turn at the present time.
    pub fn ask_deep(&mut self, goal: &str) -> (answers: Result<Vec<String>, String>)
        requires
            old(self).wf(),
        ensures
            final(self).wf(),
            final(self)@ == old(self)@.turned(old(self)@.engine.now),
            final(self).source() == old(self).source(),
            query::answer_is(old(self)@.engine, clauses_of(old(self)@.rules), goal@, answers),
    {
        let now: i64 = self.engine.now();
        self.maintain(now);
        self.ask(goal)
    }

    /// Says why a fact holds.
    pub fn why(&self, fact: &str) -> (told: String)
        requires
            self.wf(),
        ensures
            told@ == query::why_text(self@.engine, clauses_of(self@.rules), fact@),
    {
        query::tell_why(&self.engine, self.engine.rules(), fact)
    }

    /// The rows of the relation `near` for a session and an entity, by facts and by rules, with the
    /// confidences and the references of the facts that each rests on.
    pub fn query_near(&self, session: Value, entity: Value) -> (rows: Vec<Fact>)
        requires
            self.wf(),
            engine::known(self@.engine.names, session),
            engine::known(self@.engine.names, entity),
        ensures
            engine::known_facts(self@.engine.names, rows@),
            engine::fact_views(self@.engine.names, rows@) == self@.engine.rows(
                "near"@,
                seq![
                    Some(engine::value_view(self@.engine.names, session)),
                    Some(engine::value_view(self@.engine.names, entity)),
                    None,
                ],
            ),
    {
        let pattern: Vec<Option<Value>> = vec![Some(session), Some(entity), None];
        assert(engine::pattern_view(self@.engine.names, pattern@) =~= seq![
            Some(engine::value_view(self@.engine.names, session)),
            Some(engine::value_view(self@.engine.names, entity)),
            None,
        ]);
        self.engine.query("near", &pattern)
    }

    /// Assembles the context window of a query about some entities, of what the facts and the rules
    /// say is current. Of the facts that were created since the last turn the first are told.
    pub fn context(
        &self,
        entities: &Vec<String>,
        budget_tokens: usize,
        grades: &Vec<Grade>,
    ) -> (window: String)
        requires
            self.wf(),
            grades@.len() == context::relevant(self@.engine, text::texts(entities@)).len(),
            budget_tokens * 24 <= usize::MAX,
        ensures
            window@ == context::context_text(
                context::fact_lines(
                    context::relevant(self@.engine, text::texts(entities@)),
                    context::grade_views(grades@),
                ),
                self@.episodes,
                budget_tokens as int,
                self@.news(),
            ),
    {
        let mut told: Vec<String> = news::tell_news(&self.engine, &self.turn);
        let ghost all = text::texts(told@);
        assert(all.len() == told@.len());
        if told.len() > NEWS_LINES {
            told.truncate(NEWS_LINES);
        }
        assert(text::texts(told@) =~= self@.news());
        context::assemble_context(
            &self.engine,
            &self.episodes,
            entities,
            budget_tokens,
            &told,
            grades,
        )
    }
}

} // verus!
