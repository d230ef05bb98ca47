//! The context window of a query: distilled facts first, verbatim episodes last, each within its
//! share of the budget.

use vstd::prelude::*;

use crate::agent;
use crate::agent::{Episode, EpisodeView};
use crate::engine;
use crate::engine::{Engine, EngineView, Fact, FactView, Value};
use crate::rows;
use crate::search;
use crate::snapshot::ValueView;
use crate::sorted;
use crate::text;

verus! {

/// How a confidence is ranked and shown. A confidence is a real number; its rank orders as the
/// number does, and it is shown with two digits after the point.
#[derive(Clone, Debug, PartialEq, Eq)]
pub struct Grade {
    pub rank: u64,
    pub shown: String,
}

/// How a confidence is ranked and shown, as a view.
#[verifier::ext_equal]
pub struct GradeView {
    pub rank: int,
    pub shown: Seq<char>,
}

impl View for Grade {
    type V = GradeView;

    open spec fn view(&self) -> GradeView {
        GradeView { rank: self.rank as int, shown: self.shown@ }
    }
}

/// Grades, as views.
pub open spec fn grade_views(grades: Seq<Grade>) -> Seq<GradeView> {
    grades.map_values(|grade: Grade| grade@)
}

/// The value of the symbol with a name, or the value that stands for none.
pub open spec fn looked_up(names: Seq<Seq<char>>, name: Seq<char>) -> ValueView {
    if names.contains(name) {
        ValueView::Symbol(name)
    } else {
        ValueView::Integer(engine::UNKNOWN as int)
    }
}

/// What holds now of some entities, one entity after the other: each row of `current` with the entity
/// as its subject, with the confidences and the references of the facts that it rests on.
pub open spec fn relevant(store: EngineView, entities: Seq<Seq<char>>) -> Seq<FactView>
    decreases entities.len(),
{
    if entities.len() == 0 {
        seq![]
    } else {
        relevant(store, entities.drop_last()) + store.rows(
            "current"@,
            seq![Some(looked_up(store.names, entities.last())), None, None],
        )
    }
}

/// A line of the window, with its rank and the references that support it.
#[verifier::ext_equal]
pub struct LineView {
    pub line: Seq<char>,
    pub rank: int,
    pub prov: Seq<Seq<char>>,
}

/// The line of a fact.
pub open spec fn fact_line(fact: FactView, grade: GradeView) -> LineView {
    LineView {
        line: search::shown(fact.key[0]) + " --"@ + search::shown(fact.key[1]) + "--> "@
            + search::shown(fact.key[2]) + "   [conf "@ + grade.shown + ", prov "@ + text::join(
            fact.ann.prov,
            ","@,
        ) + "]\n"@,
        rank: grade.rank,
        prov: fact.ann.prov,
    }
}

/// The lines of facts.
pub open spec fn fact_lines(facts: Seq<FactView>, grades: Seq<GradeView>) -> Seq<LineView> {
    Seq::new(facts.len(), |i: int| fact_line(facts[i], grades[i]))
}

/// Lines with one more behind all that rank no lower.
pub open spec fn ranked_in(lines: Seq<LineView>, line: LineView) -> Seq<LineView>
    decreases lines.len(),
{
    if lines.len() == 0 || lines.last().rank >= line.rank {
        lines.push(line)
    } else {
        ranked_in(lines.drop_last(), line).push(lines.last())
    }
}

/// Lines in the order of their ranks, the highest first; lines of one rank stay in order.
pub open spec fn ranked(lines: Seq<LineView>) -> Seq<LineView>
    decreases lines.len(),
{
    if lines.len() == 0 {
        seq![]
    } else {
        ranked_in(ranked(lines.drop_last()), lines.last())
    }
}

/// How many of the first texts fit into a number of bytes.
pub open spec fn fitting_count(texts: Seq<Seq<char>>, bytes: int) -> int
    decreases texts.len(),
{
    if texts.len() == 0 || text::byte_len(texts[0]) > bytes {
        0
    } else {
        1 + fitting_count(texts.drop_first(), bytes - text::byte_len(texts[0]))
    }
}

/// Texts one after the other.
pub open spec fn run_together(texts: Seq<Seq<char>>) -> Seq<char>
    decreases texts.len(),
{
    if texts.len() == 0 {
        seq![]
    } else {
        run_together(texts.drop_last()) + texts.last()
    }
}

/// The texts of lines.
pub open spec fn line_texts(lines: Seq<LineView>) -> Seq<Seq<char>> {
    lines.map_values(|line: LineView| line.line)
}

/// Whether a line is supported by an episode.
pub open spec fn cites(lines: Seq<LineView>, id: Seq<char>) -> bool {
    exists|i: int| 0 <= i < lines.len() && (#[trigger] lines[i]).prov.contains(id)
}

/// The block of an episode.
pub open spec fn episode_block(episode: EpisodeView) -> Seq<char> {
    "["@ + episode.id + "] "@ + episode.text + "\n"@
}

/// The blocks of the episodes that support some lines.
pub open spec fn cited_blocks(episodes: Seq<EpisodeView>, lines: Seq<LineView>) -> Seq<Seq<char>>
    decreases episodes.len(),
{
    if episodes.len() == 0 {
        seq![]
    } else {
        let blocks = cited_blocks(episodes.drop_last(), lines);
        if cites(lines, episodes.last().id) {
            blocks.push(episode_block(episodes.last()))
        } else {
            blocks
        }
    }
}

/// The bytes for the distilled facts: six tenths of four bytes for each token.
pub open spec fn fact_budget(budget_tokens: int) -> int {
    budget_tokens * 4 * 6 / 10
}

/// The bytes for the episodes: four tenths of four bytes for each token.
pub open spec fn source_budget(budget_tokens: int) -> int {
    budget_tokens * 4 * 4 / 10
}

/// What is new, where there is anything.
pub open spec fn news_text(news: Seq<Seq<char>>) -> Seq<char> {
    if news.len() == 0 {
        seq![]
    } else {
        "== new in memory since last turn ==\n"@ + run_together(
            news.map_values(|line: Seq<char>| line + "\n"@),
        ) + "\n"@
    }
}

/// The lines that fit into the window, the highest ranks first.
pub open spec fn distilled(lines: Seq<LineView>, budget_tokens: int) -> Seq<LineView> {
    let all = ranked(lines);
    all.take(fitting_count(line_texts(all), fact_budget(budget_tokens)))
}

/// The blocks that fit into the window, of the episodes that support its lines.
pub open spec fn sources(
    episodes: Seq<EpisodeView>,
    lines: Seq<LineView>,
    budget_tokens: int,
) -> Seq<Seq<char>> {
    let blocks = cited_blocks(episodes, lines);
    blocks.take(fitting_count(blocks, source_budget(budget_tokens)))
}

/// The context window.
pub open spec fn context_text(
    lines: Seq<LineView>,
    episodes: Seq<EpisodeView>,
    budget_tokens: int,
    news: Seq<Seq<char>>,
) -> Seq<char> {
    let first = distilled(lines, budget_tokens);
    news_text(news) + "== memory (distilled, highest confidence first) ==\n"@ + run_together(
        line_texts(first),
    ) + "\n== source episodes (verbatim, from provenance) ==\n"@ + run_together(
        sources(episodes, first, budget_tokens),
    )
}

/// Whether a key is that of a row of `current` that holds of an entity.
pub open spec fn holds_of(store: EngineView, entity: Seq<char>, key: Seq<ValueView>) -> bool {
    &&& rows::held(store, "current"@, key)
    &&& key.len() == 3
    &&& key[0] == looked_up(store.names, entity)
}

/// What is relevant to entities is what holds of them now, by facts or by rules.
pub proof fn relevant_rows_hold(
    store: EngineView,
    entities: Seq<Seq<char>>,
    key: Seq<ValueView>,
)
    ensures
        rows::has_row(relevant(store, entities), key) <==> exists|i: int|
            0 <= i < entities.len() && holds_of(store, #[trigger] entities[i], key),
    decreases entities.len(),
{
    let all = relevant(store, entities);
    if entities.len() > 0 {
        let fewer = entities.drop_last();
        let first = relevant(store, fewer);
        let pattern = seq![Some(looked_up(store.names, entities.last())), None, None];
        let more = store.rows("current"@, pattern);
        relevant_rows_hold(store, fewer, key);
        rows::rows_are_what_holds(store, "current"@, pattern, key);
        assert(engine::fits(key, pattern) <==> key.len() == 3 && key[0] == looked_up(
            store.names,
            entities.last(),
        )) by {
            assert(pattern[0] == Some(looked_up(store.names, entities.last())));
            assert(pattern[1] == None::<ValueView>);
            assert(pattern[2] == None::<ValueView>);
        }
        if rows::has_row(all, key) {
            let k = choose|k: int| 0 <= k < all.len() && (#[trigger] all[k]).key == key;
            if k < first.len() {
                assert(first[k].key == key);
                let i = choose|i: int|
                    0 <= i < fewer.len() && holds_of(store, #[trigger] fewer[i], key);
                assert(holds_of(store, entities[i], key));
            } else {
                assert(more[k - first.len()].key == key);
                assert(holds_of(store, entities[entities.len() - 1], key));
            }
        }
        if exists|i: int| 0 <= i < entities.len() && holds_of(store, #[trigger] entities[i], key) {
            let i = choose|i: int|
                0 <= i < entities.len() && holds_of(store, #[trigger] entities[i], key);
            if i < fewer.len() {
                assert(holds_of(store, fewer[i], key));
                let k = choose|k: int| 0 <= k < first.len() && (#[trigger] first[k]).key == key;
                assert(all[k].key == key);
            } else {
                let k = choose|k: int| 0 <= k < more.len() && (#[trigger] more[k]).key == key;
                assert(all[first.len() + k].key == key);
            }
        }
    } else {
        assert(!rows::has_row(all, key));
    }
}

// -------------------------------------------------------------- functions
/// A line of the window.
struct Line {
    line: String,
    rank: u64,
    prov: Vec<String>,
}

impl Line {
    spec fn view(&self) -> LineView {
        LineView { line: self.line@, rank: self.rank as int, prov: text::texts(self.prov@) }
    }
}

spec fn views(lines: Seq<Line>) -> Seq<LineView> {
    lines.map_values(|line: Line| line@)
}

/// What holds now of some entities, one entity after the other.
pub fn relevant_facts(engine: &Engine, entities: &Vec<String>) -> (facts: Vec<Fact>)
    requires
        engine.wf(),
    ensures
        engine::known_facts(engine@.names, facts@),
        engine::fact_views(engine@.names, facts@) == relevant(engine@, text::texts(entities@)),
        forall|i: int| 0 <= i < facts@.len() ==> (#[trigger] facts@[i]).key@.len() == 3,
{
    let ghost names = engine@.names;
    let ghost all = text::texts(entities@);
    let mut facts: Vec<Fact> = Vec::new();
    assert(engine::fact_views(names, facts@) =~= seq![]);
    for i in 0..entities.len()
        invariant
            engine.wf(),
            names == engine@.names,
            all == text::texts(entities@),
            engine::known_facts(names, facts@),
            engine::fact_views(names, facts@) == relevant(engine@, all.take(i as int)),
            forall|j: int| 0 <= j < facts@.len() ==> (#[trigger] facts@[j]).key@.len() == 3,
    {
        assert(all.take(i as int + 1).drop_last() =~= all.take(i as int));
        let mut pattern: Vec<Option<Value>> = Vec::new();
        pattern.push(Some(engine.sym_of(entities[i].as_str())));
        pattern.push(None);
        pattern.push(None);
        let ghost asked = seq![Some(looked_up(names, all[i as int])), None, None];
        assert(engine::pattern_view(names, pattern@) =~= asked);
        let found: Vec<Fact> = engine.query("current", &pattern);
        let ghost start = engine::fact_views(names, facts@);
        let ghost more = engine::fact_views(names, found@);
        assert(start + more.take(0) =~= start);
        for j in 0..found.len()
            invariant
                names == engine@.names,
                engine::known_facts(names, found@),
                more == engine::fact_views(names, found@),
                asked.len() == 3,
                more == engine@.rows("current"@, asked),
                engine::known_facts(names, facts@),
                engine::fact_views(names, facts@) == start + more.take(j as int),
                forall|k: int| 0 <= k < facts@.len() ==> (#[trigger] facts@[k]).key@.len() == 3,
        {
            proof {
                rows::rows_are_what_holds(engine@, "current"@, asked, more[j as int].key);
                assert(more[j as int] == engine::fact_view(names, found@[j as int]));
                assert(found@[j as int].key@.len() == 3);
                assert(engine::known_key(names, found@[j as int].key@));
            }
            let ghost before = engine::fact_views(names, facts@);
            facts.push(found[j].copy());
            assert(engine::fact_views(names, facts@) =~= before.push(more[j as int]));
            assert(start + more.take(j as int + 1) =~= before.push(more[j as int]));
        }
        assert(more.take(more.len() as int) =~= more);
    }
    assert(all.take(all.len() as int) =~= all);
    facts
}

/// Writes the line of a fact.
fn write_line(engine: &Engine, fact: &Fact, grade: &Grade) -> (line: Line)
    requires
        engine.wf(),
        engine::known_key(engine@.names, fact.key@),
        fact.key@.len() == 3,
    ensures
        line@ == fact_line(engine::fact_view(engine@.names, *fact), grade@),
{
    assert(engine::known(engine@.names, fact.key@[0]));
    assert(engine::known(engine@.names, fact.key@[1]));
    assert(engine::known(engine@.names, fact.key@[2]));
    let mut line: String = engine.display(&fact.key[0]);
    line.append(" --");
    line.append(engine.display(&fact.key[1]).as_str());
    line.append("--> ");
    line.append(engine.display(&fact.key[2]).as_str());
    line.append("   [conf ");
    line.append(grade.shown.as_str());
    line.append(", prov ");
    line.append(text::join_strings(&fact.ann.prov, ",").as_str());
    line.append("]\n");
    Line { line, rank: grade.rank, prov: engine::copy_strings(&fact.ann.prov) }
}

proof fn lemma_ranked_in(lines: Seq<LineView>, line: LineView, at: int)
    requires
        0 <= at <= lines.len(),
        at == 0 || lines[at - 1].rank >= line.rank,
        forall|j: int| at <= j < lines.len() ==> (#[trigger] lines[j]).rank < line.rank,
    ensures
        ranked_in(lines, line) == lines.take(at) + seq![line] + lines.skip(at),
    decreases lines.len(),
{
    if at == lines.len() {
        assert(lines.push(line) =~= lines.take(at) + seq![line] + lines.skip(at));
    } else {
        let fewer = lines.drop_last();
        assert(lines[lines.len() - 1].rank < line.rank);
        lemma_ranked_in(fewer, line, at);
        assert((fewer.take(at) + seq![line] + fewer.skip(at)).push(lines.last()) =~= lines.take(at)
            + seq![line] + lines.skip(at));
    }
}

/// Puts a line behind all that rank no lower.
fn rank_in(lines: &mut Vec<Line>, line: Line)
    ensures
        views(final(lines)@) == ranked_in(views(old(lines)@), line@),
{
    let ghost all = views(lines@);
    let ghost whole = lines@;
    let ghost said = line@;
    let mut at: usize = lines.len();
    while at > 0 && lines[at - 1].rank < line.rank
        invariant
            lines@ == whole,
            all == views(whole),
            said == line@,
            at <= lines@.len(),
            forall|j: int| at <= j < all.len() ==> (#[trigger] all[j]).rank < said.rank,
        decreases at,
    {
        at = at - 1;
    }
    proof {
        lemma_ranked_in(all, said, at as int);
    }
    lines.insert(at, line);
    assert(views(lines@) =~= all.take(at as int) + seq![said] + all.skip(at as int));
}

/// The lines of facts in the order of their ranks.
fn rank_facts(engine: &Engine, facts: &Vec<Fact>, grades: &Vec<Grade>) -> (lines: Vec<Line>)
    requires
        engine.wf(),
        engine::known_facts(engine@.names, facts@),
        forall|i: int| 0 <= i < facts@.len() ==> (#[trigger] facts@[i]).key@.len() == 3,
        grades@.len() == facts@.len(),
    ensures
        views(lines@) == ranked(
            fact_lines(engine::fact_views(engine@.names, facts@), grade_views(grades@)),
        ),
{
    let ghost all = fact_lines(
        engine::fact_views(engine@.names, facts@),
        grade_views(grades@),
    );
    let mut lines: Vec<Line> = Vec::new();
    assert(views(lines@) =~= seq![]);
    for i in 0..facts.len()
        invariant
            engine.wf(),
            engine::known_facts(engine@.names, facts@),
            forall|j: int| 0 <= j < facts@.len() ==> (#[trigger] facts@[j]).key@.len() == 3,
            grades@.len() == facts@.len(),
            all == fact_lines(
                engine::fact_views(engine@.names, facts@),
                grade_views(grades@),
            ),
            views(lines@) == ranked(all.take(i as int)),
    {
        assert(all.take(i as int + 1).drop_last() =~= all.take(i as int));
        assert(engine::known_key(engine@.names, facts@[i as int].key@));
        assert(facts@[i as int].key@.len() == 3);
        let line = write_line(engine, &facts[i], &grades[i]);
        assert(line@ == all[i as int]);
        rank_in(&mut lines, line);
    }
    assert(all.take(all.len() as int) =~= all);
    lines
}

/// What fits is no more than there is.
proof fn lemma_fitting_count(texts: Seq<Seq<char>>, bytes: int)
    ensures
        0 <= fitting_count(texts, bytes) <= texts.len(),
    decreases texts.len(),
{
    if texts.len() > 0 && text::byte_len(texts[0]) <= bytes {
        lemma_fitting_count(texts.drop_first(), bytes - text::byte_len(texts[0]));
    }
}

/// Counts how many of the first texts fit into a number of bytes.
fn count_fitting(texts: &Vec<String>, bytes: usize) -> (count: usize)
    ensures
        count == fitting_count(text::texts(texts@), bytes as int),
        count <= texts@.len(),
{
    let ghost all = text::texts(texts@);
    let mut left: usize = bytes;
    let mut count: usize = 0;
    assert(all.skip(0) =~= all);
    proof {
        lemma_fitting_count(all, bytes as int);
    }
    while count < texts.len()
        invariant
            all == text::texts(texts@),
            count <= texts@.len(),
            fitting_count(all, bytes as int) == count + fitting_count(
                all.skip(count as int),
                left as int,
            ),
        decreases texts@.len() - count,
    {
        assert(all.skip(count as int)[0] == all[count as int]);
        assert(all.skip(count as int).drop_first() =~= all.skip(count as int + 1));
        let size: usize = texts[count].as_str().as_bytes().len();
        if size > left {
            return count;
        }
        left = left - size;
        count = count + 1;
    }
    count
}

/// Appends the first texts.
fn append_first(out: &mut String, texts: &Vec<String>, count: usize)
    requires
        count <= texts@.len(),
    ensures
        final(out)@ == old(out)@ + run_together(text::texts(texts@).take(count as int)),
{
    let ghost start = out@;
    let ghost all = text::texts(texts@);
    assert(start + run_together(all.take(0)) =~= start);
    for i in 0..count
        invariant
            count <= texts@.len(),
            all == text::texts(texts@),
            out@ == start + run_together(all.take(i as int)),
    {
        assert(all.take(i as int + 1).drop_last() =~= all.take(i as int));
        out.append(texts[i].as_str());
        assert(out@ =~= start + run_together(all.take(i as int + 1)));
    }
}

/// Whether one of the first lines is supported by an episode.
fn is_cited(lines: &Vec<Line>, count: usize, id: &str) -> (yes: bool)
    requires
        count <= lines@.len(),
    ensures
        yes == cites(views(lines@).take(count as int), id@),
{
    let ghost first = views(lines@).take(count as int);
    for i in 0..count
        invariant
            count <= lines@.len(),
            first == views(lines@).take(count as int),
            forall|j: int| 0 <= j < i ==> !(#[trigger] first[j]).prov.contains(id@),
    {
        assert(first[i as int] == lines@[i as int]@);
        if sorted::has(&lines[i].prov, id) {
            return true;
        }
    }
    false
}

/// The blocks of the episodes that support the first lines.
fn list_blocks(episodes: &Vec<Episode>, lines: &Vec<Line>, count: usize) -> (blocks: Vec<String>)
    requires
        count <= lines@.len(),
    ensures
        text::texts(blocks@) == cited_blocks(
            agent::episode_views(episodes@),
            views(lines@).take(count as int),
        ),
{
    let ghost all = agent::episode_views(episodes@);
    let ghost first = views(lines@).take(count as int);
    let mut blocks: Vec<String> = Vec::new();
    assert(text::texts(blocks@) =~= seq![]);
    for i in 0..episodes.len()
        invariant
            count <= lines@.len(),
            all == agent::episode_views(episodes@),
            first == views(lines@).take(count as int),
            text::texts(blocks@) == cited_blocks(all.take(i as int), first),
    {
        assert(all.take(i as int + 1).drop_last() =~= all.take(i as int));
        let episode = &episodes[i];
        if is_cited(lines, count, episode.id.as_str()) {
            let ghost before = text::texts(blocks@);
            let mut block: String = "[".to_owned();
            block.append(episode.id.as_str());
            block.append("] ");
            block.append(episode.text.as_str());
            block.append("\n");
            let ghost said = block@;
            blocks.push(block);
            assert(text::texts(blocks@) =~= before.push(said));
        }
    }
    assert(all.take(all.len() as int) =~= all);
    blocks
}

/// Writes what is new.
fn write_news(out: &mut String, news: &Vec<String>)
    ensures
        final(out)@ == old(out)@ + news_text(text::texts(news@)),
{
    let ghost start = out@;
    let ghost all = text::texts(news@).map_values(|line: Seq<char>| line + "\n"@);
    if news.len() == 0 {
        assert(out@ =~= start + news_text(text::texts(news@)));
        return;
    }
    out.append("== new in memory since last turn ==\n");
    let ghost head = out@;
    assert(head + run_together(all.take(0)) =~= head);
    for i in 0..news.len()
        invariant
            all == text::texts(news@).map_values(|line: Seq<char>| line + "\n"@),
            out@ == head + run_together(all.take(i as int)),
    {
        assert(all.take(i as int + 1).drop_last() =~= all.take(i as int));
        out.append(news[i].as_str());
        out.append("\n");
        assert(out@ =~= head + run_together(all.take(i as int + 1)));
    }
    assert(all.take(all.len() as int) =~= all);
    out.append("\n");
    assert(out@ =~= start + news_text(text::texts(news@)));
}

/// The texts of lines.
fn list_lines(lines: &Vec<Line>) -> (list: Vec<String>)
    ensures
        text::texts(list@) == line_texts(views(lines@)),
{
    let ghost all = line_texts(views(lines@));
    let mut list: Vec<String> = Vec::new();
    assert(text::texts(list@) =~= all.take(0));
    for i in 0..lines.len()
        invariant
            all == line_texts(views(lines@)),
            text::texts(list@) == all.take(i as int),
    {
        let ghost before = text::texts(list@);
        list.push(lines[i].line.as_str().to_owned());
        assert(text::texts(list@) =~= before.push(all[i as int]));
        assert(all.take(i as int + 1) =~= all.take(i as int).push(all[i as int]));
    }
    assert(all.take(all.len() as int) =~= all);
    list
}

/// Assembles the context window of a query about some entities: what is new, then what holds now
/// of the entities with the highest confidence first, then the episodes that support it. The
/// grades are those of the relevant facts, in their order.
pub fn assemble_context(
    engine: &Engine,
    episodes: &Vec<Episode>,
    entities: &Vec<String>,
    budget_tokens: usize,
    news: &Vec<String>,
    grades: &Vec<Grade>,
) -> (window: String)
    requires
        engine.wf(),
        grades@.len() == relevant(engine@, text::texts(entities@)).len(),
        budget_tokens * 24 <= usize::MAX,
    ensures
        window@ == context_text(
            fact_lines(relevant(engine@, text::texts(entities@)), grade_views(grades@)),
            agent::episode_views(episodes@),
            budget_tokens as int,
            text::texts(news@),
        ),
{
    let facts: Vec<Fact> = relevant_facts(engine, entities);
    let lines: Vec<Line> = rank_facts(engine, &facts, grades);
    let written: Vec<String> = list_lines(&lines);
    let count: usize = count_fitting(&written, budget_tokens * 4 * 6 / 10);
    let blocks: Vec<String> = list_blocks(episodes, &lines, count);
    let block_count: usize = count_fitting(&blocks, budget_tokens * 4 * 4 / 10);
    let ghost all = views(lines@);
    let ghost first = all.take(count as int);
    assert(line_texts(first) =~= line_texts(all).take(count as int));
    let mut window: String = String::new();
    assert(window@ =~= seq![]);
    write_news(&mut window, news);
    assert(window@ =~= news_text(text::texts(news@)));
    window.append("== memory (distilled, highest confidence first) ==\n");
    append_first(&mut window, &written, count);
    window.append("\n== source episodes (verbatim, from provenance) ==\n");
    append_first(&mut window, &blocks, block_count);
    window
}

// ------------------------------------------------------------------- laws
proof fn lemma_ranked_in_order(lines: Seq<LineView>, line: LineView)
    requires
        forall|i: int, j: int|
            0 <= i < j < lines.len() ==> (#[trigger] lines[i]).rank >= (#[trigger] lines[j]).rank,
    ensures
        ({
            let all = ranked_in(lines, line);
            forall|i: int, j: int|
                0 <= i < j < all.len() ==> (#[trigger] all[i]).rank >= (#[trigger] all[j]).rank
        }),
        ranked_in(lines, line).to_multiset() == lines.push(line).to_multiset(),
    decreases lines.len(),
{
    if lines.len() > 0 && lines.last().rank < line.rank {
        let fewer = lines.drop_last();
        lemma_ranked_in_order(fewer, line);
        let rest = ranked_in(fewer, line);
        let all = ranked_in(lines, line);
        vstd::seq_lib::to_multiset_build(rest, lines.last());
        vstd::seq_lib::to_multiset_build(fewer, line);
        vstd::seq_lib::to_multiset_build(fewer, lines.last());
        vstd::seq_lib::to_multiset_build(lines, line);
        assert(fewer.push(lines.last()) =~= lines);
        assert(all.to_multiset() =~= lines.push(line).to_multiset());
        assert forall|i: int, j: int| 0 <= i < j < all.len() implies (#[trigger] all[i]).rank >= (
        #[trigger] all[j]).rank by {
            if j == all.len() - 1 {
                vstd::seq_lib::to_multiset_contains(rest, all[i]);
                assert(rest.contains(rest[i]));
                assert(fewer.push(line).to_multiset().count(all[i]) > 0);
                vstd::seq_lib::to_multiset_contains(fewer.push(line), all[i]);
                assert(fewer.push(line).contains(all[i]));
                let k = choose|k: int|
                    0 <= k < fewer.push(line).len() && fewer.push(line)[k] == all[i];
                if k < fewer.len() {
                    assert(lines[k].rank >= lines[lines.len() - 1].rank);
                }
            }
        }
    } else {
        let all = lines.push(line);
        assert forall|i: int, j: int| 0 <= i < j < all.len() implies (#[trigger] all[i]).rank >= (
        #[trigger] all[j]).rank by {
            if j == lines.len() && i < lines.len() - 1 {
                assert(lines[i].rank >= lines[lines.len() - 1].rank);
            }
        }
    }
}

/// The highest confidence stands first, and no line is lost or made up.
pub proof fn lines_are_ranked(lines: Seq<LineView>)
    ensures
        forall|i: int, j: int|
            0 <= i < j < ranked(lines).len() ==> (#[trigger] ranked(lines)[i]).rank >= (
            #[trigger] ranked(lines)[j]).rank,
        ranked(lines).to_multiset() == lines.to_multiset(),
    decreases lines.len(),
{
    if lines.len() > 0 {
        let fewer = lines.drop_last();
        lines_are_ranked(fewer);
        lemma_ranked_in_order(ranked(fewer), lines.last());
        vstd::seq_lib::to_multiset_build(ranked(fewer), lines.last());
        vstd::seq_lib::to_multiset_build(fewer, lines.last());
        assert(fewer.push(lines.last()) =~= lines);
        assert(ranked(lines).to_multiset() =~= lines.to_multiset());
    } else {
        assert(ranked(lines) =~= lines);
    }
}

proof fn lemma_run_together_first(texts: Seq<Seq<char>>)
    requires
        texts.len() > 0,
    ensures
        run_together(texts) == texts[0] + run_together(texts.drop_first()),
    decreases texts.len(),
{
    if texts.len() == 1 {
        assert(texts.drop_last() =~= seq![]);
        assert(texts.drop_first() =~= seq![]);
        reveal_with_fuel(run_together, 2);
        assert(run_together(texts) =~= texts[0] + run_together(texts.drop_first()));
    } else {
        lemma_run_together_first(texts.drop_last());
        assert(texts.drop_last().drop_first() =~= texts.drop_first().drop_last());
        assert(run_together(texts) =~= texts[0] + run_together(texts.drop_first()));
    }
}

/// What fits into a number of bytes takes no more.
pub proof fn fitting_texts_fit(texts: Seq<Seq<char>>, bytes: int)
    requires
        0 <= bytes,
    ensures
        0 <= fitting_count(texts, bytes) <= texts.len(),
        text::byte_len(run_together(texts.take(fitting_count(texts, bytes)))) <= bytes,
    decreases texts.len(),
{
    let n = fitting_count(texts, bytes);
    if n == 0 {
        assert(texts.take(0) =~= seq![]);
        assert(run_together(texts.take(0)) =~= seq![]);
        text::lemma_byte_len_add(seq![], seq![]);
        assert(Seq::<char>::empty() + Seq::<char>::empty() =~= Seq::<char>::empty());
    } else {
        let rest = texts.drop_first();
        let left = bytes - text::byte_len(texts[0]);
        fitting_texts_fit(rest, left);
        let first = texts.take(n);
        lemma_run_together_first(first);
        assert(first.drop_first() =~= rest.take(n - 1));
        text::lemma_byte_len_add(texts[0], run_together(rest.take(n - 1)));
    }
}

/// The distilled facts and the episodes of a window stay within their shares of the budget.
pub proof fn window_stays_within_budget(
    lines: Seq<LineView>,
    episodes: Seq<EpisodeView>,
    budget_tokens: int,
)
    requires
        0 <= budget_tokens,
    ensures
        ({
            let first = distilled(lines, budget_tokens);
            &&& text::byte_len(run_together(line_texts(first))) <= fact_budget(budget_tokens)
            &&& text::byte_len(run_together(sources(episodes, first, budget_tokens)))
                <= source_budget(budget_tokens)
            &&& fact_budget(budget_tokens) + source_budget(budget_tokens) <= budget_tokens * 4
        }),
{
    let all = ranked(lines);
    let first = distilled(lines, budget_tokens);
    let n = fitting_count(line_texts(all), fact_budget(budget_tokens));
    fitting_texts_fit(line_texts(all), fact_budget(budget_tokens));
    assert(line_texts(first) =~= line_texts(all).take(n));
    fitting_texts_fit(cited_blocks(episodes, first), source_budget(budget_tokens));
}

} // verus!
