//! What the context window shows.

use vstd::prelude::*;

use crate::agent::{EpisodeView, MemoryView};
use crate::context;
use crate::context::{GradeView, LineView};
use crate::datalog::RowView;
use crate::engine::{EngineView, FactView};
use crate::news;
use crate::search;
use crate::snapshot::ValueView;
use crate::support_laws;
use crate::text;

verus! {

/// Whether one of the references of some lines is an id, in whatever place it stands.
pub open spec fn refers(lines: Seq<LineView>, id: Seq<char>) -> bool {
    exists|i: int, j: int|
        0 <= i < lines.len() && 0 <= j < lines[i].prov.len() && #[trigger] lines[i].prov[j] == id
}

/// The sources before the budget cuts them are those of the episodes to which one of the lines
/// refers, in the order of the episodes: the id in brackets, and the text as it was observed.
pub proof fn sources_are_the_episodes_referred_to(
    episodes: Seq<EpisodeView>,
    lines: Seq<LineView>,
)
    ensures
        context::cited_blocks(episodes, lines) == episodes.filter(
            |episode: EpisodeView| refers(lines, episode.id),
        ).map_values(
            |episode: EpisodeView| "["@ + episode.id + "] "@ + episode.text + "\n"@,
        ),
    decreases episodes.len(),
{
    let told = |episode: EpisodeView| "["@ + episode.id + "] "@ + episode.text + "\n"@;
    let cited = |episode: EpisodeView| refers(lines, episode.id);
    reveal(Seq::filter);
    if episodes.len() > 0 {
        let fewer = episodes.drop_last();
        let last = episodes.last();
        sources_are_the_episodes_referred_to(fewer, lines);
        if context::cites(lines, last.id) {
            let i = choose|i: int|
                0 <= i < lines.len() && (#[trigger] lines[i]).prov.contains(last.id);
            let j = choose|j: int| 0 <= j < lines[i].prov.len() && lines[i].prov[j] == last.id;
            assert(lines[i].prov[j] == last.id);
        }
        if refers(lines, last.id) {
            let (i, j) = choose|i: int, j: int|
                0 <= i < lines.len() && 0 <= j < lines[i].prov.len() && #[trigger] lines[i].prov[j]
                    == last.id;
            assert(lines[i].prov.contains(last.id));
        }
        assert(context::cites(lines, last.id) == cited(last));
        assert(context::cited_blocks(episodes, lines) =~= episodes.filter(cited).map_values(told));
    } else {
        assert(context::cited_blocks(episodes, lines) =~= episodes.filter(cited).map_values(told));
    }
}

/// The line of a fact: subject, relation and object, its confidence and all its references, which
/// are those that the line refers to.
pub proof fn line_shows_its_fact(fact: FactView, grade: GradeView)
    ensures
        context::fact_line(fact, grade).line == search::shown(fact.key[0]) + " --"@
            + search::shown(fact.key[1]) + "--> "@ + search::shown(fact.key[2]) + "   [conf "@
            + grade.shown + ", prov "@ + text::join(fact.ann.prov, ","@) + "]\n"@,
        context::fact_line(fact, grade).rank == grade.rank,
        context::fact_line(fact, grade).prov == fact.ann.prov,
{
}

/// Each fact has its line, with the grade in its place.
pub proof fn each_fact_has_its_line(facts: Seq<FactView>, grades: Seq<GradeView>, i: int)
    requires
        0 <= i < facts.len(),
    ensures
        context::fact_lines(facts, grades).len() == facts.len(),
        context::fact_lines(facts, grades)[i] == context::fact_line(facts[i], grades[i]),
{
}

/// Texts that run together are one text, with nothing between them.
pub proof fn texts_run_together_in_order(texts: Seq<Seq<char>>)
    ensures
        context::run_together(texts) == texts.flatten(),
    decreases texts.len(),
{
    texts.lemma_flatten_and_flatten_alt_are_equivalent();
    if texts.len() > 0 {
        let fewer = texts.drop_last();
        fewer.lemma_flatten_and_flatten_alt_are_equivalent();
        texts_run_together_in_order(fewer);
    } else {
        assert(context::run_together(texts) =~= texts.flatten());
    }
}

/// As many texts are taken as fit: those that are taken do, and with the next one they do not.
pub proof fn as_much_is_taken_as_fits(texts: Seq<Seq<char>>, bytes: int)
    requires
        0 <= bytes,
    ensures
        ({
            let n = context::fitting_count(texts, bytes);
            &&& 0 <= n <= texts.len()
            &&& text::byte_len(texts.take(n).flatten()) <= bytes
            &&& n < texts.len() ==> text::byte_len(texts.take(n + 1).flatten()) > bytes
        }),
    decreases texts.len(),
{
    let n = context::fitting_count(texts, bytes);
    context::fitting_texts_fit(texts, bytes);
    texts_run_together_in_order(texts.take(n));
    if texts.len() > 0 {
        let rest = texts.drop_first();
        let next = texts.take(n + 1);
        if text::byte_len(texts[0]) <= bytes {
            context::fitting_texts_fit(rest, bytes - text::byte_len(texts[0]));
        }
        if n < texts.len() {
            assert(next.first() == texts[0]);
            assert(next.drop_first() =~= rest.take(n));
            text::lemma_byte_len_add(texts[0], rest.take(n).flatten());
            if n > 0 {
                as_much_is_taken_as_fits(rest, bytes - text::byte_len(texts[0]));
                assert(context::fitting_count(rest, bytes - text::byte_len(texts[0])) == n - 1);
                assert(text::byte_len(rest.take(n).flatten()) > bytes - text::byte_len(texts[0]));
            }
            assert(next.flatten() == texts[0] + rest.take(n).flatten());
        }
    }
}

proof fn lemma_ranked_in(lines: Seq<LineView>, line: LineView, rank: int)
    ensures
        ({
            let same = |other: LineView| other.rank == rank;
            context::ranked_in(lines, line).filter(same) == if line.rank == rank {
                lines.filter(same).push(line)
            } else {
                lines.filter(same)
            }
        }),
    decreases lines.len(),
{
    let same = |other: LineView| other.rank == rank;
    reveal(Seq::filter);
    let all = context::ranked_in(lines, line);
    if lines.len() == 0 || lines.last().rank >= line.rank {
        assert(all.drop_last() =~= lines);
        assert(all.last() == line);
    } else {
        let fewer = lines.drop_last();
        lemma_ranked_in(fewer, line, rank);
        assert(all.drop_last() =~= context::ranked_in(fewer, line));
        assert(all.last() == lines.last());
    }
}

/// Lines of one rank stay in the order in which they came.
pub proof fn lines_of_one_rank_keep_their_order(lines: Seq<LineView>, rank: int)
    ensures
        ({
            let same = |line: LineView| line.rank == rank;
            context::ranked(lines).filter(same) == lines.filter(same)
        }),
    decreases lines.len(),
{
    let same = |line: LineView| line.rank == rank;
    reveal(Seq::filter);
    if lines.len() > 0 {
        let fewer = lines.drop_last();
        lines_of_one_rank_keep_their_order(fewer, rank);
        lemma_ranked_in(context::ranked(fewer), lines.last(), rank);
    } else {
        assert(context::ranked(lines) =~= lines);
    }
}

/// A window shows what is new, where there is something; the lines of the highest rank that fit into
/// three fifths of four bytes for each token; and the episodes to which these lines refer, as many as
/// fit into two fifths.
pub proof fn window_has_its_parts(
    lines: Seq<LineView>,
    episodes: Seq<EpisodeView>,
    budget_tokens: int,
    news: Seq<Seq<char>>,
)
    requires
        0 <= budget_tokens,
    ensures
        ({
            let all = context::ranked(lines);
            let n = context::fitting_count(
                all.map_values(|line: LineView| line.line),
                budget_tokens * 24 / 10,
            );
            let first = all.take(n);
            let blocks = context::cited_blocks(episodes, first);
            let m = context::fitting_count(blocks, budget_tokens * 16 / 10);
            let fresh = if news.len() == 0 {
                seq![]
            } else {
                "== new in memory since last turn ==\n"@ + news.map_values(
                    |line: Seq<char>| line + seq!['\n'],
                ).flatten() + seq!['\n']
            };
            context::context_text(lines, episodes, budget_tokens, news) == fresh
                + "== memory (distilled, highest confidence first) ==\n"@ + first.map_values(
                |line: LineView| line.line,
            ).flatten() + "\n== source episodes (verbatim, from provenance) ==\n"@ + blocks.take(
                m,
            ).flatten()
        }),
{
    let first = context::distilled(lines, budget_tokens);
    texts_run_together_in_order(context::line_texts(first));
    texts_run_together_in_order(context::sources(episodes, first, budget_tokens));
    reveal_strlit("\n");
    assert("\n"@ =~= seq!['\n']);
    let fed = news.map_values(|line: Seq<char>| line + "\n"@);
    texts_run_together_in_order(fed);
    assert(fed =~= news.map_values(|line: Seq<char>| line + seq!['\n']));
    assert(budget_tokens * 4 * 6 == budget_tokens * 24);
    assert(budget_tokens * 4 * 4 == budget_tokens * 16);
    assert(context::line_texts(context::ranked(lines)) =~= context::ranked(lines).map_values(
        |line: LineView| line.line,
    ));
    assert(context::line_texts(first) =~= first.map_values(|line: LineView| line.line));
}

/// What is relevant to entities is what is current of each, one entity after the other.
pub proof fn entities_are_looked_up_in_order(
    store: EngineView,
    entities: Seq<Seq<char>>,
    entity: Seq<char>,
)
    requires
        store.names.contains(entity),
    ensures
        context::relevant(store, seq![]).len() == 0,
        context::relevant(store, entities.push(entity)) == context::relevant(store, entities)
            + store.rows("current"@, seq![Some(ValueView::Symbol(entity)), None, None]),
{
    assert(entities.push(entity).drop_last() =~= entities);
}

/// What is new is each fact that was not there at the last turn, in the order of the store: its
/// relation, and its values in brackets.
pub proof fn news_are_the_facts_that_were_not_there(facts: Seq<FactView>, turn: Seq<RowView>)
    ensures
        news::news(facts, turn) == facts.filter(
            |fact: FactView| !turn.contains(RowView { pred: fact.pred, key: fact.key }),
        ).map_values(|fact: FactView| support_laws::told(fact.pred, fact.key)),
{
    let new = |fact: FactView| !turn.contains(RowView { pred: fact.pred, key: fact.key });
    lemma_created(facts, turn);
    let found = news::created(facts, turn);
    assert forall|i: int| 0 <= i < found.len() implies #[trigger] news::news(facts, turn)[i]
        == support_laws::told(found[i].pred, found[i].key) by {
        support_laws::lemma_told(found[i].pred, found[i].key);
    }
    assert(news::news(facts, turn) =~= found.map_values(
        |fact: FactView| support_laws::told(fact.pred, fact.key),
    ));
}

proof fn lemma_created(facts: Seq<FactView>, turn: Seq<RowView>)
    ensures
        news::created(facts, turn) == facts.filter(
            |fact: FactView| !turn.contains(RowView { pred: fact.pred, key: fact.key }),
        ),
    decreases facts.len(),
{
    reveal(Seq::filter);
    if facts.len() > 0 {
        lemma_created(facts.drop_last(), turn);
    }
}

/// A memory tells the first twenty of what is new.
pub proof fn first_news_are_told(memory: MemoryView)
    ensures
        ({
            let all = news::news(memory.engine.facts, memory.turn);
            memory.news() == if all.len() <= 20 {
                all
            } else {
                all.take(20)
            }
        }),
{
}

} // verus!
