//! A model is asked once about each episode, and what it answered is recalled from then on.

use vstd::prelude::*;

use crate::agent;
use crate::agent::{EpisodeView, ModelView, EXTRACTION_PROMPT};
use crate::protocol::CandidateView;

verus! {

/// Episodes, each with what the model answers if it is asked about it.
pub type Turns = Seq<(EpisodeView, Option<Seq<char>>)>;

/// The extractor after episodes.
pub open spec fn after_all(turns: Turns) -> ModelView
    decreases turns.len(),
{
    if turns.len() == 0 {
        ModelView::fresh()
    } else {
        after_all(turns.drop_last()).after(turns.last().0, turns.last().1)
    }
}

/// Whether no earlier episode has the id of this one.
pub open spec fn is_first(turns: Turns, i: int) -> bool {
    forall|j: int| 0 <= j < i ==> (#[trigger] turns[j]).0.id != turns[i].0.id
}

/// What was extracted from an episode is recalled from then on, and nothing else changes.
pub proof fn extraction_is_recalled(
    seen: Seq<(Seq<char>, Seq<CandidateView>)>,
    id: Seq<char>,
    found: Seq<CandidateView>,
    other: Seq<char>,
)
    requires
        agent::recalled(seen, id) is None,
    ensures
        agent::recalled(seen.push((id, found)), other) == if other == id {
            Some(found)
        } else {
            agent::recalled(seen, other)
        },
    decreases seen.len(),
{
    let longer = seen.push((id, found));
    if seen.len() > 0 {
        if seen[0].0 != other {
            extraction_is_recalled(seen.drop_first(), id, found, other);
        }
        assert(longer.drop_first() =~= seen.drop_first().push((id, found)));
        assert(longer[0] == seen[0]);
    } else {
        assert(longer[0] == (id, found));
        reveal_with_fuel(agent::recalled, 2);
    }
}

/// No id is kept twice: each episode that was read was asked about once.
proof fn lemma_read_once(turns: Turns)
    ensures
        agent::read_once(after_all(turns).seen),
    decreases turns.len(),
{
    if turns.len() > 0 {
        let before = after_all(turns.drop_last());
        let after = after_all(turns);
        lemma_read_once(turns.drop_last());
        let episode = turns.last().0;
        agent::lemma_unread(before.seen, episode.id);
        if before.asks(episode) is Some {
            assert forall|i: int, j: int| 0 <= i < j < after.seen.len() implies (
            #[trigger] after.seen[i]).0 != (#[trigger] after.seen[j]).0 by {
                assert(after.seen[i] == before.seen[i]);
                if j < before.seen.len() {
                    assert(after.seen[j] == before.seen[j]);
                }
            }
        }
    }
}

/// The confidence stays what it was at first.
proof fn lemma_confidence(turns: Turns)
    ensures
        after_all(turns).confidence == ModelView::fresh().confidence,
    decreases turns.len(),
{
    if turns.len() > 0 {
        lemma_confidence(turns.drop_last());
    }
}

/// What is recalled of an id is what the model answered about its first episode.
proof fn lemma_first_recalled(turns: Turns, i: int)
    requires
        0 <= i < turns.len(),
        is_first(turns, i),
    ensures
        agent::recalled(after_all(turns).seen, turns[i].0.id) == Some(
            ModelView::fresh().found_in(turns[i].1),
        ),
    decreases turns.len(),
{
    let fewer = turns.drop_last();
    let before = after_all(fewer);
    let episode = turns.last().0;
    let id = turns[i].0.id;
    lemma_confidence(fewer);
    if i < fewer.len() {
        assert(is_first(fewer, i)) by {
            assert forall|j: int| 0 <= j < i implies (#[trigger] fewer[j]).0.id
                != fewer[i].0.id by {
                assert(fewer[j] == turns[j]);
            }
        }
        lemma_first_recalled(fewer, i);
        assert(fewer[i] == turns[i]);
        if before.asks(episode) is Some {
            extraction_is_recalled(
                before.seen,
                episode.id,
                before.found_in(turns.last().1),
                id,
            );
        }
    } else {
        lemma_unseen(fewer, id);
        extraction_is_recalled(before.seen, id, before.found_in(turns.last().1), id);
    }
}

/// Nothing is recalled of an id that no episode has.
proof fn lemma_unseen(turns: Turns, id: Seq<char>)
    requires
        forall|j: int| 0 <= j < turns.len() ==> (#[trigger] turns[j]).0.id != id,
    ensures
        agent::recalled(after_all(turns).seen, id) is None,
    decreases turns.len(),
{
    if turns.len() > 0 {
        let fewer = turns.drop_last();
        let before = after_all(fewer);
        assert forall|j: int| 0 <= j < fewer.len() implies (#[trigger] fewer[j]).0.id != id by {
            assert(fewer[j] == turns[j]);
        }
        lemma_unseen(fewer, id);
        assert(turns[turns.len() - 1].0.id != id);
        if before.asks(turns.last().0) is Some {
            extraction_is_recalled(
                before.seen,
                turns.last().0.id,
                before.found_in(turns.last().1),
                id,
            );
        }
    }
}

/// About the first episode with an id the model is asked, with the prompt and the text of that
/// episode, and what it answers is found.
proof fn lemma_first_asked(turns: Turns, i: int)
    requires
        0 <= i < turns.len(),
        is_first(turns, i),
    ensures
        after_all(turns.take(i)).asks(turns[i].0) == Some(EXTRACTION_PROMPT@ + turns[i].0.text),
        agent::recalled(after_all(turns.take(i + 1)).seen, turns[i].0.id) == Some(
            ModelView::fresh().found_in(turns[i].1),
        ),
{
    let before = turns.take(i);
    assert forall|j: int| 0 <= j < before.len() implies (#[trigger] before[j]).0.id
        != turns[i].0.id by {
        assert(before[j] == turns[j]);
    }
    lemma_unseen(before, turns[i].0.id);
    let upto = turns.take(i + 1);
    assert(is_first(upto, i)) by {
        assert forall|j: int| 0 <= j < i implies (#[trigger] upto[j]).0.id != upto[i].0.id by {
            assert(upto[j] == turns[j]);
        }
    }
    lemma_first_recalled(upto, i);
}

/// About a later episode with an id the model is not asked: what was found in the first is found
/// again, and nothing changes.
proof fn lemma_later_recalled(turns: Turns, i: int, k: int)
    requires
        0 <= i < k < turns.len(),
        is_first(turns, i),
        turns[k].0.id == turns[i].0.id,
    ensures
        after_all(turns.take(k)).asks(turns[k].0) is None,
        agent::recalled(after_all(turns.take(k)).seen, turns[k].0.id) == Some(
            ModelView::fresh().found_in(turns[i].1),
        ),
        after_all(turns.take(k + 1)) == after_all(turns.take(k)),
{
    let before = turns.take(k);
    assert(is_first(before, i)) by {
        assert forall|j: int| 0 <= j < i implies (#[trigger] before[j]).0.id
            != before[i].0.id by {
            assert(before[j] == turns[j]);
        }
    }
    lemma_first_recalled(before, i);
    assert(turns.take(k + 1).drop_last() =~= before);
}

/// The ids of episodes.
pub open spec fn ids(turns: Turns) -> Set<Seq<char>> {
    turns.map_values(|turn: (EpisodeView, Option<Seq<char>>)| turn.0.id).to_set()
}

/// The model is called as often as there are different ids.
proof fn lemma_calls(turns: Turns)
    ensures
        ids(turns).finite(),
        after_all(turns).calls() == ids(turns).len(),
    decreases turns.len(),
{
    let all = turns.map_values(|turn: (EpisodeView, Option<Seq<char>>)| turn.0.id);
    if turns.len() == 0 {
        assert(ids(turns) =~= Set::empty());
    } else {
        let fewer = turns.drop_last();
        let rest = fewer.map_values(|turn: (EpisodeView, Option<Seq<char>>)| turn.0.id);
        let id = turns.last().0.id;
        lemma_calls(fewer);
        assert(all =~= rest.push(id));
        assert forall|x: Seq<char>| ids(turns).contains(x) <==> ids(fewer).insert(id).contains(
            x,
        ) by {
            if rest.contains(x) {
                let j = choose|j: int| 0 <= j < rest.len() && rest[j] == x;
                assert(all[j] == x);
            }
            assert(all[rest.len() as int] == id);
            if all.contains(x) {
                let j = choose|j: int| 0 <= j < all.len() && all[j] == x;
                if j < rest.len() {
                    assert(rest[j] == x);
                }
            }
        }
        assert(ids(turns) =~= ids(fewer).insert(id));
        if ids(fewer).contains(id) {
            let i = lemma_first_of(fewer, id);
            lemma_first_recalled(fewer, i);
        } else {
            assert forall|j: int| 0 <= j < fewer.len() implies (#[trigger] fewer[j]).0.id
                != id by {
                assert(rest[j] == fewer[j].0.id);
                assert(rest.contains(rest[j]));
            }
            lemma_unseen(fewer, id);
        }
    }
}

/// An id that an episode has is that of a first one.
proof fn lemma_first_of(turns: Turns, id: Seq<char>) -> (i: int)
    requires
        ids(turns).contains(id),
    ensures
        0 <= i < turns.len(),
        turns[i].0.id == id,
        is_first(turns, i),
    decreases turns.len(),
{
    let all = turns.map_values(|turn: (EpisodeView, Option<Seq<char>>)| turn.0.id);
    let k = choose|k: int| 0 <= k < all.len() && all[k] == id;
    if is_first(turns, k) {
        k
    } else {
        let j = choose|j: int| 0 <= j < k && (#[trigger] turns[j]).0.id == turns[k].0.id;
        let fewer = turns.drop_last();
        let rest = fewer.map_values(|turn: (EpisodeView, Option<Seq<char>>)| turn.0.id);
        assert(rest[j] == id);
        assert(rest.contains(id));
        let i = lemma_first_of(fewer, id);
        assert forall|n: int| 0 <= n < i implies (#[trigger] turns[n]).0.id != turns[i].0.id by {
            assert(fewer[n] == turns[n]);
        }
        i
    }
}

/// Whatever episodes are extracted, one after the other, the model is asked once about each id: at
/// the first episode with it, with the prompt and the text of that episode, and not again. What it
/// answered then is what is found in each episode with that id, nothing where the call failed. The
/// calls are as many as the ids.
pub proof fn model_is_asked_once_about_each_id(turns: Turns, i: int, k: int)
    requires
        0 <= i <= k < turns.len(),
        is_first(turns, i),
        turns[k].0.id == turns[i].0.id,
    ensures
        after_all(turns.take(k)).asks(turns[k].0) == if k == i {
            Some(EXTRACTION_PROMPT@ + turns[i].0.text)
        } else {
            None
        },
        after_all(turns.take(k)).extracted(turns[k].0, turns[k].1) == ModelView::fresh().found_in(
            turns[i].1,
        ),
        after_all(turns.take(k + 1)) == after_all(turns.take(k)).after(turns[k].0, turns[k].1),
        agent::read_once(after_all(turns).seen),
        ids(turns).finite(),
        after_all(turns).calls() == ids(turns).len(),
{
    assert(turns.take(k + 1).drop_last() =~= turns.take(k));
    lemma_confidence(turns.take(k));
    if k == i {
        lemma_first_asked(turns, i);
    } else {
        lemma_later_recalled(turns, i, k);
    }
    lemma_read_once(turns);
    lemma_calls(turns);
}

} // verus!
