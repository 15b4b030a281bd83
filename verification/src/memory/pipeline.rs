//! What reconciliation does, stated over the contents of the index and of
//! the history alone.
//!
//! A new record takes its identity and time from a stamp. Every function
//! here is told which stamps were drawn, one for each text or action, and
//! is a function in the mathematical sense.

use vstd::prelude::*;
use crate::embedder::Embedder;
use crate::errors::ErrorView;
use crate::events::{
    candidate_views, kind_of, ActionKind, ActionView, Candidate, CandidateView, EventType,
    EventView, HistoryView,
};
use crate::models::{scored_views, text_of, RecordView, ScoredMemory, ScoredView, StampView};
use crate::scoping::ScopeView;
use crate::store::{
    contains_id, lookup, search_result, update_result, without_id, EntryView,
};
use crate::text::{decimal, to_decimal};

verus! {

/// What a manager holds that changes: the entries of its index and the
/// lines of its history.
pub struct StateView {
    pub entries: Seq<EntryView>,
    pub log: Seq<HistoryView>,
}

/// What every record added by one call is given.
pub struct Setting {
    pub scope: ScopeView,
    pub metadata: serde_json::Value,
}

/// The record that a stamp, a text and a setting make.
pub open spec fn new_record(stamp: StampView, text: Seq<char>, setting: Setting) -> RecordView {
    RecordView {
        id: stamp.id,
        content: text,
        metadata: setting.metadata,
        created_at: stamp.created_at,
        user_id: setting.scope.user_id,
        agent_id: setting.scope.agent_id,
        run_id: setting.scope.run_id,
    }
}

/// The state after a text was added as a new memory with the given
/// embedding.
pub open spec fn after_add_with(
    state: StateView,
    stamp: StampView,
    text: Seq<char>,
    setting: Setting,
    embedding: Seq<i32>,
) -> StateView {
    StateView {
        entries: state.entries.push(
            EntryView { record: new_record(stamp, text, setting), embedding },
        ),
        log: state.log.push(
            HistoryView {
                memory_id: stamp.id,
                event: EventType::Add,
                previous: None,
                current: Some(text),
            },
        ),
    }
}

/// The state after a text was added as a new memory with its embedding.
pub open spec fn after_add<E: Embedder>(
    embedder: E,
    state: StateView,
    stamp: StampView,
    text: Seq<char>,
    setting: Setting,
) -> StateView {
    after_add_with(state, stamp, text, setting, embedder.spec_embed(text))
}

/// The event that reports the addition.
pub open spec fn add_event(stamp: StampView, text: Seq<char>) -> EventView {
    EventView { id: stamp.id, memory: text, event: EventType::Add }
}

/// The stored record with a new content.
pub open spec fn rewritten(stored: RecordView, content: Seq<char>) -> RecordView {
    RecordView { content, ..stored }
}

/// The state after the memory under `id` took a new content and the given
/// embedding.
pub open spec fn after_update_with(
    state: StateView,
    id: Seq<char>,
    text: Seq<char>,
    embedding: Seq<i32>,
) -> StateView
    recommends
        contains_id(state.entries, id),
{
    let stored = lookup(state.entries, id)->Some_0;
    StateView {
        entries: update_result(state.entries, id, Some(embedding), rewritten(stored, text)),
        log: state.log.push(
            HistoryView {
                memory_id: id,
                event: EventType::Update,
                previous: Some(stored.content),
                current: Some(text),
            },
        ),
    }
}

/// The state after the memory under `id` took a new content and the
/// embedding of that content.
pub open spec fn after_update<E: Embedder>(
    embedder: E,
    state: StateView,
    id: Seq<char>,
    text: Seq<char>,
) -> StateView
    recommends
        contains_id(state.entries, id),
{
    after_update_with(state, id, text, embedder.spec_embed(text))
}

/// The state after the memory under `id` was deleted.
pub open spec fn after_delete(state: StateView, id: Seq<char>) -> StateView
    recommends
        contains_id(state.entries, id),
{
    let stored = lookup(state.entries, id)->Some_0;
    StateView {
        entries: without_id(state.entries, id),
        log: state.log.push(
            HistoryView {
                memory_id: id,
                event: EventType::Delete,
                previous: Some(stored.content),
                current: None,
            },
        ),
    }
}

/// The state after the first `n` of the texts were added, each with the
/// stamp of its place.
pub open spec fn after_raw<E: Embedder>(
    embedder: E,
    state: StateView,
    texts: Seq<Seq<char>>,
    stamps: Seq<StampView>,
    setting: Setting,
    n: nat,
) -> StateView
    decreases n,
{
    if n == 0 {
        state
    } else {
        after_add(
            embedder,
            after_raw(embedder, state, texts, stamps, setting, (n - 1) as nat),
            stamps[n - 1],
            texts[n - 1],
            setting,
        )
    }
}

/// The events that report the addition of the first `n` of the texts.
pub open spec fn raw_events(texts: Seq<Seq<char>>, stamps: Seq<StampView>, n: nat) -> Seq<
    EventView,
> {
    Seq::new(n, |i: int| add_event(stamps[i], texts[i]))
}

/// Some candidate has this content.
pub open spec fn known(candidates: Seq<CandidateView>, content: Seq<char>) -> bool {
    exists|i: int| 0 <= i < candidates.len() && (#[trigger] candidates[i]).content == content
}

/// The candidates after the first `m` of the found memories were looked at:
/// one whose content no candidate has yet joins them, under the number of
/// its place as temporary id.
pub open spec fn extended(candidates: Seq<CandidateView>, found: Seq<ScoredView>, m: nat) -> Seq<
    CandidateView,
>
    decreases m,
{
    if m == 0 {
        candidates
    } else {
        let prior = extended(candidates, found, (m - 1) as nat);
        let memory = found[m - 1].record;
        if known(prior, memory.content) {
            prior
        } else {
            prior.push(
                CandidateView {
                    temp_id: decimal(prior.len()),
                    memory_id: memory.id,
                    content: memory.content,
                },
            )
        }
    }
}

/// How many related memories are retrieved for each fact.
pub const RELATED_LIMIT: usize = 5;

/// The candidates after the first `n` of the facts were looked up: for each
/// fact the five memories most similar to it, from the whole index.
pub open spec fn candidates_after<E: Embedder>(
    embedder: E,
    entries: Seq<EntryView>,
    facts: Seq<Seq<char>>,
    n: nat,
) -> Seq<CandidateView>
    decreases n,
{
    if n == 0 {
        Seq::empty()
    } else {
        let found = search_result(
            entries,
            embedder.spec_embed(facts[n - 1]),
            RELATED_LIMIT as nat,
            None,
        );
        extended(candidates_after(embedder, entries, facts, (n - 1) as nat), found, found.len())
    }
}

/// The place of the first candidate with this temporary id, or -1.
pub open spec fn candidate_at(candidates: Seq<CandidateView>, temp_id: Seq<char>) -> int
    decreases candidates.len(),
{
    if candidates.len() == 0 {
        -1
    } else if candidates[0].temp_id == temp_id {
        0
    } else {
        let rest = candidate_at(candidates.drop_first(), temp_id);
        if rest < 0 {
            -1
        } else {
            rest + 1
        }
    }
}

/// The id in the index of the memory that a temporary id refers to.
pub open spec fn resolved(candidates: Seq<CandidateView>, temp_id: Seq<char>) -> Option<
    Seq<char>,
> {
    if candidate_at(candidates, temp_id) >= 0 {
        Some(candidates[candidate_at(candidates, temp_id)].memory_id)
    } else {
        None
    }
}

/// What one action comes to.
pub enum Outcome {
    /// The index changed, and this event reports it.
    Event(EventView),
    /// Nothing was to be done.
    Nothing,
    /// The action failed and the batch ends.
    Failure(ErrorView),
}

/// The memory that an action with this temporary id is about: its id in
/// the index, or the `NotFound` that the action fails with. The id must
/// belong to a candidate, and the candidate's memory must still be stored.
pub open spec fn target(state: StateView, candidates: Seq<CandidateView>, temp_id: Seq<char>) -> Result<
    Seq<char>,
    ErrorView,
> {
    match resolved(candidates, temp_id) {
        None => Err(ErrorView::NotFound(temp_id)),
        Some(id) => if contains_id(state.entries, id) {
            Ok(id)
        } else {
            Err(ErrorView::NotFound(id))
        },
    }
}

/// What one action comes to in a state.
pub open spec fn outcome_of(
    state: StateView,
    action: ActionView,
    candidates: Seq<CandidateView>,
    stamp: StampView,
) -> Outcome {
    match kind_of(action.event) {
        ActionKind::Add => match action.text {
            Some(text) => Outcome::Event(add_event(stamp, text)),
            None => Outcome::Nothing,
        },
        ActionKind::Update => match (action.id, action.text) {
            (Some(temp_id), Some(text)) => match target(state, candidates, temp_id) {
                Ok(id) => Outcome::Event(
                    EventView { id, memory: text, event: EventType::Update },
                ),
                Err(e) => Outcome::Failure(e),
            },
            _ => Outcome::Nothing,
        },
        ActionKind::Delete => match action.id {
            Some(temp_id) => match target(state, candidates, temp_id) {
                Ok(id) => Outcome::Event(
                    EventView {
                        id,
                        memory: lookup(state.entries, id)->Some_0.content,
                        event: EventType::Delete,
                    },
                ),
                Err(e) => Outcome::Failure(e),
            },
            None => Outcome::Nothing,
        },
        ActionKind::Noop => Outcome::Nothing,
        ActionKind::Unknown => Outcome::Nothing,
    }
}

/// The state that one action leaves; the state it found, where the action
/// does nothing or fails.
pub open spec fn state_after<E: Embedder>(
    embedder: E,
    state: StateView,
    action: ActionView,
    candidates: Seq<CandidateView>,
    stamp: StampView,
    setting: Setting,
) -> StateView {
    match kind_of(action.event) {
        ActionKind::Add => match action.text {
            Some(text) => after_add(embedder, state, stamp, text, setting),
            None => state,
        },
        ActionKind::Update => match (action.id, action.text) {
            (Some(temp_id), Some(text)) => match target(state, candidates, temp_id) {
                Ok(id) => after_update(embedder, state, id, text),
                Err(_) => state,
            },
            _ => state,
        },
        ActionKind::Delete => match action.id {
            Some(temp_id) => match target(state, candidates, temp_id) {
                Ok(id) => after_delete(state, id),
                Err(_) => state,
            },
            None => state,
        },
        ActionKind::Noop => state,
        ActionKind::Unknown => state,
    }
}

/// The action asks the embedder for a vector in this state: an `ADD` with
/// a text, or an `UPDATE` with a text whose memory is found.
pub open spec fn embeds(state: StateView, action: ActionView, candidates: Seq<CandidateView>) -> bool {
    match kind_of(action.event) {
        ActionKind::Add => action.text is Some,
        ActionKind::Update => match (action.id, action.text) {
            (Some(temp_id), Some(_)) => target(state, candidates, temp_id) is Ok,
            _ => false,
        },
        _ => false,
    }
}

/// Where a batch of actions stands.
pub struct BatchView {
    pub state: StateView,
    /// The events so far, in order.
    pub events: Seq<EventView>,
    /// The failure that ended the batch, if one did.
    pub failure: Option<ErrorView>,
}

/// Where the batch stands after the first `n` of the actions: each is
/// applied in turn to the state that the one before left, and the first
/// failure ends the batch.
pub open spec fn run<E: Embedder>(
    embedder: E,
    state: StateView,
    actions: Seq<ActionView>,
    candidates: Seq<CandidateView>,
    stamps: Seq<StampView>,
    setting: Setting,
    n: nat,
) -> BatchView
    decreases n,
{
    if n == 0 {
        BatchView { state, events: Seq::empty(), failure: None }
    } else {
        let before = run(embedder, state, actions, candidates, stamps, setting, (n - 1) as nat);
        if before.failure is Some {
            before
        } else {
            match outcome_of(before.state, actions[n - 1], candidates, stamps[n - 1]) {
                Outcome::Event(event) => BatchView {
                    state: state_after(
                        embedder,
                        before.state,
                        actions[n - 1],
                        candidates,
                        stamps[n - 1],
                        setting,
                    ),
                    events: before.events.push(event),
                    failure: None,
                },
                Outcome::Nothing => before,
                Outcome::Failure(e) => BatchView { failure: Some(e), ..before },
            }
        }
    }
}

/// Once a batch has failed, further actions change nothing.
pub proof fn lemma_run_stuck<E: Embedder>(
    embedder: E,
    state: StateView,
    actions: Seq<ActionView>,
    candidates: Seq<CandidateView>,
    stamps: Seq<StampView>,
    setting: Setting,
    m: nat,
    n: nat,
)
    requires
        m <= n,
        run(embedder, state, actions, candidates, stamps, setting, m).failure is Some,
    ensures
        run(embedder, state, actions, candidates, stamps, setting, n) == run(
            embedder,
            state,
            actions,
            candidates,
            stamps,
            setting,
            m,
        ),
    decreases n,
{
    if m < n {
        lemma_run_stuck(embedder, state, actions, candidates, stamps, setting, m, (n - 1) as nat);
    }
}

/// An action that asks for nothing: a `NOOP`, or a tag outside the four.
pub open spec fn is_idle(action: ActionView) -> bool {
    kind_of(action.event) is Noop || kind_of(action.event) is Unknown
}

/// A batch of idle actions changes nothing, reports nothing and does not
/// fail.
pub proof fn lemma_idle_batch<E: Embedder>(
    embedder: E,
    state: StateView,
    actions: Seq<ActionView>,
    candidates: Seq<CandidateView>,
    stamps: Seq<StampView>,
    setting: Setting,
    n: nat,
)
    requires
        n <= actions.len(),
        forall|i: int| 0 <= i < n ==> is_idle(#[trigger] actions[i]),
    ensures
        run(embedder, state, actions, candidates, stamps, setting, n) == (BatchView {
            state,
            events: Seq::empty(),
            failure: None,
        }),
        forall|i: int| 0 <= i < n ==> !embeds(state, #[trigger] actions[i], candidates),
    decreases n,
{
    if n > 0 {
        lemma_idle_batch(embedder, state, actions, candidates, stamps, setting, (n - 1) as nat);
        assert(is_idle(actions[n - 1]));
    }
}

/// A `DELETE` that the batch reaches and whose id belongs to no candidate,
/// or to a memory that is no longer stored, ends the batch with `NotFound`:
/// the batch stands as it stood before that action, whatever follows.
pub proof fn lemma_delete_of_nothing<E: Embedder>(
    embedder: E,
    state: StateView,
    actions: Seq<ActionView>,
    candidates: Seq<CandidateView>,
    stamps: Seq<StampView>,
    setting: Setting,
    at: nat,
    n: nat,
)
    requires
        at < n <= actions.len(),
        run(embedder, state, actions, candidates, stamps, setting, at).failure is None,
        kind_of(actions[at as int].event) is Delete,
        actions[at as int].id is Some,
        target(
            run(embedder, state, actions, candidates, stamps, setting, at).state,
            candidates,
            actions[at as int].id->Some_0,
        ) is Err,
    ensures
        run(embedder, state, actions, candidates, stamps, setting, n).failure is Some,
        run(embedder, state, actions, candidates, stamps, setting, n).failure->Some_0
            is NotFound,
        run(embedder, state, actions, candidates, stamps, setting, n).state == run(
            embedder,
            state,
            actions,
            candidates,
            stamps,
            setting,
            at,
        ).state,
        run(embedder, state, actions, candidates, stamps, setting, n).events == run(
            embedder,
            state,
            actions,
            candidates,
            stamps,
            setting,
            at,
        ).events,
        !embeds(
            run(embedder, state, actions, candidates, stamps, setting, at).state,
            actions[at as int],
            candidates,
        ),
{
    let next = run(embedder, state, actions, candidates, stamps, setting, at + 1);
    assert(next.failure is Some);
    lemma_run_stuck(embedder, state, actions, candidates, stamps, setting, at + 1, n);
}

/// `candidate_at` finds the first candidate with the temporary id, and -1
/// only where there is none.
pub proof fn lemma_candidate_at(candidates: Seq<CandidateView>, temp_id: Seq<char>)
    ensures
        -1 <= candidate_at(candidates, temp_id) < candidates.len(),
        candidate_at(candidates, temp_id) >= 0 ==> candidates[candidate_at(
            candidates,
            temp_id,
        )].temp_id == temp_id,
        forall|i: int|
            0 <= i < candidates.len() && (candidate_at(candidates, temp_id) < 0 || i
                < candidate_at(candidates, temp_id)) ==> (#[trigger] candidates[i]).temp_id
                != temp_id,
    decreases candidates.len(),
{
    if candidates.len() > 0 && candidates[0].temp_id != temp_id {
        let rest = candidates.drop_first();
        lemma_candidate_at(rest, temp_id);
        let at = candidate_at(candidates, temp_id);
        assert forall|i: int|
            0 <= i < candidates.len() && (at < 0 || i < at) implies (#[trigger] candidates[i]).temp_id
            != temp_id by {
            if i > 0 {
                assert(rest[i - 1] == candidates[i]);
            }
        }
        if at >= 0 {
            assert(rest[at - 1] == candidates[at]);
        }
    }
}

/// Whether some candidate has this content.
pub fn is_known(candidates: &Vec<Candidate>, content: &String) -> (found: bool)
    ensures
        found == known(candidate_views(candidates@), content@),
{
    let ghost all = candidate_views(candidates@);
    let n: usize = candidates.len();
    let mut i: usize = 0;
    while i < n
        invariant
            n == candidates@.len(),
            i <= n,
            all == candidate_views(candidates@),
            forall|j: int| 0 <= j < i ==> (#[trigger] all[j]).content != content@,
        decreases n - i,
    {
        if candidates[i].content == *content {
            assert(all[i as int].content == content@);
            return true;
        }
        i = i + 1;
    }
    false
}

/// Lets the found memories join the candidates, each one whose content no
/// candidate has yet.
pub fn extend_candidates(candidates: &mut Vec<Candidate>, found: &Vec<ScoredMemory>)
    ensures
        candidate_views(final(candidates)@) == extended(
            candidate_views(old(candidates)@),
            scored_views(found@),
            found@.len(),
        ),
{
    let ghost start = candidate_views(candidates@);
    let ghost results = scored_views(found@);
    let n: usize = found.len();
    let mut i: usize = 0;
    while i < n
        invariant
            n == found@.len(),
            i <= n,
            results == scored_views(found@),
            candidate_views(candidates@) == extended(start, results, i as nat),
        decreases n - i,
    {
        let ghost prior = candidate_views(candidates@);
        if !is_known(candidates, &found[i].record.content) {
            let candidate = Candidate {
                temp_id: to_decimal(candidates.len()),
                memory_id: found[i].record.id.clone(),
                content: found[i].record.content.clone(),
            };
            let ghost joined = candidate@;
            candidates.push(candidate);
            assert(candidate_views(candidates@) =~= prior.push(joined));
        }
        i = i + 1;
    }
}

/// The id in the index of the memory that a temporary id refers to.
pub fn resolve(candidates: &Vec<Candidate>, temp_id: &String) -> (id: Option<String>)
    ensures
        text_of(id) == resolved(candidate_views(candidates@), temp_id@),
{
    let ghost all = candidate_views(candidates@);
    let n: usize = candidates.len();
    let mut i: usize = 0;
    proof {
        lemma_candidate_at(all, temp_id@);
    }
    while i < n
        invariant
            n == candidates@.len(),
            i <= n,
            all == candidate_views(candidates@),
            forall|j: int| 0 <= j < i ==> (#[trigger] all[j]).temp_id != temp_id@,
        decreases n - i,
    {
        if candidates[i].temp_id == *temp_id {
            proof {
                lemma_candidate_at(all, temp_id@);
                assert(all[i as int].temp_id == temp_id@);
            }
            return Some(candidates[i].memory_id.clone());
        }
        i = i + 1;
    }
    proof {
        lemma_candidate_at(all, temp_id@);
        let at = candidate_at(all, temp_id@);
        if at >= 0 {
            assert(all[at].temp_id != temp_id@);
        }
    }
    None
}

} // verus!
