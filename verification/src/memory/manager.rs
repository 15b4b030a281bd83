//! The memory manager: search, retrieval, update, deletion and history over
//! any embedder and any index.

use vstd::prelude::*;
use vstd::string::StringExecFns;
use crate::config::MemoryConfig;
use crate::embedder::{Embedder, HashEmbedder};
use crate::errors::{ErrorView, MemoryError};
use crate::events::{
    action_kind, action_views, candidate_views, event_views, history_views, kind_of, ActionKind,
    ActionView, AddResult, Candidate, CandidateView, EventType, EventView, HistoryEntry,
    HistoryView, MemoryAction, MemoryEvent, SearchResult,
};
use crate::memory::steps::{AddAction, AddEvent, AddState, AddStep};
use crate::messages::{
    conversation, spoken, spoken_texts, transcript, write_transcript, MessageView, Messages,
};
use crate::models::{
    are_drawn, copy_text, filters_match, passes, record_views, scored_views, stamp_views,
    Condition,
    ConditionView, FilterLogic, Filters, FiltersView, MemoryRecord, RecordView, ScoredView, Stamp,
    StampView,
};
use crate::memory::pipeline::{
    add_event, after_add, after_add_with, after_delete, after_raw, after_update, after_update_with,
    candidates_after, embeds, extend_candidates, extended, is_idle, lemma_delete_of_nothing,
    lemma_idle_batch, lemma_run_stuck, raw_events, resolve, rewritten, run, target, Setting,
    StateView, RELATED_LIMIT,
};
use crate::options::{AddOptions, GetAllOptions, ResetOptions, SearchOptions};
use crate::text::string_views;
use crate::ranking::{is_ranked, prefix};
use crate::scoping::{
    admitted, in_scope, is_unscoped, scope_of, scoped_to, select_records, select_scored, ScopeView,
};
use crate::store::{
    contains_id, first_mismatch, lemma_filter_step, lemma_position_of, lemma_scored_length,
    lemma_search_result_ranked, list_result, lookup, search_result, without_matching, EntryView,
    InMemoryStore, VectorStore,
};

verus! {

/// An empty JSON object, built by `serde_json::Map::new` and wrapped by
/// `serde_json::Value::Object`. Nothing is claimed of the value.
#[verifier::external_body]
fn empty_object() -> (value: serde_json::Value) {
    serde_json::Value::Object(serde_json::Map::new())
}

/// The conditions that ask for the attributes of a scope, one for each
/// attribute that it names.
pub open spec fn scope_conditions(scope: ScopeView) -> Seq<ConditionView> {
    (match scope.user_id {
        Some(id) => seq![ConditionView::UserId(id)],
        None => Seq::empty(),
    }) + (match scope.agent_id {
        Some(id) => seq![ConditionView::AgentId(id)],
        None => Seq::empty(),
    }) + (match scope.run_id {
        Some(id) => seq![ConditionView::RunId(id)],
        None => Seq::empty(),
    })
}

/// The filter that lets pass what is in the scope: none where the scope
/// names no attribute.
pub open spec fn scope_filter(scope: ScopeView) -> Option<FiltersView> {
    if is_unscoped(scope) {
        None
    } else {
        Some(FiltersView { conditions: scope_conditions(scope), logic: FilterLogic::And })
    }
}

/// The filter of a scope lets a record pass exactly when the record is in
/// the scope.
pub proof fn lemma_scope_filter(scope: ScopeView, record: RecordView)
    ensures
        passes(scope_filter(scope), record) == in_scope(scope, record),
{
    let conditions = scope_conditions(scope);
    if !is_unscoped(scope) {
        let filters = FiltersView { conditions, logic: FilterLogic::And };
        let users: Seq<ConditionView> = match scope.user_id {
            Some(id) => seq![ConditionView::UserId(id)],
            None => Seq::empty(),
        };
        let agents: Seq<ConditionView> = match scope.agent_id {
            Some(id) => seq![ConditionView::AgentId(id)],
            None => Seq::empty(),
        };
        let runs: Seq<ConditionView> = match scope.run_id {
            Some(id) => seq![ConditionView::RunId(id)],
            None => Seq::empty(),
        };
        assert(conditions == users + agents + runs);
        if in_scope(scope, record) {
            assert(filters_match(filters, record));
        } else {
            if scope.user_id is Some && record.user_id != scope.user_id {
                assert(conditions[0] == ConditionView::UserId(scope.user_id->Some_0));
            } else if scope.agent_id is Some && record.agent_id != scope.agent_id {
                assert(conditions[users.len() as int] == ConditionView::AgentId(
                    scope.agent_id->Some_0,
                ));
            } else {
                assert(conditions[(users.len() + agents.len()) as int] == ConditionView::RunId(
                    scope.run_id->Some_0,
                ));
            }
            assert(!filters_match(filters, record));
        }
    }
}

/// The filter that lets pass what is in the scope.
pub fn filter_for(
    user_id: &Option<String>,
    agent_id: &Option<String>,
    run_id: &Option<String>,
) -> (filter: Option<Filters>)
    ensures
        (match filter {
            Some(filters) => Some(filters@),
            None => None,
        }) == scope_filter(scope_of(*user_id, *agent_id, *run_id)),
{
    let mut conditions: Vec<Condition> = Vec::new();
    match user_id {
        Some(id) => {
            conditions.push(Condition::UserId(id.clone()));
        },
        None => {},
    }
    match agent_id {
        Some(id) => {
            conditions.push(Condition::AgentId(id.clone()));
        },
        None => {},
    }
    match run_id {
        Some(id) => {
            conditions.push(Condition::RunId(id.clone()));
        },
        None => {},
    }
    if conditions.len() == 0 {
        None
    } else {
        let filters = Filters { conditions, logic: FilterLogic::And };
        assert(filters@.conditions =~= scope_conditions(scope_of(*user_id, *agent_id, *run_id)));
        Some(filters)
    }
}

/// The history lines about one memory.
pub open spec fn about(id: Seq<char>) -> spec_fn(HistoryView) -> bool {
    |line: HistoryView| line.memory_id == id
}

/// What `add` says where no scoping is given.
pub open spec fn missing_scope() -> Seq<char> {
    "At least one of user_id, agent_id, or run_id is required"@
}

/// What `resume` says of an event that the state does not await.
pub open spec fn unexpected_event() -> Seq<char> {
    "The event is not the one that the state awaits"@
}

/// The content of what a batch returns.
pub open spec fn events_outcome(result: Result<Vec<MemoryEvent>, MemoryError>) -> Result<
    Seq<EventView>,
    ErrorView,
> {
    match result {
        Ok(events) => Ok(event_views(events@)),
        Err(e) => Err(e@),
    }
}

/// The content of what `add` returns.
pub open spec fn add_outcome(result: Result<AddResult, MemoryError>) -> Result<
    Seq<EventView>,
    ErrorView,
> {
    match result {
        Ok(added) => Ok(event_views(added.results@)),
        Err(e) => Err(e@),
    }
}

/// The main interface to the memories: an embedder, an index, the settings
/// and the history of the changes made through it.
pub struct Memory<E: Embedder, S: VectorStore> {
    embedder: E,
    vector_store: S,
    config: MemoryConfig,
    default_metadata: serde_json::Value,
    history: Vec<HistoryEntry>,
}

impl<E: Embedder, S: VectorStore> Memory<E, S> {
    /// The stored entries, in insertion order.
    pub closed spec fn entries(&self) -> Seq<EntryView> {
        self.vector_store.entries()
    }

    /// The history of the changes, oldest first.
    pub closed spec fn log(&self) -> Seq<HistoryView> {
        history_views(self.history@)
    }

    /// The embedder.
    pub closed spec fn embedder(&self) -> E {
        self.embedder
    }

    /// The settings.
    pub closed spec fn config(&self) -> MemoryConfig {
        self.config
    }

    /// The metadata of a record that is added without any.
    pub closed spec fn default_metadata(&self) -> serde_json::Value {
        self.default_metadata
    }

    /// What changes: the entries of the index and the lines of the history.
    pub open spec fn state(&self) -> StateView {
        StateView { entries: self.entries(), log: self.log() }
    }

    /// What a record added under these options is given.
    pub open spec fn setting(&self, options: &AddOptions) -> Setting {
        Setting {
            scope: options.scope(),
            metadata: match options.metadata {
                Some(value) => value,
                None => self.default_metadata(),
            },
        }
    }

    /// What adding texts as they are does, given the stamps that were
    /// drawn: every text was stored, or the embedder failed and the texts
    /// before that one stay stored.
    pub open spec fn texts_added(
        before: &Self,
        after: &Self,
        texts: Seq<Seq<char>>,
        options: &AddOptions,
        result: Result<Seq<EventView>, ErrorView>,
        stamps: Seq<StampView>,
    ) -> bool {
        &&& before.embedder().never_fails() ==> result is Ok
        &&& result is Ok ==> result->Ok_0 == raw_events(texts, stamps, texts.len())
            && after.state() == after_raw(
            before.embedder(),
            before.state(),
            texts,
            stamps,
            before.setting(options),
            texts.len(),
        )
        &&& result is Err ==> result->Err_0 is EmbeddingError && !before.embedder().never_fails()
            && exists|done: nat|
            done < texts.len() && after.state() == #[trigger] after_raw(
                before.embedder(),
                before.state(),
                texts,
                stamps,
                before.setting(options),
                done,
            )
    }

    /// What applying actions does, given the stamps that were drawn: the
    /// batch ran as far as it could. The embedder can fail only under an
    /// action that asks it for a vector; what was applied before that action
    /// stays.
    pub open spec fn actions_applied(
        before: &Self,
        after: &Self,
        actions: Seq<ActionView>,
        candidates: Seq<CandidateView>,
        options: &AddOptions,
        result: Result<Seq<EventView>, ErrorView>,
        stamps: Seq<StampView>,
    ) -> bool {
        let batch = run(
            before.embedder(),
            before.state(),
            actions,
            candidates,
            stamps,
            before.setting(options),
            actions.len(),
        );
        &&& before.embedder().never_fails() ==> (result is Ok <==> batch.failure is None)
        &&& result is Ok ==> batch.failure is None && after.state() == batch.state
            && result->Ok_0 == batch.events
        &&& result is Err ==> (batch.failure == Some(result->Err_0) && after.state()
            == batch.state) || (result->Err_0 is EmbeddingError && !before.embedder().never_fails()
            && exists|done: nat|
            done < actions.len() && Self::reached(
                before,
                after,
                actions,
                candidates,
                options,
                stamps,
                done,
            ))
    }

    /// The batch stands after its first `done` actions, none of which
    /// failed, and the next action asks the embedder for a vector.
    pub open spec fn reached(
        before: &Self,
        after: &Self,
        actions: Seq<ActionView>,
        candidates: Seq<CandidateView>,
        options: &AddOptions,
        stamps: Seq<StampView>,
        done: nat,
    ) -> bool {
        let batch = run(
            before.embedder(),
            before.state(),
            actions,
            candidates,
            stamps,
            before.setting(options),
            done,
        );
        &&& batch.failure is None
        &&& after.state() == batch.state
        &&& embeds(batch.state, actions[done as int], candidates)
    }

    /// A batch of idle actions succeeds with no event and changes nothing,
    /// whatever the embedder.
    pub proof fn lemma_idle_actions_applied(
        before: &Self,
        after: &Self,
        actions: Seq<ActionView>,
        candidates: Seq<CandidateView>,
        options: &AddOptions,
        result: Result<Seq<EventView>, ErrorView>,
        stamps: Seq<StampView>,
    )
        requires
            Self::actions_applied(before, after, actions, candidates, options, result, stamps),
            forall|i: int| 0 <= i < actions.len() ==> is_idle(#[trigger] actions[i]),
        ensures
            result == Ok::<Seq<EventView>, ErrorView>(Seq::empty()),
            after.state() == before.state(),
    {
        lemma_idle_batch(
            before.embedder(),
            before.state(),
            actions,
            candidates,
            stamps,
            before.setting(options),
            actions.len(),
        );
        if result is Err {
            if !(run(
                before.embedder(),
                before.state(),
                actions,
                candidates,
                stamps,
                before.setting(options),
                actions.len(),
            ).failure == Some(result->Err_0)) {
                let done = choose|done: nat|
                    done < actions.len() && Self::reached(
                        before,
                        after,
                        actions,
                        candidates,
                        options,
                        stamps,
                        done,
                    );
                lemma_idle_batch(
                    before.embedder(),
                    before.state(),
                    actions,
                    candidates,
                    stamps,
                    before.setting(options),
                    done,
                );
                assert(is_idle(actions[done as int]));
            }
        }
    }

    /// A `DELETE` that the batch reaches and whose id leads to nothing
    /// stored makes the batch fail, whatever the embedder; where the failure
    /// is a `NotFound`, nothing was removed or altered by that action or
    /// after it.
    pub proof fn lemma_delete_of_nothing_applied(
        before: &Self,
        after: &Self,
        actions: Seq<ActionView>,
        candidates: Seq<CandidateView>,
        options: &AddOptions,
        result: Result<Seq<EventView>, ErrorView>,
        stamps: Seq<StampView>,
        at: nat,
    )
        requires
            Self::actions_applied(before, after, actions, candidates, options, result, stamps),
            at < actions.len(),
            run(
                before.embedder(),
                before.state(),
                actions,
                candidates,
                stamps,
                before.setting(options),
                at,
            ).failure is None,
            kind_of(actions[at as int].event) is Delete,
            actions[at as int].id is Some,
            target(
                run(
                    before.embedder(),
                    before.state(),
                    actions,
                    candidates,
                    stamps,
                    before.setting(options),
                    at,
                ).state,
                candidates,
                actions[at as int].id->Some_0,
            ) is Err,
        ensures
            result is Err,
            result->Err_0 is NotFound ==> after.state() == run(
                before.embedder(),
                before.state(),
                actions,
                candidates,
                stamps,
                before.setting(options),
                at,
            ).state,
            before.embedder().never_fails() ==> result->Err_0 is NotFound,
    {
        lemma_delete_of_nothing(
            before.embedder(),
            before.state(),
            actions,
            candidates,
            stamps,
            before.setting(options),
            at,
            actions.len(),
        );
    }

    /// How `add` begins. Without scoping it fails with `InvalidInput` and
    /// does nothing. Where inference is wanted and a language model is
    /// configured, it asks for the facts of the transcript and does nothing
    /// yet. Else it stores every message that the system did not write, as
    /// it is.
    pub open spec fn add_started(
        before: &Self,
        after: &Self,
        talk: Seq<MessageView>,
        options: AddOptions,
        step: AddStep,
        stamps: Seq<StampView>,
    ) -> bool {
        if is_unscoped(options.scope()) {
            &&& after.state() == before.state()
            &&& step.state is Finished
            &&& step.action is Finish
            &&& add_outcome(step.action->Finish_0) == Err::<Seq<EventView>, ErrorView>(
                ErrorView::InvalidInput(missing_scope()),
            )
        } else if options.infer && before.config().llm is Some {
            &&& after.state() == before.state()
            &&& step.state == (AddState::AwaitingFacts { options })
            &&& step.action is ExtractFacts
            &&& step.action->transcript@ == transcript(talk)
        } else {
            &&& step.state is Finished
            &&& step.action is Finish
            &&& Self::texts_added(
                before,
                after,
                spoken(talk),
                &options,
                add_outcome(step.action->Finish_0),
                stamps,
            )
        }
    }

    /// How `add` goes on with the extracted facts. A failed extraction ends
    /// the call with its error, and no fact ends it with no event. Else the
    /// related memories are retrieved and the actions are asked for; where
    /// the retrieval fails, the call ends with that error.
    pub open spec fn facts_taken(
        memory: &Self,
        options: AddOptions,
        facts: Result<Vec<String>, MemoryError>,
        step: AddStep,
    ) -> bool {
        match facts {
            Err(e) => step.state is Finished && step.action == AddAction::Finish(Err(e)),
            Ok(list) => if list@.len() == 0 {
                &&& step.state is Finished
                &&& step.action is Finish
                &&& add_outcome(step.action->Finish_0) == Ok::<Seq<EventView>, ErrorView>(
                    Seq::empty(),
                )
            } else {
                let gap = first_mismatch(memory.entries(), memory.width(), None);
                &&& memory.embedder().never_fails() && gap is None ==> step.state
                    is AwaitingActions
                &&& match step.state {
                    AddState::AwaitingActions { options: kept, candidates } => {
                        &&& kept == options
                        &&& candidate_views(candidates@) == candidates_after(
                            memory.embedder(),
                            memory.entries(),
                            string_views(list@),
                            list@.len(),
                        )
                        &&& step.action == (AddAction::PlanActions { facts: list })
                    },
                    AddState::Finished => {
                        &&& step.action is Finish
                        &&& step.action->Finish_0 is Err
                        &&& (step.action->Finish_0->Err_0 is EmbeddingError
                            && !memory.embedder().never_fails()) || (gap is Some
                            && step.action->Finish_0->Err_0@ == (ErrorView::DimensionMismatch {
                            expected: memory.width(),
                            actual: gap->Some_0,
                        }))
                    },
                    AddState::AwaitingFacts { .. } => false,
                }
            },
        }
    }

    /// How `add` ends with the planned actions: a failed planning ends the
    /// call with its error and changes nothing; else the actions are applied.
    pub open spec fn actions_taken(
        before: &Self,
        after: &Self,
        options: AddOptions,
        candidates: Vec<Candidate>,
        actions: Result<Vec<MemoryAction>, MemoryError>,
        step: AddStep,
        stamps: Seq<StampView>,
    ) -> bool {
        &&& step.state is Finished
        &&& step.action is Finish
        &&& match actions {
            Err(e) => after.state() == before.state() && step.action == AddAction::Finish(Err(e)),
            Ok(list) => Self::actions_applied(
                before,
                after,
                action_views(list@),
                candidate_views(candidates@),
                &options,
                add_outcome(step.action->Finish_0),
                stamps,
            ),
        }
    }

    /// How `add` goes on from a state with an event; an event that the
    /// state does not await ends the call with `InvalidInput`.
    pub open spec fn resumed(
        before: &Self,
        after: &Self,
        state: AddState,
        event: AddEvent,
        step: AddStep,
        stamps: Seq<StampView>,
    ) -> bool {
        match (state, event) {
            (AddState::AwaitingFacts { options }, AddEvent::Facts(facts)) => after.state()
                == before.state() && Self::facts_taken(before, options, facts, step),
            (
                AddState::AwaitingActions { options, candidates },
                AddEvent::Actions(actions),
            ) => Self::actions_taken(before, after, options, candidates, actions, step, stamps),
            _ => {
                &&& after.state() == before.state()
                &&& step.state is Finished
                &&& step.action is Finish
                &&& add_outcome(step.action->Finish_0) == Err::<Seq<EventView>, ErrorView>(
                    ErrorView::InvalidInput(unexpected_event()),
                )
            },
        }
    }

    /// Embedder, settings and default metadata are those of `other`.
    pub open spec fn same_setup(&self, other: &Self) -> bool {
        &&& self.embedder() == other.embedder()
        &&& self.config() == other.config()
        &&& self.default_metadata() == other.default_metadata()
    }

    /// The embedding of a text.
    pub open spec fn embedding_of(&self, text: Seq<char>) -> Seq<i32> {
        self.embedder().spec_embed(text)
    }

    /// The number of components of an embedding.
    pub open spec fn width(&self) -> nat {
        self.embedder().spec_dimensions()
    }

    /// A manager over the given embedder and index, with an empty history.
    pub fn with_backends(config: MemoryConfig, embedder: E, vector_store: S) -> (memory: Self)
        ensures
            memory.entries() == vector_store.entries(),
            memory.log() == Seq::<HistoryView>::empty(),
            memory.embedder() == embedder,
            memory.config() == config,
    {
        let memory = Memory {
            embedder,
            vector_store,
            config,
            default_metadata: empty_object(),
            history: Vec::new(),
        };
        assert(memory.log() =~= Seq::<HistoryView>::empty());
        memory
    }

    /// The number of stored memories.
    pub fn count(&self) -> (n: usize)
        ensures
            n == self.entries().len(),
    {
        self.vector_store.count()
    }

    /// The number of components of an embedding.
    pub fn dimensions(&self) -> (d: usize)
        ensures
            d == self.width(),
    {
        self.embedder.dimensions()
    }

    /// What a search with this query vector returns where no length
    /// differs: the index is asked for twice the limit, over the filters of
    /// the options; of what it returns, the results below the threshold and
    /// those outside the scope are dropped, and at most the limit is kept.
    pub open spec fn found_by(&self, query: Seq<i32>, options: SearchOptions) -> Seq<ScoredView> {
        prefix(
            search_result(self.entries(), query, 2 * options.wanted(), options.filter()).filter(
                admitted(options.least(), options.scope()),
            ),
            options.wanted(),
        )
    }

    /// The memories most similar to the query vector: at most the limit,
    /// best first, none below the threshold or outside the scope. Fails
    /// with `DimensionMismatch` exactly when an embedding that passes the
    /// filters has another length than the query.
    pub fn search_by_vector(&self, query: &[i32], options: SearchOptions) -> (r: Result<
        SearchResult,
        MemoryError,
    >)
        ensures
            r is Ok <==> first_mismatch(self.entries(), query@.len(), options.filter()) is None,
            r is Ok ==> scored_views(r->Ok_0.results@) == self.found_by(query@, options),
            r is Ok ==> is_ranked(scored_views(r->Ok_0.results@)) && r->Ok_0.results@.len()
                <= options.wanted(),
            r is Err ==> r->Err_0@ == (ErrorView::DimensionMismatch {
                expected: query@.len(),
                actual: first_mismatch(self.entries(), query@.len(), options.filter())->Some_0,
            }),
    {
        let limit: usize = match options.limit {
            Some(limit) => limit,
            None => 10,
        };
        let threshold: i32 = match options.threshold {
            Some(threshold) => threshold,
            None => 0,
        };
        let fetch: usize = match limit.checked_mul(2) {
            Some(twice) => twice,
            None => usize::MAX,
        };
        // the index holds no more than `usize::MAX` entries, so the largest
        // number stands for any larger one
        let stored: usize = self.vector_store.count();
        let found = match self.vector_store.search(query, fetch, options.filters.as_ref()) {
            Ok(found) => found,
            Err(e) => {
                return Err(e);
            },
        };
        proof {
            lemma_search_result_ranked(self.entries(), query@, fetch as nat, options.filter());
            lemma_search_result_ranked(
                self.entries(),
                query@,
                2 * options.wanted(),
                options.filter(),
            );
            lemma_scored_length(self.entries(), query@, options.filter());
            assert(stored == self.entries().len());
        }
        let results = select_scored(
            &found,
            threshold,
            &options.user_id,
            &options.agent_id,
            &options.run_id,
            limit,
        );
        Ok(SearchResult { results })
    }

    /// The memories most similar to the vector that an embedder answered;
    /// hands on the embedder's error as it is.
    pub fn search_embedded(&self, embedded: Result<Vec<i32>, MemoryError>, options: SearchOptions) -> (r:
        Result<SearchResult, MemoryError>)
        ensures
            match embedded {
                Ok(query) => {
                    &&& r is Ok <==> first_mismatch(
                        self.entries(),
                        query@.len(),
                        options.filter(),
                    ) is None
                    &&& r is Ok ==> scored_views(r->Ok_0.results@) == self.found_by(
                        query@,
                        options,
                    )
                    &&& r is Ok ==> is_ranked(scored_views(r->Ok_0.results@))
                        && r->Ok_0.results@.len() <= options.wanted()
                    &&& r is Err ==> r->Err_0@ == (ErrorView::DimensionMismatch {
                        expected: query@.len(),
                        actual: first_mismatch(
                            self.entries(),
                            query@.len(),
                            options.filter(),
                        )->Some_0,
                    })
                },
                Err(e) => r == Err::<SearchResult, MemoryError>(e),
            },
    {
        match embedded {
            Ok(query) => self.search_by_vector(query.as_slice(), options),
            Err(e) => Err(e),
        }
    }

    /// The memories most similar to the query: the query is embedded and
    /// the index searched with its vector. Fails where the embedder does,
    /// and with `DimensionMismatch` where an embedding that passes the
    /// filters has another length than the embedder's vectors.
    pub fn search(&self, query: &str, options: SearchOptions) -> (r: Result<
        SearchResult,
        MemoryError,
    >)
        ensures
            self.embedder().never_fails() && first_mismatch(
                self.entries(),
                self.width(),
                options.filter(),
            ) is None ==> r is Ok,
            r is Ok ==> first_mismatch(self.entries(), self.width(), options.filter()) is None
                && scored_views(r->Ok_0.results@) == self.found_by(
                self.embedding_of(query@),
                options,
            ),
            r is Ok ==> is_ranked(scored_views(r->Ok_0.results@)) && r->Ok_0.results@.len()
                <= options.wanted(),
            r is Err ==> (r->Err_0 is EmbeddingError && !self.embedder().never_fails()) || (
            first_mismatch(self.entries(), self.width(), options.filter())
                is Some && r->Err_0@ == (ErrorView::DimensionMismatch {
                expected: self.width(),
                actual: first_mismatch(
                    self.entries(),
                    self.width(),
                    options.filter(),
                )->Some_0,
            })),
    {
        self.search_embedded(self.embedder.embed(query), options)
    }

    /// The record stored under this id, if any.
    pub fn get(&self, id: &str) -> (r: Result<Option<MemoryRecord>, MemoryError>)
        ensures
            r is Ok,
            r->Ok_0 is Some <==> lookup(self.entries(), id@) is Some,
            r->Ok_0 is Some ==> Some(r->Ok_0->Some_0@) == lookup(self.entries(), id@),
    {
        Ok(self.vector_store.get(id))
    }

    /// The records in the scope among the first `limit` of the index.
    pub fn get_all(&self, options: GetAllOptions) -> (r: Result<Vec<MemoryRecord>, MemoryError>)
        ensures
            r is Ok,
            record_views(r->Ok_0@) == list_result(self.entries(), None, options.wanted()).filter(
                scoped_to(options.scope()),
            ),
    {
        let limit: usize = match options.limit {
            Some(limit) => limit,
            None => 100,
        };
        let listed = self.vector_store.list(None, limit);
        Ok(select_records(&listed, &options.user_id, &options.agent_id, &options.run_id))
    }

    /// Writes a memory that was read under this id back with a new content
    /// and a new embedding.
    fn rewrite(&mut self, id: &str, stored: MemoryRecord, content: &str, embedding: Vec<i32>) -> (r:
        MemoryRecord)
        requires
            lookup(old(self).entries(), id@) == Some(stored@),
        ensures
            final(self).same_setup(old(self)),
            r@ == rewritten(stored@, content@),
            final(self).state() == after_update_with(
                old(self).state(),
                id@,
                content@,
                embedding@,
            ),
    {
        let mut record = stored;
        let previous: String = record.content.clone();
        record.update_content(content);
        let ghost before = self.log();
        let done = self.vector_store.update(id, Some(embedding), record.clone());
        assert(done is Ok);
        let line = HistoryEntry {
            memory_id: id.to_owned(),
            event: EventType::Update,
            previous: Some(previous),
            current: Some(content.to_owned()),
        };
        let ghost written = line@;
        self.history.push(line);
        assert(self.log() =~= before.push(written));
        record
    }

    /// Writes a memory that was read under this id back with a new content
    /// and the embedding that an embedder answered; hands on the embedder's
    /// error as it is, and changes nothing then.
    fn rewrite_embedded(
        &mut self,
        id: &str,
        stored: MemoryRecord,
        content: &str,
        embedded: Result<Vec<i32>, MemoryError>,
    ) -> (r: Result<MemoryRecord, MemoryError>)
        requires
            lookup(old(self).entries(), id@) == Some(stored@),
        ensures
            final(self).same_setup(old(self)),
            match embedded {
                Ok(embedding) => r is Ok && r->Ok_0@ == rewritten(stored@, content@) && final(self).state() == after_update_with(old(self).state(), id@, content@, embedding@),
                Err(e) => r == Err::<MemoryRecord, MemoryError>(e) && final(self).state() == old(self).state(),
            },
    {
        match embedded {
            Ok(embedding) => Ok(self.rewrite(id, stored, content, embedding)),
            Err(e) => Err(e),
        }
    }

    /// Gives the memory stored under this id a new content and the given
    /// embedding; identity, creation time, metadata and scoping stay. Fails
    /// with `NotFound`, and changes nothing, where nothing is stored under
    /// the id.
    pub fn update_with(&mut self, id: &str, content: &str, embedding: Vec<i32>) -> (r: Result<
        MemoryRecord,
        MemoryError,
    >)
        ensures
            final(self).same_setup(old(self)),
            r is Ok <==> contains_id(old(self).entries(), id@),
            r is Ok ==> r->Ok_0@ == rewritten(
                lookup(old(self).entries(), id@)->Some_0,
                content@,
            ) && final(self).state() == after_update_with(
                old(self).state(),
                id@,
                content@,
                embedding@,
            ),
            r is Err ==> final(self).state() == old(self).state() && r->Err_0@
                == ErrorView::NotFound(id@),
    {
        match self.vector_store.get(id) {
            Some(stored) => Ok(self.rewrite(id, stored, content, embedding)),
            None => Err(MemoryError::NotFound(id.to_owned())),
        }
    }

    /// Gives the memory stored under this id a new content and the
    /// embedding of that content; identity, creation time, metadata and
    /// scoping stay. Fails with `NotFound` where nothing is stored under the
    /// id, and where the embedder fails; nothing changes then.
    pub fn update(&mut self, id: &str, content: &str) -> (r: Result<MemoryRecord, MemoryError>)
        ensures
            final(self).same_setup(old(self)),
            old(self).embedder().never_fails() ==> (r is Ok <==> contains_id(
                old(self).entries(),
                id@,
            )),
            r is Ok ==> contains_id(old(self).entries(), id@) && r->Ok_0@ == rewritten(
                lookup(old(self).entries(), id@)->Some_0,
                content@,
            ) && final(self).state() == after_update(
                old(self).embedder(),
                old(self).state(),
                id@,
                content@,
            ),
            r is Err ==> final(self).state() == old(self).state(),
            r is Err ==> (!contains_id(old(self).entries(), id@) && r->Err_0@
                == ErrorView::NotFound(id@)) || (contains_id(old(self).entries(), id@)
                && r->Err_0 is EmbeddingError && !old(self).embedder().never_fails()),
    {
        let stored = match self.vector_store.get(id) {
            Some(stored) => stored,
            None => {
                return Err(MemoryError::NotFound(id.to_owned()));
            },
        };
        let embedded = self.embedder.embed(content);
        self.rewrite_embedded(id, stored, content, embedded)
    }

    /// Deletes the memory stored under this id and hands back what was
    /// stored. Fails with `NotFound`, and changes nothing, where there is
    /// none.
    pub fn remove(&mut self, id: &str) -> (r: Result<MemoryRecord, MemoryError>)
        ensures
            final(self).same_setup(old(self)),
            r is Ok <==> contains_id(old(self).entries(), id@),
            r is Ok ==> final(self).state() == after_delete(old(self).state(), id@) && Some(
                r->Ok_0@,
            ) == lookup(old(self).entries(), id@),
            r is Err ==> final(self).state() == old(self).state() && r->Err_0@
                == ErrorView::NotFound(id@),
    {
        let record = match self.vector_store.get(id) {
            Some(record) => record,
            None => {
                return Err(MemoryError::NotFound(id.to_owned()));
            },
        };
        let ghost before = self.log();
        match self.vector_store.delete(id) {
            Ok(()) => {},
            Err(e) => {
                return Err(e);
            },
        }
        let line = HistoryEntry {
            memory_id: id.to_owned(),
            event: EventType::Delete,
            previous: Some(record.content.clone()),
            current: None,
        };
        let ghost written = line@;
        self.history.push(line);
        assert(self.log() =~= before.push(written));
        Ok(record)
    }

    /// Deletes the memory stored under this id. Fails with `NotFound`, and
    /// changes nothing, where there is none.
    pub fn delete(&mut self, id: &str) -> (r: Result<(), MemoryError>)
        ensures
            final(self).same_setup(old(self)),
            r is Ok <==> contains_id(old(self).entries(), id@),
            r is Ok ==> final(self).state() == after_delete(old(self).state(), id@),
            r is Err ==> final(self).state() == old(self).state() && r->Err_0@
                == ErrorView::NotFound(id@),
    {
        match self.remove(id) {
            Ok(_) => Ok(()),
            Err(e) => Err(e),
        }
    }

    /// Stores a text as a new memory with the given stamp and embedding,
    /// the scoping of the options and their metadata, or the default
    /// metadata where they carry none.
    pub fn add_memory_with(
        &mut self,
        stamp: Stamp,
        text: &str,
        embedding: Vec<i32>,
        options: &AddOptions,
    ) -> (event: MemoryEvent)
        ensures
            final(self).same_setup(old(self)),
            event@ == add_event(stamp@, text@),
            final(self).state() == after_add_with(
                old(self).state(),
                stamp@,
                text@,
                old(self).setting(options),
                embedding@,
            ),
    {
        let metadata = match &options.metadata {
            Some(value) => value.clone(),
            None => self.default_metadata.clone(),
        };
        let record = MemoryRecord::assemble(
            stamp.id,
            stamp.created_at,
            text,
            metadata,
            copy_text(&options.user_id),
            copy_text(&options.agent_id),
            copy_text(&options.run_id),
        );
        let event = MemoryEvent {
            id: record.id.clone(),
            memory: record.content.clone(),
            event: EventType::Add,
        };
        let line = HistoryEntry {
            memory_id: record.id.clone(),
            event: EventType::Add,
            previous: None,
            current: Some(record.content.clone()),
        };
        let ghost before = self.log();
        let ghost written = line@;
        self.vector_store.insert(record, embedding);
        self.history.push(line);
        assert(self.log() =~= before.push(written));
        event
    }

    /// Stores a text as a new memory with the given stamp and the embedding
    /// that an embedder answered; hands on the embedder's error as it is,
    /// and changes nothing then.
    pub fn add_memory_embedded(
        &mut self,
        stamp: Stamp,
        text: &str,
        embedded: Result<Vec<i32>, MemoryError>,
        options: &AddOptions,
    ) -> (r: Result<MemoryEvent, MemoryError>)
        ensures
            final(self).same_setup(old(self)),
            match embedded {
                Ok(embedding) => r is Ok && r->Ok_0@ == add_event(stamp@, text@) && final(self).state() == after_add_with(
                    old(self).state(),
                    stamp@,
                    text@,
                    old(self).setting(options),
                    embedding@,
                ),
                Err(e) => r == Err::<MemoryEvent, MemoryError>(e) && final(self).state() == old(self).state(),
            },
    {
        match embedded {
            Ok(embedding) => Ok(self.add_memory_with(stamp, text, embedding, options)),
            Err(e) => Err(e),
        }
    }

    /// Stores a text as a new memory with the given stamp and the embedding
    /// of the text. Fails where the embedder does; nothing changes then.
    pub fn add_memory(&mut self, stamp: Stamp, text: &str, options: &AddOptions) -> (r: Result<
        MemoryEvent,
        MemoryError,
    >)
        ensures
            final(self).same_setup(old(self)),
            old(self).embedder().never_fails() ==> r is Ok,
            r is Ok ==> r->Ok_0@ == add_event(stamp@, text@) && final(self).state() == after_add(
                old(self).embedder(),
                old(self).state(),
                stamp@,
                text@,
                old(self).setting(options),
            ),
            r is Err ==> r->Err_0 is EmbeddingError && !old(self).embedder().never_fails(),
            r is Err ==> final(self).state() == old(self).state(),
    {
        let embedded = self.embedder.embed(text);
        self.add_memory_embedded(stamp, text, embedded, options)
    }

    /// Stores each text in turn as a new memory, the text at place `i` with
    /// the stamp at place `i`. Where the embedder fails the call ends; the
    /// texts before that one stay stored.
    fn add_texts(&mut self, texts: &Vec<String>, options: &AddOptions, stamps: &Vec<Stamp>) -> (r:
        Result<Vec<MemoryEvent>, MemoryError>)
        requires
            texts@.len() <= stamps@.len(),
        ensures
            final(self).same_setup(old(self)),
            Self::texts_added(
                old(self),
                final(self),
                string_views(texts@),
                options,
                events_outcome(r),
                stamp_views(stamps@),
            ),
    {
        let ghost start = self.state();
        let ghost embedder = self.embedder();
        let ghost setting = self.setting(options);
        let ghost contents = string_views(texts@);
        let ghost marks = stamp_views(stamps@);
        let mut events: Vec<MemoryEvent> = Vec::new();
        let n: usize = texts.len();
        let mut i: usize = 0;
        assert(event_views(events@) =~= raw_events(contents, marks, 0));
        while i < n
            invariant
                n == texts@.len(),
                n <= stamps@.len(),
                i <= n,
                contents == string_views(texts@),
                marks == stamp_views(stamps@),
                self.same_setup(old(self)),
                embedder == old(self).embedder(),
                setting == old(self).setting(options),
                start == old(self).state(),
                self.state() == after_raw(embedder, start, contents, marks, setting, i as nat),
                event_views(events@) == raw_events(contents, marks, i as nat),
            decreases n - i,
        {
            let ghost before = event_views(events@);
            match self.add_memory(stamps[i].clone(), texts[i].as_str(), options) {
                Ok(event) => {
                    let ghost reported = event@;
                    events.push(event);
                    assert(event_views(events@) =~= before.push(reported));
                    assert(raw_events(contents, marks, (i + 1) as nat) =~= raw_events(
                        contents,
                        marks,
                        i as nat,
                    ).push(add_event(marks[i as int], contents[i as int])));
                },
                Err(e) => {
                    assert(self.state() == after_raw(
                        embedder,
                        start,
                        contents,
                        marks,
                        setting,
                        i as nat,
                    ));
                    return Err(e);
                },
            }
            i = i + 1;
        }
        Ok(events)
    }

    /// Lets the five memories most similar to the vector that an embedder
    /// answered for a fact join the candidates; hands on the embedder's
    /// error as it is, and leaves the candidates as they are on any error.
    pub fn relate(&self, candidates: &mut Vec<Candidate>, embedded: Result<Vec<i32>, MemoryError>) -> (r:
        Result<(), MemoryError>)
        ensures
            match embedded {
                Ok(query) => {
                    &&& r is Ok <==> first_mismatch(self.entries(), query@.len(), None) is None
                    &&& r is Ok ==> candidate_views(final(candidates)@) == extended(
                        candidate_views(old(candidates)@),
                        search_result(self.entries(), query@, RELATED_LIMIT as nat, None),
                        search_result(self.entries(), query@, RELATED_LIMIT as nat, None).len(),
                    )
                    &&& r is Err ==> final(candidates)@ == old(candidates)@ && r->Err_0@ == (
                    ErrorView::DimensionMismatch {
                        expected: query@.len(),
                        actual: first_mismatch(self.entries(), query@.len(), None)->Some_0,
                    })
                },
                Err(e) => r == Err::<(), MemoryError>(e) && final(candidates)@ == old(candidates)@,
            },
    {
        match embedded {
            Ok(query) => match self.vector_store.search(query.as_slice(), RELATED_LIMIT, None) {
                Ok(found) => {
                    extend_candidates(candidates, &found);
                    Ok(())
                },
                Err(e) => Err(e),
            },
            Err(e) => Err(e),
        }
    }

    /// The existing memories that relate to the facts: for each fact in
    /// turn the five memories of the whole index most similar to it, each
    /// content once. Fails where the embedder does, and with
    /// `DimensionMismatch` where a stored embedding has another length than
    /// the embedder's vectors.
    pub fn related_memories(&self, facts: &Vec<String>) -> (r: Result<Vec<Candidate>, MemoryError>)
        ensures
            facts@.len() == 0 ==> r is Ok,
            self.embedder().never_fails() && first_mismatch(self.entries(), self.width(), None)
                is None ==> r is Ok,
            r is Ok ==> candidate_views(r->Ok_0@) == candidates_after(
                self.embedder(),
                self.entries(),
                string_views(facts@),
                facts@.len(),
            ),
            r is Err ==> (r->Err_0 is EmbeddingError && !self.embedder().never_fails()) || (
            first_mismatch(self.entries(), self.width(), None) is Some && r->Err_0@ == (
            ErrorView::DimensionMismatch {
                expected: self.width(),
                actual: first_mismatch(self.entries(), self.width(), None)->Some_0,
            })),
    {
        let ghost texts = string_views(facts@);
        let mut candidates: Vec<Candidate> = Vec::new();
        let n: usize = facts.len();
        let mut i: usize = 0;
        assert(candidate_views(candidates@) =~= Seq::<CandidateView>::empty());
        while i < n
            invariant
                n == facts@.len(),
                i <= n,
                texts == string_views(facts@),
                candidate_views(candidates@) == candidates_after(
                    self.embedder(),
                    self.entries(),
                    texts,
                    i as nat,
                ),
            decreases n - i,
        {
            let embedded = self.embedder.embed(facts[i].as_str());
            match self.relate(&mut candidates, embedded) {
                Ok(()) => {},
                Err(e) => {
                    return Err(e);
                },
            }
            i = i + 1;
        }
        Ok(candidates)
    }

    /// Applies the actions in turn, the action at place `i` with the stamp
    /// at place `i`. The first failure ends the batch; what was applied
    /// before it stays.
    fn apply_stamped(
        &mut self,
        actions: &Vec<MemoryAction>,
        candidates: &Vec<Candidate>,
        options: &AddOptions,
        stamps: &Vec<Stamp>,
    ) -> (r: Result<Vec<MemoryEvent>, MemoryError>)
        requires
            actions@.len() <= stamps@.len(),
        ensures
            final(self).same_setup(old(self)),
            Self::actions_applied(
                old(self),
                final(self),
                action_views(actions@),
                candidate_views(candidates@),
                options,
                events_outcome(r),
                stamp_views(stamps@),
            ),
    {
        let ghost start = self.state();
        let ghost embedder = self.embedder();
        let ghost setting = self.setting(options);
        let ghost plan = action_views(actions@);
        let ghost shown = candidate_views(candidates@);
        let ghost marks = stamp_views(stamps@);
        let mut events: Vec<MemoryEvent> = Vec::new();
        let n: usize = actions.len();
        let mut i: usize = 0;
        assert(event_views(events@) =~= Seq::<EventView>::empty());
        while i < n
            invariant
                n == actions@.len(),
                n <= stamps@.len(),
                i <= n,
                plan == action_views(actions@),
                shown == candidate_views(candidates@),
                marks == stamp_views(stamps@),
                self.same_setup(old(self)),
                embedder == old(self).embedder(),
                setting == old(self).setting(options),
                start == old(self).state(),
                run(embedder, start, plan, shown, marks, setting, i as nat).failure is None,
                self.state() == run(embedder, start, plan, shown, marks, setting, i as nat).state,
                event_views(events@) == run(
                    embedder,
                    start,
                    plan,
                    shown,
                    marks,
                    setting,
                    i as nat,
                ).events,
            decreases n - i,
        {
            let ghost before = event_views(events@);
            let ghost current = self.state();
            let action = &actions[i];
            assert(plan[i as int] == action@);
            let step: Result<Option<MemoryEvent>, MemoryError> = match action_kind(
                action.event.as_str(),
            ) {
                ActionKind::Add => match &action.text {
                    Some(text) => match self.add_memory(stamps[i].clone(), text.as_str(), options) {
                        Ok(event) => Ok(Some(event)),
                        Err(e) => {
                            assert(Self::reached(
                                old(self),
                                self,
                                plan,
                                shown,
                                options,
                                marks,
                                i as nat,
                            ));
                            return Err(e);
                        },
                    },
                    None => Ok(None),
                },
                ActionKind::Update => match (&action.id, &action.text) {
                    (Some(temp_id), Some(text)) => match resolve(candidates, temp_id) {
                        None => Err(MemoryError::NotFound(temp_id.clone())),
                        Some(id) => match self.update(id.as_str(), text.as_str()) {
                            Ok(_) => Ok(
                                Some(
                                    MemoryEvent {
                                        id,
                                        memory: text.clone(),
                                        event: EventType::Update,
                                    },
                                ),
                            ),
                            Err(MemoryError::NotFound(missing)) => Err(
                                MemoryError::NotFound(missing),
                            ),
                            Err(e) => {
                                assert(Self::reached(
                                    old(self),
                                    self,
                                    plan,
                                    shown,
                                    options,
                                    marks,
                                    i as nat,
                                ));
                                return Err(e);
                            },
                        },
                    },
                    _ => Ok(None),
                },
                ActionKind::Delete => match &action.id {
                    Some(temp_id) => match resolve(candidates, temp_id) {
                        None => Err(MemoryError::NotFound(temp_id.clone())),
                        Some(id) => match self.remove(id.as_str()) {
                            Ok(record) => Ok(
                                Some(
                                    MemoryEvent {
                                        id,
                                        memory: record.content,
                                        event: EventType::Delete,
                                    },
                                ),
                            ),
                            Err(e) => Err(e),
                        },
                    },
                    None => Ok(None),
                },
                ActionKind::Noop => Ok(None),
                ActionKind::Unknown => Ok(None),
            };
            match step {
                Ok(Some(event)) => {
                    let ghost reported = event@;
                    events.push(event);
                    assert(event_views(events@) =~= before.push(reported));
                },
                Ok(None) => {},
                Err(e) => {
                    proof {
                        lemma_run_stuck(
                            embedder,
                            start,
                            plan,
                            shown,
                            marks,
                            setting,
                            (i + 1) as nat,
                            n as nat,
                        );
                    }
                    return Err(e);
                },
            }
            i = i + 1;
        }
        Ok(events)
    }

    /// Applies the planned actions in turn: an `ADD` stores its text as a
    /// new memory, an `UPDATE` gives the memory that its temporary id refers
    /// to a new content, a `DELETE` removes that memory, and anything else
    /// is passed over. An `UPDATE` or `DELETE` whose id belongs to no
    /// candidate, or whose memory is no longer stored, fails with
    /// `NotFound`. The first failure ends the batch; what was applied before
    /// it stays.
    pub fn apply_actions(
        &mut self,
        actions: &Vec<MemoryAction>,
        candidates: &Vec<Candidate>,
        options: &AddOptions,
    ) -> (r: Result<Vec<MemoryEvent>, MemoryError>)
        ensures
            final(self).same_setup(old(self)),
            exists|stamps: Seq<StampView>|
                are_drawn(stamps) && Self::actions_applied(
                    old(self),
                    final(self),
                    action_views(actions@),
                    candidate_views(candidates@),
                    options,
                    events_outcome(r),
                    stamps,
                ),
    {
        let stamps = Stamp::draw_many(actions.len());
        self.apply_stamped(actions, candidates, options, &stamps)
    }

    /// Begins to add memories from the messages.
    ///
    /// Without scoping the call fails with `InvalidInput` and does nothing.
    /// Where inference is wanted and a language model is configured, the
    /// caller is asked for the facts of the transcript. Else every message
    /// that the system did not write is stored as it is, and the call ends
    /// with one `Add` event for each.
    pub fn add(&mut self, messages: Messages, options: AddOptions) -> (step: AddStep)
        ensures
            final(self).same_setup(old(self)),
            exists|stamps: Seq<StampView>|
                are_drawn(stamps) && Self::add_started(
                    old(self),
                    final(self),
                    conversation(messages),
                    options,
                    step,
                    stamps,
                ),
    {
        let ghost talk = conversation(messages);
        if !options.is_scoped() {
            let step = AddStep {
                state: AddState::Finished,
                action: AddAction::Finish(
                    Err(
                        MemoryError::InvalidInput(
                            String::from_str(
                                "At least one of user_id, agent_id, or run_id is required",
                            ),
                        ),
                    ),
                ),
            };
            assert(are_drawn(Seq::<StampView>::empty()));
            assert(Self::add_started(old(self), self, talk, options, step, Seq::<StampView>::empty()));
            return step;
        }
        let list = messages.into_messages();
        if options.infer && self.config.llm.is_some() {
            let step = AddStep {
                action: AddAction::ExtractFacts { transcript: write_transcript(&list) },
                state: AddState::AwaitingFacts { options },
            };
            assert(are_drawn(Seq::<StampView>::empty()));
            assert(Self::add_started(old(self), self, talk, options, step, Seq::<StampView>::empty()));
            return step;
        }
        let texts = spoken_texts(&list);
        let stamps = Stamp::draw_many(texts.len());
        let result = match self.add_texts(&texts, &options, &stamps) {
            Ok(results) => Ok(AddResult { results }),
            Err(e) => Err(e),
        };
        let step = AddStep { state: AddState::Finished, action: AddAction::Finish(result) };
        assert(Self::add_started(old(self), self, talk, options, step, stamp_views(stamps@)));
        step
    }

    /// Goes on with the facts that were extracted, or with the failure of
    /// the extraction. Nothing is stored or removed in this step.
    pub fn facts_extracted(&self, options: AddOptions, facts: Result<Vec<String>, MemoryError>) -> (step:
        AddStep)
        ensures
            Self::facts_taken(self, options, facts, step),
    {
        match facts {
            Err(e) => AddStep { state: AddState::Finished, action: AddAction::Finish(Err(e)) },
            Ok(list) => {
                if list.len() == 0 {
                    let results: Vec<MemoryEvent> = Vec::new();
                    assert(event_views(results@) =~= Seq::<EventView>::empty());
                    AddStep {
                        state: AddState::Finished,
                        action: AddAction::Finish(Ok(AddResult { results })),
                    }
                } else {
                    match self.related_memories(&list) {
                        Ok(candidates) => AddStep {
                            state: AddState::AwaitingActions { options, candidates },
                            action: AddAction::PlanActions { facts: list },
                        },
                        Err(e) => AddStep {
                            state: AddState::Finished,
                            action: AddAction::Finish(Err(e)),
                        },
                    }
                }
            },
        }
    }

    /// Ends the call with the actions that were planned, or with the
    /// failure of the planning.
    pub fn actions_planned(
        &mut self,
        options: AddOptions,
        candidates: Vec<Candidate>,
        actions: Result<Vec<MemoryAction>, MemoryError>,
    ) -> (step: AddStep)
        ensures
            final(self).same_setup(old(self)),
            exists|stamps: Seq<StampView>|
                are_drawn(stamps) && Self::actions_taken(
                    old(self),
                    final(self),
                    options,
                    candidates,
                    actions,
                    step,
                    stamps,
                ),
    {
        match actions {
            Err(e) => {
                let step = AddStep { state: AddState::Finished, action: AddAction::Finish(Err(e)) };
                assert(are_drawn(Seq::<StampView>::empty()));
                assert(Self::actions_taken(
                    old(self),
                    self,
                    options,
                    candidates,
                    actions,
                    step,
                    Seq::<StampView>::empty(),
                ));
                step
            },
            Ok(list) => {
                let stamps = Stamp::draw_many(list.len());
                let result = match self.apply_stamped(&list, &candidates, &options, &stamps) {
                    Ok(results) => Ok(AddResult { results }),
                    Err(e) => Err(e),
                };
                let step = AddStep { state: AddState::Finished, action: AddAction::Finish(result) };
                assert(Self::actions_taken(
                    old(self),
                    self,
                    options,
                    candidates,
                    actions,
                    step,
                    stamp_views(stamps@),
                ));
                step
            },
        }
    }

    /// Goes on from a state with the event that the caller hands back.
    pub fn resume(&mut self, state: AddState, event: AddEvent) -> (step: AddStep)
        ensures
            final(self).same_setup(old(self)),
            exists|stamps: Seq<StampView>|
                are_drawn(stamps) && Self::resumed(
                    old(self),
                    final(self),
                    state,
                    event,
                    step,
                    stamps,
                ),
    {
        match (state, event) {
            (AddState::AwaitingFacts { options }, AddEvent::Facts(facts)) => {
                let step = self.facts_extracted(options, facts);
                assert(are_drawn(Seq::<StampView>::empty()));
                assert(Self::resumed(old(self), self, state, event, step, Seq::<StampView>::empty()));
                step
            },
            (AddState::AwaitingActions { options, candidates }, AddEvent::Actions(actions)) => {
                let step = self.actions_planned(options, candidates, actions);
                let ghost stamps = choose|stamps: Seq<StampView>|
                    are_drawn(stamps) && Self::actions_taken(
                        old(self),
                        self,
                        options,
                        candidates,
                        actions,
                        step,
                        stamps,
                    );
                assert(Self::resumed(old(self), self, state, event, step, stamps));
                step
            },
            _ => {
                let step = AddStep {
                    state: AddState::Finished,
                    action: AddAction::Finish(
                        Err(
                            MemoryError::InvalidInput(
                                String::from_str("The event is not the one that the state awaits"),
                            ),
                        ),
                    ),
                };
                assert(are_drawn(Seq::<StampView>::empty()));
                assert(Self::resumed(old(self), self, state, event, step, Seq::<StampView>::empty()));
                step
            },
        }
    }

    /// The history lines about the memory stored under this id, oldest
    /// first; none for a memory that was never changed through this manager.
    /// Fails with `NotFound` where no memory is stored under the id, also
    /// where one was and has been deleted.
    pub fn history(&self, id: &str) -> (r: Result<Vec<HistoryEntry>, MemoryError>)
        ensures
            r is Ok <==> contains_id(self.entries(), id@),
            r is Ok ==> history_views(r->Ok_0@) == self.log().filter(about(id@)),
            r is Err ==> r->Err_0@ == ErrorView::NotFound(id@),
    {
        if self.vector_store.get(id).is_none() {
            return Err(MemoryError::NotFound(id.to_owned()));
        }
        let ghost all = self.log();
        let ghost keep = about(id@);
        let wanted: String = id.to_owned();
        let mut lines: Vec<HistoryEntry> = Vec::new();
        let n: usize = self.history.len();
        let mut i: usize = 0;
        proof {
            reveal(Seq::filter);
            assert(all.take(0) =~= Seq::<HistoryView>::empty());
            assert(history_views(lines@) =~= Seq::<HistoryView>::empty());
        }
        while i < n
            invariant
                n == self.history@.len(),
                i <= n,
                all == self.log(),
                keep == about(id@),
                wanted@ == id@,
                history_views(lines@) == all.take(i as int).filter(keep),
            decreases n - i,
        {
            let ghost prior = history_views(lines@);
            proof {
                lemma_filter_step(all, keep, i as int);
            }
            if self.history[i].memory_id == wanted {
                lines.push(self.history[i].clone());
                assert(history_views(lines@) =~= prior.push(all[i as int]));
            }
            i = i + 1;
        }
        assert(all.take(n as int) =~= all);
        Ok(lines)
    }

    /// Forgets the memories in the scope of the options, and every memory
    /// and the whole history where the options name no scope.
    pub fn reset(&mut self, options: ResetOptions) -> (r: Result<(), MemoryError>)
        ensures
            r is Ok,
            final(self).same_setup(old(self)),
            final(self).entries() == without_matching(
                old(self).entries(),
                scope_filter(options.scope()),
            ),
            final(self).log() == if is_unscoped(options.scope()) {
                Seq::<HistoryView>::empty()
            } else {
                old(self).log()
            },
    {
        let filter = filter_for(&options.user_id, &options.agent_id, &options.run_id);
        self.vector_store.delete_all(filter.as_ref());
        if filter.is_none() {
            self.history.clear();
            assert(self.log() =~= Seq::<HistoryView>::empty());
        }
        Ok(())
    }
}

impl Memory<HashEmbedder, InMemoryStore> {
    /// A manager on the hashing embedder and the in-process index, with
    /// nothing stored.
    pub fn new(config: MemoryConfig) -> (r: Result<Self, MemoryError>)
        ensures
            r is Ok,
            r->Ok_0.entries() == Seq::<EntryView>::empty(),
            r->Ok_0.log() == Seq::<HistoryView>::empty(),
            r->Ok_0.config() == config,
            r->Ok_0.embedder().never_fails(),
            r->Ok_0.width() == if config.embedding_dim == 0 {
                1
            } else {
                config.embedding_dim as nat
            },
    {
        let embedder = HashEmbedder::new(&config);
        Ok(Memory::with_backends(config, embedder, InMemoryStore::new()))
    }
}

} // verus!
