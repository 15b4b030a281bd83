//! What the reconciliation pipeline reads and reports: planned actions,
//! candidate memories, events and history.

use vstd::prelude::*;
use crate::models::{copy_text, text_of, ScoredMemory};
use crate::text::{same_text, uppercase};

verus! {

/// What happened to a memory.
#[derive(Debug, Clone, Copy, PartialEq, Eq)]
pub enum EventType {
    Add,
    Update,
    Delete,
}

/// One change that a call made to the index.
#[derive(Debug, PartialEq, Eq)]
pub struct MemoryEvent {
    /// The id of the memory.
    pub id: String,
    /// The text of the memory: the new text of one added or updated, the
    /// last text of one deleted.
    pub memory: String,
    pub event: EventType,
}

/// The mathematical content of a [`MemoryEvent`].
pub struct EventView {
    pub id: Seq<char>,
    pub memory: Seq<char>,
    pub event: EventType,
}

impl View for MemoryEvent {
    type V = EventView;

    open spec fn view(&self) -> EventView {
        EventView { id: self.id@, memory: self.memory@, event: self.event }
    }
}

impl Clone for MemoryEvent {
    fn clone(&self) -> (out: MemoryEvent)
        ensures
            out@ == self@,
    {
        MemoryEvent { id: self.id.clone(), memory: self.memory.clone(), event: self.event }
    }
}

/// The contents of a list of events.
pub open spec fn event_views(events: Seq<MemoryEvent>) -> Seq<EventView> {
    events.map_values(|e: MemoryEvent| e@)
}

/// The events of one call to `add`, in the order in which they happened.
#[derive(Debug, PartialEq, Eq)]
pub struct AddResult {
    pub results: Vec<MemoryEvent>,
}

/// The results of one search, best first.
#[derive(Debug, PartialEq)]
pub struct SearchResult {
    pub results: Vec<ScoredMemory>,
}

/// One line of the history of a memory.
#[derive(Debug, PartialEq, Eq)]
pub struct HistoryEntry {
    pub memory_id: String,
    pub event: EventType,
    /// The text before the change; none for an addition.
    pub previous: Option<String>,
    /// The text after the change; none for a deletion.
    pub current: Option<String>,
}

/// The mathematical content of a [`HistoryEntry`].
pub struct HistoryView {
    pub memory_id: Seq<char>,
    pub event: EventType,
    pub previous: Option<Seq<char>>,
    pub current: Option<Seq<char>>,
}

impl View for HistoryEntry {
    type V = HistoryView;

    open spec fn view(&self) -> HistoryView {
        HistoryView {
            memory_id: self.memory_id@,
            event: self.event,
            previous: text_of(self.previous),
            current: text_of(self.current),
        }
    }
}

impl Clone for HistoryEntry {
    fn clone(&self) -> (out: HistoryEntry)
        ensures
            out@ == self@,
    {
        HistoryEntry {
            memory_id: self.memory_id.clone(),
            event: self.event,
            previous: copy_text(&self.previous),
            current: copy_text(&self.current),
        }
    }
}

/// The contents of a list of history entries.
pub open spec fn history_views(entries: Seq<HistoryEntry>) -> Seq<HistoryView> {
    entries.map_values(|e: HistoryEntry| e@)
}

/// One action that the planner asks for.
#[derive(Debug, Clone, PartialEq, Eq)]
pub struct MemoryAction {
    /// The tag: `ADD`, `UPDATE`, `DELETE` or `NOOP`, in any case.
    pub event: String,
    pub text: Option<String>,
    /// The temporary id of the candidate that the action is about.
    pub id: Option<String>,
}

/// The mathematical content of a [`MemoryAction`].
pub struct ActionView {
    pub event: Seq<char>,
    pub text: Option<Seq<char>>,
    pub id: Option<Seq<char>>,
}

impl View for MemoryAction {
    type V = ActionView;

    open spec fn view(&self) -> ActionView {
        ActionView { event: self.event@, text: text_of(self.text), id: text_of(self.id) }
    }
}

/// The contents of a list of actions.
pub open spec fn action_views(actions: Seq<MemoryAction>) -> Seq<ActionView> {
    actions.map_values(|a: MemoryAction| a@)
}

/// What a tag asks for.
#[derive(Debug, Clone, Copy, PartialEq, Eq)]
pub enum ActionKind {
    Add,
    Update,
    Delete,
    Noop,
    /// A tag outside the four; such an action is passed over.
    Unknown,
}

/// What a tag in upper case asks for.
pub open spec fn classify(tag: Seq<char>) -> ActionKind {
    if tag == "ADD"@ {
        ActionKind::Add
    } else if tag == "UPDATE"@ {
        ActionKind::Update
    } else if tag == "DELETE"@ {
        ActionKind::Delete
    } else if tag == "NOOP"@ {
        ActionKind::Noop
    } else {
        ActionKind::Unknown
    }
}

/// What a tag asks for, whatever its case.
pub open spec fn kind_of(tag: Seq<char>) -> ActionKind {
    classify(uppercase(tag))
}

/// What a tag in upper case asks for.
pub fn classify_tag(tag: &str) -> (kind: ActionKind)
    ensures
        kind == classify(tag@),
{
    if same_text(tag, "ADD") {
        ActionKind::Add
    } else if same_text(tag, "UPDATE") {
        ActionKind::Update
    } else if same_text(tag, "DELETE") {
        ActionKind::Delete
    } else if same_text(tag, "NOOP") {
        ActionKind::Noop
    } else {
        ActionKind::Unknown
    }
}

/// What a tag asks for, whatever its case.
pub fn action_kind(tag: &str) -> (kind: ActionKind)
    ensures
        kind == kind_of(tag@),
{
    let upper: String = tag.to_uppercase();
    classify_tag(upper.as_str())
}

/// An existing memory that the planner is shown, under a temporary id.
#[derive(Debug, PartialEq, Eq)]
pub struct Candidate {
    /// The id under which the planner refers to the memory.
    pub temp_id: String,
    /// The id of the memory in the index.
    pub memory_id: String,
    pub content: String,
}

/// The mathematical content of a [`Candidate`].
pub struct CandidateView {
    pub temp_id: Seq<char>,
    pub memory_id: Seq<char>,
    pub content: Seq<char>,
}

impl View for Candidate {
    type V = CandidateView;

    open spec fn view(&self) -> CandidateView {
        CandidateView {
            temp_id: self.temp_id@,
            memory_id: self.memory_id@,
            content: self.content@,
        }
    }
}

impl Clone for Candidate {
    fn clone(&self) -> (out: Candidate)
        ensures
            out@ == self@,
    {
        Candidate {
            temp_id: self.temp_id.clone(),
            memory_id: self.memory_id.clone(),
            content: self.content.clone(),
        }
    }
}

/// The contents of a list of candidates.
pub open spec fn candidate_views(candidates: Seq<Candidate>) -> Seq<CandidateView> {
    candidates.map_values(|c: Candidate| c@)
}

} // verus!
