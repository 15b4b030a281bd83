//! The steps of `add`: what the manager waits for, what it asks its caller
//! to do, and what the caller hands back.

use vstd::prelude::*;
use crate::errors::MemoryError;
use crate::events::{AddResult, Candidate, MemoryAction};
use crate::options::AddOptions;

verus! {

/// Where a call to `add` stands between two steps.
#[derive(Debug)]
pub enum AddState {
    /// The facts extracted from the transcript are awaited.
    AwaitingFacts { options: AddOptions },
    /// The actions planned for the facts are awaited; the candidates are
    /// the existing memories that the planner is shown.
    AwaitingActions { options: AddOptions, candidates: Vec<Candidate> },
    /// The call has ended.
    Finished,
}

/// What the caller is to do next.
#[derive(Debug)]
pub enum AddAction {
    /// Have the facts extracted from this transcript, and resume with them.
    ExtractFacts { transcript: String },
    /// Have the actions planned for these facts, given the candidates of
    /// the state, and resume with them.
    PlanActions { facts: Vec<String> },
    /// Return this: the call has ended.
    Finish(Result<AddResult, MemoryError>),
}

/// What the caller hands back.
#[derive(Debug)]
pub enum AddEvent {
    /// The extracted facts, or the failure of the extraction.
    Facts(Result<Vec<String>, MemoryError>),
    /// The planned actions, or the failure of the planning.
    Actions(Result<Vec<MemoryAction>, MemoryError>),
}

/// One step of `add`: the state to resume from and the action to perform.
#[derive(Debug)]
pub struct AddStep {
    pub state: AddState,
    pub action: AddAction,
}

impl AddStep {
    /// What the call returned, where it has ended.
    pub fn into_result(self) -> (r: Option<Result<AddResult, MemoryError>>)
        ensures
            r == match self.action {
                AddAction::Finish(result) => Some(result),
                _ => None,
            },
    {
        match self.action {
            AddAction::Finish(result) => Some(result),
            _ => None,
        }
    }
}

} // verus!
