//! What a caller may ask of each operation of the memory manager.

use vstd::prelude::*;
use crate::models::{Filters, FiltersView};
use crate::scoping::{is_unscoped, scope_of, ScopeView};

verus! {

/// How to add memories.
#[derive(Debug, Clone, PartialEq)]
pub struct AddOptions {
    pub user_id: Option<String>,
    pub agent_id: Option<String>,
    pub run_id: Option<String>,
    /// Metadata for the new records; without it they get the manager's
    /// default.
    pub metadata: Option<serde_json::Value>,
    /// Whether to extract facts and reconcile them, where a language model
    /// is configured.
    pub infer: bool,
}

impl AddOptions {
    /// The scoping that the options carry.
    pub open spec fn scope(&self) -> ScopeView {
        scope_of(self.user_id, self.agent_id, self.run_id)
    }
}

impl AddOptions {
    /// Whether the options name a user, an agent or a run.
    pub fn is_scoped(&self) -> (scoped: bool)
        ensures
            scoped == !is_unscoped(self.scope()),
    {
        self.user_id.is_some() || self.agent_id.is_some() || self.run_id.is_some()
    }
}

impl Default for AddOptions {
    /// No scoping, no metadata, inference wanted.
    fn default() -> (options: AddOptions)
        ensures
            options.user_id is None,
            options.agent_id is None,
            options.run_id is None,
            options.metadata is None,
            options.infer,
    {
        AddOptions { user_id: None, agent_id: None, run_id: None, metadata: None, infer: true }
    }
}

/// How to search.
#[derive(Debug, Clone, PartialEq, Eq)]
pub struct SearchOptions {
    pub user_id: Option<String>,
    pub agent_id: Option<String>,
    pub run_id: Option<String>,
    /// Most results wanted; 10 where none is given.
    pub limit: Option<usize>,
    /// Least score wanted, in millionths; 0 where none is given.
    pub threshold: Option<i32>,
    /// Conditions that the index applies before it ranks.
    pub filters: Option<Filters>,
}

impl SearchOptions {
    /// The scoping that the options carry.
    pub open spec fn scope(&self) -> ScopeView {
        scope_of(self.user_id, self.agent_id, self.run_id)
    }

    /// The filters that the options carry.
    pub open spec fn filter(&self) -> Option<FiltersView> {
        match self.filters {
            Some(filters) => Some(filters@),
            None => None,
        }
    }

    /// The limit that the options carry, or 10.
    pub open spec fn wanted(&self) -> nat {
        match self.limit {
            Some(limit) => limit as nat,
            None => 10,
        }
    }

    /// The threshold that the options carry, or 0.
    pub open spec fn least(&self) -> int {
        match self.threshold {
            Some(threshold) => threshold as int,
            None => 0,
        }
    }
}

impl Default for SearchOptions {
    /// Nothing asked for.
    fn default() -> (options: SearchOptions)
        ensures
            options.user_id is None,
            options.agent_id is None,
            options.run_id is None,
            options.limit is None,
            options.threshold is None,
            options.filters is None,
    {
        SearchOptions {
            user_id: None,
            agent_id: None,
            run_id: None,
            limit: None,
            threshold: None,
            filters: None,
        }
    }
}

/// How to list memories.
#[derive(Debug, Clone, PartialEq, Eq)]
pub struct GetAllOptions {
    pub user_id: Option<String>,
    pub agent_id: Option<String>,
    pub run_id: Option<String>,
    /// Most records read from the index; 100 where none is given.
    pub limit: Option<usize>,
}

impl GetAllOptions {
    /// The scoping that the options carry.
    pub open spec fn scope(&self) -> ScopeView {
        scope_of(self.user_id, self.agent_id, self.run_id)
    }

    /// The limit that the options carry, or 100.
    pub open spec fn wanted(&self) -> nat {
        match self.limit {
            Some(limit) => limit as nat,
            None => 100,
        }
    }
}

impl Default for GetAllOptions {
    /// Nothing asked for.
    fn default() -> (options: GetAllOptions)
        ensures
            options.user_id is None,
            options.agent_id is None,
            options.run_id is None,
            options.limit is None,
    {
        GetAllOptions { user_id: None, agent_id: None, run_id: None, limit: None }
    }
}

/// Which memories to forget.
#[derive(Debug, Clone, PartialEq, Eq)]
pub struct ResetOptions {
    pub user_id: Option<String>,
    pub agent_id: Option<String>,
    pub run_id: Option<String>,
}

impl ResetOptions {
    /// The scoping that the options carry.
    pub open spec fn scope(&self) -> ScopeView {
        scope_of(self.user_id, self.agent_id, self.run_id)
    }
}

impl Default for ResetOptions {
    /// Nothing asked for: every memory is meant.
    fn default() -> (options: ResetOptions)
        ensures
            options.user_id is None,
            options.agent_id is None,
            options.run_id is None,
    {
        ResetOptions { user_id: None, agent_id: None, run_id: None }
    }
}

} // verus!
