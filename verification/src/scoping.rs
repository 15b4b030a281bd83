//! Scoping by user, agent and run, and the selection of search results.

use vstd::prelude::*;
use crate::models::{
    record_views, scored_views, text_is, text_of, MemoryRecord, RecordView, ScoredMemory,
    ScoredView,
};
use crate::ranking::{is_ranked, lemma_selection_is_ranked, prefix};
use crate::store::lemma_filter_step;

verus! {

/// The scoping attributes that a caller asks for; an absent one asks for
/// nothing.
pub struct ScopeView {
    pub user_id: Option<Seq<char>>,
    pub agent_id: Option<Seq<char>>,
    pub run_id: Option<Seq<char>>,
}

/// The scope that three optional identifiers describe.
pub open spec fn scope_of(
    user_id: Option<String>,
    agent_id: Option<String>,
    run_id: Option<String>,
) -> ScopeView {
    ScopeView {
        user_id: text_of(user_id),
        agent_id: text_of(agent_id),
        run_id: text_of(run_id),
    }
}

/// No attribute is asked for.
pub open spec fn is_unscoped(scope: ScopeView) -> bool {
    scope.user_id is None && scope.agent_id is None && scope.run_id is None
}

/// The record carries the attribute that is asked for, if one is.
pub open spec fn attribute_admits(wanted: Option<Seq<char>>, actual: Option<Seq<char>>) -> bool {
    wanted is None || actual == wanted
}

/// The record carries every attribute that the scope asks for.
pub open spec fn in_scope(scope: ScopeView, record: RecordView) -> bool {
    &&& attribute_admits(scope.user_id, record.user_id)
    &&& attribute_admits(scope.agent_id, record.agent_id)
    &&& attribute_admits(scope.run_id, record.run_id)
}

/// The records in the scope.
pub open spec fn scoped_to(scope: ScopeView) -> spec_fn(RecordView) -> bool {
    |record: RecordView| in_scope(scope, record)
}

/// The results in the scope that score at least `threshold`.
pub open spec fn admitted(threshold: int, scope: ScopeView) -> spec_fn(ScoredView) -> bool {
    |item: ScoredView| item.score >= threshold && in_scope(scope, item.record)
}

/// Whether the record carries the attribute that is asked for, if one is.
pub fn attribute_matches(wanted: &Option<String>, actual: &Option<String>) -> (met: bool)
    ensures
        met == attribute_admits(text_of(*wanted), text_of(*actual)),
{
    match wanted {
        Some(id) => text_is(actual, id),
        None => true,
    }
}

/// Whether the record carries every attribute that is asked for.
pub fn record_in_scope(
    user_id: &Option<String>,
    agent_id: &Option<String>,
    run_id: &Option<String>,
    record: &MemoryRecord,
) -> (met: bool)
    ensures
        met == in_scope(scope_of(*user_id, *agent_id, *run_id), record@),
{
    attribute_matches(user_id, &record.user_id) && attribute_matches(agent_id, &record.agent_id)
        && attribute_matches(run_id, &record.run_id)
}

/// The records in the scope, in their order.
pub fn select_records(
    records: &Vec<MemoryRecord>,
    user_id: &Option<String>,
    agent_id: &Option<String>,
    run_id: &Option<String>,
) -> (out: Vec<MemoryRecord>)
    ensures
        record_views(out@) == record_views(records@).filter(
            scoped_to(scope_of(*user_id, *agent_id, *run_id)),
        ),
{
    let ghost all = record_views(records@);
    let ghost keep = scoped_to(scope_of(*user_id, *agent_id, *run_id));
    let mut out: Vec<MemoryRecord> = Vec::new();
    let n: usize = records.len();
    let mut i: usize = 0;
    proof {
        reveal(Seq::filter);
        assert(all.take(0) =~= Seq::<RecordView>::empty());
        assert(record_views(out@) =~= Seq::<RecordView>::empty());
    }
    while i < n
        invariant
            n == records@.len(),
            i <= n,
            all == record_views(records@),
            keep == scoped_to(scope_of(*user_id, *agent_id, *run_id)),
            record_views(out@) == all.take(i as int).filter(keep),
        decreases n - i,
    {
        let ghost prior = record_views(out@);
        proof {
            lemma_filter_step(all, keep, i as int);
        }
        if record_in_scope(user_id, agent_id, run_id, &records[i]) {
            out.push(records[i].clone());
            assert(record_views(out@) =~= prior.push(all[i as int]));
        }
        i = i + 1;
    }
    assert(all.take(n as int) =~= all);
    out
}

/// The first `limit` of the results that are in the scope and score at least
/// `threshold`, in their order.
pub fn select_scored(
    found: &Vec<ScoredMemory>,
    threshold: i32,
    user_id: &Option<String>,
    agent_id: &Option<String>,
    run_id: &Option<String>,
    limit: usize,
) -> (out: Vec<ScoredMemory>)
    ensures
        scored_views(out@) == prefix(
            scored_views(found@).filter(
                admitted(threshold as int, scope_of(*user_id, *agent_id, *run_id)),
            ),
            limit as nat,
        ),
        out@.len() <= limit,
        out@.len() <= found@.len(),
        is_ranked(scored_views(found@)) ==> is_ranked(scored_views(out@)),
{
    let ghost all = scored_views(found@);
    let ghost keep = admitted(threshold as int, scope_of(*user_id, *agent_id, *run_id));
    let mut out: Vec<ScoredMemory> = Vec::new();
    let n: usize = found.len();
    let mut i: usize = 0;
    proof {
        reveal(Seq::filter);
        assert(all.take(0) =~= Seq::<ScoredView>::empty());
        assert(scored_views(out@) =~= Seq::<ScoredView>::empty());
    }
    while i < n && out.len() < limit
        invariant
            n == found@.len(),
            i <= n,
            all == scored_views(found@),
            keep == admitted(threshold as int, scope_of(*user_id, *agent_id, *run_id)),
            out@.len() <= limit,
            scored_views(out@) == all.take(i as int).filter(keep),
        decreases n - i,
    {
        let ghost prior = scored_views(out@);
        proof {
            lemma_filter_step(all, keep, i as int);
        }
        if found[i].score >= threshold && record_in_scope(
            user_id,
            agent_id,
            run_id,
            &found[i].record,
        ) {
            out.push(found[i].clone());
            assert(scored_views(out@) =~= prior.push(all[i as int]));
        }
        i = i + 1;
    }
    proof {
        let head = all.take(i as int);
        let tail = all.skip(i as int);
        assert(all =~= head + tail);
        Seq::filter_distributes_over_add(head, tail, keep);
        if i < n {
            assert(prefix(head.filter(keep) + tail.filter(keep), limit as nat) =~= head.filter(
                keep,
            ));
        } else {
            assert(tail =~= Seq::<ScoredView>::empty());
            reveal(Seq::filter);
            assert(head.filter(keep) + tail.filter(keep) =~= head.filter(keep));
        }
        if is_ranked(all) {
            lemma_selection_is_ranked(all, keep, limit as nat);
        }
        all.lemma_filter_len(keep);
    }
    out
}

} // verus!
