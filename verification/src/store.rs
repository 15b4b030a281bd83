//! The vector index: records with their embeddings, kept in insertion order
//! and searched by cosine similarity.

use vstd::prelude::*;
use crate::embedder::Embedder;
use crate::errors::{ErrorView, MemoryError};
use crate::models::{
    passes, passes_filter, record_views, scored_views, Filters, FiltersView, MemoryRecord,
    RecordView, ScoredMemory, ScoredView, filter_view,
};
use crate::ranking::{
    find_position, is_ranked, lemma_filter_members, lemma_filter_none, lemma_rank_insert_prefix, lemma_rank_position,
    lemma_ranked_is_ranked, place, prefix, rank_insert, ranked,
};
use crate::similarity::{cosine, cosine_similarity};

verus! {

/// What the index holds for one record.
pub struct EntryView {
    pub record: RecordView,
    pub embedding: Seq<i32>,
}

/// A way to pick entries: by id, or by an optional filter.
pub enum Selection {
    Id(Seq<char>),
    Filter(Option<FiltersView>),
}

/// The selection picks this record.
pub open spec fn selects(selection: Selection, record: RecordView) -> bool {
    match selection {
        Selection::Id(id) => record.id == id,
        Selection::Filter(filter) => passes(filter, record),
    }
}

/// The entries that the selection picks.
pub open spec fn chosen(selection: Selection) -> spec_fn(EntryView) -> bool {
    |e: EntryView| selects(selection, e.record)
}

/// The entries that the selection leaves alone.
pub open spec fn spared(selection: Selection) -> spec_fn(EntryView) -> bool {
    |e: EntryView| !selects(selection, e.record)
}

/// The place of the entry with this id that was inserted last, or -1 where
/// no entry has the id.
pub open spec fn position_of(entries: Seq<EntryView>, id: Seq<char>) -> int
    decreases entries.len(),
{
    if entries.len() == 0 {
        -1
    } else if entries.last().record.id == id {
        entries.len() - 1
    } else {
        position_of(entries.drop_last(), id)
    }
}

/// Some entry has this id.
pub open spec fn contains_id(entries: Seq<EntryView>, id: Seq<char>) -> bool {
    position_of(entries, id) >= 0
}

/// The record stored under this id, if any.
pub open spec fn lookup(entries: Seq<EntryView>, id: Seq<char>) -> Option<RecordView> {
    if contains_id(entries, id) {
        Some(entries[position_of(entries, id)].record)
    } else {
        None
    }
}

/// The entries left when every entry with this id is removed.
pub open spec fn without_id(entries: Seq<EntryView>, id: Seq<char>) -> Seq<EntryView> {
    entries.filter(spared(Selection::Id(id)))
}

/// The entries that pass the filter, in insertion order.
pub open spec fn matching(entries: Seq<EntryView>, filter: Option<FiltersView>) -> Seq<
    EntryView,
> {
    entries.filter(chosen(Selection::Filter(filter)))
}

/// The entries left when every entry that passes the filter is removed.
pub open spec fn without_matching(entries: Seq<EntryView>, filter: Option<FiltersView>) -> Seq<
    EntryView,
> {
    entries.filter(spared(Selection::Filter(filter)))
}

/// The record of an entry.
pub open spec fn record_of() -> spec_fn(EntryView) -> RecordView {
    |e: EntryView| e.record
}

/// An entry's record with its similarity to the query.
pub open spec fn score_against(query: Seq<i32>) -> spec_fn(EntryView) -> ScoredView {
    |e: EntryView| ScoredView { record: e.record, score: cosine(query, e.embedding) }
}

/// The entries that pass the filter, each scored against the query.
pub open spec fn scored(entries: Seq<EntryView>, query: Seq<i32>, filter: Option<FiltersView>) -> Seq<
    ScoredView,
> {
    matching(entries, filter).map_values(score_against(query))
}

/// The length of the first embedding, among the entries that pass the filter,
/// that differs in length from the query.
pub open spec fn first_mismatch(entries: Seq<EntryView>, width: nat, filter: Option<FiltersView>) -> Option<
    nat,
>
    decreases entries.len(),
{
    if entries.len() == 0 {
        None
    } else if passes(filter, entries[0].record) && entries[0].embedding.len() != width {
        Some(entries[0].embedding.len())
    } else {
        first_mismatch(entries.drop_first(), width, filter)
    }
}

/// What a search returns where no length differs: the `k` best of the scored
/// entries.
pub open spec fn search_result(
    entries: Seq<EntryView>,
    query: Seq<i32>,
    k: nat,
    filter: Option<FiltersView>,
) -> Seq<ScoredView> {
    prefix(ranked(scored(entries, query, filter)), k)
}

/// What a listing returns: the first `limit` records that pass the filter.
pub open spec fn list_result(entries: Seq<EntryView>, filter: Option<FiltersView>, limit: nat) -> Seq<
    RecordView,
> {
    prefix(matching(entries, filter).map_values(record_of()), limit)
}

/// A stored record after an update: identity and creation time stay, the
/// rest comes from the payload.
pub open spec fn refreshed(stored: RecordView, payload: RecordView) -> RecordView {
    RecordView {
        id: stored.id,
        content: payload.content,
        metadata: payload.metadata,
        created_at: stored.created_at,
        user_id: payload.user_id,
        agent_id: payload.agent_id,
        run_id: payload.run_id,
    }
}

/// The entries after the one stored under `id` took a new payload and, where
/// one is given, a new embedding.
pub open spec fn update_result(
    entries: Seq<EntryView>,
    id: Seq<char>,
    embedding: Option<Seq<i32>>,
    payload: RecordView,
) -> Seq<EntryView>
    recommends
        contains_id(entries, id),
{
    let at = position_of(entries, id);
    entries.update(
        at,
        EntryView {
            record: refreshed(entries[at].record, payload),
            embedding: match embedding {
                Some(v) => v,
                None => entries[at].embedding,
            },
        },
    )
}

/// The content of an optional embedding.
pub open spec fn vector_view(embedding: Option<Vec<i32>>) -> Option<Seq<i32>> {
    match embedding {
        Some(v) => Some(v@),
        None => None,
    }
}

/// A vector index. `entries` is what it holds, in insertion order.
pub trait VectorStore {
    spec fn entries(&self) -> Seq<EntryView>;

    /// Stores the pair behind everything stored before.
    fn insert(&mut self, record: MemoryRecord, embedding: Vec<i32>)
        ensures
            final(self).entries() == old(self).entries().push(
                (EntryView { record: record@, embedding: embedding@ }),
            ),
    ;

    /// Removes every entry with this id; fails with `NotFound`, and changes
    /// nothing, where there is none.
    fn delete(&mut self, id: &str) -> (r: Result<(), MemoryError>)
        ensures
            r is Ok <==> contains_id(old(self).entries(), id@),
            r is Ok ==> final(self).entries() == without_id(old(self).entries(), id@),
            r is Err ==> final(self).entries() == old(self).entries() && r->Err_0@
                == ErrorView::NotFound(id@),
    ;

    /// The record stored under this id, if any.
    fn get(&self, id: &str) -> (r: Option<MemoryRecord>)
        ensures
            r is Some <==> lookup(self.entries(), id@) is Some,
            r is Some ==> Some(r->Some_0@) == lookup(self.entries(), id@),
    ;

    /// The first `limit` records that pass the filter, in insertion order.
    fn list(&self, filter: Option<&Filters>, limit: usize) -> (r: Vec<MemoryRecord>)
        ensures
            record_views(r@) == list_result(self.entries(), filter_view(filter), limit as nat),
    ;

    /// The `k` entries most similar to the query among those that pass the
    /// filter, best first, ties in insertion order. Fails with
    /// `DimensionMismatch` exactly when such an entry's embedding differs in
    /// length from the query; the error reports the first one.
    fn search(&self, query: &[i32], k: usize, filter: Option<&Filters>) -> (r: Result<
        Vec<ScoredMemory>,
        MemoryError,
    >)
        ensures
            r is Ok <==> first_mismatch(self.entries(), query@.len(), filter_view(filter)) is None,
            r is Ok ==> scored_views(r->Ok_0@) == search_result(
                self.entries(),
                query@,
                k as nat,
                filter_view(filter),
            ),
            r is Ok ==> is_ranked(scored_views(r->Ok_0@)) && r->Ok_0@.len() <= k,
            r is Err ==> r->Err_0@ == (ErrorView::DimensionMismatch {
                expected: query@.len(),
                actual: first_mismatch(self.entries(), query@.len(), filter_view(filter))->Some_0,
            }),
    ;

    /// Replaces the payload, and the embedding where one is given, of the
    /// entry stored under this id; fails with `NotFound`, and changes
    /// nothing, where there is none.
    fn update(&mut self, id: &str, embedding: Option<Vec<i32>>, payload: MemoryRecord) -> (r:
        Result<(), MemoryError>)
        ensures
            r is Ok <==> contains_id(old(self).entries(), id@),
            r is Ok ==> final(self).entries() == update_result(
                old(self).entries(),
                id@,
                vector_view(embedding),
                payload@,
            ),
            r is Err ==> final(self).entries() == old(self).entries() && r->Err_0@
                == ErrorView::NotFound(id@),
    ;

    /// Removes every entry that passes the filter, or every entry where no
    /// filter is given.
    fn delete_all(&mut self, filter: Option<&Filters>)
        ensures
            final(self).entries() == without_matching(old(self).entries(), filter_view(filter)),
    ;

    /// The number of entries.
    fn count(&self) -> (n: usize)
        ensures
            n == self.entries().len(),
    ;
}

/// One record with its embedding, as the in-memory index keeps it.
pub struct StoredEntry {
    pub record: MemoryRecord,
    pub embedding: Vec<i32>,
}

impl View for StoredEntry {
    type V = EntryView;

    open spec fn view(&self) -> EntryView {
        EntryView { record: self.record@, embedding: self.embedding@ }
    }
}

/// The contents of a list of stored entries.
pub open spec fn entry_views(entries: Seq<StoredEntry>) -> Seq<EntryView> {
    entries.map_values(|e: StoredEntry| e@)
}

/// A filter looks at one more element: it is kept or it is not.
pub proof fn lemma_filter_step<A>(s: Seq<A>, pred: spec_fn(A) -> bool, i: int)
    requires
        0 <= i < s.len(),
    ensures
        s.take(i + 1).filter(pred) == if pred(s[i]) {
            s.take(i).filter(pred).push(s[i])
        } else {
            s.take(i).filter(pred)
        },
{
    reveal(Seq::filter);
    assert(s.take(i + 1).drop_last() =~= s.take(i));
}

/// A filter keeps all of a sequence in which everything meets it.
pub proof fn lemma_filter_all<A>(s: Seq<A>, pred: spec_fn(A) -> bool)
    requires
        forall|i: int| 0 <= i < s.len() ==> pred(#[trigger] s[i]),
    ensures
        s.filter(pred) == s,
    decreases s.len(),
{
    reveal(Seq::filter);
    if s.len() > 0 {
        assert forall|i: int| 0 <= i < s.drop_last().len() implies pred(
            #[trigger] s.drop_last()[i],
        ) by {
            assert(s.drop_last()[i] == s[i]);
        }
        lemma_filter_all(s.drop_last(), pred);
        assert(s.drop_last().push(s.last()) =~= s);
    }
}

/// An id is stored exactly when some entry carries it, and the entry found
/// for it does.
pub proof fn lemma_position_of(entries: Seq<EntryView>, id: Seq<char>)
    ensures
        -1 <= position_of(entries, id) < entries.len(),
        contains_id(entries, id) <==> exists|i: int|
            0 <= i < entries.len() && (#[trigger] entries[i]).record.id == id,
        contains_id(entries, id) ==> entries[position_of(entries, id)].record.id == id,
    decreases entries.len(),
{
    if entries.len() > 0 {
        lemma_position_of(entries.drop_last(), id);
        if entries.last().record.id != id {
            if contains_id(entries, id) {
                let i = position_of(entries.drop_last(), id);
                assert(entries.drop_last()[i] == entries[i]);
            }
            if exists|i: int| 0 <= i < entries.len() && (#[trigger] entries[i]).record.id == id {
                let i = choose|i: int|
                    0 <= i < entries.len() && (#[trigger] entries[i]).record.id == id;
                assert(entries.drop_last()[i] == entries[i]);
            }
        }
    }
}

/// Every stored embedding has this many components.
pub open spec fn all_of_width(entries: Seq<EntryView>, width: nat) -> bool {
    forall|i: int| 0 <= i < entries.len() ==> (#[trigger] entries[i]).embedding.len() == width
}

/// Where every stored embedding has the length of the query, no search
/// meets a mismatch.
pub proof fn lemma_uniform_has_no_mismatch(
    entries: Seq<EntryView>,
    width: nat,
    filter: Option<FiltersView>,
)
    requires
        all_of_width(entries, width),
    ensures
        first_mismatch(entries, width, filter) is None,
    decreases entries.len(),
{
    if entries.len() > 0 {
        let rest = entries.drop_first();
        assert forall|i: int| 0 <= i < rest.len() implies (#[trigger] rest[i]).embedding.len()
            == width by {
            assert(rest[i] == entries[i + 1]);
        }
        lemma_uniform_has_no_mismatch(rest, width, filter);
    }
}

/// What is left of entries of one width has that width.
pub proof fn lemma_filter_keeps_width(
    entries: Seq<EntryView>,
    pred: spec_fn(EntryView) -> bool,
    width: nat,
)
    requires
        all_of_width(entries, width),
    ensures
        all_of_width(entries.filter(pred), width),
{
    lemma_filter_members(entries, pred);
    let left = entries.filter(pred);
    assert forall|k: int| 0 <= k < left.len() implies (#[trigger] left[k]).embedding.len()
        == width by {
        let i = choose|i: int| 0 <= i < entries.len() && entries[i] == left[k];
        assert(entries[i].embedding.len() == width);
    }
}

/// A record that was just inserted is the one found under its id.
pub proof fn lemma_insert_then_get(entries: Seq<EntryView>, added: EntryView)
    ensures
        lookup(entries.push(added), added.record.id) == Some(added.record),
{
}

/// Once an id is deleted, nothing is found under it, so deleting it again
/// fails and changes nothing.
pub proof fn lemma_delete_then_get(entries: Seq<EntryView>, id: Seq<char>)
    ensures
        !contains_id(without_id(entries, id), id),
        lookup(without_id(entries, id), id) is None,
        without_id(without_id(entries, id), id) == without_id(entries, id),
{
    let left = without_id(entries, id);
    let keep = spared(Selection::Id(id));
    lemma_position_of(left, id);
    assert forall|i: int| 0 <= i < left.len() implies keep(#[trigger] left[i]) by {
        entries.lemma_filter_pred(keep, i);
    }
    lemma_filter_all(left, keep);
}

/// Insert, then delete: the record is found in between and gone afterwards.
pub proof fn lemma_round_trip(entries: Seq<EntryView>, added: EntryView)
    ensures
        lookup(entries.push(added), added.record.id) == Some(added.record),
        lookup(without_id(entries.push(added), added.record.id), added.record.id) is None,
{
    lemma_delete_then_get(entries.push(added), added.record.id);
}

/// An update leaves every identity and every time of creation as it was,
/// and touches no entry but the one stored under the id.
pub proof fn lemma_update_keeps_identity(
    entries: Seq<EntryView>,
    id: Seq<char>,
    embedding: Option<Seq<i32>>,
    payload: RecordView,
)
    requires
        contains_id(entries, id),
    ensures
        update_result(entries, id, embedding, payload).len() == entries.len(),
        forall|i: int|
            0 <= i < entries.len() ==> (#[trigger] update_result(
                entries,
                id,
                embedding,
                payload,
            )[i]).record.id == entries[i].record.id && update_result(
                entries,
                id,
                embedding,
                payload,
            )[i].record.created_at == entries[i].record.created_at,
        forall|i: int|
            0 <= i < entries.len() && i != position_of(entries, id) ==> #[trigger] update_result(
                entries,
                id,
                embedding,
                payload,
            )[i] == entries[i],
        lookup(update_result(entries, id, embedding, payload), id) == Some(
            refreshed(lookup(entries, id)->Some_0, payload),
        ),
{
    lemma_position_of(entries, id);
    let at = position_of(entries, id);
    let after = update_result(entries, id, embedding, payload);
    lemma_position_same_ids(entries, after, id);
}

/// Where two lists of entries carry the same ids in the same places, an id
/// is found at the same place in both.
pub proof fn lemma_position_same_ids(a: Seq<EntryView>, b: Seq<EntryView>, id: Seq<char>)
    requires
        a.len() == b.len(),
        forall|i: int| 0 <= i < a.len() ==> (#[trigger] a[i]).record.id == b[i].record.id,
    ensures
        position_of(a, id) == position_of(b, id),
    decreases a.len(),
{
    if a.len() > 0 {
        assert(a[a.len() - 1].record.id == b[b.len() - 1].record.id);
        assert forall|i: int| 0 <= i < a.drop_last().len() implies (#[trigger] a.drop_last()[i]).record.id
            == b.drop_last()[i].record.id by {
            assert(a.drop_last()[i] == a[i]);
            assert(b.drop_last()[i] == b[i]);
        }
        lemma_position_same_ids(a.drop_last(), b.drop_last(), id);
    }
}

/// What a search returns is sorted by score, best first, and holds at most
/// `k` results.
pub proof fn lemma_search_result_ranked(
    entries: Seq<EntryView>,
    query: Seq<i32>,
    k: nat,
    filter: Option<FiltersView>,
)
    ensures
        is_ranked(search_result(entries, query, k, filter)),
        search_result(entries, query, k, filter).len() <= k,
        search_result(entries, query, k, filter).len() <= entries.len(),
{
    let all = ranked(scored(entries, query, filter));
    let found = search_result(entries, query, k, filter);
    lemma_ranked_is_ranked(scored(entries, query, filter));
    entries.lemma_filter_len(chosen(Selection::Filter(filter)));
    assert forall|i: int, j: int| 0 <= i < j < found.len() implies found[i].score
        >= found[j].score by {
        assert(found[i] == all[i] && found[j] == all[j]);
    }
}

/// No more entries are scored than are stored.
pub proof fn lemma_scored_length(
    entries: Seq<EntryView>,
    query: Seq<i32>,
    filter: Option<FiltersView>,
)
    ensures
        ranked(scored(entries, query, filter)).len() <= entries.len(),
{
    lemma_ranked_is_ranked(scored(entries, query, filter));
    entries.lemma_filter_len(chosen(Selection::Filter(filter)));
}

/// How the in-memory index picks entries to remove.
pub enum Selector<'a> {
    Id(&'a String),
    Filter(Option<&'a Filters>),
}

impl<'a> View for Selector<'a> {
    type V = Selection;

    open spec fn view(&self) -> Selection {
        match *self {
            Selector::Id(id) => Selection::Id(id@),
            Selector::Filter(filter) => Selection::Filter(filter_view(filter)),
        }
    }
}

impl<'a> Selector<'a> {
    /// Whether the selector picks this record.
    pub fn picks(&self, record: &MemoryRecord) -> (picked: bool)
        ensures
            picked == selects(self@, record@),
    {
        match self {
            Selector::Id(id) => record.id == **id,
            Selector::Filter(filter) => passes_filter(*filter, record),
        }
    }
}

/// Removes the entries that the selector picks and keeps the others in
/// their order; tells whether any was removed.
pub fn remove_selected(entries: &mut Vec<StoredEntry>, selector: &Selector) -> (removed: bool)
    ensures
        entry_views(final(entries)@) == entry_views(old(entries)@).filter(spared(selector@)),
        removed <==> exists|i: int|
            0 <= i < old(entries)@.len() && selects(
                selector@,
                (#[trigger] entry_views(old(entries)@)[i]).record,
            ),
{
    let ghost before = entry_views(entries@);
    let ghost keep = spared(selector@);
    let mut stack: Vec<StoredEntry> = Vec::new();
    let mut removed = false;
    proof {
        reveal(Seq::filter);
        assert(before.take(before.len() as int) =~= before);
        assert(before.skip(before.len() as int) =~= Seq::<EntryView>::empty());
        assert(entry_views(stack@).reverse() =~= Seq::<EntryView>::empty());
    }
    while entries.len() > 0
        invariant
            entries@.len() <= before.len(),
            entry_views(entries@) == before.take(entries@.len() as int),
            entry_views(stack@).reverse() == before.skip(entries@.len() as int).filter(keep),
            keep == spared(selector@),
            removed <==> exists|i: int|
                entries@.len() <= i < before.len() && selects(
                    selector@,
                    (#[trigger] before[i]).record,
                ),
        decreases entries@.len(),
    {
        let ghost n = entries@.len() as int;
        let ghost prior = entry_views(entries@);
        let ghost prior_stack = entry_views(stack@);
        let entry = entries.pop().unwrap();
        proof {
            assert(entry_views(entries@) =~= prior.drop_last());
            assert(prior[n - 1] == entry@);
            assert(before.take(n)[n - 1] == before[n - 1]);
            assert(before.skip(n - 1) =~= seq![entry@] + before.skip(n));
            Seq::filter_distributes_over_add(seq![entry@], before.skip(n), keep);
            reveal(Seq::filter);
            assert(seq![entry@].drop_last() =~= Seq::<EntryView>::empty());
        }
        if selector.picks(&entry.record) {
            removed = true;
            proof {
                lemma_filter_none(seq![entry@], keep);
                assert(before.skip(n - 1).filter(keep) =~= before.skip(n).filter(keep));
            }
        } else {
            stack.push(entry);
            proof {
                lemma_filter_all(seq![entry@], keep);
                assert(entry_views(stack@) =~= prior_stack.push(entry@));
                assert(entry_views(stack@).reverse() =~= seq![entry@] + prior_stack.reverse());
            }
        }
    }
    proof {
        assert(before.skip(0) =~= before);
        assert(entry_views(entries@) =~= Seq::<EntryView>::empty());
    }
    while stack.len() > 0
        invariant
            entry_views(entries@) + entry_views(stack@).reverse() == before.filter(keep),
        decreases stack@.len(),
    {
        let ghost prior = entry_views(entries@);
        let ghost prior_stack = entry_views(stack@);
        let entry = stack.pop().unwrap();
        entries.push(entry);
        proof {
            assert(entry_views(stack@) =~= prior_stack.drop_last());
            assert(entry_views(entries@) =~= prior.push(entry@));
            assert(entry_views(entries@) + entry_views(stack@).reverse() =~= prior
                + prior_stack.reverse());
        }
    }
    proof {
        assert(entry_views(stack@).reverse() =~= Seq::<EntryView>::empty());
        assert(entry_views(entries@) + Seq::<EntryView>::empty() =~= entry_views(entries@));
    }
    removed
}

/// The index of the process itself: a list of entries in insertion order.
pub struct InMemoryStore {
    entries: Vec<StoredEntry>,
}

impl InMemoryStore {
    /// An index that holds nothing.
    pub fn new() -> (store: InMemoryStore)
        ensures
            store.entries() == Seq::<EntryView>::empty(),
    {
        let store = InMemoryStore { entries: Vec::new() };
        assert(store.entries() =~= Seq::<EntryView>::empty());
        store
    }

    /// The place of the entry stored under this id, if any.
    fn find(&self, wanted: &String) -> (at: Option<usize>)
        ensures
            at is Some <==> contains_id(self.entries(), wanted@),
            at is Some ==> at->Some_0 as int == position_of(self.entries(), wanted@),
            at is Some ==> at->Some_0 < self.entries@.len(),
    {
        let ghost all = self.entries();
        let mut i: usize = self.entries.len();
        assert(all.take(i as int) =~= all);
        while i > 0
            invariant
                i <= self.entries@.len(),
                all == self.entries(),
                position_of(all, wanted@) == position_of(all.take(i as int), wanted@),
            decreases i,
        {
            if self.entries[i - 1].record.id == *wanted {
                return Some(i - 1);
            }
            proof {
                assert(all.take(i as int).drop_last() =~= all.take(i - 1));
            }
            i = i - 1;
        }
        None
    }
}

impl Default for InMemoryStore {
    fn default() -> (store: InMemoryStore)
        ensures
            store.entries() == Seq::<EntryView>::empty(),
    {
        InMemoryStore::new()
    }
}

impl VectorStore for InMemoryStore {
    closed spec fn entries(&self) -> Seq<EntryView> {
        entry_views(self.entries@)
    }

    fn insert(&mut self, record: MemoryRecord, embedding: Vec<i32>) {
        let ghost before = self.entries();
        let ghost added = EntryView { record: record@, embedding: embedding@ };
        self.entries.push(StoredEntry { record, embedding });
        assert(self.entries() =~= before.push(added));
    }

    fn delete(&mut self, id: &str) -> (r: Result<(), MemoryError>) {
        let ghost before = self.entries();
        let wanted: String = id.to_owned();
        let removed = remove_selected(&mut self.entries, &Selector::Id(&wanted));
        proof {
            lemma_position_of(before, id@);
        }
        if removed {
            Ok(())
        } else {
            proof {
                lemma_filter_all(before, spared(Selection::Id(id@)));
            }
            Err(MemoryError::NotFound(wanted))
        }
    }

    fn get(&self, id: &str) -> (r: Option<MemoryRecord>) {
        let wanted: String = id.to_owned();
        match self.find(&wanted) {
            Some(at) => Some(self.entries[at].record.clone()),
            None => None,
        }
    }

    fn list(&self, filter: Option<&Filters>, limit: usize) -> (r: Vec<MemoryRecord>) {
        let ghost all = self.entries();
        let ghost f = filter_view(filter);
        let mut out: Vec<MemoryRecord> = Vec::new();
        let n: usize = self.entries.len();
        let mut i: usize = 0;
        proof {
            reveal(Seq::filter);
            assert(all.take(0) =~= Seq::<EntryView>::empty());
            assert(record_views(out@) =~= Seq::<RecordView>::empty());
            assert(matching(all.take(0), f).map_values(record_of()) =~= Seq::<
                RecordView,
            >::empty());
        }
        while i < n && out.len() < limit
            invariant
                n == self.entries@.len(),
                i <= n,
                all == self.entries(),
                f == filter_view(filter),
                out@.len() <= limit,
                record_views(out@) == matching(all.take(i as int), f).map_values(record_of()),
            decreases n - i,
        {
            let ghost prior = record_views(out@);
            proof {
                lemma_filter_step(all, chosen(Selection::Filter(f)), i as int);
            }
            if passes_filter(filter, &self.entries[i].record) {
                out.push(self.entries[i].record.clone());
                proof {
                    assert(record_views(out@) =~= prior.push(all[i as int].record));
                    assert(matching(all.take(i + 1), f).map_values(record_of()) =~= matching(
                        all.take(i as int),
                        f,
                    ).map_values(record_of()).push(all[i as int].record));
                }
            }
            i = i + 1;
        }
        proof {
            let head = all.take(i as int);
            let tail = all.skip(i as int);
            assert(all =~= head + tail);
            Seq::filter_distributes_over_add(head, tail, chosen(Selection::Filter(f)));
            let listed = matching(head, f).map_values(record_of());
            let rest = matching(tail, f).map_values(record_of());
            assert(matching(all, f).map_values(record_of()) =~= listed + rest);
            if i < n {
                assert(prefix(listed + rest, limit as nat) =~= listed);
            } else {
                assert(tail =~= Seq::<EntryView>::empty());
                reveal(Seq::filter);
                assert(rest =~= Seq::<RecordView>::empty());
                assert(listed + rest =~= listed);
            }
        }
        out
    }

    fn search(&self, query: &[i32], k: usize, filter: Option<&Filters>) -> (r: Result<
        Vec<ScoredMemory>,
        MemoryError,
    >) {
        let ghost all = self.entries();
        let ghost f = filter_view(filter);
        let mut best: Vec<ScoredMemory> = Vec::new();
        let n: usize = self.entries.len();
        let mut i: usize = 0;
        proof {
            reveal(Seq::filter);
            assert(all.skip(0) =~= all);
            assert(all.take(0) =~= Seq::<EntryView>::empty());
            assert(scored(all.take(0), query@, f) =~= Seq::<ScoredView>::empty());
            assert(scored_views(best@) =~= Seq::<ScoredView>::empty());
        }
        while i < n
            invariant
                n == self.entries@.len(),
                i <= n,
                all == self.entries(),
                f == filter_view(filter),
                first_mismatch(all, query@.len(), f) == first_mismatch(
                    all.skip(i as int),
                    query@.len(),
                    f,
                ),
                scored_views(best@) == prefix(ranked(scored(all.take(i as int), query@, f)), k as nat),
                is_ranked(scored_views(best@)),
                best@.len() <= k,
            decreases n - i,
        {
            let ghost so_far = scored(all.take(i as int), query@, f);
            let ghost kept = scored_views(best@);
            proof {
                lemma_filter_step(all, chosen(Selection::Filter(f)), i as int);
                assert(all.skip(i as int)[0] == all[i as int]);
                assert(all.skip(i as int).drop_first() =~= all.skip(i + 1));
            }
            if passes_filter(filter, &self.entries[i].record) {
                match cosine_similarity(query, self.entries[i].embedding.as_slice()) {
                    Err(e) => {
                        return Err(e);
                    },
                    Ok(score) => {
                        let ghost item = ScoredView {
                            record: all[i as int].record,
                            score: score as int,
                        };
                        proof {
                            assert(scored(all.take(i + 1), query@, f) =~= so_far.push(item));
                            assert(so_far.push(item).drop_last() =~= so_far);
                            lemma_ranked_is_ranked(so_far);
                            lemma_rank_insert_prefix(ranked(so_far), item, k as nat);
                        }
                        if find_position(&best, score) < k {
                            place(
                                &mut best,
                                ScoredMemory { record: self.entries[i].record.clone(), score },
                                k,
                            );
                        } else {
                            proof {
                                lemma_rank_position(kept, item.score);
                                assert(prefix(rank_insert(kept, item), k as nat) =~= kept);
                            }
                        }
                    },
                }
            }
            i = i + 1;
        }
        proof {
            assert(all.take(n as int) =~= all);
            assert(all.skip(n as int) =~= Seq::<EntryView>::empty());
        }
        Ok(best)
    }

    fn update(&mut self, id: &str, embedding: Option<Vec<i32>>, payload: MemoryRecord) -> (r:
        Result<(), MemoryError>) {
        let ghost before = self.entries();
        let wanted: String = id.to_owned();
        match self.find(&wanted) {
            None => Err(MemoryError::NotFound(wanted)),
            Some(at) => {
                let ghost stored = before[at as int];
                let record = MemoryRecord {
                    id: self.entries[at].record.id.clone(),
                    content: payload.content,
                    metadata: payload.metadata,
                    created_at: self.entries[at].record.created_at,
                    user_id: payload.user_id,
                    agent_id: payload.agent_id,
                    run_id: payload.run_id,
                };
                self.entries[at].record = record;
                match embedding {
                    Some(vector) => {
                        self.entries[at].embedding = vector;
                    },
                    None => {},
                }
                assert(self.entries() =~= update_result(
                    before,
                    id@,
                    vector_view(embedding),
                    payload@,
                ));
                Ok(())
            },
        }
    }

    fn delete_all(&mut self, filter: Option<&Filters>) {
        let _ = remove_selected(&mut self.entries, &Selector::Filter(filter));
    }

    fn count(&self) -> (n: usize) {
        self.entries.len()
    }
}

/// Stores the record with the embedding that an embedder answered, and
/// hands the record back; hands on the embedder's error as it is, and
/// stores nothing then.
pub fn store_embedded<S: VectorStore>(
    store: &mut S,
    record: MemoryRecord,
    embedded: Result<Vec<i32>, MemoryError>,
) -> (r: Result<MemoryRecord, MemoryError>)
    ensures
        match embedded {
            Ok(embedding) => r is Ok && r->Ok_0@ == record@ && final(store).entries() == old(store).entries().push((EntryView { record: record@, embedding: embedding@ })),
            Err(e) => r == Err::<MemoryRecord, MemoryError>(e) && final(store).entries() == old(store).entries(),
        },
{
    match embedded {
        Ok(embedding) => {
            store.insert(record.clone(), embedding);
            Ok(record)
        },
        Err(e) => Err(e),
    }
}

/// Embeds the record's content and stores the record with the embedding;
/// hands the record back. Where the embedder fails, nothing is stored.
pub fn embed_and_store<S: VectorStore, E: Embedder>(
    store: &mut S,
    embedder: &E,
    record: MemoryRecord,
) -> (r: Result<MemoryRecord, MemoryError>)
    ensures
        embedder.never_fails() ==> r is Ok,
        r is Ok ==> r->Ok_0@ == record@ && final(store).entries() == old(store).entries().push(
            (EntryView { record: record@, embedding: embedder.spec_embed(record@.content) }),
        ),
        r is Err ==> r->Err_0 is EmbeddingError && !embedder.never_fails(),
        r is Err ==> final(store).entries() == old(store).entries(),
{
    let embedded = embedder.embed(record.content.as_str());
    store_embedded(store, record, embedded)
}

/// The length of the first stored embedding that differs in length from
/// the embedder's vectors, if any does.
pub open spec fn search_mismatch<S: VectorStore, E: Embedder>(store: &S, embedder: &E) -> Option<
    nat,
> {
    first_mismatch(store.entries(), embedder.spec_dimensions(), None)
}

/// Searches the whole store with the vector that an embedder answered for
/// the `max_results` entries most similar to it; hands on the embedder's
/// error as it is.
pub fn search_embedded<S: VectorStore>(
    store: &S,
    embedded: Result<Vec<i32>, MemoryError>,
    max_results: usize,
) -> (r: Result<Vec<ScoredMemory>, MemoryError>)
    ensures
        match embedded {
            Ok(query) => {
                &&& r is Ok <==> first_mismatch(store.entries(), query@.len(), None) is None
                &&& r is Ok ==> scored_views(r->Ok_0@) == search_result(
                    store.entries(),
                    query@,
                    max_results as nat,
                    None,
                )
                &&& r is Err ==> r->Err_0@ == (ErrorView::DimensionMismatch {
                    expected: query@.len(),
                    actual: first_mismatch(store.entries(), query@.len(), None)->Some_0,
                })
            },
            Err(e) => r == Err::<Vec<ScoredMemory>, MemoryError>(e),
        },
{
    match embedded {
        Ok(query) => store.search(query.as_slice(), max_results, None),
        Err(e) => Err(e),
    }
}

/// Embeds the query and searches the whole store for the `max_results`
/// entries most similar to it.
pub fn search_store<S: VectorStore, E: Embedder>(
    store: &S,
    embedder: &E,
    query: &str,
    max_results: usize,
) -> (r: Result<Vec<ScoredMemory>, MemoryError>)
    ensures
        embedder.never_fails() && search_mismatch(store, embedder) is None ==> r is Ok,
        r is Ok ==> search_mismatch(store, embedder) is None && scored_views(r->Ok_0@)
            == search_result(
            store.entries(),
            embedder.spec_embed(query@),
            max_results as nat,
            None,
        ),
        r is Err ==> (r->Err_0 is EmbeddingError && !embedder.never_fails()) || (search_mismatch(
            store,
            embedder,
        )
            is Some && r->Err_0@ == (ErrorView::DimensionMismatch {
            expected: embedder.spec_dimensions(),
            actual: search_mismatch(store, embedder)->Some_0,
        })),
{
    search_embedded(store, embedder.embed(query), max_results)
}

} // verus!
