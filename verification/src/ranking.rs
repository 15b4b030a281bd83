//! Ranking of scored records: descending by score, and among equal scores in
//! the order in which they were given.

use vstd::prelude::*;
use vstd::seq_lib::{to_multiset_build, to_multiset_remove};
use crate::models::{ScoredMemory, ScoredView, scored_views};

verus! {

/// No element is scored higher than one before it.
pub open spec fn is_ranked(r: Seq<ScoredView>) -> bool {
    forall|i: int, j: int| 0 <= i < j < r.len() ==> r[i].score >= r[j].score
}

/// Where an element of the given score enters a ranked sequence: behind every
/// element that scores at least as high.
pub open spec fn rank_position(r: Seq<ScoredView>, score: int) -> int
    decreases r.len(),
{
    if r.len() == 0 || r.last().score >= score {
        r.len() as int
    } else {
        rank_position(r.drop_last(), score)
    }
}

/// The ranked sequence with one more element put in its place.
pub open spec fn rank_insert(r: Seq<ScoredView>, x: ScoredView) -> Seq<ScoredView> {
    r.insert(rank_position(r, x.score), x)
}

/// The elements of `s` ranked: each one in turn put in its place among those
/// before it.
pub open spec fn ranked(s: Seq<ScoredView>) -> Seq<ScoredView>
    decreases s.len(),
{
    if s.len() == 0 {
        s
    } else {
        rank_insert(ranked(s.drop_last()), s.last())
    }
}

/// The first `k` elements, or all of them where there are fewer.
pub open spec fn prefix<A>(s: Seq<A>, k: nat) -> Seq<A> {
    if k < s.len() {
        s.take(k as int)
    } else {
        s
    }
}

/// The elements with exactly this score.
pub open spec fn scoring(score: int) -> spec_fn(ScoredView) -> bool {
    |x: ScoredView| x.score == score
}

/// What `rank_position` finds: everything before it scores at least `score`
/// in a ranked sequence, everything from it on scores less.
pub proof fn lemma_rank_position(r: Seq<ScoredView>, score: int)
    ensures
        0 <= rank_position(r, score) <= r.len(),
        forall|i: int| rank_position(r, score) <= i < r.len() ==> (#[trigger] r[i]).score < score,
        rank_position(r, score) > 0 ==> r[rank_position(r, score) - 1].score >= score,
        is_ranked(r) ==> forall|i: int|
            0 <= i < rank_position(r, score) ==> (#[trigger] r[i]).score >= score,
    decreases r.len(),
{
    if r.len() == 0 || r.last().score >= score {
    } else {
        lemma_rank_position(r.drop_last(), score);
        let p = rank_position(r.drop_last(), score);
        assert forall|i: int| p <= i < r.len() implies (#[trigger] r[i]).score < score by {
            if i < r.len() - 1 {
                assert(r.drop_last()[i] == r[i]);
            }
        }
        if p > 0 {
            assert(r.drop_last()[p - 1] == r[p - 1]);
        }
        if is_ranked(r) {
            assert forall|i: int| 0 <= i < p implies (#[trigger] r[i]).score >= score by {
                assert(r[i].score >= r[p - 1].score);
            }
        }
    }
}

/// Putting an element in its place keeps a ranked sequence ranked.
pub proof fn lemma_rank_insert_ranked(r: Seq<ScoredView>, x: ScoredView)
    requires
        is_ranked(r),
    ensures
        is_ranked(rank_insert(r, x)),
        rank_insert(r, x).len() == r.len() + 1,
{
    lemma_rank_position(r, x.score);
    let p = rank_position(r, x.score);
    let out = rank_insert(r, x);
    assert forall|i: int, j: int| 0 <= i < j < out.len() implies out[i].score >= out[j].score by {
        if j < p {
            assert(out[i] == r[i] && out[j] == r[j]);
        } else if j == p {
            assert(out[i] == r[i]);
        } else if i == p {
            assert(out[j] == r[j - 1]);
        } else if i < p {
            assert(out[i] == r[i] && out[j] == r[j - 1]);
            assert(r[j - 1].score < x.score);
        } else {
            assert(out[i] == r[i - 1] && out[j] == r[j - 1]);
        }
    }
}

/// Search results are sorted: a ranking is non-increasing by score and keeps
/// every element.
pub proof fn lemma_ranked_is_ranked(s: Seq<ScoredView>)
    ensures
        is_ranked(ranked(s)),
        ranked(s).len() == s.len(),
    decreases s.len(),
{
    if s.len() > 0 {
        lemma_ranked_is_ranked(s.drop_last());
        lemma_rank_insert_ranked(ranked(s.drop_last()), s.last());
    }
}

/// A ranking is a rearrangement of what it was given: it holds every
/// element as often as that was given.
pub proof fn lemma_ranked_permutes(s: Seq<ScoredView>)
    ensures
        ranked(s).to_multiset() == s.to_multiset(),
    decreases s.len(),
{
    if s.len() > 0 {
        let head = s.drop_last();
        let r = ranked(head);
        let x = s.last();
        lemma_ranked_permutes(head);
        lemma_rank_position(r, x.score);
        let p = rank_position(r, x.score);
        let out = ranked(s);
        assert(out.remove(p) =~= r);
        assert(out[p] == x);
        to_multiset_remove(out, p);
        out.to_multiset_ensures();
        assert(out.contains(x));
        assert(out.to_multiset() =~= r.to_multiset().insert(x));
        assert(head.push(x) =~= s);
        to_multiset_build(head, x);
    }
}

/// Ties keep their order: the elements of any one score stand in a ranking in
/// the order in which they were given.
pub proof fn lemma_ranked_stable(s: Seq<ScoredView>, score: int)
    ensures
        ranked(s).filter(scoring(score)) == s.filter(scoring(score)),
    decreases s.len(),
{
    reveal(Seq::filter);
    if s.len() > 0 {
        let x = s.last();
        let r = ranked(s.drop_last());
        lemma_ranked_stable(s.drop_last(), score);
        lemma_ranked_is_ranked(s.drop_last());
        lemma_rank_position(r, x.score);
        let p = rank_position(r, x.score);
        let head = r.take(p);
        let tail = r.skip(p);
        let pred = scoring(score);
        assert(rank_insert(r, x) =~= head + seq![x] + tail);
        assert(r =~= head + tail);
        Seq::filter_distributes_over_add(head, tail, pred);
        Seq::filter_distributes_over_add(head + seq![x], tail, pred);
        Seq::filter_distributes_over_add(head, seq![x], pred);
        assert(seq![x].drop_last() =~= Seq::<ScoredView>::empty());
        assert(Seq::<ScoredView>::empty().filter(pred) =~= Seq::<ScoredView>::empty());
        if x.score == score {
            assert(seq![x].filter(pred) =~= seq![x]);
            lemma_filter_none(tail, pred);
            assert(ranked(s).filter(pred) =~= r.filter(pred).push(x));
        } else {
            assert(seq![x].filter(pred) =~= Seq::<ScoredView>::empty());
            assert(ranked(s).filter(pred) =~= r.filter(pred));
        }
    }
}

/// A filter keeps nothing of a sequence in which nothing meets it.
pub proof fn lemma_filter_none<A>(s: Seq<A>, pred: spec_fn(A) -> bool)
    requires
        forall|i: int| 0 <= i < s.len() ==> !pred(#[trigger] s[i]),
    ensures
        s.filter(pred) == Seq::<A>::empty(),
    decreases s.len(),
{
    reveal(Seq::filter);
    if s.len() > 0 {
        assert forall|i: int| 0 <= i < s.drop_last().len() implies !pred(
            #[trigger] s.drop_last()[i],
        ) by {
            assert(s.drop_last()[i] == s[i]);
        }
        lemma_filter_none(s.drop_last(), pred);
    }
}

/// Whatever a filter keeps was there before.
pub proof fn lemma_filter_members<A>(s: Seq<A>, pred: spec_fn(A) -> bool)
    ensures
        forall|k: int|
            0 <= k < s.filter(pred).len() ==> exists|i: int|
                0 <= i < s.len() && s[i] == #[trigger] s.filter(pred)[k],
    decreases s.len(),
{
    reveal(Seq::filter);
    if s.len() > 0 {
        let head = s.drop_last();
        lemma_filter_members(head, pred);
        assert forall|k: int| 0 <= k < s.filter(pred).len() implies exists|i: int|
            0 <= i < s.len() && s[i] == #[trigger] s.filter(pred)[k] by {
            if k < head.filter(pred).len() {
                let i = choose|i: int| 0 <= i < head.len() && head[i] == head.filter(pred)[k];
                assert(s[i] == s.filter(pred)[k]);
            } else {
                assert(s[s.len() - 1] == s.filter(pred)[k]);
            }
        }
    }
}

/// What a filter keeps of a ranking is a ranking, and so is what a prefix
/// keeps.
pub proof fn lemma_selection_is_ranked(r: Seq<ScoredView>, pred: spec_fn(ScoredView) -> bool, k: nat)
    requires
        is_ranked(r),
    ensures
        is_ranked(r.filter(pred)),
        is_ranked(prefix(r.filter(pred), k)),
        prefix(r.filter(pred), k).len() <= k,
        prefix(r.filter(pred), k).len() <= r.len(),
    decreases r.len(),
{
    reveal(Seq::filter);
    r.lemma_filter_len(pred);
    if r.len() > 0 {
        let head = r.drop_last();
        assert(is_ranked(head)) by {
            assert forall|i: int, j: int| 0 <= i < j < head.len() implies head[i].score
                >= head[j].score by {
                assert(head[i] == r[i] && head[j] == r[j]);
            }
        }
        lemma_selection_is_ranked(head, pred, k);
        lemma_filter_members(head, pred);
        let kept = r.filter(pred);
        assert forall|i: int, j: int| 0 <= i < j < kept.len() implies kept[i].score
            >= kept[j].score by {
            if j < head.filter(pred).len() {
                assert(kept[i] == head.filter(pred)[i] && kept[j] == head.filter(pred)[j]);
            } else {
                let at = choose|at: int|
                    0 <= at < head.len() && head[at] == head.filter(pred)[i];
                assert(kept[i] == r[at]);
                assert(kept[j] == r[r.len() - 1]);
            }
        }
    }
    let kept = r.filter(pred);
    let short = prefix(kept, k);
    assert forall|i: int, j: int| 0 <= i < j < short.len() implies short[i].score
        >= short[j].score by {
        assert(short[i] == kept[i] && short[j] == kept[j]);
    }
}

/// Only the first `k` of a ranking decide the first `k` after one more
/// element is put in its place.
pub proof fn lemma_rank_insert_prefix(r: Seq<ScoredView>, x: ScoredView, k: nat)
    requires
        is_ranked(r),
    ensures
        prefix(rank_insert(r, x), k) == prefix(rank_insert(prefix(r, k), x), k),
        rank_position(prefix(r, k), x.score) == if rank_position(r, x.score) < k {
            rank_position(r, x.score)
        } else {
            prefix(r, k).len() as int
        },
{
    let p = rank_position(r, x.score);
    let short = prefix(r, k);
    lemma_rank_position(r, x.score);
    lemma_rank_position(short, x.score);
    let q = rank_position(short, x.score);
    if k < r.len() {
        assert(is_ranked(short)) by {
            assert forall|i: int, j: int| 0 <= i < j < short.len() implies short[i].score
                >= short[j].score by {
                assert(short[i] == r[i] && short[j] == r[j]);
            }
        }
        if p < k {
            // the same place in both
            if q < p {
                assert(short[q] == r[q]);
                assert(r[q].score >= x.score);
            } else if q > p {
                assert(short[q - 1] == r[q - 1]);
                assert(r[q - 1].score < x.score);
            }
            assert(q == p);
        } else {
            // everything kept scores at least as high
            if q < k {
                assert(short[q] == r[q]);
                assert(r[q].score >= x.score);
            }
            assert(q == k);
        }
        assert(prefix(rank_insert(r, x), k) =~= prefix(rank_insert(short, x), k));
    }
}

/// Where an element of this score enters the ranked list.
pub(crate) fn find_position(ranking: &Vec<ScoredMemory>, score: i32) -> (p: usize)
    ensures
        p as int == rank_position(scored_views(ranking@), score as int),
{
    let ghost views = scored_views(ranking@);
    let mut p: usize = ranking.len();
    assert(views.take(p as int) =~= views);
    while p > 0 && ranking[p - 1].score < score
        invariant
            p <= ranking.len(),
            views == scored_views(ranking@),
            rank_position(views, score as int) == rank_position(views.take(p as int), score as int),
        decreases p,
    {
        proof {
            assert(views.take(p as int).drop_last() =~= views.take(p - 1));
        }
        p = p - 1;
    }
    p
}

/// Puts one more element in its place in a ranked list that keeps at most
/// `k` elements.
pub(crate) fn place(ranking: &mut Vec<ScoredMemory>, item: ScoredMemory, k: usize)
    requires
        is_ranked(scored_views(old(ranking)@)),
        old(ranking)@.len() <= k,
    ensures
        scored_views(final(ranking)@) == prefix(
            rank_insert(scored_views(old(ranking)@), item@),
            k as nat,
        ),
        is_ranked(scored_views(final(ranking)@)),
        final(ranking)@.len() <= k,
{
    let ghost before = scored_views(ranking@);
    let p: usize = find_position(ranking, item.score);
    proof {
        lemma_rank_position(before, item@.score);
        lemma_rank_insert_ranked(before, item@);
    }
    if p < k {
        ranking.insert(p, item);
        assert(scored_views(ranking@) =~= rank_insert(before, item@));
        if ranking.len() > k {
            let _ = ranking.pop();
            assert(scored_views(ranking@) =~= prefix(rank_insert(before, item@), k as nat));
        }
    } else {
        assert(before =~= prefix(rank_insert(before, item@), k as nat));
    }
    proof {
        let full = rank_insert(before, item@);
        let kept = scored_views(ranking@);
        assert(kept == prefix(full, k as nat));
        assert forall|i: int, j: int| 0 <= i < j < kept.len() implies kept[i].score
            >= kept[j].score by {
            assert(kept[i] == full[i] && kept[j] == full[j]);
        }
    }
}

} // verus!
