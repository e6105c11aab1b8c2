//! Ranking of scored jobs: best score first, equal scores by job id, and
//! truncation to the best `k`.

use crate::lexical::{
    lemma_lex_asymmetric, lemma_lex_total, lemma_lex_transitive, lex_lt, lex_order, Order,
};
use vstd::prelude::*;

verus! {

/// One job, scored against the candidate.
#[derive(Clone, Debug)]
pub struct MatchResult {
    /// The id of the job.
    pub job_id: String,
    /// Composite score in hundredths of a point: 3000 stands for 30.00.
    pub score: u32,
    /// The skills that candidate and job share, in lexicographic order.
    pub matched_skills: Vec<String>,
    /// The similarity behind the score, for the record.
    pub explanation: String,
}

/// What a `MatchResult` holds, as plain values.
pub ghost struct MatchView {
    pub job_id: Seq<char>,
    pub score: int,
    pub matched_skills: Seq<Seq<char>>,
    pub explanation: Seq<char>,
}

impl View for MatchResult {
    type V = MatchView;

    open spec fn view(&self) -> MatchView {
        MatchView {
            job_id: self.job_id@,
            score: self.score as int,
            matched_skills: self.matched_skills.deep_view(),
            explanation: self.explanation@,
        }
    }
}

/// The views of a sequence of results, in the same order.
pub open spec fn views(results: Seq<MatchResult>) -> Seq<MatchView> {
    results.map_values(|r: MatchResult| r@)
}

/// `a` must stand before `b`: it has the higher score, or the same score and
/// the job id that comes first.
pub open spec fn ranks_before(a: MatchView, b: MatchView) -> bool {
    a.score > b.score || (a.score == b.score && lex_lt(a.job_id, b.job_id))
}

/// No result stands behind one that it must stand before: scores never rise
/// along the sequence, and among equal scores job ids never fall.
pub open spec fn in_rank_order(results: Seq<MatchView>) -> bool {
    forall|i: int, j: int|
        0 <= i < j < results.len() ==> !ranks_before(#[trigger] results[j], #[trigger] results[i])
}

/// A ranked sequence with one more result: it goes in front of the results
/// that it must stand before, and behind all others, those of its own score
/// and job id included.
pub open spec fn place(ranked: Seq<MatchView>, item: MatchView) -> Seq<MatchView>
    decreases ranked.len(),
{
    if ranked.len() > 0 && ranks_before(item, ranked.last()) {
        place(ranked.drop_last(), item).push(ranked.last())
    } else {
        ranked.push(item)
    }
}

/// The full ranking of `results`: each result placed in turn, so that results
/// of equal score and job id keep the order in which they came.
pub open spec fn ranking(results: Seq<MatchView>) -> Seq<MatchView>
    decreases results.len(),
{
    if results.len() == 0 {
        Seq::empty()
    } else {
        place(ranking(results.drop_last()), results.last())
    }
}

/// The first `top_k` of a ranking, or all of it where no limit is given or
/// the limit is beyond its end.
pub open spec fn top(ranked: Seq<MatchView>, top_k: Option<int>) -> Seq<MatchView> {
    match top_k {
        Some(k) if 0 <= k < ranked.len() => ranked.take(k),
        _ => ranked,
    }
}

/// A limit on the number of results as a plain number.
pub open spec fn limit_of(top_k: Option<usize>) -> Option<int> {
    match top_k {
        Some(k) => Some(k as int),
        None => None,
    }
}

/// The order that ranking goes by is transitive.
pub proof fn lemma_ranks_before_transitive(a: MatchView, b: MatchView, c: MatchView)
    requires
        ranks_before(a, b),
        ranks_before(b, c),
    ensures
        ranks_before(a, c),
{
    if a.score == b.score && b.score == c.score {
        lemma_lex_transitive(a.job_id, b.job_id, c.job_id);
    }
}

/// Standing behind is transitive too: if `c` need not stand before `b`, nor
/// `b` before `a`, then `c` need not stand before `a`.
pub proof fn lemma_not_before_transitive(a: MatchView, b: MatchView, c: MatchView)
    requires
        !ranks_before(b, a),
        !ranks_before(c, b),
    ensures
        !ranks_before(c, a),
{
    if a.score == b.score && b.score == c.score && lex_lt(c.job_id, a.job_id) {
        lemma_lex_total(a.job_id, b.job_id);
        lemma_lex_total(b.job_id, c.job_id);
        if a.job_id == b.job_id {
        } else if b.job_id == c.job_id {
        } else {
            lemma_lex_transitive(a.job_id, b.job_id, c.job_id);
            lemma_lex_asymmetric(a.job_id, c.job_id);
        }
    }
}

/// Placing a result adds one to the length and keeps every other result.
pub proof fn lemma_place_members(ranked: Seq<MatchView>, item: MatchView)
    ensures
        place(ranked, item).len() == ranked.len() + 1,
        place(ranked, item).to_multiset() == ranked.to_multiset().insert(item),
    decreases ranked.len(),
{
    broadcast use vstd::seq_lib::group_to_multiset_ensures;

    if ranked.len() > 0 && ranks_before(item, ranked.last()) {
        let front = ranked.drop_last();
        lemma_place_members(front, item);
        assert(ranked =~= front.push(ranked.last()));
        assert(place(ranked, item).to_multiset() =~= ranked.to_multiset().insert(item));
    }
}

/// Where `place` puts a result: behind the first `at` results, none of which
/// it must stand before, and in front of the rest, all of which it must.
pub proof fn lemma_place_at(ranked: Seq<MatchView>, item: MatchView, at: int)
    requires
        0 <= at <= ranked.len(),
        forall|i: int| at <= i < ranked.len() ==> ranks_before(item, #[trigger] ranked[i]),
        at > 0 ==> !ranks_before(item, ranked[at - 1]),
    ensures
        place(ranked, item) == ranked.insert(at, item),
    decreases ranked.len(),
{
    if at < ranked.len() {
        let front = ranked.drop_last();
        lemma_place_at(front, item, at);
        assert(front.insert(at, item).push(ranked.last()) =~= ranked.insert(at, item));
    } else {
        assert(ranked.push(item) =~= ranked.insert(at, item));
    }
}

/// Placing a result into a sequence in rank order leaves it in rank order.
pub proof fn lemma_place_ordered(ranked: Seq<MatchView>, item: MatchView)
    requires
        in_rank_order(ranked),
    ensures
        in_rank_order(place(ranked, item)),
    decreases ranked.len(),
{
    if ranked.len() > 0 && ranks_before(item, ranked.last()) {
        let front = ranked.drop_last();
        let last = ranked.last();
        assert(in_rank_order(front)) by {
            assert forall|i: int, j: int| 0 <= i < j < front.len() implies !ranks_before(
                #[trigger] front[j],
                #[trigger] front[i],
            ) by {
                assert(front[i] == ranked[i] && front[j] == ranked[j]);
            }
        }
        lemma_place_ordered(front, item);
        lemma_place_members(front, item);
        let placed = place(front, item);
        let whole = placed.push(last);
        assert forall|i: int, j: int| 0 <= i < j < whole.len() implies !ranks_before(
            #[trigger] whole[j],
            #[trigger] whole[i],
        ) by {
            if j < placed.len() {
                assert(whole[i] == placed[i] && whole[j] == placed[j]);
            } else {
                // whole[j] is the old last result; whole[i] is the new one or
                // a result that stood in front of the old last.
                broadcast use vstd::seq_lib::group_to_multiset_ensures;

                assert(placed.to_multiset().count(placed[i]) > 0);
                if placed[i] == item {
                    if ranks_before(last, item) {
                        lemma_ranks_before_transitive(last, item, last);
                        lemma_ranks_before_irreflexive(last);
                    }
                } else {
                    assert(front.to_multiset().count(placed[i]) > 0);
                    assert(front.contains(placed[i]));
                    let k = choose|k: int| 0 <= k < front.len() && front[k] == placed[i];
                    assert(ranked[k] == placed[i]);
                    assert(!ranks_before(ranked[ranked.len() - 1], ranked[k]));
                }
            }
        }
    } else {
        let whole = ranked.push(item);
        assert forall|i: int, j: int| 0 <= i < j < whole.len() implies !ranks_before(
            #[trigger] whole[j],
            #[trigger] whole[i],
        ) by {
            if j < ranked.len() {
                assert(whole[i] == ranked[i] && whole[j] == ranked[j]);
            } else {
                assert(whole[i] == ranked[i]);
                if i < ranked.len() - 1 {
                    assert(!ranks_before(ranked[ranked.len() - 1], ranked[i]));
                    lemma_not_before_transitive(ranked[i], ranked.last(), item);
                }
            }
        }
    }
}

/// No result must stand before itself.
pub proof fn lemma_ranks_before_irreflexive(a: MatchView)
    ensures
        !ranks_before(a, a),
{
}

/// Rank order: along a ranking scores never rise, and among equal scores job
/// ids never fall.
pub proof fn lemma_ranking_ordered(results: Seq<MatchView>)
    ensures
        in_rank_order(ranking(results)),
        forall|i: int, j: int|
            0 <= i < j < ranking(results).len() ==> (#[trigger] ranking(results)[i]).score >= (
            #[trigger] ranking(results)[j]).score,
        forall|i: int, j: int|
            0 <= i < j < ranking(results).len() && (#[trigger] ranking(results)[i]).score == (
            #[trigger] ranking(results)[j]).score ==> !lex_lt(
                ranking(results)[j].job_id,
                ranking(results)[i].job_id,
            ),
    decreases results.len(),
{
    if results.len() > 0 {
        lemma_ranking_ordered(results.drop_last());
        lemma_place_ordered(ranking(results.drop_last()), results.last());
    }
    let ranked = ranking(results);
    assert forall|i: int, j: int| 0 <= i < j < ranked.len() implies {
        &&& (#[trigger] ranked[i]).score >= (#[trigger] ranked[j]).score
        &&& ranked[i].score == ranked[j].score ==> !lex_lt(ranked[j].job_id, ranked[i].job_id)
    } by {
        assert(!ranks_before(ranked[j], ranked[i]));
    }
}

/// A ranking holds the results that were given, each as often as it was given.
pub proof fn lemma_ranking_members(results: Seq<MatchView>)
    ensures
        ranking(results).len() == results.len(),
        ranking(results).to_multiset() == results.to_multiset(),
    decreases results.len(),
{
    broadcast use vstd::seq_lib::group_to_multiset_ensures;

    if results.len() > 0 {
        let front = results.drop_last();
        lemma_ranking_members(front);
        lemma_place_members(ranking(front), results.last());
        assert(results =~= front.push(results.last()));
    } else {
        assert(results =~= Seq::<MatchView>::empty());
    }
}

/// Cutting a ranking leaves it in rank order.
pub proof fn lemma_top_ordered(results: Seq<MatchView>, top_k: Option<int>)
    ensures
        in_rank_order(top(ranking(results), top_k)),
{
    lemma_ranking_ordered(results);
    let ranked = ranking(results);
    let cut = top(ranked, top_k);
    assert forall|i: int, j: int| 0 <= i < j < cut.len() implies !ranks_before(
        #[trigger] cut[j],
        #[trigger] cut[i],
    ) by {
        assert(cut[i] == ranked[i] && cut[j] == ranked[j]);
    }
}

/// The results that have the score and the job id of `like`.
pub open spec fn alike(like: MatchView) -> spec_fn(MatchView) -> bool {
    |m: MatchView| m.score == like.score && m.job_id == like.job_id
}

/// Placing a result does not reorder the results of any one score and job id:
/// the new result joins those like it at their end.
pub proof fn lemma_place_stable(ranked: Seq<MatchView>, item: MatchView, like: MatchView)
    ensures
        place(ranked, item).filter(alike(like)) == if alike(like)(item) {
            ranked.filter(alike(like)).push(item)
        } else {
            ranked.filter(alike(like))
        },
    decreases ranked.len(),
{
    reveal(Seq::filter);
    if ranked.len() > 0 && ranks_before(item, ranked.last()) {
        let front = ranked.drop_last();
        let last = ranked.last();
        lemma_place_stable(front, item, like);
        let placed = place(front, item);
        assert(placed.push(last).drop_last() =~= placed);
        if alike(like)(item) && alike(like)(last) {
            crate::lexical::lemma_lex_irreflexive(item.job_id);
        }
    } else {
        assert(ranked.push(item).drop_last() =~= ranked);
    }
}

/// Ranking is stable: the results of any one score and job id stand in the
/// ranking in the order in which they were given.
pub proof fn lemma_ranking_stable(results: Seq<MatchView>, like: MatchView)
    ensures
        ranking(results).filter(alike(like)) == results.filter(alike(like)),
    decreases results.len(),
{
    reveal(Seq::filter);
    if results.len() > 0 {
        lemma_ranking_stable(results.drop_last(), like);
        lemma_place_stable(ranking(results.drop_last()), results.last(), like);
    }
}

/// Top-K: a limit that is not negative gives that many results, or all where
/// there are fewer; a limit of zero gives none; no limit gives what a limit
/// of the full length gives.
pub proof fn lemma_top_k(results: Seq<MatchView>, k: int)
    requires
        k >= 0,
    ensures
        top(ranking(results), Some(k)).len() == if k <= results.len() {
            k
        } else {
            results.len() as int
        },
        top(ranking(results), Some(0)).len() == 0,
        top(ranking(results), None) == top(ranking(results), Some(results.len() as int)),
        top(ranking(results), Some(k)) == ranking(results).take(
            if k <= results.len() {
                k
            } else {
                results.len() as int
            },
        ),
{
    lemma_ranking_members(results);
    let ranked = ranking(results);
    assert(ranked.take(ranked.len() as int) =~= ranked);
}

/// Whether `a` must stand before `b`.
pub fn must_precede(a: &MatchResult, b: &MatchResult) -> (r: bool)
    ensures
        r == ranks_before(a@, b@),
{
    if a.score != b.score {
        a.score > b.score
    } else {
        match lex_order(a.job_id.as_str(), b.job_id.as_str()) {
            Order::Before => true,
            Order::Same => {
                proof {
                    crate::lexical::lemma_lex_irreflexive(a.job_id@);
                }
                false
            },
            Order::After => {
                proof {
                    lemma_lex_total(a.job_id@, b.job_id@);
                }
                false
            },
        }
    }
}

/// Ranks `results` and keeps the best `top_k` of them, or all where no limit
/// is given.
pub fn rank(results: Vec<MatchResult>, top_k: Option<usize>) -> (ranked: Vec<MatchResult>)
    ensures
        views(ranked@) == top(ranking(views(results@)), limit_of(top_k)),
        in_rank_order(views(ranked@)),
        ranked.len() == match top_k {
            Some(k) if k < results.len() => k,
            _ => results.len(),
        },
{
    let ghost input = results@;
    let ghost given = views(results@);
    let mut ranked: Vec<MatchResult> = Vec::new();
    assert(views(ranked@) =~= ranking(given.take(0)));
    // Results are taken in the order given, so that each is placed behind
    // the equal ones that came before it.
    for item in it: results.into_iter()
        invariant
            it.seq() == input,
            given == views(input),
            views(ranked@) == ranking(given.take(it.index() as int)),
    {
        let ghost done = it.index() as int;
        let ghost placed_before = views(ranked@);
        let mut at: usize = ranked.len();
        while at > 0 && must_precede(&item, &ranked[at - 1])
            invariant
                0 <= at <= ranked.len(),
                placed_before == views(ranked@),
                forall|i: int|
                    at <= i < ranked.len() ==> ranks_before(item@, #[trigger] placed_before[i]),
            decreases at,
        {
            at = at - 1;
        }
        ranked.insert(at, item);
        proof {
            assert(item@ == given[done]);
            lemma_place_at(placed_before, item@, at as int);
            assert(views(ranked@) =~= placed_before.insert(at as int, item@));
            assert(given.take(done + 1).drop_last() =~= given.take(done));
            assert(given.take(done + 1).last() == given[done]);
        }
    }
    let ghost done = given.len() as int;
    proof {
        assert(given.take(done) =~= given);
        lemma_ranking_members(given);
        lemma_top_ordered(given, limit_of(top_k));
    }
    match top_k {
        Some(k) => {
            if k < ranked.len() {
                let ghost full = views(ranked@);
                ranked.truncate(k);
                assert(views(ranked@) =~= full.take(k as int));
            }
        },
        None => {},
    }
    ranked
}

} // verus!
