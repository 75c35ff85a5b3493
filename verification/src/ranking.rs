//! Ranking a challenge's results: a stable sort by score in the challenge's
//! direction, after which result `i` has rank `i + 1`.
use vstd::prelude::*;
use crate::challenge::{ChallengeResult, ResultView, SubmissionView};
use crate::order::{identity_order, int_keys, is_stable_order, lemma_reorder_to_multiset, reorder, stable_before, stable_order};
use crate::quantity::{order_key, real_is_nan, real_lt};

verus! {

/// `a` ranks strictly ahead of `b` by score in the given direction.
pub open spec fn strictly_better(a: ResultView, b: ResultView, lower: bool) -> bool {
    if lower {
        real_lt(a.submission.score, b.submission.score)
    } else {
        real_lt(b.submission.score, a.submission.score)
    }
}

/// No result ranks strictly ahead of one placed before it.
pub open spec fn in_score_order(rs: Seq<ResultView>, lower: bool) -> bool {
    forall|a: int, b: int|
        0 <= a < b < rs.len() ==> !strictly_better(#[trigger] rs[b], #[trigger] rs[a], lower)
}

/// Result `j` of every list has rank `j + 1`.
pub open spec fn ranks_are_positions(rs: Seq<ResultView>) -> bool {
    forall|j: int| 0 <= j < rs.len() ==> (#[trigger] rs[j]).rank == j + 1
}

/// The submissions that a list of results judges, in order.
pub open spec fn result_submissions(rs: Seq<ResultView>) -> Seq<SubmissionView> {
    rs.map_values(|r: ResultView| r.submission)
}

/// Sort key of a result: a smaller key ranks higher.
pub open spec fn result_key(r: ResultView, lower: bool) -> int {
    if lower {
        order_key(r.submission.score)
    } else {
        -order_key(r.submission.score)
    }
}

/// Sort keys of results: a smaller key ranks higher.
pub open spec fn rank_keys(rs: Seq<ResultView>, lower: bool) -> Seq<int> {
    rs.map_values(|r: ResultView| result_key(r, lower))
}

/// The results put in the order `ord`, result `i` ranked `i + 1`.
pub open spec fn apply_ranking(rs: Seq<ResultView>, ord: Seq<usize>) -> Seq<ResultView> {
    Seq::new(
        rs.len(),
        |i: int|
            ResultView {
                submission: rs[ord[i] as int].submission,
                rank: (i + 1) as usize,
                verified: rs[ord[i] as int].verified,
                conservation_error: rs[ord[i] as int].conservation_error,
            },
    )
}

/// `ranked` is `rs` stably sorted by score (ascending when `lower`, else
/// descending) and ranked 1, 2, ... in that order.
pub open spec fn is_ranking_of(rs: Seq<ResultView>, lower: bool, ranked: Seq<ResultView>) -> bool {
    exists|ord: Seq<usize>| is_stable_order(rank_keys(rs, lower), ord) && ranked == apply_ranking(rs, ord)
}

/// The scores of `rs` can be sorted: two or more of them are compared, and
/// none of those may be NaN.
pub open spec fn scores_comparable(rs: Seq<ResultView>) -> bool {
    rs.len() <= 1 || forall|i: int| 0 <= i < rs.len() ==> !real_is_nan((#[trigger] rs[i]).submission.score)
}

/// The ranking may compare the scores of `old_rs` and a new `score`.
pub open spec fn can_rank(old_rs: Seq<ResultView>, score: u64) -> bool {
    old_rs.len() == 0 || (!real_is_nan(score) && forall|i: int|
        0 <= i < old_rs.len() ==> !real_is_nan((#[trigger] old_rs[i]).submission.score))
}

/// A ranking lists every result once, ranks them 1, 2, ..., and never puts a
/// result below one it strictly beats.
pub proof fn lemma_ranking_ordered(rs: Seq<ResultView>, lower: bool, ranked: Seq<ResultView>)
    requires
        is_ranking_of(rs, lower, ranked),
        scores_comparable(rs),
        rs.len() <= usize::MAX,
    ensures
        ranked.len() == rs.len(),
        ranks_are_positions(ranked),
        in_score_order(ranked, lower),
{
    let ord = choose|ord: Seq<usize>| is_stable_order(rank_keys(rs, lower), ord) && ranked == apply_ranking(rs, ord);
    let keys = rank_keys(rs, lower);
    assert forall|j: int| 0 <= j < ranked.len() implies (#[trigger] ranked[j]).rank == j + 1 by {}
    assert forall|a: int, b: int| 0 <= a < b < ranked.len() implies !strictly_better(
        #[trigger] ranked[b],
        #[trigger] ranked[a],
        lower,
    ) by {
        assert(stable_before(keys, ord[a] as int, ord[b] as int));
        let sa = rs[ord[a] as int].submission.score;
        let sb = rs[ord[b] as int].submission.score;
        assert(!real_is_nan(rs[ord[a] as int].submission.score));
        assert(!real_is_nan(rs[ord[b] as int].submission.score));
        assert(keys[ord[a] as int] <= keys[ord[b] as int]);
    }
}

/// A ranking judges the same submissions, each as often, as the results it
/// ranks.
pub proof fn lemma_ranking_same_submissions(rs: Seq<ResultView>, lower: bool, ranked: Seq<ResultView>)
    requires
        is_ranking_of(rs, lower, ranked),
    ensures
        result_submissions(ranked).to_multiset() == result_submissions(rs).to_multiset(),
{
    let ord = choose|ord: Seq<usize>| is_stable_order(rank_keys(rs, lower), ord) && ranked == apply_ranking(rs, ord);
    assert forall|i: int, j: int| 0 <= i < j < ord.len() implies (#[trigger] ord[i]) != (#[trigger] ord[j]) by {
        assert(stable_before(rank_keys(rs, lower), ord[i] as int, ord[j] as int));
    }
    assert(result_submissions(ranked) =~= reorder(result_submissions(rs), ord));
    lemma_reorder_to_multiset(result_submissions(rs), ord);
}

pub open spec fn results_view(rs: Seq<ChallengeResult>) -> Seq<ResultView> {
    rs.map_values(|r: ChallengeResult| r@)
}

/// The results stably sorted by score and ranked 1, 2, ... in that order.
pub fn rank_results(rs: &Vec<ChallengeResult>, lower: bool) -> (out: Vec<ChallengeResult>)
    requires
        scores_comparable(results_view(rs@)),
    ensures
        is_ranking_of(results_view(rs@), lower, results_view(out@)),
{
    let ghost rv = results_view(rs@);
    let n = rs.len();
    let mut keys: Vec<i128> = Vec::new();
    let mut j: usize = 0;
    while j < n
        invariant
            n == rs.len(),
            rv == results_view(rs@),
            j <= n,
            keys.len() == j,
            forall|q: int| 0 <= q < j ==> (#[trigger] keys@[q]) as int == rank_keys(rv, lower)[q],
        decreases n - j,
    {
        let k = rs[j].submission.score.key();
        if lower {
            keys.push(k as i128);
        } else {
            keys.push(-(k as i128));
        }
        j = j + 1;
    }
    let ord = stable_order(&keys);
    assert(int_keys(keys@) =~= rank_keys(rv, lower));
    let mut out: Vec<ChallengeResult> = Vec::new();
    let mut j: usize = 0;
    while j < n
        invariant
            n == rs.len(),
            rv == results_view(rs@),
            is_stable_order(rank_keys(rv, lower), ord@),
            j <= n,
            out.len() == j,
            forall|q: int| 0 <= q < j ==> (#[trigger] out@[q])@ == apply_ranking(rv, ord@)[q],
        decreases n - j,
    {
        let mut r = rs[ord[j]].duplicate();
        r.rank = j + 1;
        out.push(r);
        j = j + 1;
    }
    assert(results_view(out@) =~= apply_ranking(rv, ord@));
    out
}

/// For scores that are not NaN, `a` strictly beats `b` exactly when its sort key
/// is smaller.
pub proof fn lemma_better_is_smaller_key(a: ResultView, b: ResultView, lower: bool)
    requires
        !real_is_nan(a.submission.score),
        !real_is_nan(b.submission.score),
    ensures
        strictly_better(a, b, lower) == (result_key(a, lower) < result_key(b, lower)),
{
}

/// Where a new result goes among results already in score order: after every
/// result that it does not strictly beat.
pub open spec fn insertion_point(rs: Seq<ResultView>, x: ResultView, lower: bool) -> int
    decreases rs.len(),
{
    if rs.len() == 0 {
        0
    } else if strictly_better(x, rs.last(), lower) {
        insertion_point(rs.drop_last(), x, lower)
    } else {
        rs.len() as int
    }
}

/// `rs` with `x` put at position `k`, result `j` ranked `j + 1`.
pub open spec fn insert_ranked(rs: Seq<ResultView>, x: ResultView, k: int) -> Seq<ResultView> {
    Seq::new(
        rs.len() + 1,
        |j: int|
            {
                let src = if j < k {
                    rs[j]
                } else if j == k {
                    x
                } else {
                    rs[j - 1]
                };
                ResultView {
                    submission: src.submission,
                    rank: (j + 1) as usize,
                    verified: src.verified,
                    conservation_error: src.conservation_error,
                }
            },
    )
}

/// The insertion point splits results in score order into those that the new
/// result does not strictly beat, then those that it does.
pub proof fn lemma_insertion_point(rs: Seq<ResultView>, x: ResultView, lower: bool)
    requires
        in_score_order(rs, lower),
        forall|i: int| 0 <= i < rs.len() ==> !real_is_nan((#[trigger] rs[i]).submission.score),
        !real_is_nan(x.submission.score),
    ensures
        0 <= insertion_point(rs, x, lower) <= rs.len(),
        forall|i: int| 0 <= i < insertion_point(rs, x, lower) ==> !strictly_better(x, #[trigger] rs[i], lower),
        forall|i: int| insertion_point(rs, x, lower) <= i < rs.len() ==> strictly_better(x, #[trigger] rs[i], lower),
    decreases rs.len(),
{
    if rs.len() > 0 {
        let n = rs.len() as int;
        let last = rs[n - 1];
        if strictly_better(x, last, lower) {
            let p = rs.drop_last();
            assert forall|a: int, b: int| 0 <= a < b < p.len() implies !strictly_better(
                #[trigger] p[b],
                #[trigger] p[a],
                lower,
            ) by {
                assert(p[a] == rs[a] && p[b] == rs[b]);
            }
            lemma_insertion_point(p, x, lower);
            assert forall|i: int| 0 <= i < insertion_point(rs, x, lower) implies !strictly_better(
                x,
                #[trigger] rs[i],
                lower,
            ) by {
                assert(p[i] == rs[i]);
            }
            assert forall|i: int| insertion_point(rs, x, lower) <= i < rs.len() implies strictly_better(
                x,
                #[trigger] rs[i],
                lower,
            ) by {
                if i < n - 1 {
                    assert(p[i] == rs[i]);
                }
            }
        } else {
            assert forall|i: int| 0 <= i < n implies !strictly_better(x, #[trigger] rs[i], lower) by {
                lemma_better_is_smaller_key(x, last, lower);
                lemma_better_is_smaller_key(x, rs[i], lower);
                if i < n - 1 {
                    assert(!strictly_better(rs[n - 1], rs[i], lower));
                    lemma_better_is_smaller_key(last, rs[i], lower);
                }
            }
        }
    }
}

/// Results already ranked (in score order, ranked by position) are their own
/// ranking: ranking them again changes nothing.
pub proof fn lemma_ranked_is_own_ranking(rs: Seq<ResultView>, lower: bool)
    requires
        in_score_order(rs, lower),
        ranks_are_positions(rs),
        scores_comparable(rs),
    ensures
        is_ranking_of(rs, lower, rs),
{
    let n = rs.len();
    if n > 0 {
        assert(rs[n - 1].rank == n);
    }
    let keys = rank_keys(rs, lower);
    let id = identity_order(n);
    assert forall|m: usize| m < keys.len() implies #[trigger] id.contains(m) by {
        assert(id[m as int] == m);
    }
    assert forall|a: int, b: int| 0 <= a < b < id.len() implies stable_before(
        keys,
        #[trigger] id[a] as int,
        #[trigger] id[b] as int,
    ) by {
        assert(id[a] == a && id[b] == b);
        assert(!strictly_better(rs[b], rs[a], lower));
        lemma_better_is_smaller_key(rs[b], rs[a], lower);
    }
    assert(is_stable_order(keys, id));
    assert forall|j: int| 0 <= j < n implies (#[trigger] apply_ranking(rs, id)[j]) == rs[j] by {
        assert(rs[j].rank == j + 1);
    }
    assert(apply_ranking(rs, id) =~= rs);
}

/// The two results have equal scores: neither score is smaller.
pub open spec fn score_tie(a: ResultView, b: ResultView) -> bool {
    !real_lt(a.submission.score, b.submission.score) && !real_lt(b.submission.score, a.submission.score)
}

/// `pos[j]` is the position in `subs` of the submission that result `j`
/// judges: every result judges a submission of its own, and results with equal
/// scores come in the order in which their submissions were made.
pub open spec fn submission_positions(rs: Seq<ResultView>, subs: Seq<SubmissionView>, pos: Seq<int>) -> bool {
    &&& pos.len() == rs.len()
    &&& forall|j: int| 0 <= j < rs.len() ==> 0 <= #[trigger] pos[j] < subs.len() && rs[j].submission == subs[pos[j]]
    &&& forall|a: int, b: int| 0 <= a < b < rs.len() ==> #[trigger] pos[a] != #[trigger] pos[b]
    &&& forall|a: int, b: int|
        0 <= a < b < rs.len() && score_tie(#[trigger] rs[a], #[trigger] rs[b]) ==> pos[a] < pos[b]
}

/// Results with equal scores appear in the order of their submissions.
pub open spec fn ties_in_submission_order(rs: Seq<ResultView>, subs: Seq<SubmissionView>) -> bool {
    exists|pos: Seq<int>| submission_positions(rs, subs, pos)
}

/// Putting a new result after every result that it does not strictly beat
/// keeps results with equal scores in the order of their submissions.
pub proof fn lemma_insert_keeps_submission_order(
    rs: Seq<ResultView>,
    subs: Seq<SubmissionView>,
    x: ResultView,
    lower: bool,
    k: int,
)
    requires
        ties_in_submission_order(rs, subs),
        0 <= k <= rs.len(),
        forall|i: int| k <= i < rs.len() ==> strictly_better(x, #[trigger] rs[i], lower),
    ensures
        ties_in_submission_order(insert_ranked(rs, x, k), subs.push(x.submission)),
{
    let pos0 = choose|pos: Seq<int>| submission_positions(rs, subs, pos);
    let n = subs.len() as int;
    let out = insert_ranked(rs, x, k);
    let subs2 = subs.push(x.submission);
    let pos = Seq::new(
        (rs.len() + 1) as nat,
        |j: int|
            if j < k {
                pos0[j]
            } else if j == k {
                n
            } else {
                pos0[j - 1]
            },
    );
    assert forall|j: int| 0 <= j < out.len() implies 0 <= #[trigger] pos[j] < subs2.len() && out[j].submission
        == subs2[pos[j]] by {
        if j < k {
            assert(0 <= pos0[j] < subs.len());
        } else if j > k {
            assert(0 <= pos0[j - 1] < subs.len());
        }
    }
    assert forall|a: int, b: int| 0 <= a < b < out.len() implies #[trigger] pos[a] != #[trigger] pos[b] by {
        if a != k && b != k {
            let a0 = if a < k { a } else { a - 1 };
            let b0 = if b < k { b } else { b - 1 };
            assert(pos0[a0] != pos0[b0]);
        } else if a == k {
            assert(0 <= pos0[b - 1] < subs.len());
        } else {
            assert(0 <= pos0[a] < subs.len());
        }
    }
    assert forall|a: int, b: int|
        0 <= a < b < out.len() && score_tie(#[trigger] out[a], #[trigger] out[b]) implies pos[a] < pos[b] by {
        if a != k && b != k {
            let a0 = if a < k { a } else { a - 1 };
            let b0 = if b < k { b } else { b - 1 };
            assert(out[a].submission == rs[a0].submission && out[b].submission == rs[b0].submission);
            assert(score_tie(rs[a0], rs[b0]));
        } else if a == k {
            assert(strictly_better(x, rs[b - 1], lower));
            assert(out[b].submission == rs[b - 1].submission);
        } else {
            assert(0 <= pos0[a] < subs.len());
        }
    }
    assert(submission_positions(out, subs2, pos));
}

/// Whether `x` ranks strictly ahead of `r` by score in the given direction.
pub fn beats(x: &ChallengeResult, r: &ChallengeResult, lower: bool) -> (b: bool)
    ensures
        b == strictly_better(x@, r@, lower),
{
    if lower {
        x.submission.score.lt(&r.submission.score)
    } else {
        r.submission.score.lt(&x.submission.score)
    }
}

/// The position at which ranking puts `x` among `rs`: after the last result
/// that `x` does not strictly beat.
pub fn insertion_index(rs: &Vec<ChallengeResult>, x: &ChallengeResult, lower: bool) -> (k: usize)
    ensures
        k as int == insertion_point(results_view(rs@), x@, lower),
        k <= rs.len(),
{
    let ghost v = results_view(rs@);
    let mut i: usize = rs.len();
    assert(v.take(i as int) =~= v);
    while i > 0 && beats(x, &rs[i - 1], lower)
        invariant
            v == results_view(rs@),
            i <= rs.len(),
            insertion_point(v.take(i as int), x@, lower) == insertion_point(v, x@, lower),
        decreases i,
    {
        assert(v.take(i as int).drop_last() =~= v.take(i - 1));
        assert(v.take(i as int).last() == v[i - 1]);
        i = i - 1;
    }
    if i > 0 {
        assert(v.take(i as int).last() == v[i - 1]);
    } else {
        assert(v.take(0) =~= Seq::<ResultView>::empty());
    }
    i
}

} // verus!
