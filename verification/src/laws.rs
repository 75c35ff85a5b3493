//! Properties of the arena that span several operations.
use vstd::prelude::*;
use crate::arena::{ArenaView, arena_wf, lemma_results_keys, ranks_lower_first, reranked, submission_count};
use crate::keyed::{distinct_keys, has_key, lemma_upsert, lemma_upsert_twice, lookup_or_empty};
use crate::ranking::{
    apply_ranking, in_score_order, insert_ranked, insertion_point, is_ranking_of, lemma_better_is_smaller_key,
    lemma_insertion_point, lemma_ranked_is_own_ranking, lemma_ranking_ordered, rank_keys, ranks_are_positions,
    result_submissions, scores_comparable, strictly_better, submission_positions, ties_in_submission_order,
};
use crate::challenge::{ChallengeCategory, ChallengeView, ConstraintView, ResultView, SubmissionView, violates};
use crate::arena::{all_by_player, by_player, challenge_ranks_lower_first, find_challenge, in_category, judged};
use crate::keyed::Keyed;
use crate::order::{is_stable_order, lemma_stable_order_unique, stable_before};
use crate::quantity::{INFINITY_BITS, SIGN_BIT, real_eq, real_is_nan, real_lt};

verus! {

/// Every leaderboard of a well-formed arena (every arena reached from `new` by
/// `create_challenge` and `submit`) lists one result per submission made to its
/// challenge since it was last created (the same submissions, each as often),
/// ranks them 1, 2, ... from the top, never puts a result below one with a
/// strictly better score (higher, or lower for fastest-time, fewest-resources
/// and best-conservation challenges), and lists results with equal scores in
/// the order in which they were submitted.
pub proof fn law_leaderboard_ordered(v: ArenaView, id: Seq<char>)
    requires
        arena_wf(v),
    ensures
        lookup_or_empty(v.results, id).len() == submission_count(v, id),
        result_submissions(lookup_or_empty(v.results, id)).to_multiset() == lookup_or_empty(
            v.submissions,
            id,
        ).to_multiset(),
        ranks_are_positions(lookup_or_empty(v.results, id)),
        in_score_order(lookup_or_empty(v.results, id), ranks_lower_first(v, id)),
        ties_in_submission_order(lookup_or_empty(v.results, id), lookup_or_empty(v.submissions, id)),
{
    lemma_results_keys(v);
    if exists|i: int| 0 <= i < v.results.len() && (#[trigger] v.results[i]).0 == id {
        let i = choose|i: int| 0 <= i < v.results.len() && (#[trigger] v.results[i]).0 == id;
        let k = choose|k: int| 0 <= k < v.results.len() && (#[trigger] v.results[k]).0 == id;
        let m = choose|m: int| 0 <= m < v.submissions.len() && (#[trigger] v.submissions[m]).0 == id;
        assert(v.results[m].0 == id);
        if m != i {
            if m < i {
                assert(v.results[m].0 != v.results[i].0);
            } else {
                assert(v.results[i].0 != v.results[m].0);
            }
        }
        if k != i {
            if k < i {
                assert(v.results[k].0 != v.results[i].0);
            } else {
                assert(v.results[i].0 != v.results[k].0);
            }
        }
    } else {
        assert(result_submissions(lookup_or_empty(v.results, id)) =~= lookup_or_empty(v.submissions, id));
        assert(submission_positions(
            lookup_or_empty(v.results, id),
            lookup_or_empty(v.submissions, id),
            Seq::<int>::empty(),
        ));
    }
}

/// Ranking is deterministic: a list of results has only one ranking.
pub proof fn law_ranking_unique(rs: Seq<ResultView>, lower: bool, r1: Seq<ResultView>, r2: Seq<ResultView>)
    requires
        is_ranking_of(rs, lower, r1),
        is_ranking_of(rs, lower, r2),
    ensures
        r1 == r2,
{
    let o1 = choose|ord: Seq<usize>| is_stable_order(rank_keys(rs, lower), ord) && r1 == apply_ranking(rs, ord);
    let o2 = choose|ord: Seq<usize>| is_stable_order(rank_keys(rs, lower), ord) && r2 == apply_ranking(rs, ord);
    lemma_stable_order_unique(rank_keys(rs, lower), o1, o2);
}

/// Two results ranked the same way apart from the rank number.
pub open spec fn same_result(a: ResultView, b: ResultView) -> bool {
    &&& a.submission == b.submission
    &&& a.verified == b.verified
    &&& a.conservation_error == b.conservation_error
}

/// `x` is, up to its rank, one of `rs`.
pub open spec fn appears_in(x: ResultView, rs: Seq<ResultView>) -> bool {
    exists|j: int| 0 <= j < rs.len() && same_result(x, #[trigger] rs[j])
}

/// Ranking loses and invents nothing: every result appears in the ranking at
/// some place, and every ranked entry is one of the results.
pub proof fn law_ranking_is_permutation(rs: Seq<ResultView>, lower: bool, ranked: Seq<ResultView>)
    requires
        is_ranking_of(rs, lower, ranked),
        rs.len() <= usize::MAX,
    ensures
        ranked.len() == rs.len(),
        forall|i: int| 0 <= i < rs.len() ==> appears_in(#[trigger] rs[i], ranked),
        forall|j: int| 0 <= j < ranked.len() ==> appears_in(#[trigger] ranked[j], rs),
{
    let ord = choose|ord: Seq<usize>| is_stable_order(rank_keys(rs, lower), ord) && ranked == apply_ranking(rs, ord);
    assert forall|i: int| 0 <= i < rs.len() implies appears_in(#[trigger] rs[i], ranked) by {
        assert(ord.contains(i as usize));
        let j = choose|j: int| 0 <= j < ord.len() && ord[j] == i as usize;
        assert(ord[j] as int == i);
        assert(same_result(rs[i], ranked[j]));
    }
    assert forall|j: int| 0 <= j < ranked.len() implies appears_in(#[trigger] ranked[j], rs) by {
        let i = ord[j] as int;
        assert(same_result(ranked[j], rs[i]));
    }
}

/// Ranking results already in score order together with one more result puts
/// the new one after every result that it does not strictly beat (so after
/// every earlier result with an equal score) and keeps the earlier results in
/// their order: ties keep the order of submission across submissions.
pub proof fn law_ties_keep_submission_order(rs: Seq<ResultView>, x: ResultView, lower: bool)
    requires
        in_score_order(rs, lower),
        scores_comparable(rs.push(x)),
        rs.len() + 1 <= usize::MAX,
    ensures
        0 <= insertion_point(rs, x, lower) <= rs.len(),
        forall|i: int| 0 <= i < insertion_point(rs, x, lower) ==> !strictly_better(x, #[trigger] rs[i], lower),
        forall|i: int| insertion_point(rs, x, lower) <= i < rs.len() ==> strictly_better(x, #[trigger] rs[i], lower),
        is_ranking_of(rs.push(x), lower, insert_ranked(rs, x, insertion_point(rs, x, lower))),
{
    let n = rs.len() as int;
    let all = rs.push(x);
    let keys = rank_keys(all, lower);
    let k = insertion_point(rs, x, lower);
    if n > 0 {
        assert forall|i: int| 0 <= i < n implies !real_is_nan((#[trigger] rs[i]).submission.score) by {
            assert(all[i] == rs[i]);
        }
        assert(all[n] == x);
        lemma_insertion_point(rs, x, lower);
    }
    let ord = Seq::new(
        (n + 1) as nat,
        |j: int|
            if j < k {
                j as usize
            } else if j == k {
                n as usize
            } else {
                (j - 1) as usize
            },
    );
    assert forall|m: usize| m < keys.len() implies #[trigger] ord.contains(m) by {
        if (m as int) < k {
            assert(ord[m as int] == m);
        } else if m as int == n {
            assert(ord[k] == m);
        } else {
            assert(ord[m as int + 1] == m);
        }
    }
    assert forall|a: int, b: int| 0 <= a < b < ord.len() implies stable_before(
        keys,
        #[trigger] ord[a] as int,
        #[trigger] ord[b] as int,
    ) by {
        let oa = ord[a] as int;
        let ob = ord[b] as int;
        if oa != n && ob != n {
            assert(oa < ob);
            assert(all[oa] == rs[oa] && all[ob] == rs[ob]);
            assert(!strictly_better(rs[ob], rs[oa], lower));
            lemma_better_is_smaller_key(rs[ob], rs[oa], lower);
        } else if ob == n {
            assert(oa < k);
            assert(all[oa] == rs[oa]);
            assert(!strictly_better(x, rs[oa], lower));
            lemma_better_is_smaller_key(x, rs[oa], lower);
        } else {
            assert(k <= ob < n);
            assert(all[ob] == rs[ob]);
            assert(strictly_better(x, rs[ob], lower));
            lemma_better_is_smaller_key(x, rs[ob], lower);
        }
    }
    assert(is_stable_order(keys, ord));
    assert(insert_ranked(rs, x, k) =~= apply_ranking(all, ord));
}

/// Ranking twice gives what ranking once gives.
pub proof fn law_ranking_idempotent(rs: Seq<ResultView>, lower: bool, r1: Seq<ResultView>, r2: Seq<ResultView>)
    requires
        is_ranking_of(rs, lower, r1),
        is_ranking_of(r1, lower, r2),
        scores_comparable(rs),
        rs.len() <= usize::MAX,
    ensures
        r2 == r1,
{
    lemma_ranking_ordered(rs, lower, r1);
    let ord = choose|ord: Seq<usize>| is_stable_order(rank_keys(rs, lower), ord) && r1 == apply_ranking(rs, ord);
    assert(scores_comparable(r1)) by {
        if r1.len() > 1 {
            assert forall|i: int| 0 <= i < r1.len() implies !real_is_nan((#[trigger] r1[i]).submission.score) by {
                assert(r1[i].submission == rs[ord[i] as int].submission);
            }
        }
    }
    lemma_ranked_is_own_ranking(r1, lower);
    let o1 = choose|o: Seq<usize>| is_stable_order(rank_keys(r1, lower), o) && r1 == apply_ranking(r1, o);
    let o2 = choose|o: Seq<usize>| is_stable_order(rank_keys(r1, lower), o) && r2 == apply_ranking(r1, o);
    lemma_stable_order_unique(rank_keys(r1, lower), o1, o2);
}

/// Ranking the stored results of a challenge again changes nothing: they are
/// already the one ranking of themselves.
pub proof fn law_rerank_changes_nothing(v: ArenaView, id: Seq<char>, ranked: Seq<ResultView>)
    requires
        arena_wf(v),
        scores_comparable(lookup_or_empty(v.results, id)),
        is_ranking_of(lookup_or_empty(v.results, id), ranks_lower_first(v, id), ranked),
    ensures
        ranked == lookup_or_empty(v.results, id),
{
    let rs = lookup_or_empty(v.results, id);
    law_leaderboard_ordered(v, id);
    lemma_ranked_is_own_ranking(rs, ranks_lower_first(v, id));
    law_ranking_unique(rs, ranks_lower_first(v, id), ranked, rs);
}

/// Ranking the results of a challenge twice leaves the arena as ranking them
/// once does.
pub proof fn law_rerank_twice(a: ArenaView, id: Seq<char>, s1: ArenaView, s2: ArenaView)
    requires
        distinct_keys(a.results),
        scores_comparable(lookup_or_empty(a.results, id)),
        lookup_or_empty(a.results, id).len() <= usize::MAX,
        reranked(a, id, s1),
        reranked(s1, id, s2),
    ensures
        s2 == s1,
{
    if has_key(a.results, id) {
        let l0 = lookup_or_empty(a.results, id);
        let l1 = lookup_or_empty(s1.results, id);
        let lower = ranks_lower_first(a, id);
        lemma_upsert(a.results, id, l1);
        assert(has_key(s1.results, id));
        assert(ranks_lower_first(s1, id) == lower);
        law_ranking_idempotent(l0, lower, l1, lookup_or_empty(s2.results, id));
        lemma_upsert_twice(a.results, id, l1, l1);
    }
    assert(s2.results == s1.results);
}

/// In every leaderboard of a well-formed arena, compared as doubles: a result
/// never stands below one with a lower score when the challenge ranks lower
/// scores first (fastest time, fewest resources, best conservation), and never
/// below one with a higher score otherwise (any other rule, or no challenge).
pub proof fn law_leaderboard_by_double_order(v: ArenaView, id: Seq<char>)
    requires
        arena_wf(v),
    ensures
        forall|a: int, b: int|
            0 <= a < b < lookup_or_empty(v.results, id).len() ==> if challenge_ranks_lower_first(v, id) {
                !real_lt(
                    (#[trigger] lookup_or_empty(v.results, id)[b]).submission.score,
                    (#[trigger] lookup_or_empty(v.results, id)[a]).submission.score,
                )
            } else {
                !real_lt(
                    lookup_or_empty(v.results, id)[a].submission.score,
                    lookup_or_empty(v.results, id)[b].submission.score,
                )
            },
{
    law_leaderboard_ordered(v, id);
    let rs = lookup_or_empty(v.results, id);
    assert(challenge_ranks_lower_first(v, id) == ranks_lower_first(v, id));
    assert forall|a: int, b: int| 0 <= a < b < rs.len() implies if challenge_ranks_lower_first(v, id) {
        !real_lt((#[trigger] rs[b]).submission.score, (#[trigger] rs[a]).submission.score)
    } else {
        !real_lt(rs[a].submission.score, rs[b].submission.score)
    } by {
        assert(!strictly_better(rs[b], rs[a], ranks_lower_first(v, id)));
    }
}

/// A ranking, compared as doubles, never puts a result below one with a lower
/// score (when lower scores rank first) or a higher score (otherwise).
pub proof fn law_ranking_by_double_order(rs: Seq<ResultView>, lower: bool, ranked: Seq<ResultView>)
    requires
        is_ranking_of(rs, lower, ranked),
        scores_comparable(rs),
        rs.len() <= usize::MAX,
    ensures
        forall|a: int, b: int|
            0 <= a < b < ranked.len() ==> if lower {
                !real_lt((#[trigger] ranked[b]).submission.score, (#[trigger] ranked[a]).submission.score)
            } else {
                !real_lt(ranked[a].submission.score, ranked[b].submission.score)
            },
{
    lemma_ranking_ordered(rs, lower, ranked);
    assert forall|a: int, b: int| 0 <= a < b < ranked.len() implies if lower {
        !real_lt((#[trigger] ranked[b]).submission.score, (#[trigger] ranked[a]).submission.score)
    } else {
        !real_lt(ranked[a].submission.score, ranked[b].submission.score)
    } by {
        assert(!strictly_better(ranked[b], ranked[a], lower));
    }
}

/// How a submission is judged: against an existing challenge it is verified
/// exactly when it breaks none of the challenge's constraints, and it keeps the
/// conservation error given, verified or not; against no challenge it is
/// unverified with conservation error +0.0.
pub proof fn law_judging(v: ArenaView, s: SubmissionView, ce: u64)
    ensures
        judged(v, s, ce).submission == s,
        find_challenge(v, s.challenge_id) matches Some(c) ==> {
            &&& judged(v, s, ce).verified == (forall|i: int|
                0 <= i < c.constraints.len() ==> !violates(#[trigger] c.constraints[i], s))
            &&& judged(v, s, ce).conservation_error == ce
        },
        find_challenge(v, s.challenge_id) is None ==> {
            &&& !judged(v, s, ce).verified
            &&& judged(v, s, ce).conservation_error == 0
        },
{
}

/// What each kind of constraint asks of a submission: it is broken exactly when
/// more blocks than allowed are reported; the submission comes after the tick
/// limit; the conservation score is below the minimum (as doubles compare); no
/// position of the materials used holds the required material; the cost is
/// above the budget (as doubles compare); agent help was used; or the biome
/// used is not the one required (or none is reported).
pub proof fn law_constraint_meaning(c: ConstraintView, s: SubmissionView)
    ensures
        c matches ConstraintView::MaxBlocks(m) ==> (violates(c, s) <==> (s.blocks_used matches Some(b) && b > m)),
        c matches ConstraintView::MaxTime(m) ==> (violates(c, s) <==> s.tick > m),
        c matches ConstraintView::MinConservationScore(m) ==> (violates(c, s) <==> real_lt(
            s.conservation_score,
            m,
        )),
        c matches ConstraintView::RequiredMaterial(m) ==> (violates(c, s) <==> (forall|j: int|
            0 <= j < s.materials_used.len() ==> #[trigger] s.materials_used[j] != m)),
        c matches ConstraintView::Budget(m) ==> (violates(c, s) <==> real_lt(m, s.cost)),
        c matches ConstraintView::NoAgentHelp ==> (violates(c, s) <==> s.agent_help_used),
        c matches ConstraintView::MustUseBiome(b) ==> (violates(c, s) <==> s.biome_used != Some(b)),
{
    if let ConstraintView::RequiredMaterial(m) = c {
        if exists|j: int| 0 <= j < s.materials_used.len() && s.materials_used[j] == m {
            let j = choose|j: int| 0 <= j < s.materials_used.len() && s.materials_used[j] == m;
            assert(s.materials_used.contains(m));
        }
    }
}

/// The predicate "is of category `cat`".
pub open spec fn category_is(cat: ChallengeCategory) -> spec_fn(ChallengeView) -> bool {
    |c: ChallengeView| c.category == cat
}

/// The predicate "was made by `player`".
pub open spec fn made_by(player: Seq<char>) -> spec_fn(SubmissionView) -> bool {
    |s: SubmissionView| s.player == player
}

/// The challenges of a category are exactly those of `cs` in that category, in
/// order: every one of them, and no other.
pub proof fn law_category_filter(cs: Seq<ChallengeView>, cat: ChallengeCategory)
    ensures
        in_category(cs, cat) == cs.filter(category_is(cat)),
        forall|i: int| 0 <= i < cs.len() && (#[trigger] cs[i]).category == cat ==> in_category(cs, cat).contains(cs[i]),
        forall|j: int| 0 <= j < in_category(cs, cat).len() ==> (#[trigger] in_category(cs, cat)[j]).category == cat,
    decreases cs.len(),
{
    reveal(Seq::filter);
    if cs.len() > 0 {
        law_category_filter(cs.drop_last(), cat);
    }
    cs.filter_lemma(category_is(cat));
    assert forall|i: int| 0 <= i < cs.len() && (#[trigger] cs[i]).category == cat implies in_category(
        cs,
        cat,
    ).contains(cs[i]) by {
        assert(category_is(cat)(cs[i]));
    }
    assert forall|j: int| 0 <= j < in_category(cs, cat).len() implies (#[trigger] in_category(cs, cat)[j]).category
        == cat by {
        assert(category_is(cat)(cs.filter(category_is(cat))[j]));
    }
}

/// A player's submissions to one challenge are exactly those made by the
/// player, in order.
pub proof fn law_player_filter(subs: Seq<SubmissionView>, player: Seq<char>)
    ensures
        by_player(subs, player) == subs.filter(made_by(player)),
    decreases subs.len(),
{
    reveal(Seq::filter);
    if subs.len() > 0 {
        law_player_filter(subs.drop_last(), player);
    }
}

/// A player's submissions are exactly those made by the player among all
/// submissions, the lists of the challenge ids taken in stored order.
pub proof fn law_all_player_submissions(entries: Keyed<Seq<SubmissionView>>, player: Seq<char>)
    ensures
        all_by_player(entries, player) == entries.map_values(|e: (Seq<char>, Seq<SubmissionView>)| e.1).flatten().filter(
            made_by(player),
        ),
    decreases entries.len(),
{
    let lists = entries.map_values(|e: (Seq<char>, Seq<SubmissionView>)| e.1);
    if entries.len() > 0 {
        law_all_player_submissions(entries.drop_last(), player);
        law_player_filter(entries.last().1, player);
        let front = entries.drop_last().map_values(|e: (Seq<char>, Seq<SubmissionView>)| e.1);
        assert(lists =~= front.push(entries.last().1));
        front.lemma_flatten_push(entries.last().1);
        Seq::filter_distributes_over_add(front.flatten(), entries.last().1, made_by(player));
    } else {
        assert(lists.flatten() =~= Seq::<SubmissionView>::empty());
        reveal(Seq::filter);
        assert(Seq::<SubmissionView>::empty().filter(made_by(player)) =~= Seq::<SubmissionView>::empty());
    }
}

/// How doubles compare, by their raw bits (IEEE 754): a double is a NaN exactly
/// when its exponent bits are all ones and its fraction is not zero, and a NaN
/// is neither below, above nor equal to anything; of two positive doubles the
/// one with the greater bits is the greater, of two negative doubles the one
/// with the greater bits is the smaller, every negative double is below every
/// positive one, and the two zeros are equal; two doubles that are not NaN are
/// equal only when their bits are equal or both are zeros, and otherwise one is
/// below the other.
pub proof fn law_double_order(a: u64, b: u64)
    ensures
        real_is_nan(a) <==> a % SIGN_BIT > INFINITY_BITS,
        real_is_nan(a) ==> !real_lt(a, b) && !real_lt(b, a) && !real_eq(a, b),
        !real_is_nan(a) && !real_is_nan(b) && a < b < SIGN_BIT ==> real_lt(a, b),
        !real_is_nan(a) && !real_is_nan(b) && SIGN_BIT <= a < b ==> real_lt(b, a),
        !real_is_nan(a) && !real_is_nan(b) && a < SIGN_BIT <= b && !(a == 0 && b == SIGN_BIT) ==> real_lt(b, a),
        real_eq(0, SIGN_BIT),
        !real_is_nan(a) && !real_is_nan(b) ==> (real_eq(a, b) <==> (a == b || (a % SIGN_BIT == 0
            && b % SIGN_BIT == 0))),
        !real_is_nan(a) && !real_is_nan(b) ==> (real_lt(a, b) || real_eq(a, b) || real_lt(b, a)),
        !(real_lt(a, b) && real_eq(a, b)) && !(real_lt(a, b) && real_lt(b, a)),
{
}

} // verus!
