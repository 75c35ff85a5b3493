//! The challenge arena: challenges, the submissions made to each, and the
//! ranked results of each.
use vstd::prelude::*;
use crate::challenge::{
    Challenge, ChallengeCategory, ChallengeResult, ChallengeView, ResultView, Submission,
    SubmissionView, ScoringRule, lower_is_better, satisfies_all,
};
use crate::keyed::{
    Keyed, distinct_keys, has_key, key_index, lemma_key_at, lemma_upsert, lemma_upsert_twice, lookup,
    lookup_or_empty, upsert,
};
use crate::order::{identity_order, int_keys, is_stable_order, lemma_increasing_keys_identity, stable_before, stable_order};
use crate::quantity::Real;
use crate::ranking::{
    can_rank, in_score_order, is_ranking_of, lemma_ranking_ordered, lemma_ranking_same_submissions,
    rank_results, ranks_are_positions, result_submissions, results_view, scores_comparable, insert_ranked,
    insertion_point, insertion_index, lemma_insert_keeps_submission_order, submission_positions,
    ties_in_submission_order,
};
use crate::laws::{law_judging, law_leaderboard_ordered, law_ranking_unique, law_ties_keep_submission_order};
use crate::quantity::real_lt;
use crate::challenge::violates;

verus! {

/// The challenges keyed by their ids.
pub open spec fn keyed_challenges(cs: Seq<ChallengeView>) -> Keyed<ChallengeView> {
    cs.map_values(|c: ChallengeView| (c.id, c))
}

/// What the arena holds.
pub struct ArenaView {
    /// The challenges, in the order in which they were first created.
    pub challenges: Seq<ChallengeView>,
    /// The submissions made to each challenge id, oldest first.
    pub submissions: Keyed<Seq<SubmissionView>>,
    /// The ranked results of each challenge id, best first.
    pub results: Keyed<Seq<ResultView>>,
}

/// The challenge with id `id`, if the arena holds one.
pub open spec fn find_challenge(v: ArenaView, id: Seq<char>) -> Option<ChallengeView> {
    lookup(keyed_challenges(v.challenges), id)
}

/// Under the challenge `id` (if any) a lower score ranks higher.
pub open spec fn ranks_lower_first(v: ArenaView, id: Seq<char>) -> bool {
    find_challenge(v, id) matches Some(c) && lower_is_better(c.scoring)
}

/// Whether a challenge's scoring rule ranks lower scores first (fastest time,
/// fewest resources, best conservation); false where there is no challenge.
pub open spec fn challenge_ranks_lower_first(v: ArenaView, id: Seq<char>) -> bool {
    find_challenge(v, id) matches Some(c) && (c.scoring is FastestTime || c.scoring is FewestResources
        || c.scoring is BestConservation)
}

/// Result `r`, kept under challenge id `k`, is its submission as the arena
/// judges submissions to `k`: the submission names `k`; it is verified exactly
/// when the challenge `k` exists and the submission keeps all its constraints;
/// and with no challenge `k` its conservation error is +0.0.
pub open spec fn judged_under(v: ArenaView, k: Seq<char>, r: ResultView) -> bool {
    &&& r.submission.challenge_id == k
    &&& r.verified == (find_challenge(v, k) matches Some(c) && satisfies_all(c.constraints, r.submission))
    &&& find_challenge(v, k) is None ==> r.conservation_error == 0
}

/// The arena's invariant.
pub open spec fn arena_wf(v: ArenaView) -> bool {
    &&& distinct_keys(keyed_challenges(v.challenges))
    &&& distinct_keys(v.submissions)
    &&& v.submissions.len() == v.results.len()
    &&& forall|i: int| 0 <= i < v.results.len() ==> (#[trigger] v.results[i]).0 == v.submissions[i].0
    &&& forall|i: int| 0 <= i < v.challenges.len() ==> has_key(v.submissions, (#[trigger] v.challenges[i]).id)
    &&& forall|i: int|
        0 <= i < v.results.len() ==> (#[trigger] v.results[i]).1.len() == v.submissions[i].1.len()
    &&& forall|i: int|
        0 <= i < v.results.len() ==> result_submissions((#[trigger] v.results[i]).1).to_multiset()
            == v.submissions[i].1.to_multiset()
    &&& forall|i: int, j: int|
        0 <= i < v.submissions.len() && 0 <= j < v.submissions[i].1.len() ==> (#[trigger] v.submissions[i].1[j]).challenge_id
            == v.submissions[i].0
    &&& forall|i: int, j: int|
        0 <= i < v.results.len() && 0 <= j < v.results[i].1.len() ==> judged_under(
            v,
            v.results[i].0,
            #[trigger] v.results[i].1[j],
        )
    &&& forall|i: int|
        0 <= i < v.results.len() ==> ties_in_submission_order((#[trigger] v.results[i]).1, v.submissions[i].1)
    &&& forall|i: int| 0 <= i < v.results.len() ==> ranks_are_positions((#[trigger] v.results[i]).1)
    &&& forall|i: int|
        0 <= i < v.results.len() ==> in_score_order(
            (#[trigger] v.results[i]).1,
            ranks_lower_first(v, v.results[i].0),
        )
}

/// The result that the arena `v` gives submission `s` before ranking: verified
/// when its challenge exists and `s` keeps all of that challenge's constraints;
/// its conservation error is `ce` when the challenge exists, else +0.0.
pub open spec fn judged(v: ArenaView, s: SubmissionView, ce: u64) -> ResultView {
    ResultView {
        submission: s,
        rank: 0,
        verified: find_challenge(v, s.challenge_id) matches Some(c) && satisfies_all(c.constraints, s),
        conservation_error: if find_challenge(v, s.challenge_id) is Some {
            ce
        } else {
            0
        },
    }
}

/// `s` is `a` with the results of challenge id `id` ranked again: everything
/// else is kept, and the list under `id` (if any) becomes its ranking.
pub open spec fn reranked(a: ArenaView, id: Seq<char>, s: ArenaView) -> bool {
    &&& s.challenges == a.challenges
    &&& s.submissions == a.submissions
    &&& has_key(a.results, id) ==> {
        &&& s.results == upsert(a.results, id, lookup_or_empty(s.results, id))
        &&& is_ranking_of(lookup_or_empty(a.results, id), ranks_lower_first(a, id), lookup_or_empty(s.results, id))
    }
    &&& !has_key(a.results, id) ==> s.results == a.results
}

/// The arena.
#[derive(Debug, Clone)]
pub struct ChallengeArena {
    challenges: Vec<Challenge>,
    submissions: Vec<(String, Vec<Submission>)>,
    results: Vec<(String, Vec<ChallengeResult>)>,
}

pub open spec fn submissions_entry_view(e: (String, Vec<Submission>)) -> (Seq<char>, Seq<SubmissionView>) {
    (e.0@, e.1@.map_values(|s: Submission| s@))
}

pub open spec fn results_entry_view(e: (String, Vec<ChallengeResult>)) -> (Seq<char>, Seq<ResultView>) {
    (e.0@, e.1@.map_values(|r: ChallengeResult| r@))
}

impl View for ChallengeArena {
    type V = ArenaView;

    closed spec fn view(&self) -> ArenaView {
        ArenaView {
            challenges: self.challenges@.map_values(|c: Challenge| c@),
            submissions: self.submissions@.map_values(|e: (String, Vec<Submission>)| submissions_entry_view(e)),
            results: self.results@.map_values(|e: (String, Vec<ChallengeResult>)| results_entry_view(e)),
        }
    }
}

/// Position of the entry with key `id`.
fn find_entry<T>(entries: &Vec<(String, T)>, id: &String) -> (r: Option<usize>)
    ensures
        match r {
            Some(i) => i < entries.len() && entries@[i as int].0@ == id@,
            None => forall|i: int| 0 <= i < entries.len() ==> (#[trigger] entries@[i]).0@ != id@,
        },
{
    let mut i: usize = 0;
    while i < entries.len()
        invariant
            i <= entries.len(),
            forall|j: int| 0 <= j < i ==> (#[trigger] entries@[j]).0@ != id@,
        decreases entries.len() - i,
    {
        if entries[i].0 == *id {
            return Some(i);
        }
        i = i + 1;
    }
    None
}

/// Position of the challenge with id `id`.
fn find_challenge_index(challenges: &Vec<Challenge>, id: &String) -> (r: Option<usize>)
    ensures
        match r {
            Some(i) => i < challenges.len() && challenges@[i as int].id@ == id@,
            None => forall|i: int| 0 <= i < challenges.len() ==> (#[trigger] challenges@[i]).id@ != id@,
        },
{
    let mut i: usize = 0;
    while i < challenges.len()
        invariant
            i <= challenges.len(),
            forall|j: int| 0 <= j < i ==> (#[trigger] challenges@[j]).id@ != id@,
        decreases challenges.len() - i,
    {
        if challenges[i].id == *id {
            return Some(i);
        }
        i = i + 1;
    }
    None
}

impl ChallengeArena {
    /// Position of the challenge with id `id`, if the arena holds one.
    fn challenge_index(&self, id: &String) -> (r: Option<usize>)
        requires
            distinct_keys(keyed_challenges(self@.challenges)),
        ensures
            match r {
                Some(i) => {
                    &&& i < self.challenges.len()
                    &&& self@.challenges[i as int].id == id@
                    &&& has_key(keyed_challenges(self@.challenges), id@)
                    &&& key_index(keyed_challenges(self@.challenges), id@) == i
                    &&& find_challenge(self@, id@) == Some(self@.challenges[i as int])
                },
                None => !has_key(keyed_challenges(self@.challenges), id@) && find_challenge(self@, id@) is None,
            },
    {
        let r = find_challenge_index(&self.challenges, id);
        proof {
            let kc = keyed_challenges(self@.challenges);
            match r {
                Some(i) => {
                    assert(kc[i as int].0 == id@);
                    lemma_key_at(kc, i as int);
                },
                None => {
                    if has_key(kc, id@) {
                        let j = choose|j: int| 0 <= j < kc.len() && (#[trigger] kc[j]).0 == id@;
                        assert(self.challenges@[j]@.id == id@);
                    }
                },
            }
        }
        r
    }

    /// Position of the submissions kept under `id`, if any are kept.
    fn submissions_index(&self, id: &String) -> (r: Option<usize>)
        requires
            distinct_keys(self@.submissions),
        ensures
            match r {
                Some(i) => {
                    &&& i < self.submissions.len()
                    &&& self@.submissions[i as int].0 == id@
                    &&& has_key(self@.submissions, id@)
                    &&& key_index(self@.submissions, id@) == i
                },
                None => !has_key(self@.submissions, id@),
            },
    {
        let r = find_entry(&self.submissions, id);
        proof {
            match r {
                Some(i) => {
                    lemma_key_at(self@.submissions, i as int);
                },
                None => {
                    if has_key(self@.submissions, id@) {
                        let j = choose|j: int| 0 <= j < self@.submissions.len() && (#[trigger] self@.submissions[j]).0 == id@;
                        assert(self.submissions@[j].0@ == id@);
                    }
                },
            }
        }
        r
    }

    /// Position of the results kept under `id`, if any are kept.
    fn results_index(&self, id: &String) -> (r: Option<usize>)
        requires
            distinct_keys(self@.results),
        ensures
            match r {
                Some(i) => {
                    &&& i < self.results.len()
                    &&& self@.results[i as int].0 == id@
                    &&& has_key(self@.results, id@)
                    &&& key_index(self@.results, id@) == i
                },
                None => !has_key(self@.results, id@),
            },
    {
        let r = find_entry(&self.results, id);
        proof {
            match r {
                Some(i) => {
                    lemma_key_at(self@.results, i as int);
                },
                None => {
                    if has_key(self@.results, id@) {
                        let j = choose|j: int| 0 <= j < self@.results.len() && (#[trigger] self@.results[j]).0 == id@;
                        assert(self.results@[j].0@ == id@);
                    }
                },
            }
        }
        r
    }
}

impl ChallengeArena {
    /// The arena's invariant holds.
    pub open spec fn wf(&self) -> bool {
        arena_wf(self@)
    }

    /// An empty arena.
    pub fn new() -> (a: Self)
        ensures
            a.wf(),
            a@.challenges == Seq::<ChallengeView>::empty(),
            a@.submissions == Seq::<(Seq<char>, Seq<SubmissionView>)>::empty(),
            a@.results == Seq::<(Seq<char>, Seq<ResultView>)>::empty(),
    {
        let a = ChallengeArena { challenges: Vec::new(), submissions: Vec::new(), results: Vec::new() };
        assert(a@.challenges =~= Seq::<ChallengeView>::empty());
        assert(a@.submissions =~= Seq::<(Seq<char>, Seq<SubmissionView>)>::empty());
        assert(a@.results =~= Seq::<(Seq<char>, Seq<ResultView>)>::empty());
        a
    }
}

impl ChallengeArena {
    /// Register a new challenge and return its id.
    ///
    /// A challenge with the same id is replaced where it stands, and the
    /// submissions and results kept under the id start over empty.
    pub fn create_challenge(&mut self, challenge: Challenge) -> (id: String)
        requires
            old(self).wf(),
        ensures
            final(self).wf(),
            id@ == challenge@.id,
            keyed_challenges(final(self)@.challenges) == upsert(
                keyed_challenges(old(self)@.challenges),
                challenge@.id,
                challenge@,
            ),
            final(self)@.submissions == upsert(old(self)@.submissions, challenge@.id, Seq::empty()),
            final(self)@.results == upsert(old(self)@.results, challenge@.id, Seq::empty()),
            find_challenge(final(self)@, challenge@.id) == Some(challenge@),
            forall|k: Seq<char>|
                k != challenge@.id ==> #[trigger] find_challenge(final(self)@, k) == find_challenge(old(self)@, k),
            submission_count(final(self)@, challenge@.id) == 0,
            lookup_or_empty(final(self)@.results, challenge@.id).len() == 0,
            forall|k: Seq<char>|
                k != challenge@.id ==> #[trigger] lookup_or_empty(final(self)@.results, k) == lookup_or_empty(
                    old(self)@.results,
                    k,
                ),
            forall|k: Seq<char>|
                k != challenge@.id ==> #[trigger] lookup_or_empty(final(self)@.submissions, k) == lookup_or_empty(
                    old(self)@.submissions,
                    k,
                ),
            forall|p: Seq<char>|
                #[trigger] all_by_player(final(self)@.submissions, p) == without_challenge(
                    all_by_player(old(self)@.submissions, p),
                    challenge@.id,
                ),
    {
        let ghost old_v = self@;
        let ghost cv = challenge@;
        let id = challenge.id.clone();
        let ci = self.challenge_index(&id);
        match ci {
            Some(i) => {
                let _ = self.challenges.remove(i);
                self.challenges.insert(i, challenge);
                assert(keyed_challenges(self@.challenges) =~= upsert(
                    keyed_challenges(old_v.challenges),
                    cv.id,
                    cv,
                ));
            },
            None => {
                self.challenges.push(challenge);
                assert(keyed_challenges(self@.challenges) =~= upsert(
                    keyed_challenges(old_v.challenges),
                    cv.id,
                    cv,
                ));
            },
        }
        let si = self.submissions_index(&id);
        match si {
            Some(i) => {
                proof {
                    lemma_results_keys(old_v);
                    assert(old_v.results[i as int].0 == cv.id);
                    lemma_key_at(old_v.results, i as int);
                }
                let _ = self.submissions.remove(i);
                self.submissions.insert(i, (id.clone(), Vec::new()));
                let _ = self.results.remove(i);
                self.results.insert(i, (id.clone(), Vec::new()));
                assert(self@.submissions[i as int].1 =~= Seq::<SubmissionView>::empty());
                assert(self@.results[i as int].1 =~= Seq::<ResultView>::empty());
                assert(self@.submissions =~= upsert(old_v.submissions, cv.id, Seq::empty()));
                assert(self@.results =~= upsert(old_v.results, cv.id, Seq::empty()));
            },
            None => {
                proof {
                    lemma_results_keys(old_v);
                    assert(!has_key(old_v.results, cv.id));
                }
                self.submissions.push((id.clone(), Vec::new()));
                self.results.push((id.clone(), Vec::new()));
                assert(self@.submissions[old_v.submissions.len() as int].1 =~= Seq::<SubmissionView>::empty());
                assert(self@.results[old_v.results.len() as int].1 =~= Seq::<ResultView>::empty());
                assert(self@.submissions =~= upsert(old_v.submissions, cv.id, Seq::empty()));
                assert(self@.results =~= upsert(old_v.results, cv.id, Seq::empty()));
            },
        }
        proof {
            self.lemma_create_keeps_wf(old_v, cv);
            lemma_upsert(keyed_challenges(old_v.challenges), cv.id, cv);
            lemma_upsert(old_v.submissions, cv.id, Seq::<SubmissionView>::empty());
            lemma_results_keys(old_v);
            lemma_upsert(old_v.results, cv.id, Seq::<ResultView>::empty());
            assert forall|k: Seq<char>| k != cv.id implies #[trigger] lookup_or_empty(self@.results, k)
                == lookup_or_empty(old_v.results, k) by {
                assert(lookup(self@.results, k) == lookup(old_v.results, k));
            }
            assert forall|k: Seq<char>| k != cv.id implies #[trigger] lookup_or_empty(self@.submissions, k)
                == lookup_or_empty(old_v.submissions, k) by {
                assert(lookup(self@.submissions, k) == lookup(old_v.submissions, k));
            }
            let olds = old_v.submissions;
            assert(lists_name_their_key(olds));
            if has_key(olds, cv.id) {
                let i = key_index(olds, cv.id);
                assert(self@.submissions =~= clear_key(olds, cv.id)) by {
                    assert forall|j: int| 0 <= j < olds.len() implies #[trigger] self@.submissions[j] == clear_key(
                        olds,
                        cv.id,
                    )[j] by {
                        if j != i {
                            if j < i {
                                assert(olds[j].0 != olds[i].0);
                            } else {
                                assert(olds[i].0 != olds[j].0);
                            }
                        }
                    }
                }
                assert forall|p: Seq<char>| #[trigger] all_by_player(self@.submissions, p) == without_challenge(
                    all_by_player(olds, p),
                    cv.id,
                ) by {
                    lemma_clear_key_by_player(olds, cv.id, p);
                }
            } else {
                assert(clear_key(olds, cv.id) =~= olds) by {
                    assert forall|j: int| 0 <= j < olds.len() implies #[trigger] clear_key(olds, cv.id)[j] == olds[j] by {
                        assert(olds[j].0 != cv.id);
                    }
                }
                assert forall|p: Seq<char>| #[trigger] all_by_player(self@.submissions, p) == without_challenge(
                    all_by_player(olds, p),
                    cv.id,
                ) by {
                    lemma_clear_key_by_player(olds, cv.id, p);
                    lemma_all_by_player_push(olds, cv.id, Seq::<SubmissionView>::empty(), p);
                    assert(by_player(Seq::<SubmissionView>::empty(), p) =~= Seq::<SubmissionView>::empty());
                    assert(all_by_player(olds, p) + Seq::<SubmissionView>::empty() =~= all_by_player(olds, p));
                }
            }
        }
        id
    }
}

impl ChallengeArena {
    proof fn lemma_create_keeps_wf(&self, old_v: ArenaView, cv: ChallengeView)
        requires
            arena_wf(old_v),
            keyed_challenges(self@.challenges) == upsert(keyed_challenges(old_v.challenges), cv.id, cv),
            self@.submissions == upsert(old_v.submissions, cv.id, Seq::<SubmissionView>::empty()),
            self@.results == upsert(old_v.results, cv.id, Seq::<ResultView>::empty()),
        ensures
            arena_wf(self@),
    {
        let v = self@;
        let e = Seq::<SubmissionView>::empty();
        let r = Seq::<ResultView>::empty();
        lemma_upsert(keyed_challenges(old_v.challenges), cv.id, cv);
        lemma_upsert(old_v.submissions, cv.id, e);
        assert(distinct_keys(keyed_challenges(v.challenges)));
        let same_slot = has_key(old_v.submissions, cv.id);
        if same_slot {
            let i = key_index(old_v.submissions, cv.id);
            assert(old_v.results[i].0 == cv.id);
            assert(v.submissions == old_v.submissions.update(i, (cv.id, e)));
            assert(has_key(old_v.results, cv.id));
            assert(distinct_keys(old_v.results)) by {
                assert forall|a: int, b: int| 0 <= a < b < old_v.results.len() implies
                    (#[trigger] old_v.results[a]).0 != (#[trigger] old_v.results[b]).0 by {
                    assert(old_v.submissions[a].0 != old_v.submissions[b].0);
                }
            }
            lemma_key_at(old_v.results, i);
            assert(v.results == old_v.results.update(i, (cv.id, r)));
        } else {
            assert forall|j: int| 0 <= j < old_v.results.len() implies (#[trigger] old_v.results[j]).0 != cv.id by {
                assert(old_v.submissions[j].0 != cv.id);
            }
            assert(!has_key(old_v.results, cv.id));
            assert(v.results == old_v.results.push((cv.id, r)));
        }
        assert(result_submissions(r) =~= e);
        assert forall|i: int| 0 <= i < v.results.len() implies result_submissions((#[trigger] v.results[i]).1).to_multiset()
            == v.submissions[i].1.to_multiset() by {
            if i < old_v.results.len() && v.results[i] == old_v.results[i] {
                assert(v.submissions[i] == old_v.submissions[i]);
            }
        }
        assert forall|i: int| 0 <= i < v.challenges.len() implies has_key(v.submissions, (#[trigger] v.challenges[i]).id) by {
            assert(keyed_challenges(v.challenges)[i].0 == v.challenges[i].id);
            let k = v.challenges[i].id;
            assert(has_key(keyed_challenges(v.challenges), k));
            if k != cv.id {
                assert(has_key(keyed_challenges(old_v.challenges), k));
                let j = choose|j: int| 0 <= j < keyed_challenges(old_v.challenges).len() && (#[trigger] keyed_challenges(old_v.challenges)[j]).0 == k;
                assert(old_v.challenges[j].id == k);
            }
        }
        assert forall|i: int| 0 <= i < v.results.len() implies in_score_order(
            (#[trigger] v.results[i]).1,
            ranks_lower_first(v, v.results[i].0),
        ) by {
            let k = v.results[i].0;
            if k != cv.id {
                assert(find_challenge(v, k) == find_challenge(old_v, k));
                assert(v.results[i] == old_v.results[i]);
                assert(ranks_lower_first(v, k) == ranks_lower_first(old_v, k));
            }
        }
        assert forall|i: int, j: int|
            0 <= i < v.submissions.len() && 0 <= j < v.submissions[i].1.len() implies (
            #[trigger] v.submissions[i].1[j]).challenge_id == v.submissions[i].0 by {
            if v.submissions[i].0 != cv.id {
                assert(v.submissions[i] == old_v.submissions[i]);
            }
        }
        assert forall|i: int, j: int|
            0 <= i < v.results.len() && 0 <= j < v.results[i].1.len() implies judged_under(
            v,
            v.results[i].0,
            #[trigger] v.results[i].1[j],
        ) by {
            let k = v.results[i].0;
            if k != cv.id {
                assert(find_challenge(v, k) == find_challenge(old_v, k));
                assert(v.results[i] == old_v.results[i]);
                assert(judged_under(old_v, k, old_v.results[i].1[j]));
            }
        }
        assert forall|i: int| 0 <= i < v.results.len() implies ties_in_submission_order(
            (#[trigger] v.results[i]).1,
            v.submissions[i].1,
        ) by {
            if v.results[i].0 != cv.id {
                assert(v.results[i] == old_v.results[i]);
                assert(v.submissions[i] == old_v.submissions[i]);
            } else {
                assert(submission_positions(v.results[i].1, v.submissions[i].1, Seq::<int>::empty()));
            }
        }
    }
}

/// In a well-formed arena the results are keyed exactly as the submissions.
pub proof fn lemma_results_keys(v: ArenaView)
    requires
        arena_wf(v),
    ensures
        distinct_keys(v.results),
        forall|k: Seq<char>| #[trigger] has_key(v.results, k) == has_key(v.submissions, k),
        forall|k: Seq<char>|
            #[trigger] lookup_or_empty(v.results, k).len() == lookup_or_empty(v.submissions, k).len(),
{
    assert forall|a: int, b: int| 0 <= a < b < v.results.len() implies (#[trigger] v.results[a]).0 != (
    #[trigger] v.results[b]).0 by {
        assert(v.submissions[a].0 != v.submissions[b].0);
    }
    assert forall|k: Seq<char>| #[trigger] has_key(v.results, k) == has_key(v.submissions, k) by {
        if has_key(v.results, k) {
            let j = choose|j: int| 0 <= j < v.results.len() && (#[trigger] v.results[j]).0 == k;
            assert(v.submissions[j].0 == k);
        }
        if has_key(v.submissions, k) {
            let j = choose|j: int| 0 <= j < v.submissions.len() && (#[trigger] v.submissions[j]).0 == k;
            assert(v.results[j].0 == k);
        }
    }
    assert forall|k: Seq<char>| #[trigger]
        lookup_or_empty(v.results, k).len() == lookup_or_empty(v.submissions, k).len() by {
        if has_key(v.submissions, k) {
            let j = choose|j: int| 0 <= j < v.submissions.len() && (#[trigger] v.submissions[j]).0 == k;
            lemma_key_at(v.submissions, j);
            assert(v.results[j].0 == k);
            lemma_key_at(v.results, j);
        }
    }
}

impl ChallengeArena {
    /// Whether the challenge `challenge_id` exists and ranks lower scores higher.
    fn lower_is_better_for(&self, challenge_id: &String) -> (b: bool)
        requires
            distinct_keys(keyed_challenges(self@.challenges)),
        ensures
            b == ranks_lower_first(self@, challenge_id@),
    {
        let ci = self.challenge_index(challenge_id);
        match ci {
            Some(i) => {
                match self.challenges[i].scoring {
                    ScoringRule::FastestTime | ScoringRule::FewestResources | ScoringRule::BestConservation => true,
                    _ => false,
                }
            },
            None => {
                false
            },
        }
    }

    /// Re-sort the results of a challenge by score (ascending for fastest time,
    /// fewest resources and best conservation; descending otherwise, and for an
    /// unknown challenge) and renumber their ranks.
    fn recalculate_ranks(&mut self, challenge_id: &String)
        requires
            distinct_keys(keyed_challenges(old(self)@.challenges)),
            distinct_keys(old(self)@.results),
            scores_comparable(lookup_or_empty(old(self)@.results, challenge_id@)),
        ensures
            reranked(old(self)@, challenge_id@, final(self)@),
    {
        let ghost old_v = self@;
        let lower = self.lower_is_better_for(challenge_id);
        let ri = self.results_index(challenge_id);
        match ri {
            Some(i) => {
                let entry = self.results.remove(i);
                let ranked = rank_results(&entry.1, lower);
                self.results.insert(i, (entry.0, ranked));
                proof {
                    let nv = self@;
                    assert(nv.results =~= old_v.results.update(i as int, (challenge_id@, results_view(ranked@))));
                    assert(distinct_keys(nv.results)) by {
                        assert forall|a: int, b: int| 0 <= a < b < nv.results.len() implies (
                        #[trigger] nv.results[a]).0 != (#[trigger] nv.results[b]).0 by {
                            assert(old_v.results[a].0 != old_v.results[b].0);
                        }
                    }
                    lemma_key_at(nv.results, i as int);
                    assert(nv.challenges =~= old_v.challenges);
                    assert(nv.submissions =~= old_v.submissions);
                }
            },
            None => {
            },
        }
    }
}

/// Replacing the submissions and results of one challenge id with lists of
/// equal length, ranked in order, keeps the arena well formed.
proof fn lemma_replace_entry_keeps_wf(
    old_v: ArenaView,
    v: ArenaView,
    id: Seq<char>,
    subs: Seq<SubmissionView>,
    rs: Seq<ResultView>,
)
    requires
        arena_wf(old_v),
        v.challenges == old_v.challenges,
        v.submissions == upsert(old_v.submissions, id, subs),
        v.results == upsert(old_v.results, id, rs),
        subs.len() == rs.len(),
        result_submissions(rs).to_multiset() == subs.to_multiset(),
        ranks_are_positions(rs),
        in_score_order(rs, ranks_lower_first(old_v, id)),
        forall|j: int| 0 <= j < subs.len() ==> (#[trigger] subs[j]).challenge_id == id,
        forall|j: int| 0 <= j < rs.len() ==> judged_under(old_v, id, #[trigger] rs[j]),
        ties_in_submission_order(rs, subs),
    ensures
        arena_wf(v),
{
    lemma_results_keys(old_v);
    lemma_upsert(old_v.submissions, id, subs);
    if has_key(old_v.submissions, id) {
        let i = key_index(old_v.submissions, id);
        assert(old_v.results[i].0 == id);
        lemma_key_at(old_v.results, i);
        assert(v.submissions == old_v.submissions.update(i, (id, subs)));
        assert(v.results == old_v.results.update(i, (id, rs)));
    } else {
        assert(v.submissions == old_v.submissions.push((id, subs)));
        assert(v.results == old_v.results.push((id, rs)));
    }
    assert forall|i: int| 0 <= i < v.challenges.len() implies has_key(v.submissions, (#[trigger] v.challenges[i]).id) by {
        assert(has_key(old_v.submissions, old_v.challenges[i].id));
    }
    assert forall|i: int| 0 <= i < v.results.len() implies in_score_order(
        (#[trigger] v.results[i]).1,
        ranks_lower_first(v, v.results[i].0),
    ) by {
        if v.results[i].0 != id {
            assert(v.results[i] == old_v.results[i]);
        }
    }
    assert forall|i: int, j: int|
        0 <= i < v.submissions.len() && 0 <= j < v.submissions[i].1.len() implies (
        #[trigger] v.submissions[i].1[j]).challenge_id == v.submissions[i].0 by {
        if v.submissions[i].0 != id {
            assert(v.submissions[i] == old_v.submissions[i]);
        }
    }
    assert forall|i: int, j: int|
        0 <= i < v.results.len() && 0 <= j < v.results[i].1.len() implies judged_under(
        v,
        v.results[i].0,
        #[trigger] v.results[i].1[j],
    ) by {
        if v.results[i].0 != id {
            assert(v.results[i] == old_v.results[i]);
            assert(judged_under(old_v, old_v.results[i].0, old_v.results[i].1[j]));
        }
    }
    assert forall|i: int| 0 <= i < v.results.len() implies ties_in_submission_order(
        (#[trigger] v.results[i]).1,
        v.submissions[i].1,
    ) by {
        if v.results[i].0 != id {
            assert(v.results[i] == old_v.results[i]);
            assert(v.submissions[i] == old_v.submissions[i]);
        }
    }
}

/// What `submit` leaves behind: the arena stays well formed, the new result is
/// inserted after its ties, and every player's submissions grow by the new one
/// only.
proof fn lemma_submit_outcome(old_v: ArenaView, mid_v: ArenaView, fin: ArenaView, sv: SubmissionView, ce: u64)
    requires
        arena_wf(old_v),
        mid_v.challenges == old_v.challenges,
        mid_v.submissions == upsert(
            old_v.submissions,
            sv.challenge_id,
            lookup_or_empty(old_v.submissions, sv.challenge_id).push(sv),
        ),
        mid_v.results == upsert(
            old_v.results,
            sv.challenge_id,
            lookup_or_empty(old_v.results, sv.challenge_id).push(judged(old_v, sv, ce)),
        ),
        lookup_or_empty(mid_v.results, sv.challenge_id) == lookup_or_empty(old_v.results, sv.challenge_id).push(
            judged(old_v, sv, ce),
        ),
        has_key(mid_v.results, sv.challenge_id),
        scores_comparable(lookup_or_empty(old_v.results, sv.challenge_id).push(judged(old_v, sv, ce))),
        lookup_or_empty(old_v.results, sv.challenge_id).len() + 1 <= usize::MAX,
        reranked(mid_v, sv.challenge_id, fin),
    ensures
        arena_wf(fin),
        fin.challenges == old_v.challenges,
        fin.submissions == mid_v.submissions,
        fin.results == upsert(old_v.results, sv.challenge_id, lookup_or_empty(fin.results, sv.challenge_id)),
        is_ranking_of(
            lookup_or_empty(old_v.results, sv.challenge_id).push(judged(old_v, sv, ce)),
            ranks_lower_first(old_v, sv.challenge_id),
            lookup_or_empty(fin.results, sv.challenge_id),
        ),
        lookup_or_empty(fin.results, sv.challenge_id) == insert_ranked(
            lookup_or_empty(old_v.results, sv.challenge_id),
            judged(old_v, sv, ce),
            insertion_point(
                lookup_or_empty(old_v.results, sv.challenge_id),
                judged(old_v, sv, ce),
                ranks_lower_first(old_v, sv.challenge_id),
            ),
        ),
        submission_count(fin, sv.challenge_id) == submission_count(old_v, sv.challenge_id) + 1,
        lookup_or_empty(fin.results, sv.challenge_id).len() == lookup_or_empty(old_v.results, sv.challenge_id).len()
            + 1,
        forall|p: Seq<char>|
            #[trigger] all_by_player(fin.submissions, p).len() == all_by_player(old_v.submissions, p).len() + (if p
                == sv.player {
                1int
            } else {
                0int
            }),
{
    let cid_v = sv.challenge_id;
    let jv = judged(old_v, sv, ce);
    let old_subs = lookup_or_empty(old_v.submissions, cid_v);
    let old_rs = lookup_or_empty(old_v.results, cid_v);
    lemma_results_keys(old_v);
        let ranked = lookup_or_empty(fin.results, cid_v);
        assert(has_key(mid_v.results, cid_v));
        assert(ranks_lower_first(mid_v, cid_v) == ranks_lower_first(old_v, cid_v));
        lemma_upsert_twice(old_v.results, cid_v, old_rs.push(jv), ranked);
        lemma_ranking_ordered(old_rs.push(jv), ranks_lower_first(old_v, cid_v), ranked);
        assert(old_subs.len() == old_rs.len());
        lemma_ranking_same_submissions(old_rs.push(jv), ranks_lower_first(old_v, cid_v), ranked);
        assert(result_submissions(old_rs.push(jv)) =~= result_submissions(old_rs).push(sv));
        assert(result_submissions(old_rs).to_multiset() == old_subs.to_multiset()) by {
            if has_key(old_v.submissions, cid_v) {
                let i = key_index(old_v.submissions, cid_v);
                assert(old_v.results[i].0 == cid_v);
                lemma_key_at(old_v.results, i);
            } else {
                assert(result_submissions(old_rs) =~= old_subs);
            }
        }
        vstd::seq_lib::to_multiset_build(result_submissions(old_rs), sv);
        vstd::seq_lib::to_multiset_build(old_subs, sv);
        // the ranking is the insertion of the new result after its ties
        let lower = ranks_lower_first(old_v, cid_v);
        assert(in_score_order(old_rs, lower) && ties_in_submission_order(old_rs, old_subs)) by {
            if has_key(old_v.results, cid_v) {
                let i = key_index(old_v.results, cid_v);
                assert(old_v.submissions[i].0 == cid_v);
                lemma_key_at(old_v.submissions, i);
                assert(in_score_order(old_v.results[i].1, ranks_lower_first(old_v, old_v.results[i].0)));
                assert(ties_in_submission_order(old_v.results[i].1, old_v.submissions[i].1));
            } else {
                assert(submission_positions(old_rs, old_subs, Seq::<int>::empty()));
            }
        }
        law_ties_keep_submission_order(old_rs, jv, lower);
        law_ranking_unique(old_rs.push(jv), lower, ranked, insert_ranked(old_rs, jv, insertion_point(old_rs, jv, lower)));
        lemma_insert_keeps_submission_order(old_rs, old_subs, jv, lower, insertion_point(old_rs, jv, lower));
        lemma_replace_entry_keeps_wf(old_v, fin, cid_v, old_subs.push(sv), ranked);
        lemma_upsert(old_v.submissions, cid_v, old_subs.push(sv));
        // every player's submissions grow by the new one only
        assert forall|p: Seq<char>| #[trigger] all_by_player(fin.submissions, p).len() == all_by_player(
            old_v.submissions,
            p,
        ).len() + (if p == sv.player {
            1int
        } else {
            0int
        }) by {
            lemma_by_player_push(old_subs, sv, p);
            if has_key(old_v.submissions, cid_v) {
                let i = key_index(old_v.submissions, cid_v);
                lemma_all_by_player_update(old_v.submissions, i, old_subs.push(sv), p);
            } else {
                lemma_all_by_player_push(old_v.submissions, cid_v, old_subs.push(sv), p);
                assert(by_player(old_subs, p) =~= Seq::<SubmissionView>::empty());
            }
        }
    }

impl ChallengeArena {
    /// Submit a solution, validate constraints, score, and return a result.
    ///
    /// The submission is recorded under its challenge id and judged: it is
    /// verified when its challenge exists and it keeps every constraint of that
    /// challenge, and its conservation error is `conservation_error` (the
    /// distance of its conservation score from 1) when its challenge exists,
    /// else +0.0. The results of the challenge are then ranked again, and the
    /// submission's own result, with the rank it now has, is returned.
    pub fn submit(&mut self, submission: Submission, conservation_error: Real) -> (r: ChallengeResult)
        requires
            old(self).wf(),
            can_rank(lookup_or_empty(old(self)@.results, submission@.challenge_id), submission@.score),
        ensures
            final(self).wf(),
            final(self)@.challenges == old(self)@.challenges,
            final(self)@.submissions == upsert(
                old(self)@.submissions,
                submission@.challenge_id,
                lookup_or_empty(old(self)@.submissions, submission@.challenge_id).push(submission@),
            ),
            final(self)@.results == upsert(
                old(self)@.results,
                submission@.challenge_id,
                lookup_or_empty(final(self)@.results, submission@.challenge_id),
            ),
            is_ranking_of(
                lookup_or_empty(old(self)@.results, submission@.challenge_id).push(
                    judged(old(self)@, submission@, conservation_error@),
                ),
                ranks_lower_first(old(self)@, submission@.challenge_id),
                lookup_or_empty(final(self)@.results, submission@.challenge_id),
            ),
            submission_count(final(self)@, submission@.challenge_id) == submission_count(
                old(self)@,
                submission@.challenge_id,
            ) + 1,
            lookup_or_empty(final(self)@.results, submission@.challenge_id).len() == lookup_or_empty(
                old(self)@.results,
                submission@.challenge_id,
            ).len() + 1,
            lookup_or_empty(final(self)@.results, submission@.challenge_id) == insert_ranked(
                lookup_or_empty(old(self)@.results, submission@.challenge_id),
                judged(old(self)@, submission@, conservation_error@),
                insertion_point(
                    lookup_or_empty(old(self)@.results, submission@.challenge_id),
                    judged(old(self)@, submission@, conservation_error@),
                    ranks_lower_first(old(self)@, submission@.challenge_id),
                ),
            ),
            r@ == lookup_or_empty(final(self)@.results, submission@.challenge_id)[insertion_point(
                lookup_or_empty(old(self)@.results, submission@.challenge_id),
                judged(old(self)@, submission@, conservation_error@),
                ranks_lower_first(old(self)@, submission@.challenge_id),
            )],
            r@.submission == submission@,
            find_challenge(old(self)@, submission@.challenge_id) matches Some(c) ==> {
                &&& r@.verified == (forall|i: int|
                    0 <= i < c.constraints.len() ==> !violates(#[trigger] c.constraints[i], submission@))
                &&& r@.conservation_error == conservation_error@
            },
            find_challenge(old(self)@, submission@.challenge_id) is None ==> {
                &&& !r@.verified
                &&& r@.conservation_error == 0
            },
            1 <= r@.rank <= lookup_or_empty(old(self)@.results, submission@.challenge_id).len() + 1,
            forall|i: int|
                0 <= i < r@.rank - 1 ==> !(if challenge_ranks_lower_first(old(self)@, submission@.challenge_id) {
                    real_lt(
                        submission@.score,
                        (#[trigger] lookup_or_empty(old(self)@.results, submission@.challenge_id)[i]).submission.score,
                    )
                } else {
                    real_lt(
                        lookup_or_empty(old(self)@.results, submission@.challenge_id)[i].submission.score,
                        submission@.score,
                    )
                }),
            forall|i: int|
                r@.rank - 1 <= i < lookup_or_empty(old(self)@.results, submission@.challenge_id).len() ==> (if challenge_ranks_lower_first(old(self)@, submission@.challenge_id) {
                    real_lt(
                        submission@.score,
                        (#[trigger] lookup_or_empty(old(self)@.results, submission@.challenge_id)[i]).submission.score,
                    )
                } else {
                    real_lt(
                        lookup_or_empty(old(self)@.results, submission@.challenge_id)[i].submission.score,
                        submission@.score,
                    )
                }),
            r@.verified == judged(old(self)@, submission@, conservation_error@).verified,
            r@.conservation_error == judged(old(self)@, submission@, conservation_error@).conservation_error,
            r@.rank == insertion_point(
                lookup_or_empty(old(self)@.results, submission@.challenge_id),
                judged(old(self)@, submission@, conservation_error@),
                ranks_lower_first(old(self)@, submission@.challenge_id),
            ) + 1,
            forall|p: Seq<char>|
                #[trigger] all_by_player(final(self)@.submissions, p).len() == all_by_player(
                    old(self)@.submissions,
                    p,
                ).len() + (if p == submission@.player {
                    1int
                } else {
                    0int
                }),
    {
        let ghost old_v = self@;
        let ghost sv = submission@;
        let ghost cid_v = submission@.challenge_id;
        let cid = submission.challenge_id.clone();
        let ci = self.challenge_index(&cid);
        let verified: bool;
        let ce: Real;
        match ci {
            Some(i) => {
                verified = self.challenges[i].check_constraints(&submission).is_none();
                ce = conservation_error;
            },
            None => {
                verified = false;
                ce = Real::zero();
            },
        }
        let result = ChallengeResult { submission: submission.duplicate(), rank: 0, verified, conservation_error: ce };
        let ghost jv = judged(old_v, sv, conservation_error@);
        assert(result@ == jv);
        let ghost old_subs = lookup_or_empty(old_v.submissions, cid_v);
        let ghost old_rs = lookup_or_empty(old_v.results, cid_v);
        proof {
            lemma_results_keys(old_v);
        }
        let lower = self.lower_is_better_for(&cid);
        let si = self.submissions_index(&cid);
        let idx: usize;
        let k: usize;
        match si {
            Some(i) => {
                proof {
                    assert(old_v.results[i as int].0 == cid_v);
                    lemma_key_at(old_v.results, i as int);
                }
                let entry = self.submissions.remove(i);
                let key = entry.0;
                let mut list = entry.1;
                list.push(submission);
                self.submissions.insert(i, (key, list));
                let rentry = self.results.remove(i);
                let rkey = rentry.0;
                let mut rlist = rentry.1;
                assert(results_view(rlist@) == old_rs);
                k = insertion_index(&rlist, &result, lower);
                rlist.push(result);
                self.results.insert(i, (rkey, rlist));
                idx = i;
                proof {
                    assert(self@.submissions[i as int].1 =~= old_subs.push(sv));
                    assert(self@.results[i as int].1 =~= old_rs.push(jv));
                    assert(self@.submissions =~= upsert(old_v.submissions, cid_v, old_subs.push(sv)));
                    assert(self@.results =~= upsert(old_v.results, cid_v, old_rs.push(jv)));
                }
            },
            None => {
                proof {
                    assert(old_subs =~= Seq::<SubmissionView>::empty());
                    assert(old_rs =~= Seq::<ResultView>::empty());
                }
                let mut list: Vec<Submission> = Vec::new();
                list.push(submission);
                self.submissions.push((cid.clone(), list));
                let mut rlist: Vec<ChallengeResult> = Vec::new();
                rlist.push(result);
                self.results.push((cid.clone(), rlist));
                idx = self.results.len() - 1;
                k = 0;
                proof {
                    assert(self@.submissions[idx as int].1 =~= old_subs.push(sv));
                    assert(self@.results[idx as int].1 =~= old_rs.push(jv));
                    assert(self@.submissions =~= upsert(old_v.submissions, cid_v, old_subs.push(sv)));
                    assert(self@.results =~= upsert(old_v.results, cid_v, old_rs.push(jv)));
                }
            },
        }
        proof {
            lemma_upsert(old_v.results, cid_v, old_rs.push(jv));
            assert(lookup_or_empty(self@.results, cid_v) == old_rs.push(jv)) by {
                assert(lookup(self@.results, cid_v) == Some(old_rs.push(jv)));
            }
            assert(self@.challenges == old_v.challenges);
            assert(self@.results[idx as int].0 == cid_v);
            assert(self.results@[idx as int].1@.len() == self.results@[idx as int].1.len());
            assert(old_rs.push(jv).len() <= usize::MAX);
        }
        let ghost mid_v = self@;
        self.recalculate_ranks(&cid);
        proof {
            let fin = self@;
            lemma_submit_outcome(old_v, mid_v, fin, sv, conservation_error@);
            lemma_results_keys(fin);
            assert(fin.results[idx as int].0 == cid_v);
            lemma_key_at(fin.results, idx as int);
            let lower = ranks_lower_first(old_v, cid_v);
            assert(k as int == insertion_point(old_rs, jv, lower));
            assert(lookup_or_empty(fin.results, cid_v)[k as int] == insert_ranked(old_rs, jv, k as int)[k as int]);
            law_leaderboard_ordered(old_v, cid_v);
            law_ties_keep_submission_order(old_rs, jv, lower);
            assert(challenge_ranks_lower_first(old_v, cid_v) == lower);
            if let Some(c) = find_challenge(old_v, cid_v) {
                law_judging(old_v, sv, conservation_error@);
            }
        }
        let rl = &self.results[idx].1;
        rl[k].duplicate()
    }
}

/// The submissions of `subs` made by `player`, in order.
pub open spec fn by_player(subs: Seq<SubmissionView>, player: Seq<char>) -> Seq<SubmissionView>
    decreases subs.len(),
{
    if subs.len() == 0 {
        Seq::empty()
    } else {
        let rest = by_player(subs.drop_last(), player);
        if subs.last().player == player {
            rest.push(subs.last())
        } else {
            rest
        }
    }
}

/// The submissions made by `player` to every challenge id, the ids in stored
/// order and each id's submissions oldest first.
pub open spec fn all_by_player(entries: Keyed<Seq<SubmissionView>>, player: Seq<char>) -> Seq<SubmissionView>
    decreases entries.len(),
{
    if entries.len() == 0 {
        Seq::empty()
    } else {
        all_by_player(entries.drop_last(), player) + by_player(entries.last().1, player)
    }
}

/// The challenges of `cs` in category `cat`, in order.
pub open spec fn in_category(cs: Seq<ChallengeView>, cat: ChallengeCategory) -> Seq<ChallengeView>
    decreases cs.len(),
{
    if cs.len() == 0 {
        Seq::empty()
    } else {
        let rest = in_category(cs.drop_last(), cat);
        if cs.last().category == cat {
            rest.push(cs.last())
        } else {
            rest
        }
    }
}

/// The submissions of `s` that do not name challenge `id`, in order.
pub open spec fn without_challenge(s: Seq<SubmissionView>, id: Seq<char>) -> Seq<SubmissionView>
    decreases s.len(),
{
    if s.len() == 0 {
        Seq::empty()
    } else {
        let rest = without_challenge(s.drop_last(), id);
        if s.last().challenge_id == id {
            rest
        } else {
            rest.push(s.last())
        }
    }
}

/// `entries` with the list under `id` emptied.
pub open spec fn clear_key(entries: Keyed<Seq<SubmissionView>>, id: Seq<char>) -> Keyed<Seq<SubmissionView>> {
    entries.map_values(
        |e: (Seq<char>, Seq<SubmissionView>)|
            if e.0 == id {
                (e.0, Seq::<SubmissionView>::empty())
            } else {
                e
            },
    )
}

/// Every submission in every list names the key of its list.
pub open spec fn lists_name_their_key(entries: Keyed<Seq<SubmissionView>>) -> bool {
    forall|i: int, j: int|
        0 <= i < entries.len() && 0 <= j < entries[i].1.len() ==> (#[trigger] entries[i].1[j]).challenge_id
            == entries[i].0
}

proof fn lemma_without_challenge_add(a: Seq<SubmissionView>, b: Seq<SubmissionView>, id: Seq<char>)
    ensures
        without_challenge(a + b, id) == without_challenge(a, id) + without_challenge(b, id),
    decreases b.len(),
{
    if b.len() == 0 {
        assert(a + b =~= a);
        assert(without_challenge(a, id) + without_challenge(b, id) =~= without_challenge(a, id));
    } else {
        lemma_without_challenge_add(a, b.drop_last(), id);
        assert((a + b).drop_last() =~= a + b.drop_last());
        assert((a + b).last() == b.last());
        if b.last().challenge_id != id {
            assert(without_challenge(a, id) + without_challenge(b.drop_last(), id).push(b.last()) =~= (
            without_challenge(a, id) + without_challenge(b.drop_last(), id)).push(b.last()));
        }
    }
}

proof fn lemma_by_player_names(l: Seq<SubmissionView>, p: Seq<char>, k: Seq<char>)
    requires
        forall|j: int| 0 <= j < l.len() ==> (#[trigger] l[j]).challenge_id == k,
    ensures
        forall|j: int| 0 <= j < by_player(l, p).len() ==> (#[trigger] by_player(l, p)[j]).challenge_id == k,
    decreases l.len(),
{
    if l.len() > 0 {
        assert forall|j: int| 0 <= j < l.drop_last().len() implies (#[trigger] l.drop_last()[j]).challenge_id == k by {
            assert(l.drop_last()[j] == l[j]);
        }
        lemma_by_player_names(l.drop_last(), p, k);
    }
}

proof fn lemma_without_challenge_all_or_none(s: Seq<SubmissionView>, k: Seq<char>, id: Seq<char>)
    requires
        forall|j: int| 0 <= j < s.len() ==> (#[trigger] s[j]).challenge_id == k,
    ensures
        k == id ==> without_challenge(s, id) == Seq::<SubmissionView>::empty(),
        k != id ==> without_challenge(s, id) == s,
    decreases s.len(),
{
    if s.len() > 0 {
        assert forall|j: int| 0 <= j < s.drop_last().len() implies (#[trigger] s.drop_last()[j]).challenge_id == k by {
            assert(s.drop_last()[j] == s[j]);
        }
        lemma_without_challenge_all_or_none(s.drop_last(), k, id);
        assert(s.last() == s[s.len() - 1]);
        if k != id {
            assert(s.drop_last().push(s.last()) =~= s);
        }
    }
}

/// Emptying the list kept under `id` removes from every player's submissions
/// exactly those that name `id`, and keeps the rest in order.
pub proof fn lemma_clear_key_by_player(entries: Keyed<Seq<SubmissionView>>, id: Seq<char>, p: Seq<char>)
    requires
        lists_name_their_key(entries),
    ensures
        all_by_player(clear_key(entries, id), p) == without_challenge(all_by_player(entries, p), id),
    decreases entries.len(),
{
    if entries.len() > 0 {
        let e = entries.drop_last();
        let last = entries.last();
        assert(lists_name_their_key(e)) by {
            assert forall|i: int, j: int| 0 <= i < e.len() && 0 <= j < e[i].1.len() implies (
            #[trigger] e[i].1[j]).challenge_id == e[i].0 by {
                assert(e[i] == entries[i]);
                assert(entries[i].1[j].challenge_id == entries[i].0);
            }
        }
        lemma_clear_key_by_player(e, id, p);
        assert(clear_key(entries, id).drop_last() =~= clear_key(e, id));
        let n = entries.len() - 1;
        assert(last == entries[n]);
        assert forall|j: int| 0 <= j < last.1.len() implies (#[trigger] last.1[j]).challenge_id == last.0 by {
            assert(entries[n].1[j].challenge_id == entries[n].0);
        }
        lemma_by_player_names(last.1, p, last.0);
        lemma_without_challenge_add(all_by_player(e, p), by_player(last.1, p), id);
        lemma_without_challenge_all_or_none(by_player(last.1, p), last.0, id);
        if last.0 == id {
            assert(by_player(Seq::<SubmissionView>::empty(), p) =~= Seq::<SubmissionView>::empty());
            assert(without_challenge(all_by_player(e, p), id) + Seq::<SubmissionView>::empty() =~= without_challenge(
                all_by_player(e, p),
                id,
            ));
            assert(all_by_player(clear_key(e, id), p) + Seq::<SubmissionView>::empty() =~= all_by_player(
                clear_key(e, id),
                p,
            ));
        }
    }
}

proof fn lemma_all_by_player_push(e: Keyed<Seq<SubmissionView>>, k: Seq<char>, l: Seq<SubmissionView>, p: Seq<char>)
    ensures
        all_by_player(e.push((k, l)), p) == all_by_player(e, p) + by_player(l, p),
{
    assert(e.push((k, l)).drop_last() =~= e);
}

proof fn lemma_by_player_push(l: Seq<SubmissionView>, s: SubmissionView, p: Seq<char>)
    ensures
        by_player(l.push(s), p).len() == by_player(l, p).len() + (if s.player == p {
            1int
        } else {
            0int
        }),
{
    assert(l.push(s).drop_last() =~= l);
}

proof fn lemma_all_by_player_update(
    e: Keyed<Seq<SubmissionView>>,
    i: int,
    l: Seq<SubmissionView>,
    p: Seq<char>,
)
    requires
        0 <= i < e.len(),
    ensures
        all_by_player(e.update(i, (e[i].0, l)), p).len() == all_by_player(e, p).len() - by_player(e[i].1, p).len()
            + by_player(l, p).len(),
    decreases e.len(),
{
    let u = e.update(i, (e[i].0, l));
    if i == e.len() - 1 {
        assert(u.drop_last() =~= e.drop_last());
    } else {
        lemma_all_by_player_update(e.drop_last(), i, l, p);
        assert(u.drop_last() =~= e.drop_last().update(i, (e[i].0, l)));
    }
}

/// Every submission that `by_player` keeps was made by the player.
pub proof fn lemma_by_player_matches(subs: Seq<SubmissionView>, player: Seq<char>)
    ensures
        forall|i: int| 0 <= i < by_player(subs, player).len() ==> (#[trigger] by_player(subs, player)[i]).player == player,
    decreases subs.len(),
{
    if subs.len() > 0 {
        lemma_by_player_matches(subs.drop_last(), player);
    }
}

/// Every submission that `all_by_player` keeps was made by the player.
pub proof fn lemma_all_by_player_matches(entries: Keyed<Seq<SubmissionView>>, player: Seq<char>)
    ensures
        forall|i: int|
            0 <= i < all_by_player(entries, player).len() ==> (#[trigger] all_by_player(entries, player)[i]).player
                == player,
    decreases entries.len(),
{
    if entries.len() > 0 {
        lemma_all_by_player_matches(entries.drop_last(), player);
        lemma_by_player_matches(entries.last().1, player);
        let a = all_by_player(entries.drop_last(), player);
        let b = by_player(entries.last().1, player);
        assert forall|i: int| 0 <= i < (a + b).len() implies (#[trigger] (a + b)[i]).player == player by {
            if i >= a.len() {
                assert((a + b)[i] == b[i - a.len()]);
            }
        }
    }
}

/// Every challenge that `in_category` keeps is of that category.
pub proof fn lemma_in_category_matches(cs: Seq<ChallengeView>, cat: ChallengeCategory)
    ensures
        forall|i: int| 0 <= i < in_category(cs, cat).len() ==> (#[trigger] in_category(cs, cat)[i]).category == cat,
    decreases cs.len(),
{
    if cs.len() > 0 {
        lemma_in_category_matches(cs.drop_last(), cat);
    }
}

/// The number of submissions kept under challenge id `id`.
pub open spec fn submission_count(v: ArenaView, id: Seq<char>) -> int {
    lookup_or_empty(v.submissions, id).len() as int
}

/// Sort keys of the challenges for popularity: more submissions, smaller key.
pub open spec fn popularity_keys(v: ArenaView) -> Seq<int> {
    v.challenges.map_values(|c: ChallengeView| -submission_count(v, c.id))
}

impl ChallengeArena {
    /// Return leaderboard for a challenge, sorted by rank.
    pub fn leaderboard(&self, challenge_id: &str) -> (lb: Vec<&ChallengeResult>)
        requires
            self.wf(),
        ensures
            lb@.map_values(|r: &ChallengeResult| r@) == lookup_or_empty(self@.results, challenge_id@),
    {
        let id = challenge_id.to_owned();
        let ri = self.results_index(&id);
        let mut lb: Vec<&ChallengeResult> = Vec::new();
        match ri {
            None => {
                assert(lb@.map_values(|r: &ChallengeResult| r@) =~= lookup_or_empty(self@.results, challenge_id@));
                lb
            },
            Some(i) => {
                proof {
                    lemma_results_keys(self@);
                    assert(ranks_are_positions(self@.results[i as int].1));
                }
                let rl = &self.results[i].1;
                let ghost rv = results_view(rl@);
                assert(rv == self@.results[i as int].1);
                let n = rl.len();
                let mut keys: Vec<i128> = Vec::new();
                let mut j: usize = 0;
                while j < n
                    invariant
                        n == rl.len(),
                        rv == results_view(rl@),
                        ranks_are_positions(rv),
                        j <= n,
                        keys.len() == j,
                        forall|q: int| 0 <= q < j ==> (#[trigger] keys@[q]) as int == q + 1,
                    decreases n - j,
                {
                    assert(rv[j as int].rank == j + 1);
                    keys.push(rl[j].rank as i128);
                    j = j + 1;
                }
                let ord = stable_order(&keys);
                proof {
                    lemma_increasing_keys_identity(int_keys(keys@), ord@);
                }
                let mut j: usize = 0;
                while j < n
                    invariant
                        n == rl.len(),
                        rv == results_view(rl@),
                        ord@ == identity_order(n as nat),
                        j <= n,
                        lb.len() == j,
                        forall|q: int| 0 <= q < j ==> (#[trigger] lb@[q])@ == rv[q],
                    decreases n - j,
                {
                    assert(ord@[j as int] == j);
                    lb.push(&rl[ord[j]]);
                    j = j + 1;
                }
                assert(lb@.map_values(|r: &ChallengeResult| r@) =~= lookup_or_empty(self@.results, challenge_id@));
                lb
            },
        }
    }

    /// All submissions by a given player.
    pub fn player_submissions(&self, player: &str) -> (subs: Vec<&Submission>)
        requires
            self.wf(),
        ensures
            subs@.map_values(|s: &Submission| s@) == all_by_player(self@.submissions, player@),
            forall|i: int| 0 <= i < subs.len() ==> (#[trigger] subs@[i])@.player == player@,
    {
        let who = player.to_owned();
        let mut out: Vec<&Submission> = Vec::new();
        let ghost entries = self@.submissions;
        let mut i: usize = 0;
        while i < self.submissions.len()
            invariant
                entries == self@.submissions,
                who@ == player@,
                i <= self.submissions.len(),
                out@.map_values(|s: &Submission| s@) == all_by_player(entries.take(i as int), player@),
            decreases self.submissions.len() - i,
        {
            let list = &self.submissions[i].1;
            let ghost lv = entries[i as int].1;
            assert(lv == list@.map_values(|s: Submission| s@));
            let ghost before = out@.map_values(|s: &Submission| s@);
            let mut j: usize = 0;
            while j < list.len()
                invariant
                    lv == list@.map_values(|s: Submission| s@),
                    who@ == player@,
                    j <= list.len(),
                    out@.map_values(|s: &Submission| s@) == before + by_player(lv.take(j as int), player@),
                decreases list.len() - j,
            {
                assert(lv.take(j + 1).drop_last() =~= lv.take(j as int));
                assert(lv.take(j + 1).last() == lv[j as int]);
                assert(lv[j as int] == list@[j as int]@);
                if list[j].player == who {
                    assert(by_player(lv.take(j + 1), player@) == by_player(lv.take(j as int), player@).push(lv[j as int]));
                    let ghost prev = out@;
                    out.push(&list[j]);
                    assert(out@ == prev.push(&list[j as int]));
                    assert(out@.map_values(|s: &Submission| s@) =~= prev.map_values(|s: &Submission| s@).push(lv[j as int]));
                    assert(out@.map_values(|s: &Submission| s@) =~= before + by_player(lv.take(j + 1), player@));
                } else {
                    assert(by_player(lv.take(j + 1), player@) == by_player(lv.take(j as int), player@));
                    assert(out@.map_values(|s: &Submission| s@) =~= before + by_player(lv.take(j + 1), player@));
                }
                j = j + 1;
            }
            assert(lv.take(list.len() as int) =~= lv);
            assert(entries.take(i + 1).drop_last() =~= entries.take(i as int));
            i = i + 1;
        }
        assert(entries.take(self.submissions.len() as int) =~= entries);
        proof {
            lemma_all_by_player_matches(entries, player@);
            assert forall|i: int| 0 <= i < out.len() implies (#[trigger] out@[i])@.player == player@ by {
                assert(out@[i]@ == out@.map_values(|s: &Submission| s@)[i]);
            }
        }
        out
    }
}

impl ChallengeArena {
    /// The number of submissions kept under `id` (0 when there are none).
    fn count_submissions(&self, id: &String) -> (n: usize)
        requires
            distinct_keys(self@.submissions),
        ensures
            n == submission_count(self@, id@),
    {
        let si = self.submissions_index(id);
        match si {
            Some(i) => {
                self.submissions[i].1.len()
            },
            None => {
                0
            },
        }
    }

    /// Challenges sorted by submission count (most popular first).
    ///
    /// Challenges with equal counts keep the order in which they were created.
    pub fn popular_challenges(&self) -> (pop: Vec<&Challenge>)
        requires
            self.wf(),
        ensures
            exists|ord: Seq<usize>|
                is_stable_order(popularity_keys(self@), ord) && pop@.map_values(|c: &Challenge| c@) == ord.map_values(
                    |k: usize| self@.challenges[k as int],
                ),
            forall|a: int, b: int|
                0 <= a < b < pop.len() ==> submission_count(self@, (#[trigger] pop@[a])@.id) >= submission_count(
                    self@,
                    (#[trigger] pop@[b])@.id,
                ),
            pop.len() == self@.challenges.len(),
            forall|i: int|
                0 <= i < self@.challenges.len() ==> pop@.map_values(|c: &Challenge| c@).contains(
                    #[trigger] self@.challenges[i],
                ),
    {
        let n = self.challenges.len();
        let ghost pk = popularity_keys(self@);
        let mut keys: Vec<i128> = Vec::new();
        let mut j: usize = 0;
        while j < n
            invariant
                n == self.challenges.len(),
                pk == popularity_keys(self@),
                distinct_keys(self@.submissions),
                j <= n,
                keys.len() == j,
                forall|q: int| 0 <= q < j ==> (#[trigger] keys@[q]) as int == pk[q],
            decreases n - j,
        {
            let c = self.count_submissions(&self.challenges[j].id);
            keys.push(-(c as i128));
            j = j + 1;
        }
        let ord = stable_order(&keys);
        assert(int_keys(keys@) =~= pk);
        let mut pop: Vec<&Challenge> = Vec::new();
        let mut j: usize = 0;
        while j < n
            invariant
                n == self.challenges.len(),
                is_stable_order(pk, ord@),
                pk.len() == n,
                j <= n,
                pop.len() == j,
                forall|q: int| 0 <= q < j ==> (#[trigger] pop@[q])@ == self@.challenges[ord@[q] as int],
            decreases n - j,
        {
            pop.push(&self.challenges[ord[j]]);
            j = j + 1;
        }
        let ghost target = ord@.map_values(|k: usize| self@.challenges[k as int]);
        assert(pop@.map_values(|c: &Challenge| c@) =~= target);
        assert forall|a: int, b: int| 0 <= a < b < pop.len() implies submission_count(
            self@,
            (#[trigger] pop@[a])@.id,
        ) >= submission_count(self@, (#[trigger] pop@[b])@.id) by {
            assert(stable_before(pk, ord@[a] as int, ord@[b] as int));
        }
        assert forall|i: int| 0 <= i < self@.challenges.len() implies pop@.map_values(|c: &Challenge| c@).contains(
            #[trigger] self@.challenges[i],
        ) by {
            assert(ord@.contains(i as usize));
            let j = choose|j: int| 0 <= j < ord@.len() && ord@[j] == i as usize;
            assert(pop@.map_values(|c: &Challenge| c@)[j] == self@.challenges[i]);
        }
        pop
    }

    /// Challenges filtered by category.
    pub fn challenges_by_category(&self, cat: &ChallengeCategory) -> (cs: Vec<&Challenge>)
        requires
            self.wf(),
        ensures
            cs@.map_values(|c: &Challenge| c@) == in_category(self@.challenges, *cat),
            forall|i: int| 0 <= i < cs.len() ==> (#[trigger] cs@[i])@.category == *cat,
    {
        let ghost all = self@.challenges;
        let mut out: Vec<&Challenge> = Vec::new();
        let mut i: usize = 0;
        while i < self.challenges.len()
            invariant
                all == self@.challenges,
                i <= self.challenges.len(),
                out@.map_values(|c: &Challenge| c@) == in_category(all.take(i as int), *cat),
            decreases self.challenges.len() - i,
        {
            assert(all.take(i + 1).drop_last() =~= all.take(i as int));
            assert(all.take(i + 1).last() == all[i as int]);
            let ghost prev = out@;
            if self.challenges[i].category == *cat {
                out.push(&self.challenges[i]);
                assert(out@ == prev.push(&self.challenges@[i as int]));
                assert(out@.map_values(|c: &Challenge| c@) =~= prev.map_values(|c: &Challenge| c@).push(all[i as int]));
            }
            i = i + 1;
        }
        assert(all.take(self.challenges.len() as int) =~= all);
        proof {
            lemma_in_category_matches(all, *cat);
            assert forall|i: int| 0 <= i < out.len() implies (#[trigger] out@[i])@.category == *cat by {
                assert(out@[i]@ == out@.map_values(|c: &Challenge| c@)[i]);
            }
        }
        out
    }
}

impl Default for ChallengeArena {
    /// An empty arena.
    fn default() -> (a: Self)
        ensures
            a.wf(),
            a@.challenges == Seq::<ChallengeView>::empty(),
            a@.submissions == Seq::<(Seq<char>, Seq<SubmissionView>)>::empty(),
            a@.results == Seq::<(Seq<char>, Seq<ResultView>)>::empty(),
    {
        ChallengeArena::new()
    }
}

impl ChallengeArena {
    /// The challenge with id `id`, if any.
    pub fn challenge(&self, id: &str) -> (r: Option<&Challenge>)
        requires
            self.wf(),
        ensures
            match r {
                Some(c) => find_challenge(self@, id@) == Some(c@),
                None => find_challenge(self@, id@) is None,
            },
    {
        let key = id.to_owned();
        let ci = self.challenge_index(&key);
        match ci {
            Some(i) => {
                Some(&self.challenges[i])
            },
            None => {
                None
            },
        }
    }

    /// The submissions kept under challenge id `id`, if any are kept.
    pub fn submissions_for(&self, id: &str) -> (r: Option<&Vec<Submission>>)
        requires
            self.wf(),
        ensures
            match r {
                Some(v) => lookup(self@.submissions, id@) == Some(v@.map_values(|s: Submission| s@)),
                None => lookup(self@.submissions, id@) is None,
            },
    {
        let key = id.to_owned();
        let si = self.submissions_index(&key);
        match si {
            Some(i) => {
                Some(&self.submissions[i].1)
            },
            None => {
                None
            },
        }
    }

    /// All challenges, in the order in which they were first created.
    pub fn challenge_list(&self) -> (r: &Vec<Challenge>)
        ensures
            r@.map_values(|c: Challenge| c@) == self@.challenges,
    {
        &self.challenges
    }

    /// The submissions kept under each challenge id.
    pub fn submission_lists(&self) -> (r: &Vec<(String, Vec<Submission>)>)
        ensures
            r@.map_values(|e: (String, Vec<Submission>)| submissions_entry_view(e)) == self@.submissions,
    {
        &self.submissions
    }

    /// The ranked results kept under each challenge id.
    pub fn result_lists(&self) -> (r: &Vec<(String, Vec<ChallengeResult>)>)
        ensures
            r@.map_values(|e: (String, Vec<ChallengeResult>)| results_entry_view(e)) == self@.results,
    {
        &self.results
    }
}

impl ChallengeArena {
    /// A copy of this arena.
    pub fn duplicate(&self) -> (r: Self)
        ensures
            r@ == self@,
    {
        let mut challenges: Vec<Challenge> = Vec::new();
        let mut i: usize = 0;
        while i < self.challenges.len()
            invariant
                i <= self.challenges.len(),
                challenges.len() == i,
                forall|j: int| 0 <= j < i ==> (#[trigger] challenges@[j])@ == self.challenges@[j]@,
            decreases self.challenges.len() - i,
        {
            challenges.push(self.challenges[i].duplicate());
            i = i + 1;
        }
        let mut submissions: Vec<(String, Vec<Submission>)> = Vec::new();
        let mut i: usize = 0;
        while i < self.submissions.len()
            invariant
                i <= self.submissions.len(),
                submissions.len() == i,
                forall|j: int|
                    0 <= j < i ==> submissions_entry_view(#[trigger] submissions@[j]) == submissions_entry_view(
                        self.submissions@[j],
                    ),
            decreases self.submissions.len() - i,
        {
            let list = &self.submissions[i].1;
            let mut copy: Vec<Submission> = Vec::new();
            let mut j: usize = 0;
            while j < list.len()
                invariant
                    j <= list.len(),
                    copy.len() == j,
                    forall|q: int| 0 <= q < j ==> (#[trigger] copy@[q])@ == list@[q]@,
                decreases list.len() - j,
            {
                copy.push(list[j].duplicate());
                j = j + 1;
            }
            assert(copy@.map_values(|s: Submission| s@) =~= list@.map_values(|s: Submission| s@));
            submissions.push((self.submissions[i].0.clone(), copy));
            i = i + 1;
        }
        let mut results: Vec<(String, Vec<ChallengeResult>)> = Vec::new();
        let mut i: usize = 0;
        while i < self.results.len()
            invariant
                i <= self.results.len(),
                results.len() == i,
                forall|j: int|
                    0 <= j < i ==> results_entry_view(#[trigger] results@[j]) == results_entry_view(self.results@[j]),
            decreases self.results.len() - i,
        {
            let list = &self.results[i].1;
            let mut copy: Vec<ChallengeResult> = Vec::new();
            let mut j: usize = 0;
            while j < list.len()
                invariant
                    j <= list.len(),
                    copy.len() == j,
                    forall|q: int| 0 <= q < j ==> (#[trigger] copy@[q])@ == list@[q]@,
                decreases list.len() - j,
            {
                copy.push(list[j].duplicate());
                j = j + 1;
            }
            assert(copy@.map_values(|r: ChallengeResult| r@) =~= list@.map_values(|r: ChallengeResult| r@));
            results.push((self.results[i].0.clone(), copy));
            i = i + 1;
        }
        let r = ChallengeArena { challenges, submissions, results };
        assert(r@.challenges =~= self@.challenges);
        assert(r@.submissions =~= self@.submissions);
        assert(r@.results =~= self@.results);
        r
    }
}

} // verus!
