use lau_challenge::{
    Challenge, ChallengeArena, ChallengeCategory, ChallengeResult, Constraint, Real, ScoringRule, Submission,
};

fn r(x: f64) -> Real {
    Real::from_bits(x.to_bits())
}

fn f(q: Real) -> f64 {
    f64::from_bits(q.to_bits())
}

fn simple(challenge_id: &str, player: &str, tick: u64, score: f64) -> Submission {
    Submission::simple(challenge_id, player, tick, r(score))
}

fn submit(arena: &mut ChallengeArena, sub: Submission) -> ChallengeResult {
    let ce = (1.0 - f(sub.conservation_score)).abs();
    arena.submit(sub, r(ce))
}

fn challenge(id: &str, scoring: ScoringRule) -> Challenge {
    Challenge {
        id: id.into(),
        title: format!("Test {id}"),
        description: "A test challenge".into(),
        creator: "tester".into(),
        difficulty: 2,
        category: ChallengeCategory::Building,
        constraints: vec![],
        scoring,
        time_limit: None,
    }
}

#[test]
fn quantity_order_matches_doubles() {
    let xs = [f64::NEG_INFINITY, -2.5, -1e-300, -0.0, 0.0, 1e-300, 1.0, 2.5, f64::INFINITY];
    for &a in xs.iter() {
        for &b in xs.iter() {
            assert_eq!(r(a).lt(&r(b)), a < b, "{a} < {b}");
        }
    }
    let nan = r(f64::NAN);
    assert!(nan.is_nan());
    assert!(!nan.lt(&r(1.0)));
    assert!(!r(1.0).lt(&nan));
    assert!(!nan.lt(&nan));
}

#[test]
fn quantity_bits_roundtrip() {
    for &x in [-3.25, -0.5, 0.0, 0.95, 1.0, 42.0, 3.15, f64::MAX, f64::INFINITY, f64::NEG_INFINITY].iter() {
        assert_eq!(f(r(x)).to_bits(), x.to_bits());
    }
    assert_eq!(f(r(-0.0)).to_bits(), (-0.0f64).to_bits());
    let payload = f64::from_bits(0x7FF0_0000_0000_0001);
    assert_eq!(r(payload).to_bits(), 0x7FF0_0000_0000_0001);
    assert!(r(payload).is_nan());
    assert!(f(r(f64::NAN)).is_nan());
    assert_eq!(f(Real::one()), 1.0);
    assert_eq!(f(Real::zero()), 0.0);
    assert_eq!(r(1.0).key(), 0x3FF0_0000_0000_0000);
    assert_eq!(r(-1.0).key(), -0x3FF0_0000_0000_0000);
}

#[test]
fn simple_submission_defaults() {
    let s = simple("c", "p", 7, 2.0);
    assert_eq!(s.challenge_id, "c");
    assert_eq!(s.player, "p");
    assert_eq!(s.tick, 7);
    assert_eq!(f(s.score), 2.0);
    assert_eq!(s.solution_data, "");
    assert_eq!(s.blocks_used, None);
    assert_eq!(f(s.conservation_score), 1.0);
    assert!(s.materials_used.is_empty());
    assert_eq!(f(s.cost), 0.0);
    assert!(!s.agent_help_used);
    assert_eq!(s.biome_used, None);
}

#[test]
fn ties_keep_submission_order() {
    let mut arena = ChallengeArena::new();
    arena.create_challenge(challenge("c", ScoringRule::HighestScore));
    submit(&mut arena, simple("c", "a", 1, 50.0));
    submit(&mut arena, simple("c", "b", 1, 50.0));
    submit(&mut arena, simple("c", "z", 1, 70.0));
    submit(&mut arena, simple("c", "c", 1, 50.0));
    let lb = arena.leaderboard("c");
    let players: Vec<&str> = lb.iter().map(|x| x.submission.player.as_str()).collect();
    assert_eq!(players, vec!["z", "a", "b", "c"]);
    let ranks: Vec<usize> = lb.iter().map(|x| x.rank).collect();
    assert_eq!(ranks, vec![1, 2, 3, 4]);
}

#[test]
fn submit_returns_own_result() {
    let mut arena = ChallengeArena::new();
    arena.create_challenge(challenge("c", ScoringRule::HighestScore));
    let first = submit(&mut arena, simple("c", "alice", 1, 30.0));
    assert_eq!(first.submission.player, "alice");
    assert_eq!(first.rank, 1);
    let second = submit(&mut arena, simple("c", "bob", 1, 50.0));
    assert_eq!(second.submission.player, "bob");
    assert_eq!(second.rank, 1);
    assert!(second.verified);
    let third = submit(&mut arena, simple("c", "carol", 1, 40.0));
    assert_eq!(third.submission.player, "carol");
    assert_eq!(third.rank, 2);
    let fourth = submit(&mut arena, simple("c", "dave", 1, 40.0));
    assert_eq!(fourth.submission.player, "dave");
    assert_eq!(fourth.rank, 3);
}

#[test]
fn lower_is_better_rules() {
    for rule in [ScoringRule::FastestTime, ScoringRule::FewestResources, ScoringRule::BestConservation] {
        let mut arena = ChallengeArena::new();
        arena.create_challenge(challenge("c", rule));
        submit(&mut arena, simple("c", "big", 1, 9.0));
        submit(&mut arena, simple("c", "small", 1, 1.0));
        assert_eq!(arena.leaderboard("c")[0].submission.player, "small");
    }
    for rule in [ScoringRule::HighestScore, ScoringRule::MostCreative, ScoringRule::HighestYield] {
        let mut arena = ChallengeArena::new();
        arena.create_challenge(challenge("c", rule));
        submit(&mut arena, simple("c", "small", 1, 1.0));
        submit(&mut arena, simple("c", "big", 1, 9.0));
        assert_eq!(arena.leaderboard("c")[0].submission.player, "big");
    }
}

#[test]
fn unknown_challenge_submission_is_unverified() {
    let mut arena = ChallengeArena::new();
    let mut sub = simple("ghost", "a", 1, 1.0);
    sub.conservation_score = r(0.8);
    let res = submit(&mut arena, sub);
    assert!(!res.verified);
    assert_eq!(f(res.conservation_error), 0.0);
    submit(&mut arena, simple("ghost", "b", 1, 5.0));
    let lb = arena.leaderboard("ghost");
    assert_eq!(lb.len(), 2);
    assert_eq!(lb[0].submission.player, "b");
    assert_eq!(arena.submissions_for("ghost").unwrap().len(), 2);
    assert!(arena.challenge("ghost").is_none());
}

#[test]
fn conservation_error_kept_for_known_challenge() {
    let mut arena = ChallengeArena::new();
    let mut c = challenge("c", ScoringRule::HighestScore);
    c.constraints.push(Constraint::MinConservationScore(r(0.9)));
    arena.create_challenge(c);
    let mut sub = simple("c", "a", 1, 1.0);
    sub.conservation_score = r(0.8);
    let res = submit(&mut arena, sub);
    assert!(!res.verified);
    assert_eq!(f(res.conservation_error), (1.0f64 - 0.8).abs());
}

#[test]
fn recreating_a_challenge_resets_its_board() {
    let mut arena = ChallengeArena::new();
    arena.create_challenge(challenge("c", ScoringRule::HighestScore));
    arena.create_challenge(challenge("d", ScoringRule::HighestScore));
    submit(&mut arena, simple("c", "a", 1, 1.0));
    let mut again = challenge("c", ScoringRule::FastestTime);
    again.title = "Again".into();
    arena.create_challenge(again);
    assert!(arena.leaderboard("c").is_empty());
    assert_eq!(arena.submissions_for("c").unwrap().len(), 0);
    assert_eq!(arena.challenge("c").unwrap().title, "Again");
    let ids: Vec<&str> = arena.challenge_list().iter().map(|c| c.id.as_str()).collect();
    assert_eq!(ids, vec!["c", "d"]);
}

#[test]
fn first_violation_is_reported() {
    let mut c = challenge("c", ScoringRule::HighestScore);
    c.constraints.push(Constraint::NoAgentHelp);
    c.constraints.push(Constraint::MaxTime(5));
    c.constraints.push(Constraint::MaxBlocks(3));
    let mut sub = simple("c", "a", 10, 1.0);
    sub.blocks_used = Some(4);
    assert!(matches!(c.check_constraints(&sub), Some(Constraint::MaxTime(5))));
    sub.agent_help_used = true;
    assert!(matches!(c.check_constraints(&sub), Some(Constraint::NoAgentHelp)));
}

#[test]
fn constraint_boundaries_pass() {
    let mut c = challenge("c", ScoringRule::HighestScore);
    c.constraints.push(Constraint::MinConservationScore(r(0.95)));
    c.constraints.push(Constraint::Budget(r(100.0)));
    c.constraints.push(Constraint::MaxBlocks(3));
    c.constraints.push(Constraint::MaxTime(10));
    let mut sub = simple("c", "a", 10, 1.0);
    sub.conservation_score = r(0.95);
    sub.cost = r(100.0);
    assert!(c.check_constraints(&sub).is_none());
    sub.blocks_used = Some(3);
    assert!(c.check_constraints(&sub).is_none());
    sub.conservation_score = r(f64::NAN);
    assert!(c.check_constraints(&sub).is_none());
}

#[test]
fn required_material_and_biome_missing_fail() {
    let mut c = challenge("c", ScoringRule::HighestScore);
    c.constraints.push(Constraint::RequiredMaterial("stone".into()));
    let mut sub = simple("c", "a", 1, 1.0);
    sub.materials_used.push("wood".into());
    assert!(matches!(c.check_constraints(&sub), Some(Constraint::RequiredMaterial(_))));
    let mut d = challenge("d", ScoringRule::HighestScore);
    d.constraints.push(Constraint::MustUseBiome("desert".into()));
    let none = simple("d", "a", 1, 1.0);
    assert!(matches!(d.check_constraints(&none), Some(Constraint::MustUseBiome(_))));
}

#[test]
fn popular_ties_keep_creation_order() {
    let mut arena = ChallengeArena::new();
    arena.create_challenge(challenge("c1", ScoringRule::HighestScore));
    arena.create_challenge(challenge("c2", ScoringRule::HighestScore));
    arena.create_challenge(challenge("c3", ScoringRule::HighestScore));
    submit(&mut arena, simple("c1", "a", 1, 1.0));
    submit(&mut arena, simple("c2", "a", 1, 1.0));
    submit(&mut arena, simple("c2", "b", 1, 1.0));
    submit(&mut arena, simple("c3", "a", 1, 1.0));
    let ids: Vec<&str> = arena.popular_challenges().iter().map(|c| c.id.as_str()).collect();
    assert_eq!(ids, vec!["c2", "c1", "c3"]);
}

#[test]
fn player_submissions_in_order() {
    let mut arena = ChallengeArena::new();
    arena.create_challenge(challenge("c1", ScoringRule::HighestScore));
    arena.create_challenge(challenge("c2", ScoringRule::HighestScore));
    submit(&mut arena, simple("c1", "alice", 1, 1.0));
    submit(&mut arena, simple("c1", "bob", 2, 1.0));
    submit(&mut arena, simple("c2", "alice", 3, 1.0));
    submit(&mut arena, simple("c1", "alice", 4, 1.0));
    let ticks: Vec<u64> = arena.player_submissions("alice").iter().map(|s| s.tick).collect();
    assert_eq!(ticks, vec![1, 4, 3]);
    assert!(arena.player_submissions("nobody").is_empty());
}

#[test]
fn default_arena_is_empty() {
    let arena = ChallengeArena::default();
    assert!(arena.leaderboard("x").is_empty());
    assert!(arena.popular_challenges().is_empty());
    assert!(arena.challenge_list().is_empty());
    assert!(arena.submissions_for("x").is_none());
}

#[test]
fn category_filter_keeps_order() {
    let mut arena = ChallengeArena::new();
    let mut a = challenge("a", ScoringRule::HighestScore);
    a.category = ChallengeCategory::Farming;
    let b = challenge("b", ScoringRule::HighestScore);
    let mut c = challenge("c", ScoringRule::HighestScore);
    c.category = ChallengeCategory::Farming;
    arena.create_challenge(a);
    arena.create_challenge(b);
    arena.create_challenge(c);
    let ids: Vec<&str> =
        arena.challenges_by_category(&ChallengeCategory::Farming).iter().map(|c| c.id.as_str()).collect();
    assert_eq!(ids, vec!["a", "c"]);
    assert!(arena.challenges_by_category(&ChallengeCategory::Collaboration).is_empty());
}

#[test]
fn constraint_equality() {
    assert!(Constraint::MaxBlocks(5) == Constraint::MaxBlocks(5));
    assert!(Constraint::MaxBlocks(5) != Constraint::MaxBlocks(6));
    assert!(Constraint::MaxTime(5) != Constraint::MaxBlocks(5));
    assert!(Constraint::Budget(r(1.0)) == Constraint::Budget(r(1.0)));
    assert!(Constraint::Budget(r(0.0)) == Constraint::Budget(r(-0.0)));
    assert!(Constraint::Budget(r(f64::NAN)) != Constraint::Budget(r(f64::NAN)));
    assert!(Constraint::MinConservationScore(r(0.5)) != Constraint::MinConservationScore(r(0.25)));
    assert!(Constraint::RequiredMaterial("a".into()) == Constraint::RequiredMaterial("a".into()));
    assert!(Constraint::RequiredMaterial("a".into()) != Constraint::MustUseBiome("a".into()));
    assert!(Constraint::NoAgentHelp == Constraint::NoAgentHelp);
    assert!(r(2.0).same_value(&r(2.0)));
    assert!(!r(f64::NAN).same_value(&r(f64::NAN)));
}

#[test]
fn recreating_drops_only_that_challenges_submissions() {
    let mut arena = ChallengeArena::new();
    arena.create_challenge(challenge("c", ScoringRule::HighestScore));
    arena.create_challenge(challenge("d", ScoringRule::HighestScore));
    submit(&mut arena, simple("c", "alice", 1, 1.0));
    submit(&mut arena, simple("d", "alice", 2, 1.0));
    submit(&mut arena, simple("c", "alice", 3, 1.0));
    submit(&mut arena, simple("d", "bob", 4, 1.0));
    arena.create_challenge(challenge("c", ScoringRule::HighestScore));
    let ticks: Vec<u64> = arena.player_submissions("alice").iter().map(|s| s.tick).collect();
    assert_eq!(ticks, vec![2]);
    assert_eq!(arena.leaderboard("d").len(), 2);
    assert!(arena.leaderboard("c").is_empty());
}

#[test]
fn scores_kept_bit_for_bit() {
    let mut arena = ChallengeArena::new();
    arena.create_challenge(challenge("c", ScoringRule::HighestScore));
    let res = submit(&mut arena, simple("c", "a", 1, -0.0));
    assert_eq!(f(res.submission.score).to_bits(), (-0.0f64).to_bits());
    assert_eq!(f(res.conservation_error).to_bits(), 0.0f64.to_bits());
}

#[test]
fn unknown_challenge_results_stay_unverified() {
    let mut arena = ChallengeArena::new();
    submit(&mut arena, simple("ghost", "a", 1, 9.0));
    let mut sub = simple("ghost", "b", 1, 1.0);
    sub.conservation_score = r(0.5);
    let res = submit(&mut arena, sub);
    assert_eq!(res.submission.player, "b");
    assert!(!res.verified);
    assert_eq!(f(res.conservation_error), 0.0);
    assert_eq!(arena.player_submissions("b").len(), 1);
    assert_eq!(arena.leaderboard("ghost").len(), 2);
}

#[test]
fn arena_clones() {
    let mut arena = ChallengeArena::new();
    arena.create_challenge(challenge("c", ScoringRule::HighestScore));
    submit(&mut arena, simple("c", "a", 1, 1.0));
    let copy = arena.clone();
    assert_eq!(copy.leaderboard("c").len(), 1);
    let mut dup = arena.duplicate();
    submit(&mut dup, simple("c", "b", 1, 2.0));
    assert_eq!(dup.leaderboard("c").len(), 2);
    assert_eq!(arena.leaderboard("c").len(), 1);
    assert_eq!(dup.challenge("c").unwrap().duplicate().title, "Test c");
    assert!(!format!("{:?}", copy).is_empty());
}
