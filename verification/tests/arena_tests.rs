use lau_challenge::{
    prebuilt_challenges, Challenge, ChallengeArena, ChallengeCategory, ChallengeResult, Constraint, Real,
    ScoringRule, Submission,
};

fn r(x: f64) -> Real {
    Real::from_bits(x.to_bits())
}

fn f(q: Real) -> f64 {
    f64::from_bits(q.to_bits())
}

fn simple(challenge_id: &str, player: &str, tick: u64, score: f64) -> Submission {
    Submission::simple(challenge_id, player, tick, r(score))
}

/// Submits with the conservation error computed from the submission's score.
fn submit(arena: &mut ChallengeArena, sub: Submission) -> ChallengeResult {
    let ce = (1.0 - f(sub.conservation_score)).abs();
    arena.submit(sub, r(ce))
}

fn make_challenge(id: &str, cat: ChallengeCategory) -> Challenge {
    Challenge {
        id: id.into(),
        title: format!("Test {id}"),
        description: "A test challenge".into(),
        creator: "tester".into(),
        difficulty: 3,
        category: cat,
        constraints: vec![],
        scoring: ScoringRule::HighestScore,
        time_limit: None,
    }
}

#[test]
fn difficulty_in_range() {
    assert!(Challenge::validate_difficulty(1));
    assert!(Challenge::validate_difficulty(5));
    assert!(!Challenge::validate_difficulty(0));
    assert!(!Challenge::validate_difficulty(6));
}

#[test]
fn create_challenge_returns_id() {
    let mut arena = ChallengeArena::new();
    let c = make_challenge("c1", ChallengeCategory::Building);
    let id = arena.create_challenge(c);
    assert_eq!(id, "c1");
    assert!(arena.challenge("c1").is_some());
}

#[test]
fn submit_returns_result() {
    let mut arena = ChallengeArena::new();
    arena.create_challenge(make_challenge("c1", ChallengeCategory::Building));
    let sub = simple("c1", "alice", 10, 42.0);
    let res = submit(&mut arena, sub);
    assert!(res.verified);
    assert_eq!(res.submission.player, "alice");
}

#[test]
fn leaderboard_sorted_by_rank() {
    let mut arena = ChallengeArena::new();
    arena.create_challenge(make_challenge("c1", ChallengeCategory::Building));
    submit(&mut arena, simple("c1", "alice", 10, 30.0));
    submit(&mut arena, simple("c1", "bob", 10, 50.0));
    let lb = arena.leaderboard("c1");
    assert_eq!(lb.len(), 2);
    assert_eq!(lb[0].rank, 1);
}

#[test]
fn player_submissions_across_challenges() {
    let mut arena = ChallengeArena::new();
    arena.create_challenge(make_challenge("c1", ChallengeCategory::Building));
    arena.create_challenge(make_challenge("c2", ChallengeCategory::Farming));
    submit(&mut arena, simple("c1", "alice", 10, 10.0));
    submit(&mut arena, simple("c2", "alice", 20, 20.0));
    let subs = arena.player_submissions("alice");
    assert_eq!(subs.len(), 2);
}

#[test]
fn challenges_by_category_filters() {
    let mut arena = ChallengeArena::new();
    arena.create_challenge(make_challenge("c1", ChallengeCategory::Building));
    arena.create_challenge(make_challenge("c2", ChallengeCategory::Farming));
    let building = arena.challenges_by_category(&ChallengeCategory::Building);
    assert_eq!(building.len(), 1);
    assert_eq!(building[0].id, "c1");
}

#[test]
fn popular_challenges_sorted_by_submissions() {
    let mut arena = ChallengeArena::new();
    arena.create_challenge(make_challenge("c1", ChallengeCategory::Building));
    arena.create_challenge(make_challenge("c2", ChallengeCategory::Farming));
    submit(&mut arena, simple("c1", "a", 1, 1.0));
    submit(&mut arena, simple("c1", "b", 1, 2.0));
    submit(&mut arena, simple("c2", "a", 1, 3.0));
    let pop = arena.popular_challenges();
    assert_eq!(pop[0].id, "c1"); // 2 submissions
    assert_eq!(pop[1].id, "c2"); // 1 submission
}

// --- Constraint tests ---

#[test]
fn constraint_max_blocks_pass() {
    let c = make_challenge("c1", ChallengeCategory::Building);
    let mut sub = simple("c1", "a", 1, 1.0);
    sub.blocks_used = Some(10);
    assert!(c.check_constraints(&sub).is_none());
}

#[test]
fn constraint_max_blocks_fail() {
    let mut c = make_challenge("c1", ChallengeCategory::Building);
    c.constraints.push(Constraint::MaxBlocks(5));
    let mut sub = simple("c1", "a", 1, 1.0);
    sub.blocks_used = Some(10);
    assert!(c.check_constraints(&sub).is_some());
}

#[test]
fn constraint_max_time_fail() {
    let mut c = make_challenge("c1", ChallengeCategory::Speedrun);
    c.constraints.push(Constraint::MaxTime(100));
    let sub = simple("c1", "a", 200, 1.0);
    assert!(c.check_constraints(&sub).is_some());
}

#[test]
fn constraint_min_conservation_fail() {
    let mut c = make_challenge("c1", ChallengeCategory::Conservation);
    c.constraints.push(Constraint::MinConservationScore(r(0.95)));
    let mut sub = simple("c1", "a", 1, 1.0);
    sub.conservation_score = r(0.8);
    assert!(c.check_constraints(&sub).is_some());
}

#[test]
fn constraint_required_material_pass() {
    let mut c = make_challenge("c1", ChallengeCategory::Building);
    c.constraints.push(Constraint::RequiredMaterial("stone".into()));
    let mut sub = simple("c1", "a", 1, 1.0);
    sub.materials_used.push("stone".into());
    assert!(c.check_constraints(&sub).is_none());
}

#[test]
fn constraint_budget_fail() {
    let mut c = make_challenge("c1", ChallengeCategory::Building);
    c.constraints.push(Constraint::Budget(r(100.0)));
    let mut sub = simple("c1", "a", 1, 1.0);
    sub.cost = r(150.0);
    assert!(c.check_constraints(&sub).is_some());
}

#[test]
fn constraint_no_agent_help_fail() {
    let mut c = make_challenge("c1", ChallengeCategory::AgentTraining);
    c.constraints.push(Constraint::NoAgentHelp);
    let mut sub = simple("c1", "a", 1, 1.0);
    sub.agent_help_used = true;
    assert!(c.check_constraints(&sub).is_some());
}

#[test]
fn constraint_must_use_biome_pass() {
    let mut c = make_challenge("c1", ChallengeCategory::Farming);
    c.constraints.push(Constraint::MustUseBiome("desert".into()));
    let mut sub = simple("c1", "a", 1, 1.0);
    sub.biome_used = Some("desert".into());
    assert!(c.check_constraints(&sub).is_none());
}

#[test]
fn constraint_must_use_biome_fail() {
    let mut c = make_challenge("c1", ChallengeCategory::Farming);
    c.constraints.push(Constraint::MustUseBiome("desert".into()));
    let mut sub = simple("c1", "a", 1, 1.0);
    sub.biome_used = Some("forest".into());
    assert!(c.check_constraints(&sub).is_some());
}

// --- Prebuilt challenges ---

#[test]
fn prebuilt_has_four_challenges() {
    let p = prebuilt_challenges();
    assert_eq!(p.len(), 4);
}

#[test]
fn prebuilt_ids() {
    let p = prebuilt_challenges();
    let ids: Vec<&str> = p.iter().map(|c| c.id.as_str()).collect();
    assert!(ids.contains(&"tower-of-balance"));
    assert!(ids.contains(&"speed-farm"));
    assert!(ids.contains(&"conservation-master"));
    assert!(ids.contains(&"solo-agent"));
}

#[test]
fn prebuilt_difficulties_valid() {
    for c in prebuilt_challenges() {
        assert!(Challenge::validate_difficulty(c.difficulty));
    }
}

#[test]
fn tower_of_balance_constraints() {
    let tob = prebuilt_challenges().into_iter().find(|c| c.id == "tower-of-balance").unwrap();
    assert!(tob.constraints.iter().any(|c| matches!(c, Constraint::MaxBlocks(50))));
    assert!(tob
        .constraints
        .iter()
        .any(|c| matches!(c, Constraint::MinConservationScore(v) if (f(*v) - 0.95).abs() < f64::EPSILON)));
}

#[test]
fn speed_farm_has_time_limit() {
    let sf = prebuilt_challenges().into_iter().find(|c| c.id == "speed-farm").unwrap();
    assert_eq!(sf.time_limit, Some(500));
}

#[test]
fn solo_agent_no_help() {
    let sa = prebuilt_challenges().into_iter().find(|c| c.id == "solo-agent").unwrap();
    assert!(sa.constraints.iter().any(|c| matches!(c, Constraint::NoAgentHelp)));
}

// --- Scoring rule direction ---

#[test]
fn fastest_time_lower_is_better() {
    let mut arena = ChallengeArena::new();
    let mut c = make_challenge("race", ChallengeCategory::Speedrun);
    c.scoring = ScoringRule::FastestTime;
    arena.create_challenge(c);
    submit(&mut arena, simple("race", "slow", 100, 100.0));
    submit(&mut arena, simple("race", "fast", 10, 10.0));
    let lb = arena.leaderboard("race");
    // FastestTime is ascending = lower score better
    assert_eq!(lb[0].submission.player, "fast");
}

#[test]
fn highest_score_higher_is_better() {
    let mut arena = ChallengeArena::new();
    let mut c = make_challenge("score", ChallengeCategory::Building);
    c.scoring = ScoringRule::HighestScore;
    arena.create_challenge(c);
    submit(&mut arena, simple("score", "low", 1, 10.0));
    submit(&mut arena, simple("score", "high", 1, 90.0));
    let lb = arena.leaderboard("score");
    assert_eq!(lb[0].submission.player, "high");
}

#[test]
fn leaderboard_empty_for_unknown() {
    let arena = ChallengeArena::new();
    let lb = arena.leaderboard("nope");
    assert!(lb.is_empty());
}
