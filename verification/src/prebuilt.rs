//! The challenges that ship with the arena.
use vstd::prelude::*;
use crate::challenge::{
    Challenge, ChallengeCategory, ChallengeView, Constraint, ConstraintView, ScoringRule, SubmissionView,
    satisfies_all, valid_difficulty,
};
use crate::quantity::Real;

verus! {

/// Raw bits of the double 0.95.
pub const POINT_95_BITS: u64 = 0x3FEE_6666_6666_6666;

/// Raw bits of the double 0.99.
pub const POINT_99_BITS: u64 = 0x3FEF_AE14_7AE1_47AE;

/// The pre-built challenges, in order.
pub open spec fn prebuilt_spec() -> Seq<ChallengeView> {
    seq![
        ChallengeView {
            id: "tower-of-balance"@,
            title: "Tower of Balance"@,
            description: "Build the tallest tower using at most 50 blocks while keeping a conservation score above 0.95."@,
            creator: "system"@,
            difficulty: 3,
            category: ChallengeCategory::Building,
            constraints: seq![
                ConstraintView::MaxBlocks(50),
                ConstraintView::MinConservationScore(POINT_95_BITS),
            ],
            scoring: ScoringRule::HighestScore,
            time_limit: None,
        },
        ChallengeView {
            id: "speed-farm"@,
            title: "Speed Farm"@,
            description: "Harvest 100 crops within 500 ticks."@,
            creator: "system"@,
            difficulty: 2,
            category: ChallengeCategory::Farming,
            constraints: seq![ConstraintView::MaxTime(500)],
            scoring: ScoringRule::HighestYield,
            time_limit: Some(500),
        },
        ChallengeView {
            id: "conservation-master"@,
            title: "Conservation Master"@,
            description: "Maintain a conservation error below 0.01 for 100 ticks."@,
            creator: "system"@,
            difficulty: 4,
            category: ChallengeCategory::Conservation,
            constraints: seq![
                ConstraintView::MinConservationScore(POINT_99_BITS),
                ConstraintView::MaxTime(100),
            ],
            scoring: ScoringRule::BestConservation,
            time_limit: Some(100),
        },
        ChallengeView {
            id: "solo-agent"@,
            title: "Solo Agent"@,
            description: "Train an agent to 0.9 accuracy without any external help."@,
            creator: "system"@,
            difficulty: 5,
            category: ChallengeCategory::AgentTraining,
            constraints: seq![ConstraintView::NoAgentHelp],
            scoring: ScoringRule::HighestScore,
            time_limit: None,
        },
    ]
}

/// The four challenges that ship with the arena.
pub fn prebuilt_challenges() -> (cs: Vec<Challenge>)
    ensures
        cs@.map_values(|c: Challenge| c@) == prebuilt_spec(),
        forall|i: int| 0 <= i < cs.len() ==> valid_difficulty(#[trigger] cs@[i].difficulty),
        cs.len() == 4,
        cs@[0]@.id == "tower-of-balance"@,
        cs@[0]@.difficulty == 3,
        cs@[0]@.category == ChallengeCategory::Building,
        cs@[0]@.constraints == seq![
            ConstraintView::MaxBlocks(50),
            ConstraintView::MinConservationScore(0x3FEE_6666_6666_6666u64),
        ],
        cs@[0]@.scoring == ScoringRule::HighestScore,
        cs@[0]@.time_limit == None::<u64>,
        cs@[1]@.id == "speed-farm"@,
        cs@[1]@.difficulty == 2,
        cs@[1]@.category == ChallengeCategory::Farming,
        cs@[1]@.constraints == seq![ConstraintView::MaxTime(500)],
        cs@[1]@.scoring == ScoringRule::HighestYield,
        cs@[1]@.time_limit == Some(500u64),
        cs@[2]@.id == "conservation-master"@,
        cs@[2]@.difficulty == 4,
        cs@[2]@.category == ChallengeCategory::Conservation,
        cs@[2]@.constraints == seq![
            ConstraintView::MinConservationScore(0x3FEF_AE14_7AE1_47AEu64),
            ConstraintView::MaxTime(100),
        ],
        cs@[2]@.scoring == ScoringRule::BestConservation,
        cs@[2]@.time_limit == Some(100u64),
        cs@[3]@.id == "solo-agent"@,
        cs@[3]@.difficulty == 5,
        cs@[3]@.category == ChallengeCategory::AgentTraining,
        cs@[3]@.constraints == seq![ConstraintView::NoAgentHelp],
        cs@[3]@.scoring == ScoringRule::HighestScore,
        cs@[3]@.time_limit == None::<u64>,
        forall|s: SubmissionView| s.tick > 500 ==> !satisfies_all(#[trigger] cs@[1]@.constraints, s),
        forall|s: SubmissionView| s.tick > 100 ==> !satisfies_all(#[trigger] cs@[2]@.constraints, s),
        forall|s: SubmissionView| s.agent_help_used ==> !satisfies_all(#[trigger] cs@[3]@.constraints, s),
{
    let mut tower_constraints: Vec<Constraint> = Vec::new();
    tower_constraints.push(Constraint::MaxBlocks(50));
    tower_constraints.push(Constraint::MinConservationScore(Real::from_bits(POINT_95_BITS)));
    let mut farm_constraints: Vec<Constraint> = Vec::new();
    farm_constraints.push(Constraint::MaxTime(500));
    let mut master_constraints: Vec<Constraint> = Vec::new();
    master_constraints.push(Constraint::MinConservationScore(Real::from_bits(POINT_99_BITS)));
    master_constraints.push(Constraint::MaxTime(100));
    let mut solo_constraints: Vec<Constraint> = Vec::new();
    solo_constraints.push(Constraint::NoAgentHelp);
    let tower = Challenge {
        id: "tower-of-balance".to_owned(),
        title: "Tower of Balance".to_owned(),
        description: "Build the tallest tower using at most 50 blocks while keeping a conservation score above 0.95.".to_owned(),
        creator: "system".to_owned(),
        difficulty: 3,
        category: ChallengeCategory::Building,
        constraints: tower_constraints,
        scoring: ScoringRule::HighestScore,
        time_limit: None,
    };
    let farm = Challenge {
        id: "speed-farm".to_owned(),
        title: "Speed Farm".to_owned(),
        description: "Harvest 100 crops within 500 ticks.".to_owned(),
        creator: "system".to_owned(),
        difficulty: 2,
        category: ChallengeCategory::Farming,
        constraints: farm_constraints,
        scoring: ScoringRule::HighestYield,
        time_limit: Some(500),
    };
    let master = Challenge {
        id: "conservation-master".to_owned(),
        title: "Conservation Master".to_owned(),
        description: "Maintain a conservation error below 0.01 for 100 ticks.".to_owned(),
        creator: "system".to_owned(),
        difficulty: 4,
        category: ChallengeCategory::Conservation,
        constraints: master_constraints,
        scoring: ScoringRule::BestConservation,
        time_limit: Some(100),
    };
    let solo = Challenge {
        id: "solo-agent".to_owned(),
        title: "Solo Agent".to_owned(),
        description: "Train an agent to 0.9 accuracy without any external help.".to_owned(),
        creator: "system".to_owned(),
        difficulty: 5,
        category: ChallengeCategory::AgentTraining,
        constraints: solo_constraints,
        scoring: ScoringRule::HighestScore,
        time_limit: None,
    };
    assert(tower@.constraints =~= prebuilt_spec()[0].constraints);
    assert(farm@.constraints =~= prebuilt_spec()[1].constraints);
    assert(master@.constraints =~= prebuilt_spec()[2].constraints);
    assert(solo@.constraints =~= prebuilt_spec()[3].constraints);
    let mut cs: Vec<Challenge> = Vec::new();
    cs.push(tower);
    cs.push(farm);
    cs.push(master);
    cs.push(solo);
    assert(cs@.map_values(|c: Challenge| c@) =~= prebuilt_spec());
    assert(cs@[0]@ == cs@.map_values(|c: Challenge| c@)[0]);
    assert(cs@[1]@ == cs@.map_values(|c: Challenge| c@)[1]);
    assert(cs@[2]@ == cs@.map_values(|c: Challenge| c@)[2]);
    assert(cs@[3]@ == cs@.map_values(|c: Challenge| c@)[3]);
    assert forall|s: SubmissionView| s.tick > 500 implies !satisfies_all(#[trigger] cs@[1]@.constraints, s) by {
        assert(crate::challenge::violates(cs@[1]@.constraints[0], s));
    }
    assert forall|s: SubmissionView| s.tick > 100 implies !satisfies_all(#[trigger] cs@[2]@.constraints, s) by {
        assert(crate::challenge::violates(cs@[2]@.constraints[1], s));
    }
    assert forall|s: SubmissionView| s.agent_help_used implies !satisfies_all(#[trigger] cs@[3]@.constraints, s) by {
        assert(crate::challenge::violates(cs@[3]@.constraints[0], s));
    }
    cs
}

} // verus!
