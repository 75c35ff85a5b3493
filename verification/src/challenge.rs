//! Challenges, their constraints, submissions and results.
use vstd::prelude::*;
use crate::quantity::{Real, real_eq, real_lt, ONE_BITS};

verus! {

/// The kind of a challenge.
#[derive(Debug, Clone, PartialEq, Eq, Hash, Structural)]
pub enum ChallengeCategory {
    Building,
    Farming,
    Conservation,
    AgentTraining,
    Speedrun,
    Creativity,
    Collaboration,
}

/// A rule that a submission must keep to count as verified. Two constraints
/// are equal when they are of one kind with equal parameters (quantities
/// compared as doubles).
#[derive(Debug, Clone)]
pub enum Constraint {
    /// At most this many blocks (a submission that reports none keeps it).
    MaxBlocks(usize),
    /// Submitted no later than this tick.
    MaxTime(u64),
    /// A conservation score of at least this much.
    MinConservationScore(Real),
    /// This material among those used.
    RequiredMaterial(String),
    /// A cost of at most this much.
    Budget(Real),
    /// No agent help.
    NoAgentHelp,
    /// This biome, and no other, used.
    MustUseBiome(String),
}

/// How the submissions to a challenge are ranked.
#[derive(Debug, Clone, PartialEq, Eq, Structural)]
pub enum ScoringRule {
    HighestScore,
    FastestTime,
    BestConservation,
    MostCreative,
    HighestYield,
    FewestResources,
}

/// A challenge.
#[derive(Debug, Clone)]
pub struct Challenge {
    pub id: String,
    pub title: String,
    pub description: String,
    pub creator: String,
    pub difficulty: u32,
    pub category: ChallengeCategory,
    pub constraints: Vec<Constraint>,
    pub scoring: ScoringRule,
    pub time_limit: Option<u64>,
}

/// A player's solution to a challenge.
#[derive(Debug, Clone)]
pub struct Submission {
    pub challenge_id: String,
    pub player: String,
    pub tick: u64,
    pub score: Real,
    pub solution_data: String,
    pub blocks_used: Option<usize>,
    pub conservation_score: Real,
    pub materials_used: Vec<String>,
    pub cost: Real,
    pub agent_help_used: bool,
    pub biome_used: Option<String>,
}

/// A submission as the arena judged it.
#[derive(Debug, Clone)]
pub struct ChallengeResult {
    pub submission: Submission,
    pub rank: usize,
    pub verified: bool,
    pub conservation_error: Real,
}

// ---------------------------------------------------------------------------
// Mathematical views
// ---------------------------------------------------------------------------

pub enum ConstraintView {
    MaxBlocks(usize),
    MaxTime(u64),
    MinConservationScore(u64),
    RequiredMaterial(Seq<char>),
    Budget(u64),
    NoAgentHelp,
    MustUseBiome(Seq<char>),
}

pub struct ChallengeView {
    pub id: Seq<char>,
    pub title: Seq<char>,
    pub description: Seq<char>,
    pub creator: Seq<char>,
    pub difficulty: u32,
    pub category: ChallengeCategory,
    pub constraints: Seq<ConstraintView>,
    pub scoring: ScoringRule,
    pub time_limit: Option<u64>,
}

pub struct SubmissionView {
    pub challenge_id: Seq<char>,
    pub player: Seq<char>,
    pub tick: u64,
    pub score: u64,
    pub solution_data: Seq<char>,
    pub blocks_used: Option<usize>,
    pub conservation_score: u64,
    pub materials_used: Seq<Seq<char>>,
    pub cost: u64,
    pub agent_help_used: bool,
    pub biome_used: Option<Seq<char>>,
}

pub struct ResultView {
    pub submission: SubmissionView,
    pub rank: usize,
    pub verified: bool,
    pub conservation_error: u64,
}

/// The text of an optional string.
pub open spec fn opt_string_view(o: Option<String>) -> Option<Seq<char>> {
    match o {
        Some(s) => Some(s@),
        None => None,
    }
}

/// The texts of a sequence of strings.
pub open spec fn strings_view(v: Seq<String>) -> Seq<Seq<char>> {
    v.map_values(|s: String| s@)
}

impl View for Constraint {
    type V = ConstraintView;

    open spec fn view(&self) -> ConstraintView {
        match self {
            Constraint::MaxBlocks(m) => ConstraintView::MaxBlocks(*m),
            Constraint::MaxTime(m) => ConstraintView::MaxTime(*m),
            Constraint::MinConservationScore(m) => ConstraintView::MinConservationScore(m@),
            Constraint::RequiredMaterial(m) => ConstraintView::RequiredMaterial(m@),
            Constraint::Budget(m) => ConstraintView::Budget(m@),
            Constraint::NoAgentHelp => ConstraintView::NoAgentHelp,
            Constraint::MustUseBiome(b) => ConstraintView::MustUseBiome(b@),
        }
    }
}

impl View for Challenge {
    type V = ChallengeView;

    open spec fn view(&self) -> ChallengeView {
        ChallengeView {
            id: self.id@,
            title: self.title@,
            description: self.description@,
            creator: self.creator@,
            difficulty: self.difficulty,
            category: self.category,
            constraints: self.constraints@.map_values(|c: Constraint| c@),
            scoring: self.scoring,
            time_limit: self.time_limit,
        }
    }
}

impl View for Submission {
    type V = SubmissionView;

    open spec fn view(&self) -> SubmissionView {
        SubmissionView {
            challenge_id: self.challenge_id@,
            player: self.player@,
            tick: self.tick,
            score: self.score@,
            solution_data: self.solution_data@,
            blocks_used: self.blocks_used,
            conservation_score: self.conservation_score@,
            materials_used: strings_view(self.materials_used@),
            cost: self.cost@,
            agent_help_used: self.agent_help_used,
            biome_used: opt_string_view(self.biome_used),
        }
    }
}

impl View for ChallengeResult {
    type V = ResultView;

    open spec fn view(&self) -> ResultView {
        ResultView {
            submission: self.submission@,
            rank: self.rank,
            verified: self.verified,
            conservation_error: self.conservation_error@,
        }
    }
}

// ---------------------------------------------------------------------------
// Rules
// ---------------------------------------------------------------------------

/// A difficulty is valid when it lies in 1..=5.
pub open spec fn valid_difficulty(d: u32) -> bool {
    1 <= d <= 5
}

/// Scoring rules under which a lower score ranks higher.
pub open spec fn lower_is_better(rule: ScoringRule) -> bool {
    ||| rule is FastestTime
    ||| rule is FewestResources
    ||| rule is BestConservation
}

/// Submission `s` breaks constraint `c`.
pub open spec fn violates(c: ConstraintView, s: SubmissionView) -> bool {
    match c {
        ConstraintView::MaxBlocks(max) => s.blocks_used matches Some(b) && b > max,
        ConstraintView::MaxTime(max) => s.tick > max,
        ConstraintView::MinConservationScore(min) => real_lt(s.conservation_score, min),
        ConstraintView::RequiredMaterial(mat) => !s.materials_used.contains(mat),
        ConstraintView::Budget(max) => real_lt(max, s.cost),
        ConstraintView::NoAgentHelp => s.agent_help_used,
        ConstraintView::MustUseBiome(biome) => s.biome_used != Some(biome),
    }
}

/// Constraint `i` is the first one in `cs` that `s` breaks.
pub open spec fn is_first_violation(cs: Seq<ConstraintView>, s: SubmissionView, i: int) -> bool {
    &&& 0 <= i < cs.len()
    &&& violates(cs[i], s)
    &&& forall|j: int| 0 <= j < i ==> !violates(#[trigger] cs[j], s)
}

/// `s` keeps every constraint in `cs`.
pub open spec fn satisfies_all(cs: Seq<ConstraintView>, s: SubmissionView) -> bool {
    forall|i: int| 0 <= i < cs.len() ==> !violates(#[trigger] cs[i], s)
}

fn contains_string(v: &Vec<String>, s: &String) -> (b: bool)
    ensures
        b == strings_view(v@).contains(s@),
{
    let mut i: usize = 0;
    while i < v.len()
        invariant
            i <= v.len(),
            forall|j: int| 0 <= j < i ==> v@[j]@ != s@,
        decreases v.len() - i,
    {
        if v[i] == *s {
            assert(strings_view(v@)[i as int] == s@);
            return true;
        }
        i = i + 1;
    }
    proof {
        if strings_view(v@).contains(s@) {
            let j = choose|j: int| 0 <= j < strings_view(v@).len() && strings_view(v@)[j] == s@;
            assert(v@[j]@ == s@);
        }
    }
    false
}

fn copy_strings(v: &Vec<String>) -> (r: Vec<String>)
    ensures
        strings_view(r@) == strings_view(v@),
{
    let mut r: Vec<String> = Vec::new();
    let mut i: usize = 0;
    while i < v.len()
        invariant
            i <= v.len(),
            r.len() == i,
            forall|j: int| 0 <= j < i ==> (#[trigger] r@[j])@ == v@[j]@,
        decreases v.len() - i,
    {
        r.push(v[i].clone());
        i = i + 1;
    }
    assert(strings_view(r@) =~= strings_view(v@));
    r
}

fn copy_opt_string(o: &Option<String>) -> (r: Option<String>)
    ensures
        opt_string_view(r) == opt_string_view(*o),
{
    match o {
        Some(s) => Some(s.clone()),
        None => None,
    }
}

/// Two constraints are of one kind with equal parameters.
pub open spec fn constraint_eq(a: ConstraintView, b: ConstraintView) -> bool {
    match (a, b) {
        (ConstraintView::MaxBlocks(x), ConstraintView::MaxBlocks(y)) => x == y,
        (ConstraintView::MaxTime(x), ConstraintView::MaxTime(y)) => x == y,
        (ConstraintView::MinConservationScore(x), ConstraintView::MinConservationScore(y)) => real_eq(x, y),
        (ConstraintView::RequiredMaterial(x), ConstraintView::RequiredMaterial(y)) => x == y,
        (ConstraintView::Budget(x), ConstraintView::Budget(y)) => real_eq(x, y),
        (ConstraintView::NoAgentHelp, ConstraintView::NoAgentHelp) => true,
        (ConstraintView::MustUseBiome(x), ConstraintView::MustUseBiome(y)) => x == y,
        _ => false,
    }
}

impl PartialEq for Constraint {
    fn eq(&self, other: &Self) -> (r: bool) {
        match (self, other) {
            (Constraint::MaxBlocks(x), Constraint::MaxBlocks(y)) => *x == *y,
            (Constraint::MaxTime(x), Constraint::MaxTime(y)) => *x == *y,
            (Constraint::MinConservationScore(x), Constraint::MinConservationScore(y)) => x.same_value(y),
            (Constraint::RequiredMaterial(x), Constraint::RequiredMaterial(y)) => *x == *y,
            (Constraint::Budget(x), Constraint::Budget(y)) => x.same_value(y),
            (Constraint::NoAgentHelp, Constraint::NoAgentHelp) => true,
            (Constraint::MustUseBiome(x), Constraint::MustUseBiome(y)) => *x == *y,
            _ => false,
        }
    }
}

impl vstd::std_specs::cmp::PartialEqSpecImpl for Constraint {
    open spec fn obeys_eq_spec() -> bool {
        true
    }

    open spec fn eq_spec(&self, other: &Constraint) -> bool {
        constraint_eq(self@, other@)
    }
}

impl Constraint {
    /// Whether `submission` breaks this constraint.
    pub fn is_violated_by(&self, submission: &Submission) -> (b: bool)
        ensures
            b == violates(self@, submission@),
    {
        match self {
            Constraint::MaxBlocks(max) => match submission.blocks_used {
                Some(b) => b > *max,
                None => false,
            },
            Constraint::MaxTime(max) => submission.tick > *max,
            Constraint::MinConservationScore(min) => submission.conservation_score.lt(min),
            Constraint::RequiredMaterial(mat) => !contains_string(&submission.materials_used, mat),
            Constraint::Budget(max) => max.lt(&submission.cost),
            Constraint::NoAgentHelp => submission.agent_help_used,
            Constraint::MustUseBiome(biome) => match &submission.biome_used {
                Some(b) => !(*b == *biome),
                None => true,
            },
        }
    }
}

impl Challenge {
    /// Validate that a difficulty value is in range 1-5.
    pub fn validate_difficulty(difficulty: u32) -> (b: bool)
        ensures
            b == valid_difficulty(difficulty),
    {
        1 <= difficulty && difficulty <= 5
    }

    /// Check every constraint against a submission, returning the first violation or `None`.
    pub fn check_constraints(&self, submission: &Submission) -> (r: Option<&Constraint>)
        ensures
            r is None <==> satisfies_all(self@.constraints, submission@),
            r is Some ==> exists|i: int|
                is_first_violation(self@.constraints, submission@, i) && r == Some(&self.constraints@[i]),
    {
        let mut i: usize = 0;
        while i < self.constraints.len()
            invariant
                i <= self.constraints.len(),
                forall|j: int| 0 <= j < i ==> !violates(#[trigger] self@.constraints[j], submission@),
            decreases self.constraints.len() - i,
        {
            if self.constraints[i].is_violated_by(submission) {
                assert(is_first_violation(self@.constraints, submission@, i as int));
                return Some(&self.constraints[i]);
            }
            i = i + 1;
        }
        None
    }
}

impl Constraint {
    /// A copy of this constraint.
    pub fn duplicate(&self) -> (r: Self)
        ensures
            r@ == self@,
    {
        match self {
            Constraint::MaxBlocks(m) => Constraint::MaxBlocks(*m),
            Constraint::MaxTime(m) => Constraint::MaxTime(*m),
            Constraint::MinConservationScore(m) => Constraint::MinConservationScore(*m),
            Constraint::RequiredMaterial(m) => Constraint::RequiredMaterial(m.clone()),
            Constraint::Budget(m) => Constraint::Budget(*m),
            Constraint::NoAgentHelp => Constraint::NoAgentHelp,
            Constraint::MustUseBiome(b) => Constraint::MustUseBiome(b.clone()),
        }
    }
}

impl Challenge {
    /// A copy of this challenge.
    pub fn duplicate(&self) -> (r: Self)
        ensures
            r@ == self@,
    {
        let mut constraints: Vec<Constraint> = Vec::new();
        let mut i: usize = 0;
        while i < self.constraints.len()
            invariant
                i <= self.constraints.len(),
                constraints.len() == i,
                forall|j: int| 0 <= j < i ==> (#[trigger] constraints@[j])@ == self.constraints@[j]@,
            decreases self.constraints.len() - i,
        {
            constraints.push(self.constraints[i].duplicate());
            i = i + 1;
        }
        let category = match self.category {
            ChallengeCategory::Building => ChallengeCategory::Building,
            ChallengeCategory::Farming => ChallengeCategory::Farming,
            ChallengeCategory::Conservation => ChallengeCategory::Conservation,
            ChallengeCategory::AgentTraining => ChallengeCategory::AgentTraining,
            ChallengeCategory::Speedrun => ChallengeCategory::Speedrun,
            ChallengeCategory::Creativity => ChallengeCategory::Creativity,
            ChallengeCategory::Collaboration => ChallengeCategory::Collaboration,
        };
        let scoring = match self.scoring {
            ScoringRule::HighestScore => ScoringRule::HighestScore,
            ScoringRule::FastestTime => ScoringRule::FastestTime,
            ScoringRule::BestConservation => ScoringRule::BestConservation,
            ScoringRule::MostCreative => ScoringRule::MostCreative,
            ScoringRule::HighestYield => ScoringRule::HighestYield,
            ScoringRule::FewestResources => ScoringRule::FewestResources,
        };
        let r = Challenge {
            id: self.id.clone(),
            title: self.title.clone(),
            description: self.description.clone(),
            creator: self.creator.clone(),
            difficulty: self.difficulty,
            category,
            constraints,
            scoring,
            time_limit: self.time_limit,
        };
        assert(r@.constraints =~= self@.constraints);
        r
    }
}

impl Submission {
    /// A submission with the given challenge, player, tick and score, and
    /// neutral values elsewhere: no solution data, no blocks reported, a
    /// conservation score of 1.0, no materials, no cost, no agent help, no biome.
    pub fn simple(challenge_id: &str, player: &str, tick: u64, score: Real) -> (s: Self)
        ensures
            s@ == (SubmissionView {
                challenge_id: challenge_id@,
                player: player@,
                tick,
                score: score@,
                solution_data: Seq::empty(),
                blocks_used: None,
                conservation_score: ONE_BITS,
                materials_used: Seq::empty(),
                cost: 0,
                agent_help_used: false,
                biome_used: None,
            }),
    {
        let s = Submission {
            challenge_id: challenge_id.to_owned(),
            player: player.to_owned(),
            tick,
            score,
            solution_data: String::new(),
            blocks_used: None,
            conservation_score: Real::one(),
            materials_used: Vec::new(),
            cost: Real::zero(),
            agent_help_used: false,
            biome_used: None,
        };
        assert(strings_view(s.materials_used@) =~= Seq::empty());
        s
    }

    /// A copy of this submission.
    pub fn duplicate(&self) -> (r: Self)
        ensures
            r@ == self@,
    {
        Submission {
            challenge_id: self.challenge_id.clone(),
            player: self.player.clone(),
            tick: self.tick,
            score: self.score,
            solution_data: self.solution_data.clone(),
            blocks_used: self.blocks_used,
            conservation_score: self.conservation_score,
            materials_used: copy_strings(&self.materials_used),
            cost: self.cost,
            agent_help_used: self.agent_help_used,
            biome_used: copy_opt_string(&self.biome_used),
        }
    }
}

impl ChallengeResult {
    /// A copy of this result.
    pub fn duplicate(&self) -> (r: Self)
        ensures
            r@ == self@,
    {
        ChallengeResult {
            submission: self.submission.duplicate(),
            rank: self.rank,
            verified: self.verified,
            conservation_error: self.conservation_error,
        }
    }
}

} // verus!
