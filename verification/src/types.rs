//! The data of a prediction: what goes in, what is aggregated, what is reported.

use crate::account::AccountId;
use vstd::prelude::*;

verus! {

/// Input format for custom nominators and validators.
#[derive(Debug, Clone)]
pub struct CustomSetup {
    pub nominators: Vec<CustomNominator>,
    pub nominators_remove: Vec<String>,
    pub validators: Vec<CustomValidator>,
    pub validators_remove: Vec<String>,
}

/// A nominator of a custom setup.
#[derive(Debug, Clone)]
pub struct CustomNominator {
    pub account: String,
    pub stake: u128,
    pub targets: Vec<String>,
}

/// A validator of a custom setup.
#[derive(Debug, Clone)]
pub struct CustomValidator {
    pub account: String,
    pub stake: u128,
    pub is_dummy: bool,
}

/// Output format for prediction results.
#[derive(Debug, Clone)]
pub struct PredictionResult {
    pub metadata: PredictionMetadata,
    pub results: PredictionResults,
}

/// When, where and for how many seats a prediction was made.
#[derive(Debug, Clone)]
pub struct PredictionMetadata {
    pub timestamp: String,
    pub block_number: u32,
    pub chain: String,
    pub desired_validators: u32,
}

/// The validators that would be active, and figures about their stakes.
#[derive(Debug, Clone)]
pub struct PredictionResults {
    pub active_validators: Vec<ActiveValidator>,
    pub statistics: ElectionStatistics,
}

/// A validator that would be active.
#[derive(Debug, Clone)]
pub struct ActiveValidator {
    pub account: String,
    pub total_stake: u128,
    pub self_stake: u128,
    pub nominators_count: u32,
}

/// Figures about the stakes of the active validators.
#[derive(Debug, Clone, Copy, PartialEq, Eq)]
pub struct ElectionStatistics {
    pub minimum_stake: u128,
    pub average_stake: u128,
    pub total_staked: u128,
}

/// What a failed prediction says.
#[derive(Debug, Clone)]
pub enum Error {
    Other(String),
}

/// A nominator as the staking state holds it: its stake and the validators it nominates.
#[derive(Debug)]
pub struct Nominator {
    pub who: AccountId,
    pub stake: u128,
    pub targets: Vec<AccountId>,
}

/// A voter of a snapshot page.
#[derive(Debug)]
pub struct Voter {
    pub who: AccountId,
    pub stake: u64,
    pub targets: Vec<AccountId>,
}

/// A page of the voter snapshot.
pub type VoterPage = Vec<Voter>;

/// What a solution assigns to a voter: the validators that the stake of the voter supports, each
/// with its weight, in parts of the accuracy of the solution.
#[derive(Debug)]
pub struct Assignment {
    pub who: AccountId,
    pub distribution: Vec<(AccountId, u128)>,
}

/// A nominator with its targets as a sequence.
#[verifier::ext_equal]
pub struct NominatorView {
    pub who: AccountId,
    pub stake: u128,
    pub targets: Seq<AccountId>,
}

impl View for Nominator {
    type V = NominatorView;

    open spec fn view(&self) -> NominatorView {
        NominatorView { who: self.who, stake: self.stake, targets: self.targets@ }
    }
}

/// A voter with its targets as a sequence.
#[verifier::ext_equal]
pub struct VoterView {
    pub who: AccountId,
    pub stake: u64,
    pub targets: Seq<AccountId>,
}

impl View for Voter {
    type V = VoterView;

    open spec fn view(&self) -> VoterView {
        VoterView { who: self.who, stake: self.stake, targets: self.targets@ }
    }
}

/// An assignment with its distribution as a sequence.
#[verifier::ext_equal]
pub struct AssignmentView {
    pub who: AccountId,
    pub distribution: Seq<(AccountId, u128)>,
}

impl View for Assignment {
    type V = AssignmentView;

    open spec fn view(&self) -> AssignmentView {
        AssignmentView { who: self.who, distribution: self.distribution@ }
    }
}

/// The views of nominators, one by one.
pub open spec fn nominator_views(nominators: Seq<Nominator>) -> Seq<NominatorView> {
    nominators.map_values(|nominator: Nominator| nominator@)
}

/// The views of the voters of a page, one by one.
pub open spec fn voter_views(voters: Seq<Voter>) -> Seq<VoterView> {
    voters.map_values(|voter: Voter| voter@)
}

/// The views of snapshot pages, one by one.
pub open spec fn page_views(pages: Seq<VoterPage>) -> Seq<Seq<VoterView>> {
    pages.map_values(|page: VoterPage| voter_views(page@))
}

/// The views of assignments, one by one.
pub open spec fn assignment_views(assignments: Seq<Assignment>) -> Seq<AssignmentView> {
    assignments.map_values(|assignment: Assignment| assignment@)
}

/// An active validator with its account as a sequence of characters.
#[verifier::ext_equal]
pub struct ActiveValidatorView {
    pub account: Seq<char>,
    pub total_stake: u128,
    pub self_stake: u128,
    pub nominators_count: u32,
}

impl View for ActiveValidator {
    type V = ActiveValidatorView;

    open spec fn view(&self) -> ActiveValidatorView {
        ActiveValidatorView {
            account: self.account@,
            total_stake: self.total_stake,
            self_stake: self.self_stake,
            nominators_count: self.nominators_count,
        }
    }
}

/// Prediction results with their validators as a sequence.
#[verifier::ext_equal]
pub struct PredictionResultsView {
    pub active_validators: Seq<ActiveValidatorView>,
    pub statistics: ElectionStatistics,
}

impl View for PredictionResults {
    type V = PredictionResultsView;

    open spec fn view(&self) -> PredictionResultsView {
        PredictionResultsView {
            active_validators: self.active_validators@.map_values(
                |validator: ActiveValidator| validator@,
            ),
            statistics: self.statistics,
        }
    }
}

/// Nothing of a value is lost or changed in its view.
pub proof fn views_keep_every_field(
    nominator: Nominator,
    voter: Voter,
    assignment: Assignment,
    validator: ActiveValidator,
    text: String,
)
    ensures
        nominator@.who == nominator.who,
        nominator@.stake == nominator.stake,
        nominator@.targets == nominator.targets@,
        voter@.who == voter.who,
        voter@.stake == voter.stake,
        voter@.targets == voter.targets@,
        assignment@.who == assignment.who,
        assignment@.distribution == assignment.distribution@,
        validator@.account == validator.account@,
        validator@.total_stake == validator.total_stake,
        validator@.self_stake == validator.self_stake,
        validator@.nominators_count == validator.nominators_count,
        Error::Other(text).text() == text@,
{
}

/// Nothing of a list is lost or moved in its views: as many items, each at its place.
pub proof fn views_keep_every_item(
    nominators: Seq<Nominator>,
    voters: Seq<Voter>,
    pages: Seq<VoterPage>,
    assignments: Seq<Assignment>,
    results: PredictionResults,
    i: int,
)
    ensures
        nominator_views(nominators).len() == nominators.len(),
        0 <= i < nominators.len() ==> nominator_views(nominators)[i] == nominators[i]@,
        voter_views(voters).len() == voters.len(),
        0 <= i < voters.len() ==> voter_views(voters)[i] == voters[i]@,
        page_views(pages).len() == pages.len(),
        0 <= i < pages.len() ==> page_views(pages)[i] == voter_views(pages[i]@),
        assignment_views(assignments).len() == assignments.len(),
        0 <= i < assignments.len() ==> assignment_views(assignments)[i] == assignments[i]@,
        results@.active_validators.len() == results.active_validators@.len(),
        0 <= i < results.active_validators@.len() ==> results@.active_validators[i]
            == results.active_validators@[i]@,
        results@.statistics == results.statistics,
{
}

impl Error {
    /// The text of the error.
    pub open spec fn text(self) -> Seq<char> {
        match self {
            Error::Other(text) => text@,
        }
    }
}

} // verus!
