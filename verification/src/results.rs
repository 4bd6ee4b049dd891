//! From a mined solution to the reported prediction.

use crate::account::AccountId;
use crate::account_map::AccountMap;
use crate::assignments::all_assignments;
use crate::assignments::collected;
use crate::assignments::conversions_of;
use crate::assignments::pages_that_count;
use crate::assignments::PageConversion;
use crate::ranking::describes;
use crate::ranking::is_ranking;
use crate::ranking::rank_validators;
use crate::ranking::ranking_lists_once;
use crate::ranking::RankedValidator;
use crate::tally::all_edges;
use crate::tally::leads_to;
use crate::tally::stakes_of;
use crate::tally::support_finite;
use crate::tally::support_of;
use crate::tally::tally_support;
use crate::tally::total_amount;
use crate::tally::total_amount_bounded;
use crate::tally::total_for;
use crate::tally::voter_stakes;
use crate::tally::Edge;
use crate::tally::SupportView;
use crate::text::account_hex;
use crate::text::account_text;
use crate::types::assignment_views;
use crate::types::page_views;
use crate::types::ActiveValidator;
use crate::types::ActiveValidatorView;
use crate::types::Assignment;
use crate::types::AssignmentView;
use crate::types::ElectionStatistics;
use crate::types::Error;
use crate::types::PredictionResults;
use crate::types::PredictionResultsView;
use crate::types::VoterPage;
use crate::types::VoterView;
use vstd::prelude::*;

verus! {

/// The view of optional self stakes.
pub open spec fn self_stakes_view(
    self_stakes: Option<&AccountMap<u128>>,
) -> Option<Map<AccountId, u128>> {
    match self_stakes {
        Some(stakes) => Some(stakes@),
        None => None,
    }
}

/// The self stake of a validator; zero where none is known.
pub open spec fn self_stake_of(
    self_stakes: Option<Map<AccountId, u128>>,
    validator: AccountId,
) -> u128 {
    match self_stakes {
        Some(stakes) => if stakes.contains_key(validator) {
            stakes[validator]
        } else {
            0
        },
        None => 0,
    }
}

/// How an entry of the ranking is reported.
pub open spec fn reported(
    entry: RankedValidator,
    self_stakes: Option<Map<AccountId, u128>>,
) -> ActiveValidatorView {
    ActiveValidatorView {
        account: account_text(entry.who),
        total_stake: entry.total,
        self_stake: self_stake_of(self_stakes, entry.who),
        nominators_count: entry.nominators_count,
    }
}

/// The sum of the totals.
pub open spec fn sum_of_totals(ranking: Seq<RankedValidator>) -> nat
    decreases ranking.len(),
{
    if ranking.len() == 0 {
        0
    } else {
        sum_of_totals(ranking.drop_last()) + ranking.last().total as nat
    }
}

/// The least of the totals; zero where there are none.
pub open spec fn least_total(ranking: Seq<RankedValidator>) -> u128
    decreases ranking.len(),
{
    if ranking.len() == 0 {
        0
    } else if ranking.len() == 1 || ranking.last().total < least_total(ranking.drop_last()) {
        ranking.last().total
    } else {
        least_total(ranking.drop_last())
    }
}

/// The sum of the totals divided by their number, rounded down; zero where there are none.
pub open spec fn average_total(ranking: Seq<RankedValidator>) -> nat {
    if ranking.len() == 0 {
        0
    } else {
        sum_of_totals(ranking) / ranking.len()
    }
}

/// The report on a ranking.
pub open spec fn report_of(
    ranking: Seq<RankedValidator>,
    self_stakes: Option<Map<AccountId, u128>>,
) -> PredictionResultsView {
    PredictionResultsView {
        active_validators: ranking.map_values(
            |entry: RankedValidator| reported(entry, self_stakes),
        ),
        statistics: ElectionStatistics {
            minimum_stake: least_total(ranking),
            average_stake: average_total(ranking) as u128,
            total_staked: sum_of_totals(ranking) as u128,
        },
    }
}

/// The results that the assignments and the voter pages lead to. What the ranked validators have
/// together fits the statistics.
pub open spec fn is_prediction(
    assignments: Seq<AssignmentView>,
    voters: Seq<VoterView>,
    desired_validators: nat,
    self_stakes: Option<Map<AccountId, u128>>,
    results: PredictionResultsView,
) -> bool {
    exists|ranking: Seq<RankedValidator>|
        {
            &&& #[trigger] is_ranking(
                support_of(all_edges(assignments, stakes_of(voters))),
                desired_validators,
                ranking,
            )
            &&& sum_of_totals(ranking) <= u128::MAX
            &&& results == report_of(ranking, self_stakes)
        }
}

/// Reports a ranking: its entries in text form with their self stakes, and the statistics of
/// their totals.
pub fn report(
    ranking: &Vec<RankedValidator>,
    self_stakes: Option<&AccountMap<u128>>,
) -> (results: PredictionResults)
    requires
        sum_of_totals(ranking@) <= u128::MAX,
    ensures
        results@ == report_of(ranking@, self_stakes_view(self_stakes)),
        results.active_validators@.len() == ranking@.len(),
        forall|i: int|
            0 <= i < ranking@.len() ==> (#[trigger] results.active_validators@[i]).account@
                == account_text(ranking@[i].who),
        forall|i: int|
            0 <= i < ranking@.len() ==> (#[trigger] results.active_validators@[i]).total_stake
                == ranking@[i].total,
        forall|i: int|
            0 <= i < ranking@.len() ==> (
            #[trigger] results.active_validators@[i]).nominators_count
                == ranking@[i].nominators_count,
        self_stakes is None ==> forall|i: int|
            0 <= i < ranking@.len() ==> (#[trigger] results.active_validators@[i]).self_stake
                == 0,
        self_stakes matches Some(map) ==> forall|i: int|
            0 <= i < ranking@.len() && map@.contains_key(ranking@[i].who) ==> (
            #[trigger] results.active_validators@[i]).self_stake == map@[ranking@[i].who],
        self_stakes matches Some(map) ==> forall|i: int|
            0 <= i < ranking@.len() && !map@.contains_key(ranking@[i].who) ==> (
            #[trigger] results.active_validators@[i]).self_stake == 0,
{
    let ghost stakes = self_stakes_view(self_stakes);
    let mut active_validators: Vec<ActiveValidator> = Vec::new();
    let mut total_staked: u128 = 0;
    let mut minimum_stake: u128 = 0;
    let mut i: usize = 0;
    assert(ranking@.take(0) =~= Seq::empty());
    while i < ranking.len()
        invariant
            i <= ranking@.len(),
            stakes == self_stakes_view(self_stakes),
            sum_of_totals(ranking@) <= u128::MAX,
            active_validators@.len() == i,
            forall|j: int|
                0 <= j < i ==> (#[trigger] active_validators@[j])@ == reported(
                    ranking@[j],
                    stakes,
                ),
            total_staked == sum_of_totals(ranking@.take(i as int)),
            minimum_stake == least_total(ranking@.take(i as int)),
        decreases ranking@.len() - i,
    {
        let entry = ranking[i];
        let self_stake: u128 = match self_stakes {
            Some(map) => match map.get(&entry.who) {
                Some(stake) => *stake,
                None => 0,
            },
            None => 0,
        };
        proof {
            assert(ranking@.take(i + 1).drop_last() =~= ranking@.take(i as int));
            lemma_sum_of_totals_prefix(ranking@, i + 1);
        }
        active_validators.push(
            ActiveValidator {
                account: account_hex(&entry.who),
                total_stake: entry.total,
                self_stake,
                nominators_count: entry.nominators_count,
            },
        );
        total_staked = total_staked + entry.total;
        if i == 0 || entry.total < minimum_stake {
            minimum_stake = entry.total;
        }
        i = i + 1;
    }
    assert(ranking@.take(i as int) =~= ranking@);
    let average_stake: u128 = if ranking.len() > 0 {
        total_staked / (ranking.len() as u128)
    } else {
        0
    };
    let results = PredictionResults {
        active_validators,
        statistics: ElectionStatistics { minimum_stake, average_stake, total_staked },
    };
    proof {
        let expected = report_of(ranking@, stakes);
        assert(results@.active_validators =~= expected.active_validators);
        assert forall|j: int| 0 <= j < ranking@.len() implies (
        #[trigger] results.active_validators@[j])@ == reported(ranking@[j], stakes) by {
        }
        assert(sum_of_totals(ranking@) as u128 == total_staked);
        assert(average_total(ranking@) as u128 == average_stake);
    }
    results
}

proof fn lemma_sum_of_totals_prefix(ranking: Seq<RankedValidator>, n: int)
    requires
        0 <= n <= ranking.len(),
    ensures
        sum_of_totals(ranking.take(n)) <= sum_of_totals(ranking),
    decreases ranking.len(),
{
    if n == ranking.len() {
        assert(ranking.take(n) =~= ranking);
    } else {
        lemma_sum_of_totals_prefix(ranking.drop_last(), n);
        assert(ranking.drop_last().take(n) =~= ranking.take(n));
    }
}

/// Processes assignments into prediction results: the stake of each voter is split equally over
/// its assignment, the validators are ranked by what they get, and the first
/// `desired_validators` are reported.
pub fn process_assignments(
    assignments: &Vec<Assignment>,
    desired_validators: u32,
    voter_snapshot_pages: &Vec<VoterPage>,
    validator_self_stake: Option<&AccountMap<u128>>,
) -> (results: PredictionResults)
    ensures
        is_prediction(
            assignment_views(assignments@),
            page_views(voter_snapshot_pages@).flatten(),
            desired_validators as nat,
            self_stakes_view(validator_self_stake),
            results@,
        ),
{
    let stakes = voter_stakes(voter_snapshot_pages);
    let support = tally_support(assignments, &stakes);
    let ranking = rank_validators(&support, desired_validators);
    proof {
        let views = assignment_views(assignments@);
        let edges = all_edges(views, stakes@);
        total_amount_bounded(views, stakes@);
        let n: usize = assignments.len();
        assert(n * u64::MAX <= u128::MAX) by (nonlinear_arith)
            requires
                n <= u64::MAX,
        ;
        ranking_total_at_most_handed_out(edges, desired_validators as nat, ranking@);
    }
    report(&ranking, validator_self_stake)
}

/// `r` is the outcome of processing the converted pages: the prediction that their assignments
/// lead to, or the error of the first page that failed.
pub open spec fn is_outcome(
    converted: Seq<PageConversion>,
    voters: Seq<VoterView>,
    desired_validators: nat,
    self_stakes: Option<Map<AccountId, u128>>,
    r: Result<PredictionResults, Error>,
) -> bool {
    match collected(converted) {
        Ok(assignments) => r matches Ok(results) && is_prediction(
            assignments,
            voters,
            desired_validators,
            self_stakes,
            results@,
        ),
        Err(text) => r matches Err(e) && e.text() == text,
    }
}

/// `r` is an outcome of processing a paged solution: the solution pages that count are converted,
/// page after page, and what they gave is processed.
pub open spec fn predicts<F: Fn(usize, &VoterPage, &Vec<AccountId>) -> PageConversion>(
    into_assignment: F,
    solution_pages: nat,
    desired_validators: nat,
    target_snapshot: &Vec<AccountId>,
    voter_snapshot_pages: &Vec<VoterPage>,
    self_stakes: Option<Map<AccountId, u128>>,
    r: Result<PredictionResults, Error>,
) -> bool {
    exists|converted: Seq<PageConversion>|
        #![trigger collected(converted)]
        conversions_of(
            into_assignment,
            solution_pages,
            target_snapshot,
            voter_snapshot_pages,
            converted,
        ) && is_outcome(
            converted,
            page_views(voter_snapshot_pages@).flatten(),
            desired_validators,
            self_stakes,
            r,
        )
}

/// Processes a paged solution into prediction results.
///
/// The solution pages are converted into assignments as [`all_assignments`] says, and these are
/// processed as [`process_assignments`] says.
pub fn process_solution_results<
    F: Fn(usize, &VoterPage, &Vec<AccountId>) -> PageConversion,
>(
    into_assignment: F,
    solution_pages: usize,
    desired_validators: u32,
    target_snapshot: &Vec<AccountId>,
    voter_snapshot_pages: &Vec<VoterPage>,
    validator_self_stake: Option<&AccountMap<u128>>,
) -> (r: Result<PredictionResults, Error>)
    requires
        forall|i: usize|
            i < pages_that_count(solution_pages as nat, voter_snapshot_pages@.len())
                ==> #[trigger] call_requires(
                into_assignment,
                (i, &voter_snapshot_pages@[i as int], target_snapshot),
            ),
    ensures
        predicts(
            into_assignment,
            solution_pages as nat,
            desired_validators as nat,
            target_snapshot,
            voter_snapshot_pages,
            self_stakes_view(validator_self_stake),
            r,
        ),
{
    match all_assignments(into_assignment, solution_pages, target_snapshot, voter_snapshot_pages) {
        Ok(assignments) => Ok(
            process_assignments(
                &assignments,
                desired_validators,
                voter_snapshot_pages,
                validator_self_stake,
            ),
        ),
        Err(e) => Err(e),
    }
}

/// The totals of some accounts together.
spec fn totals_for(edges: Seq<Edge>, accounts: Seq<AccountId>) -> nat
    decreases accounts.len(),
{
    if accounts.len() == 0 {
        0
    } else {
        totals_for(edges, accounts.drop_last()) + total_for(edges, accounts.last())
    }
}

proof fn lemma_totals_for_step(edges: Seq<Edge>, accounts: Seq<AccountId>)
    requires
        edges.len() > 0,
        accounts.no_duplicates(),
    ensures
        totals_for(edges, accounts) == totals_for(edges.drop_last(), accounts)
            + if accounts.contains(edges.last().validator) {
            edges.last().amount
        } else {
            0
        },
    decreases accounts.len(),
{
    if accounts.len() > 0 {
        let shorter = accounts.drop_last();
        lemma_totals_for_step(edges, shorter);
        let validator = edges.last().validator;
        assert(accounts =~= shorter.push(accounts.last()));
        if shorter.contains(validator) {
            let i = choose|i: int| 0 <= i < shorter.len() && shorter[i] == validator;
            assert(accounts[i] == validator);
            assert(accounts.last() != validator);
        } else if accounts.last() == validator {
            assert(accounts[accounts.len() - 1] == validator);
        } else {
            assert(!accounts.contains(validator));
        }
    }
}

proof fn lemma_totals_for_bounded(edges: Seq<Edge>, accounts: Seq<AccountId>)
    requires
        accounts.no_duplicates(),
    ensures
        totals_for(edges, accounts) <= total_amount(edges),
        (forall|i: int| 0 <= i < edges.len() ==> accounts.contains((#[trigger] edges[i]).validator))
            ==> totals_for(edges, accounts) == total_amount(edges),
    decreases edges.len(),
{
    if edges.len() == 0 {
        lemma_totals_for_none(edges, accounts);
    } else {
        lemma_totals_for_bounded(edges.drop_last(), accounts);
        lemma_totals_for_step(edges, accounts);
        if forall|i: int|
            0 <= i < edges.len() ==> accounts.contains((#[trigger] edges[i]).validator) {
            assert forall|i: int| 0 <= i < edges.drop_last().len() implies accounts.contains(
                (#[trigger] edges.drop_last()[i]).validator,
            ) by {
                assert(accounts.contains(edges[i].validator));
            }
            assert(accounts.contains(edges[edges.len() - 1].validator));
        }
    }
}

proof fn lemma_totals_for_none(edges: Seq<Edge>, accounts: Seq<AccountId>)
    requires
        edges.len() == 0,
    ensures
        totals_for(edges, accounts) == 0,
    decreases accounts.len(),
{
    if accounts.len() > 0 {
        lemma_totals_for_none(edges, accounts.drop_last());
    }
}

spec fn accounts_of(ranking: Seq<RankedValidator>) -> Seq<AccountId> {
    ranking.map_values(|entry: RankedValidator| entry.who)
}

proof fn lemma_sum_is_totals_for(edges: Seq<Edge>, ranking: Seq<RankedValidator>)
    requires
        forall|i: int|
            0 <= i < ranking.len() ==> describes(#[trigger] ranking[i], support_of(edges)),
    ensures
        sum_of_totals(ranking) == totals_for(edges, accounts_of(ranking)),
    decreases ranking.len(),
{
    if ranking.len() > 0 {
        let shorter = ranking.drop_last();
        assert forall|i: int| 0 <= i < shorter.len() implies describes(
            #[trigger] shorter[i],
            support_of(edges),
        ) by {
            assert(describes(ranking[i], support_of(edges)));
        }
        lemma_sum_is_totals_for(edges, shorter);
        assert(accounts_of(ranking).drop_last() =~= accounts_of(shorter));
        assert(describes(ranking[ranking.len() - 1], support_of(edges)));
    }
}

proof fn lemma_ranked_accounts_distinct(
    support: Map<AccountId, SupportView>,
    desired: nat,
    ranking: Seq<RankedValidator>,
)
    requires
        is_ranking(support, desired, ranking),
    ensures
        accounts_of(ranking).no_duplicates(),
{
    let accounts = accounts_of(ranking);
    assert forall|i: int, j: int|
        0 <= i < accounts.len() && 0 <= j < accounts.len() && i != j implies accounts[i]
        != accounts[j] by {
        if i < j {
            ranking_lists_once(support, desired, ranking, i, j);
        } else {
            ranking_lists_once(support, desired, ranking, j, i);
        }
    }
}

/// The ranked validators together have no more than the edges hand out.
pub proof fn ranking_total_at_most_handed_out(
    edges: Seq<Edge>,
    desired: nat,
    ranking: Seq<RankedValidator>,
)
    requires
        is_ranking(support_of(edges), desired, ranking),
    ensures
        sum_of_totals(ranking) <= total_amount(edges),
{
    lemma_ranked_accounts_distinct(support_of(edges), desired, ranking);
    lemma_totals_for_bounded(edges, accounts_of(ranking));
    lemma_sum_is_totals_for(edges, ranking);
}

/// Where every supported validator is ranked, the totals add up to what the edges hand out.
pub proof fn full_ranking_holds_all_support(
    edges: Seq<Edge>,
    desired: nat,
    ranking: Seq<RankedValidator>,
)
    requires
        is_ranking(support_of(edges), desired, ranking),
        support_of(edges).len() <= desired,
    ensures
        sum_of_totals(ranking) == total_amount(edges),
{
    let support = support_of(edges);
    let accounts = accounts_of(ranking);
    support_finite(edges);
    lemma_ranked_accounts_distinct(support, desired, ranking);
    accounts.unique_seq_to_set();
    vstd::seq_lib::seq_to_set_is_finite(accounts);
    assert(accounts.to_set().subset_of(support.dom())) by {
        assert forall|v: AccountId| accounts.to_set().contains(v) implies support.dom().contains(
            v,
        ) by {
            let i = choose|i: int| 0 <= i < accounts.len() && accounts[i] == v;
            assert(describes(ranking[i], support));
        }
    }
    vstd::set_lib::lemma_subset_equality(accounts.to_set(), support.dom());
    assert forall|i: int| 0 <= i < edges.len() implies accounts.contains(
        (#[trigger] edges[i]).validator,
    ) by {
        assert(leads_to(edges, i, edges[i].validator));
        assert(support.dom().contains(edges[i].validator));
        assert(accounts.to_set().contains(edges[i].validator));
    }
    lemma_totals_for_bounded(edges, accounts);
    lemma_sum_is_totals_for(edges, ranking);
}

} // verus!
