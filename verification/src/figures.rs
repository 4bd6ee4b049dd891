//! The figures of a prediction, read off what goes in: voters, assignments and self stakes.

use crate::account::AccountId;
use crate::account_map::AccountMap;
use crate::assignments::collected;
use crate::assignments::conversions_of;
use crate::assignments::lemma_collected_either_way;
use crate::assignments::PageConversion;
use crate::laws::lemma_backers_add;
use crate::laws::lemma_leads_either_way;
use crate::laws::lemma_least_total;
use crate::laws::lemma_ranking_behind;
use crate::laws::lemma_total_for_add;
use crate::ranking::ranking_by_totals;
use crate::ranking::ranking_lists_once;
use crate::ranking::RankedValidator;
use crate::results::is_outcome;
use crate::results::is_prediction;
use crate::results::predicts;
use crate::results::report_of;
use crate::results::reported;
use crate::results::self_stakes_view;
use crate::results::sum_of_totals;
use crate::tally::all_edges;
use crate::tally::backers;
use crate::tally::edges_of;
use crate::tally::equal_part;
use crate::tally::last_stake_counts;
use crate::tally::leads_from_to;
use crate::tally::leads_to;
use crate::tally::stakes_of;
use crate::tally::strangers_have_no_stake;
use crate::tally::support_of;
use crate::tally::total_for;
use crate::tally::Edge;
use crate::text::account_text;
use crate::text::account_text_injective;
use crate::types::page_views;
use crate::types::ActiveValidatorView;
use crate::types::Assignment;
use crate::types::AssignmentView;
use crate::types::Error;
use crate::types::PredictionResults;
use crate::types::PredictionResultsView;
use crate::types::Voter;
use crate::types::VoterPage;
use crate::types::VoterView;
use vstd::prelude::*;

verus! {

/// Without assignments nobody has support.
pub proof fn no_assignments_no_support(voters: Seq<VoterView>, validator: AccountId)
    ensures
        !support_of(all_edges(Seq::empty(), stakes_of(voters))).contains_key(validator),
{
}

proof fn lemma_edges_name(
    edges: Seq<Edge>,
    entries: Seq<(AccountId, u128)>,
    voter: AccountId,
    part: nat,
    validator: AccountId,
)
    requires
        edges.len() == entries.len(),
        forall|i: int|
            0 <= i < edges.len() ==> #[trigger] edges[i] == (Edge {
                voter,
                validator: entries[i].0,
                amount: part,
            }),
    ensures
        ({
            let times = entries.filter(|entry: (AccountId, u128)| entry.0 == validator).len();
            &&& total_for(edges, validator) == times * part
            &&& times > 0 <==> support_of(edges).contains_key(validator)
            &&& times > 0 ==> backers(edges, validator) == Set::<AccountId>::empty().insert(voter)
            &&& times == 0 ==> backers(edges, validator) == Set::<AccountId>::empty()
        }),
    decreases entries.len(),
{
    reveal(Seq::filter);
    let names = |entry: (AccountId, u128)| entry.0 == validator;
    if entries.len() == 0 {
        assert(entries.filter(names).len() == 0);
        assert(0 * part == 0) by (nonlinear_arith);
        assert(backers(edges, validator) =~= Set::<AccountId>::empty());
    } else {
        let fewer = edges.drop_last();
        let shorter = entries.drop_last();
        assert forall|i: int| 0 <= i < fewer.len() implies #[trigger] fewer[i] == (Edge {
            voter,
            validator: shorter[i].0,
            amount: part,
        }) by {
            assert(fewer[i] == edges[i]);
        }
        lemma_edges_name(fewer, shorter, voter, part, validator);
        let before = shorter.filter(names).len();
        let last = edges.len() - 1;
        assert((before + 1) * part == before * part + part) by (nonlinear_arith);
        assert(edges[last].validator == entries[last].0);
        if support_of(edges).contains_key(validator) {
            let i = choose|i: int| leads_to(edges, i, validator);
            if i < last {
                assert(leads_to(fewer, i, validator));
            }
        }
        if support_of(fewer).contains_key(validator) {
            let i = choose|i: int| leads_to(fewer, i, validator);
            assert(leads_to(edges, i, validator));
        }
        if entries[last].0 == validator {
            assert(leads_to(edges, last, validator));
        }
        assert forall|w: AccountId| #[trigger]
            backers(edges, validator).contains(w) == (support_of(edges).contains_key(validator)
                && w == voter) by {
            if backers(edges, validator).contains(w) {
                let i = choose|i: int| leads_from_to(edges, i, w, validator);
                assert(leads_to(edges, i, validator));
                assert(edges[i].voter == voter);
            }
            if support_of(edges).contains_key(validator) && w == voter {
                let i = choose|i: int| leads_to(edges, i, validator);
                assert(edges[i].voter == voter);
                assert(leads_from_to(edges, i, w, validator));
            }
        }
        if support_of(edges).contains_key(validator) {
            assert(backers(edges, validator) =~= Set::<AccountId>::empty().insert(voter));
        } else {
            assert(backers(edges, validator) =~= Set::<AccountId>::empty());
        }
    }
}

proof fn lemma_edges_of_one_more(
    assignments: Seq<AssignmentView>,
    assignment: AssignmentView,
    stakes: Map<AccountId, u64>,
)
    ensures
        all_edges(assignments.push(assignment), stakes) == all_edges(assignments, stakes)
            + edges_of(assignment, stakes),
{
    assert(assignments.push(assignment).drop_last() =~= assignments);
}

/// One more assignment, of a voter: a validator that its distribution does not name keeps what it
/// has. One that it names `times` times gets that many parts more, each the stake of the voter
/// divided by the number of entries, rounded down; and the voter joins its backers. The stake is
/// the one that the last occurrence of the voter in the snapshot names.
pub proof fn one_more_assignment(
    assignments: Seq<AssignmentView>,
    assignment: AssignmentView,
    voters: Seq<VoterView>,
    k: int,
    validator: AccountId,
)
    requires
        0 <= k < voters.len(),
        voters[k].who == assignment.who,
        forall|j: int| k < j < voters.len() ==> (#[trigger] voters[j]).who != assignment.who,
    ensures
        ({
            let before = support_of(all_edges(assignments, stakes_of(voters)));
            let after = support_of(all_edges(assignments.push(assignment), stakes_of(voters)));
            let times = assignment.distribution.filter(
                |entry: (AccountId, u128)| entry.0 == validator,
            ).len();
            &&& times == 0 ==> {
                &&& after.contains_key(validator) == before.contains_key(validator)
                &&& before.contains_key(validator) ==> after[validator] == before[validator]
            }
            &&& times > 0 ==> {
                let part = voters[k].stake as nat / assignment.distribution.len();
                &&& after.contains_key(validator)
                &&& !before.contains_key(validator) ==> {
                    &&& after[validator].total == times * part
                    &&& after[validator].backers == Set::<AccountId>::empty().insert(
                        assignment.who,
                    )
                }
                &&& before.contains_key(validator) ==> {
                    &&& after[validator].total == before[validator].total + times * part
                    &&& after[validator].backers == before[validator].backers.insert(
                        assignment.who,
                    )
                }
            }
        }),
{
    let stakes = stakes_of(voters);
    let edges = all_edges(assignments, stakes);
    let own = edges_of(assignment, stakes);
    let entries = assignment.distribution;
    last_stake_counts(voters, k);
    lemma_edges_of_one_more(assignments, assignment, stakes);
    lemma_edges_name(
        own,
        entries,
        assignment.who,
        equal_part(stakes[assignment.who], entries.len()),
        validator,
    );
    lemma_leads_either_way(edges, own, validator);
    lemma_total_for_add(edges, own, validator);
    lemma_backers_add(edges, own, validator);
    lemma_nothing_without_support(edges, validator);
    reveal(Seq::filter);
    let joined = backers(edges + own, validator);
    let before = backers(edges, validator);
    if support_of(own).contains_key(validator) {
        assert(joined =~= before.insert(assignment.who));
    } else {
        assert(joined =~= before);
    }
}

proof fn lemma_nothing_without_support(edges: Seq<Edge>, validator: AccountId)
    ensures
        !support_of(edges).contains_key(validator) ==> total_for(edges, validator) == 0
            && backers(edges, validator) == Set::<AccountId>::empty(),
    decreases edges.len(),
{
    if !support_of(edges).contains_key(validator) {
        assert forall|i: int| !leads_to(edges, i, validator) by {
        }
        assert(backers(edges, validator) =~= Set::<AccountId>::empty());
        if edges.len() > 0 {
            let shorter = edges.drop_last();
            if support_of(shorter).contains_key(validator) {
                let i = choose|i: int| leads_to(shorter, i, validator);
                assert(leads_to(edges, i, validator));
            }
            assert(!leads_to(edges, edges.len() - 1, validator));
            lemma_nothing_without_support(shorter, validator);
        }
    }
}

/// One more assignment, of somebody who is no voter, changes nothing.
pub proof fn one_more_stranger(
    assignments: Seq<AssignmentView>,
    assignment: AssignmentView,
    voters: Seq<VoterView>,
)
    requires
        forall|j: int| 0 <= j < voters.len() ==> (#[trigger] voters[j]).who != assignment.who,
    ensures
        support_of(all_edges(assignments.push(assignment), stakes_of(voters))) == support_of(
            all_edges(assignments, stakes_of(voters)),
        ),
{
    let stakes = stakes_of(voters);
    strangers_have_no_stake(voters, assignment.who);
    lemma_edges_of_one_more(assignments, assignment, stakes);
    assert(all_edges(assignments, stakes) + edges_of(assignment, stakes) =~= all_edges(
        assignments,
        stakes,
    ));
}

/// Each entry of a prediction tells of one supported validator: its account, what it has in all,
/// how many back it, and the self stake that was given for it, or zero where none was given.
pub proof fn entries_tell_of_validators(
    assignments: Seq<AssignmentView>,
    voters: Seq<VoterView>,
    desired: nat,
    self_stakes: Option<Map<AccountId, u128>>,
    results: PredictionResultsView,
    i: int,
) -> (validator: AccountId)
    requires
        is_prediction(assignments, voters, desired, self_stakes, results),
        0 <= i < results.active_validators.len(),
    ensures
        ({
            let support = support_of(all_edges(assignments, stakes_of(voters)));
            let entry = results.active_validators[i];
            &&& entry.account == account_text(validator)
            &&& support.contains_key(validator)
            &&& entry.total_stake == support[validator].total
            &&& entry.nominators_count == support[validator].backers.len() % 0x1_0000_0000
            &&& self_stakes is None ==> entry.self_stake == 0
            &&& self_stakes matches Some(given) ==> {
                &&& given.contains_key(validator) ==> entry.self_stake == given[validator]
                &&& !given.contains_key(validator) ==> entry.self_stake == 0
            }
        }),
{
    let support = support_of(all_edges(assignments, stakes_of(voters)));
    let ranking = lemma_ranking_behind(assignments, voters, desired, self_stakes, results);
    assert(results.active_validators[i] == reported(ranking[i], self_stakes));
    ranking_by_totals(support, desired, ranking, i, i, ranking[i].who);
    ranking[i].who
}

/// The self stake of a reported validator is exactly what the given map holds for it; it is zero
/// where the map does not hold the validator, or no map was given.
pub proof fn self_stake_is_what_the_map_holds(
    assignments: Seq<AssignmentView>,
    voters: Seq<VoterView>,
    desired: nat,
    given: Map<AccountId, u128>,
    with: PredictionResultsView,
    without: PredictionResultsView,
    i: int,
    validator: AccountId,
)
    requires
        is_prediction(assignments, voters, desired, Some(given), with),
        is_prediction(assignments, voters, desired, None, without),
    ensures
        0 <= i < with.active_validators.len() && with.active_validators[i].account
            == account_text(validator) ==> {
            &&& given.contains_key(validator) ==> with.active_validators[i].self_stake
                == given[validator]
            &&& !given.contains_key(validator) ==> with.active_validators[i].self_stake == 0
        },
        0 <= i < without.active_validators.len() ==> without.active_validators[i].self_stake
            == 0,
{
    if 0 <= i < with.active_validators.len() {
        let v = entries_tell_of_validators(assignments, voters, desired, Some(given), with, i);
        account_text_injective(v, validator);
    }
    if 0 <= i < without.active_validators.len() {
        let v = entries_tell_of_validators(assignments, voters, desired, None, without, i);
    }
}

/// The self stakes that are handed in are the ones that count.
pub proof fn given_self_stakes_count(self_stakes: &AccountMap<u128>)
    ensures
        self_stakes_view(Some(self_stakes)) == Some(self_stakes@),
        self_stakes_view(None) == None::<Map<AccountId, u128>>,
{
}

proof fn lemma_reported_fold(
    ranking: Seq<RankedValidator>,
    self_stakes: Option<Map<AccountId, u128>>,
)
    ensures
        report_of(ranking, self_stakes).active_validators.fold_left(
            0int,
            |sum: int, entry: ActiveValidatorView| sum + entry.total_stake,
        ) == sum_of_totals(ranking),
    decreases ranking.len(),
{
    let list = report_of(ranking, self_stakes).active_validators;
    if ranking.len() > 0 {
        lemma_reported_fold(ranking.drop_last(), self_stakes);
        assert(list.drop_last() =~= report_of(
            ranking.drop_last(),
            self_stakes,
        ).active_validators);
    }
}

/// The statistics by the entries of the list: the total is their sum; the minimum is one of them
/// and not above any; the average times their number is the total but for less than one unit for
/// each. Without entries all are zero.
pub proof fn statistics_by_the_entries(
    assignments: Seq<AssignmentView>,
    voters: Seq<VoterView>,
    desired: nat,
    self_stakes: Option<Map<AccountId, u128>>,
    results: PredictionResultsView,
)
    requires
        is_prediction(assignments, voters, desired, self_stakes, results),
    ensures
        ({
            let list = results.active_validators;
            let statistics = results.statistics;
            &&& statistics.total_staked == list.fold_left(
                0int,
                |sum: int, entry: ActiveValidatorView| sum + entry.total_stake,
            )
            &&& forall|i: int|
                0 <= i < list.len() ==> statistics.minimum_stake <= (
                #[trigger] list[i]).total_stake
            &&& list.len() > 0 ==> exists|i: int|
                0 <= i < list.len() && (#[trigger] list[i]).total_stake
                    == statistics.minimum_stake
            &&& list.len() > 0 ==> statistics.average_stake * list.len()
                <= statistics.total_staked < (statistics.average_stake + 1) * list.len()
            &&& list.len() == 0 ==> statistics.minimum_stake == 0 && statistics.average_stake == 0
                && statistics.total_staked == 0
        }),
{
    let support = support_of(all_edges(assignments, stakes_of(voters)));
    let ranking = lemma_ranking_behind(assignments, voters, desired, self_stakes, results);
    let list = results.active_validators;
    lemma_reported_fold(ranking, self_stakes);
    if ranking.len() > 0 {
        assert forall|i: int, j: int| 0 <= i < j < ranking.len() implies (
        #[trigger] ranking[i]).total >= (#[trigger] ranking[j]).total by {
            ranking_lists_once(support, desired, ranking, i, j);
        }
        lemma_least_total(ranking);
        let n = ranking.len();
        assert forall|i: int| 0 <= i < list.len() implies results.statistics.minimum_stake <= (
        #[trigger] list[i]).total_stake by {
            assert(list[i] == reported(ranking[i], self_stakes));
            if i < n - 1 {
                assert(ranking[i].total >= ranking[n - 1].total);
            }
        }
        assert(list[n - 1] == reported(ranking[n - 1], self_stakes));
        let sum = sum_of_totals(ranking);
        assert((sum / n) * n <= sum < (sum / n + 1) * n && sum / n <= sum) by (nonlinear_arith)
            requires
                n > 0,
        ;
        assert(results.statistics.average_stake == sum / n);
    }
}

/// Processing a paged solution gives the prediction for the assignments of its pages, one page
/// after the other, and the voters of all voter pages, one page after the other; or it fails with
/// the reason of the first page that could not be converted. A solution page without a voter page
/// of the same position does not count.
pub proof fn processing_page_by_page<
    F: Fn(usize, &VoterPage, &Vec<AccountId>) -> PageConversion,
>(
    into_assignment: F,
    solution_pages: nat,
    desired: nat,
    target_snapshot: &Vec<AccountId>,
    voter_snapshot_pages: &Vec<VoterPage>,
    self_stakes: Option<Map<AccountId, u128>>,
    r: Result<PredictionResults, Error>,
) -> (converted: Seq<PageConversion>)
    requires
        predicts(
            into_assignment,
            solution_pages,
            desired,
            target_snapshot,
            voter_snapshot_pages,
            self_stakes,
            r,
        ),
    ensures
        converted.len() <= solution_pages,
        converted.len() <= voter_snapshot_pages@.len(),
        forall|i: int|
            0 <= i < converted.len() ==> call_ensures(
                into_assignment,
                (i as usize, &voter_snapshot_pages@[i], target_snapshot),
                #[trigger] converted[i],
            ),
        forall|i: int| 0 <= i < converted.len() - 1 ==> (#[trigger] converted[i]) is Ok,
        r matches Ok(results) ==> {
            &&& converted.len() == solution_pages || converted.len()
                == voter_snapshot_pages@.len()
            &&& converted.len() > 0 ==> converted.last() is Ok
            &&& is_prediction(
                converted.map_values(
                    |page: PageConversion|
                        page->Ok_0@.map_values(|assignment: Assignment| assignment@),
                ).flatten(),
                voter_snapshot_pages@.map_values(
                    |page: VoterPage| page@.map_values(|voter: Voter| voter@),
                ).flatten(),
                desired,
                self_stakes,
                results@,
            )
        },
        r matches Err(Error::Other(text)) ==> {
            &&& converted.len() > 0
            &&& converted.last() is Err
            &&& text@ == "Assignment error: "@ + converted.last()->Err_0@
        },
{
    let voters = voter_snapshot_pages@.map_values(
        |page: VoterPage| page@.map_values(|voter: Voter| voter@),
    );
    assert(voters =~= page_views(voter_snapshot_pages@));
    let converted = choose|converted: Seq<PageConversion>|
        #![trigger collected(converted)]
        conversions_of(
            into_assignment,
            solution_pages,
            target_snapshot,
            voter_snapshot_pages,
            converted,
        ) && is_outcome(converted, voters.flatten(), desired, self_stakes, r);
    lemma_collected_either_way(converted);
    converted
}

} // verus!
