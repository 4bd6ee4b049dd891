//! Where the reported validators come from: a solution whose indices resolve on the snapshots
//! leads to voters and targets of the snapshots, and to no others.

use crate::account::AccountId;
use crate::assignments::assigns;
use crate::assignments::collected;
use crate::assignments::conversions_determined;
use crate::assignments::conversions_of;
use crate::assignments::is_collection;
use crate::assignments::one_result;
use crate::assignments::PageConversion;
use crate::laws::assigned_by;
use crate::laws::assigned_to;
use crate::laws::every_winner_is_assigned;
use crate::laws::lemma_ranking_behind;
use crate::laws::prediction_lists_the_best;
use crate::laws::support_is_what_is_assigned;
use crate::laws::validators_assigned;
use crate::laws::voters_assigned;
use crate::ranking::describes;
use crate::results::is_outcome;
use crate::results::is_prediction;
use crate::results::predicts;
use crate::results::reported;
use crate::tally::all_edges;
use crate::tally::stakes_of;
use crate::tally::support_finite;
use crate::tally::support_of;
use crate::text::account_text;
use crate::text::account_text_injective;
use crate::types::assignment_views;
use crate::types::page_views;
use crate::types::voter_views;
use crate::types::Assignment;
use crate::types::AssignmentView;
use crate::types::Error;
use crate::types::PredictionResults;
use crate::types::PredictionResultsView;
use crate::types::VoterPage;
use crate::types::VoterView;
use vstd::prelude::*;

verus! {

/// The account is that of one of the voters.
pub open spec fn is_voter(voters: Seq<VoterView>, account: AccountId) -> bool {
    exists|v: int| 0 <= v < voters.len() && (#[trigger] voters[v]).who == account
}

/// The assignment is that of one of the voters, and its distribution names targets only.
pub open spec fn names_only(
    assignment: AssignmentView,
    voters: Seq<VoterView>,
    targets: Seq<AccountId>,
) -> bool {
    &&& is_voter(voters, assignment.who)
    &&& forall|k: int|
        0 <= k < assignment.distribution.len() ==> targets.contains(
            (#[trigger] assignment.distribution[k]).0,
        )
}

/// Every assignment is that of one of the voters, and names targets only.
pub open spec fn all_name_only(
    assignments: Seq<AssignmentView>,
    voters: Seq<VoterView>,
    targets: Seq<AccountId>,
) -> bool {
    forall|j: int|
        0 <= j < assignments.len() ==> names_only(#[trigger] assignments[j], voters, targets)
}

/// Whatever the conversion of a page gives names only voters of its page and targets of the
/// snapshot.
pub open spec fn resolves<F: Fn(usize, &VoterPage, &Vec<AccountId>) -> PageConversion>(
    into_assignment: F,
    target_snapshot: &Vec<AccountId>,
    voter_snapshot_pages: &Vec<VoterPage>,
) -> bool {
    forall|i: usize, c: PageConversion|
        i < voter_snapshot_pages@.len() && #[trigger] call_ensures(
            into_assignment,
            (i, &voter_snapshot_pages@[i as int], target_snapshot),
            c,
        ) ==> (c matches Ok(page) ==> all_name_only(
            assignment_views(page@),
            voter_views(voter_snapshot_pages@[i as int]@),
            target_snapshot@,
        ))
}

/// The targets that the assignments name.
pub open spec fn assigned_targets(assignments: Seq<AssignmentView>) -> Set<AccountId> {
    Set::new(|target: AccountId| exists|j: int| assigned_to(assignments, j, target))
}

/// The voters whose assignments name the target.
pub open spec fn assigned_voters(
    assignments: Seq<AssignmentView>,
    target: AccountId,
) -> Set<AccountId> {
    Set::new(
        |voter: AccountId|
            exists|j: int| #[trigger]
                assigned_to(assignments, j, target) && assignments[j].who == voter,
    )
}

proof fn lemma_voter_of_page(pages: Seq<Seq<VoterView>>, p: int, account: AccountId)
    requires
        0 <= p < pages.len(),
        is_voter(pages[p], account),
    ensures
        is_voter(pages.flatten(), account),
    decreases pages.len(),
{
    let rest = pages.drop_first();
    let all = pages.flatten();
    assert(all == pages.first() + rest.flatten());
    if p == 0 {
        let v = choose|v: int| 0 <= v < pages[0].len() && (#[trigger] pages[0][v]).who == account;
        assert(all[v].who == account);
    } else {
        assert(rest[p - 1] == pages[p]);
        lemma_voter_of_page(rest, p - 1, account);
        let of_rest = rest.flatten();
        let v = choose|v: int| 0 <= v < of_rest.len() && (#[trigger] of_rest[v]).who == account;
        assert(all[pages.first().len() + v].who == account);
    }
}

proof fn lemma_voters_have_stakes(voters: Seq<VoterView>, account: AccountId)
    requires
        is_voter(voters, account),
    ensures
        stakes_of(voters).contains_key(account),
    decreases voters.len(),
{
    let v = choose|v: int| 0 <= v < voters.len() && (#[trigger] voters[v]).who == account;
    if v < voters.len() - 1 {
        assert(voters.drop_last()[v].who == account);
        lemma_voters_have_stakes(voters.drop_last(), account);
    }
}

proof fn lemma_collected_name_only(
    converted: Seq<PageConversion>,
    voters: Seq<VoterView>,
    targets: Seq<AccountId>,
)
    requires
        forall|i: int|
            0 <= i < converted.len() ==> ((#[trigger] converted[i]) matches Ok(page)
                ==> all_name_only(assignment_views(page@), voters, targets)),
    ensures
        collected(converted) matches Ok(assignments) ==> all_name_only(
            assignments,
            voters,
            targets,
        ),
    decreases converted.len(),
{
    if converted.len() > 0 {
        let shorter = converted.drop_last();
        assert forall|i: int| 0 <= i < shorter.len() implies ((#[trigger] shorter[i]) matches Ok(
            page,
        ) ==> all_name_only(assignment_views(page@), voters, targets)) by {
            assert(shorter[i] == converted[i]);
        }
        lemma_collected_name_only(shorter, voters, targets);
        if let (Ok(before), Ok(page)) = (collected(shorter), converted.last()) {
            let of_page = assignment_views(page@);
            assert(converted[converted.len() - 1] matches Ok(page) ==> all_name_only(
                assignment_views(page@),
                voters,
                targets,
            ));
            assert forall|j: int| 0 <= j < (before + of_page).len() implies names_only(
                #[trigger] (before + of_page)[j],
                voters,
                targets,
            ) by {
                if j < before.len() {
                    assert(names_only(before[j], voters, targets));
                } else {
                    assert(names_only(of_page[j - before.len()], voters, targets));
                }
            }
        }
    }
}

proof fn lemma_conversions_name_only<
    F: Fn(usize, &VoterPage, &Vec<AccountId>) -> PageConversion,
>(
    into_assignment: F,
    solution_pages: nat,
    target_snapshot: &Vec<AccountId>,
    voter_snapshot_pages: &Vec<VoterPage>,
    converted: Seq<PageConversion>,
)
    requires
        resolves(into_assignment, target_snapshot, voter_snapshot_pages),
        conversions_of(
            into_assignment,
            solution_pages,
            target_snapshot,
            voter_snapshot_pages,
            converted,
        ),
    ensures
        collected(converted) matches Ok(assignments) ==> all_name_only(
            assignments,
            page_views(voter_snapshot_pages@).flatten(),
            target_snapshot@,
        ),
{
    let views = page_views(voter_snapshot_pages@);
    let voters = views.flatten();
    let n: usize = voter_snapshot_pages.len();
    assert forall|i: int| 0 <= i < converted.len() implies ((#[trigger] converted[i]) matches Ok(
        page,
    ) ==> all_name_only(assignment_views(page@), voters, target_snapshot@)) by {
        let k = i as usize;
        assert(call_ensures(
            into_assignment,
            (k, &voter_snapshot_pages@[k as int], target_snapshot),
            converted[i],
        ));
        if let Ok(page) = converted[i] {
            let assignments = assignment_views(page@);
            assert(views[i] == voter_views(voter_snapshot_pages@[i]@));
            assert forall|j: int| 0 <= j < assignments.len() implies names_only(
                #[trigger] assignments[j],
                voters,
                target_snapshot@,
            ) by {
                assert(names_only(assignments[j], views[i], target_snapshot@));
                lemma_voter_of_page(views, i, assignments[j].who);
            }
        }
    }
    lemma_collected_name_only(converted, voters, target_snapshot@);
}

/// Where the conversion of every page names only voters of its page and targets of the snapshot,
/// so does every assignment of the solution.
pub proof fn assignments_name_only_the_snapshots<
    F: Fn(usize, &VoterPage, &Vec<AccountId>) -> PageConversion,
>(
    into_assignment: F,
    solution_pages: nat,
    target_snapshot: &Vec<AccountId>,
    voter_snapshot_pages: &Vec<VoterPage>,
    r: Result<Vec<Assignment>, Error>,
)
    requires
        resolves(into_assignment, target_snapshot, voter_snapshot_pages),
        assigns(into_assignment, solution_pages, target_snapshot, voter_snapshot_pages, r),
    ensures
        r matches Ok(assignments) ==> all_name_only(
            assignment_views(assignments@),
            page_views(voter_snapshot_pages@).flatten(),
            target_snapshot@,
        ),
{
    let converted = choose|converted: Seq<PageConversion>|
        #![trigger collected(converted)]
        conversions_of(
            into_assignment,
            solution_pages,
            target_snapshot,
            voter_snapshot_pages,
            converted,
        ) && is_collection(converted, r);
    lemma_conversions_name_only(
        into_assignment,
        solution_pages,
        target_snapshot,
        voter_snapshot_pages,
        converted,
    );
}

/// The reported validators are those of the targets: each account is the text of a target.
pub open spec fn reports_targets(
    results: PredictionResultsView,
    targets: Seq<AccountId>,
) -> bool {
    forall|i: int|
        0 <= i < results.active_validators.len() ==> exists|t: int|
            0 <= t < targets.len() && (#[trigger] results.active_validators[i]).account
                == account_text(#[trigger] targets[t])
}

/// Where the assignments name targets only, the reported validators are targets.
pub proof fn winners_are_targets(
    assignments: Seq<AssignmentView>,
    voters: Seq<VoterView>,
    targets: Seq<AccountId>,
    desired: nat,
    self_stakes: Option<Map<AccountId, u128>>,
    results: PredictionResultsView,
)
    requires
        is_prediction(assignments, voters, desired, self_stakes, results),
        all_name_only(assignments, voters, targets),
    ensures
        reports_targets(results, targets),
{
    assert forall|i: int| 0 <= i < results.active_validators.len() implies exists|t: int|
        0 <= t < targets.len() && (#[trigger] results.active_validators[i]).account
            == account_text(#[trigger] targets[t]) by {
        every_winner_is_assigned(assignments, voters, desired, self_stakes, results, i);
        let (j, validator) = choose|j: int, validator: AccountId| #[trigger]
            assigned_by(assignments, voters, j, validator) && account_text(validator)
                == results.active_validators[i].account;
        assert(names_only(assignments[j], voters, targets));
        let k = choose|k: int|
            0 <= k < assignments[j].distribution.len() && (
            #[trigger] assignments[j].distribution[k]).0 == validator;
        assert(targets.contains(assignments[j].distribution[k].0));
        let t = choose|t: int| 0 <= t < targets.len() && targets[t] == validator;
        assert(results.active_validators[i].account == account_text(targets[t]));
    }
}

proof fn lemma_voters_known(
    assignments: Seq<AssignmentView>,
    voters: Seq<VoterView>,
    targets: Seq<AccountId>,
)
    requires
        all_name_only(assignments, voters, targets),
    ensures
        validators_assigned(assignments, voters) == assigned_targets(assignments),
        forall|target: AccountId| #[trigger]
            voters_assigned(assignments, voters, target) == assigned_voters(assignments, target),
{
    assert forall|j: int, target: AccountId| #[trigger]
        assigned_to(assignments, j, target) == assigned_by(assignments, voters, j, target) by {
        if assigned_to(assignments, j, target) {
            assert(names_only(assignments[j], voters, targets));
            lemma_voters_have_stakes(voters, assignments[j].who);
        }
    }
    assert forall|j: int, target: AccountId| #[trigger]
        assigned_by(assignments, voters, j, target) == assigned_to(assignments, j, target) by {
        assert(assigned_to(assignments, j, target) == assigned_by(
            assignments,
            voters,
            j,
            target,
        ));
    }
    assert(validators_assigned(assignments, voters) =~= assigned_targets(assignments));
    assert forall|target: AccountId| #[trigger]
        voters_assigned(assignments, voters, target) == assigned_voters(
            assignments,
            target,
        ) by {
        assert(voters_assigned(assignments, voters, target) =~= assigned_voters(
            assignments,
            target,
        ));
    }
}

/// The list has as many validators as are desired, or one for each target that is assigned where
/// these are fewer. The number of nominators of a target is that of the voters whose assignments
/// name it, as a 32-bit number.
pub open spec fn counts_assigned(
    assignments: Seq<AssignmentView>,
    desired: nat,
    results: PredictionResultsView,
) -> bool {
    &&& assigned_targets(assignments).finite()
    &&& results.active_validators.len() == if desired <= assigned_targets(assignments).len() {
        desired
    } else {
        assigned_targets(assignments).len()
    }
    &&& forall|i: int, target: AccountId|
        0 <= i < results.active_validators.len() && (
        #[trigger] results.active_validators[i]).account == #[trigger] account_text(target) ==> {
            &&& assigned_targets(assignments).contains(target)
            &&& assigned_voters(assignments, target).finite()
            &&& results.active_validators[i].nominators_count == assigned_voters(
                assignments,
                target,
            ).len() % 0x1_0000_0000
        }
}

proof fn lemma_assigned_voters_finite(assignments: Seq<AssignmentView>, target: AccountId)
    ensures
        assigned_voters(assignments, target).finite(),
{
    let whos = assignments.map_values(|a: AssignmentView| a.who);
    let naming = assigned_voters(assignments, target);
    vstd::seq_lib::seq_to_set_is_finite(whos);
    assert(naming.subset_of(whos.to_set())) by {
        assert forall|voter: AccountId| naming.contains(voter) implies whos.to_set().contains(
            voter,
        ) by {
            let j = choose|j: int| #[trigger]
                assigned_to(assignments, j, target) && assignments[j].who == voter;
            assert(whos[j] == voter);
        }
    }
    vstd::set_lib::lemma_set_subset_finite(whos.to_set(), naming);
}

/// Where every assignment is that of a voter, what is assigned is what is counted.
pub proof fn prediction_counts_assigned(
    assignments: Seq<AssignmentView>,
    voters: Seq<VoterView>,
    targets: Seq<AccountId>,
    desired: nat,
    self_stakes: Option<Map<AccountId, u128>>,
    results: PredictionResultsView,
)
    requires
        is_prediction(assignments, voters, desired, self_stakes, results),
        all_name_only(assignments, voters, targets),
    ensures
        counts_assigned(assignments, desired, results),
{
    let edges = all_edges(assignments, stakes_of(voters));
    let support = support_of(edges);
    support_is_what_is_assigned(assignments, voters);
    lemma_voters_known(assignments, voters, targets);
    support_finite(edges);
    prediction_lists_the_best(assignments, voters, desired, self_stakes, results);
    let ranking = lemma_ranking_behind(assignments, voters, desired, self_stakes, results);
    assert forall|i: int, target: AccountId|
        0 <= i < results.active_validators.len() && (
        #[trigger] results.active_validators[i]).account == #[trigger] account_text(
            target,
        ) implies {
        &&& assigned_targets(assignments).contains(target)
        &&& assigned_voters(assignments, target).finite()
        &&& results.active_validators[i].nominators_count == assigned_voters(
            assignments,
            target,
        ).len() % 0x1_0000_0000
    } by {
        assert(results.active_validators[i] == reported(ranking[i], self_stakes));
        assert(describes(ranking[i], support));
        account_text_injective(ranking[i].who, target);
        assert(support.dom().contains(target));
        assert(support[target].backers == voters_assigned(assignments, voters, target));
        lemma_assigned_voters_finite(assignments, target);
    }
}

/// Where the conversion of every page names only voters of its page and targets of the snapshot,
/// every reported validator is a target of the snapshot.
pub proof fn reported_validators_are_targets<
    F: Fn(usize, &VoterPage, &Vec<AccountId>) -> PageConversion,
>(
    into_assignment: F,
    solution_pages: nat,
    desired: nat,
    target_snapshot: &Vec<AccountId>,
    voter_snapshot_pages: &Vec<VoterPage>,
    self_stakes: Option<Map<AccountId, u128>>,
    r: Result<PredictionResults, Error>,
)
    requires
        resolves(into_assignment, target_snapshot, voter_snapshot_pages),
        predicts(
            into_assignment,
            solution_pages,
            desired,
            target_snapshot,
            voter_snapshot_pages,
            self_stakes,
            r,
        ),
    ensures
        r matches Ok(results) ==> reports_targets(results@, target_snapshot@),
{
    let voters = page_views(voter_snapshot_pages@).flatten();
    let converted = choose|converted: Seq<PageConversion>|
        #![trigger collected(converted)]
        conversions_of(
            into_assignment,
            solution_pages,
            target_snapshot,
            voter_snapshot_pages,
            converted,
        ) && is_outcome(converted, voters, desired, self_stakes, r);
    lemma_conversions_name_only(
        into_assignment,
        solution_pages,
        target_snapshot,
        voter_snapshot_pages,
        converted,
    );
    if let (Ok(assignments), Ok(results)) = (collected(converted), r) {
        winners_are_targets(
            assignments,
            voters,
            target_snapshot@,
            desired,
            self_stakes,
            results@,
        );
    }
}

/// Where the conversion of every page names only voters of its page and targets of the snapshot,
/// the results count what the assignments of the solution assign. The results and the assignments
/// come together, or fail with the same error.
pub proof fn processing_counts_assigned<
    F: Fn(usize, &VoterPage, &Vec<AccountId>) -> PageConversion,
>(
    into_assignment: F,
    solution_pages: nat,
    desired: nat,
    target_snapshot: &Vec<AccountId>,
    voter_snapshot_pages: &Vec<VoterPage>,
    self_stakes: Option<Map<AccountId, u128>>,
    a: Result<Vec<Assignment>, Error>,
    r: Result<PredictionResults, Error>,
)
    requires
        one_result(into_assignment, target_snapshot, voter_snapshot_pages),
        resolves(into_assignment, target_snapshot, voter_snapshot_pages),
        assigns(into_assignment, solution_pages, target_snapshot, voter_snapshot_pages, a),
        predicts(
            into_assignment,
            solution_pages,
            desired,
            target_snapshot,
            voter_snapshot_pages,
            self_stakes,
            r,
        ),
    ensures
        match (a, r) {
            (Ok(assignments), Ok(results)) => counts_assigned(
                assignment_views(assignments@),
                desired,
                results@,
            ),
            (Err(of_a), Err(of_r)) => of_a.text() == of_r.text(),
            _ => false,
        },
{
    let voters = page_views(voter_snapshot_pages@).flatten();
    let of_a = choose|converted: Seq<PageConversion>|
        #![trigger collected(converted)]
        conversions_of(
            into_assignment,
            solution_pages,
            target_snapshot,
            voter_snapshot_pages,
            converted,
        ) && is_collection(converted, a);
    let of_r = choose|converted: Seq<PageConversion>|
        #![trigger collected(converted)]
        conversions_of(
            into_assignment,
            solution_pages,
            target_snapshot,
            voter_snapshot_pages,
            converted,
        ) && is_outcome(converted, voters, desired, self_stakes, r);
    conversions_determined(
        into_assignment,
        solution_pages,
        target_snapshot,
        voter_snapshot_pages,
        of_a,
        of_r,
    );
    lemma_conversions_name_only(
        into_assignment,
        solution_pages,
        target_snapshot,
        voter_snapshot_pages,
        of_r,
    );
    if let (Ok(assignments), Ok(results)) = (a, r) {
        prediction_counts_assigned(
            assignment_views(assignments@),
            voters,
            target_snapshot@,
            desired,
            self_stakes,
            results@,
        );
    }
}

} // verus!
