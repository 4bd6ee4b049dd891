//! What holds of every prediction.

use crate::account::AccountId;
use crate::assignments::collected;
use crate::assignments::conversions_determined;
use crate::assignments::conversions_of;
use crate::assignments::one_result;
use crate::assignments::PageConversion;
use crate::ranking::describes;
use crate::ranking::fewer_seats_keep_the_first;
use crate::ranking::is_ranking;
use crate::ranking::listed;
use crate::ranking::ranking_lists_once;
use crate::ranking::ranking_unique;
use crate::ranking::RankedValidator;
use crate::results::average_total;
use crate::results::is_outcome;
use crate::results::is_prediction;
use crate::results::least_total;
use crate::results::predicts;
use crate::results::report_of;
use crate::results::reported;
use crate::results::self_stake_of;
use crate::results::sum_of_totals;
use crate::tally::all_edges;
use crate::tally::backers;
use crate::tally::edges_of;
use crate::tally::leads_from_to;
use crate::tally::leads_to;
use crate::tally::stakes_of;
use crate::tally::support_of;
use crate::tally::total_for;
use crate::tally::Edge;
use crate::text::account_text;
use crate::text::account_text_injective;
use crate::types::ActiveValidatorView;
use crate::types::page_views;
use crate::types::AssignmentView;
use crate::types::Error;
use crate::types::PredictionResults;
use crate::types::PredictionResultsView;
use crate::types::VoterPage;
use crate::types::VoterView;
use vstd::prelude::*;

verus! {

/// The ranking behind a prediction.
pub(crate) proof fn lemma_ranking_behind(
    assignments: Seq<AssignmentView>,
    voters: Seq<VoterView>,
    desired: nat,
    self_stakes: Option<Map<AccountId, u128>>,
    results: PredictionResultsView,
) -> (ranking: Seq<RankedValidator>)
    requires
        is_prediction(assignments, voters, desired, self_stakes, results),
    ensures
        is_ranking(
            support_of(all_edges(assignments, stakes_of(voters))),
            desired,
            ranking,
        ),
        sum_of_totals(ranking) <= u128::MAX,
        results == report_of(ranking, self_stakes),
{
    let support = support_of(all_edges(assignments, stakes_of(voters)));
    choose|r: Seq<RankedValidator>| #[trigger]
        is_ranking(support, desired, r) && sum_of_totals(r) <= u128::MAX && results == report_of(
            r,
            self_stakes,
        )
}

/// The inputs determine the prediction.
pub proof fn prediction_determined(
    assignments: Seq<AssignmentView>,
    voters: Seq<VoterView>,
    desired: nat,
    self_stakes: Option<Map<AccountId, u128>>,
    a: PredictionResultsView,
    b: PredictionResultsView,
)
    requires
        is_prediction(assignments, voters, desired, self_stakes, a),
        is_prediction(assignments, voters, desired, self_stakes, b),
    ensures
        a == b,
{
    let support = support_of(all_edges(assignments, stakes_of(voters)));
    let ra = lemma_ranking_behind(assignments, voters, desired, self_stakes, a);
    let rb = lemma_ranking_behind(assignments, voters, desired, self_stakes, b);
    ranking_unique(support, desired, ra, rb);
}

/// As many validators are reported as are desired, or all that have support where these are
/// fewer. They are ordered by total stake, largest first, and no account is reported twice.
pub proof fn prediction_lists_the_best(
    assignments: Seq<AssignmentView>,
    voters: Seq<VoterView>,
    desired: nat,
    self_stakes: Option<Map<AccountId, u128>>,
    results: PredictionResultsView,
)
    requires
        is_prediction(assignments, voters, desired, self_stakes, results),
    ensures
        ({
            let supported = support_of(all_edges(assignments, stakes_of(voters))).len();
            results.active_validators.len() == if desired <= supported {
                desired
            } else {
                supported
            }
        }),
        forall|i: int, j: int|
            0 <= i < j < results.active_validators.len() ==> (
            #[trigger] results.active_validators[i]).total_stake >= (
            #[trigger] results.active_validators[j]).total_stake && results.active_validators[i].account
                != results.active_validators[j].account,
{
    let support = support_of(all_edges(assignments, stakes_of(voters)));
    let ranking = lemma_ranking_behind(assignments, voters, desired, self_stakes, results);
    assert forall|i: int, j: int| 0 <= i < j < results.active_validators.len() implies (
    #[trigger] results.active_validators[i]).total_stake >= (
    #[trigger] results.active_validators[j]).total_stake && results.active_validators[i].account
        != results.active_validators[j].account by {
        ranking_lists_once(support, desired, ranking, i, j);
        account_text_injective(ranking[i].who, ranking[j].who);
        assert(results.active_validators[i] == reported(ranking[i], self_stakes));
        assert(results.active_validators[j] == reported(ranking[j], self_stakes));
    }
}

/// No validator that is left out has more support than one that is reported.
pub proof fn nobody_better_is_left_out(
    assignments: Seq<AssignmentView>,
    voters: Seq<VoterView>,
    desired: nat,
    self_stakes: Option<Map<AccountId, u128>>,
    results: PredictionResultsView,
    i: int,
    validator: AccountId,
)
    requires
        is_prediction(assignments, voters, desired, self_stakes, results),
        0 <= i < results.active_validators.len(),
        support_of(all_edges(assignments, stakes_of(voters))).contains_key(validator),
        forall|j: int|
            0 <= j < results.active_validators.len() ==> (
            #[trigger] results.active_validators[j]).account != account_text(validator),
    ensures
        results.active_validators[i].total_stake >= total_for(
            all_edges(assignments, stakes_of(voters)),
            validator,
        ),
{
    let support = support_of(all_edges(assignments, stakes_of(voters)));
    let ranking = lemma_ranking_behind(assignments, voters, desired, self_stakes, results);
    assert(results.active_validators[i] == reported(ranking[i], self_stakes));
    if listed(ranking, validator) {
        let j = choose|j: int| 0 <= j < ranking.len() && (#[trigger] ranking[j]).who == validator;
        assert(results.active_validators[j] == reported(ranking[j], self_stakes));
    }
    assert(support.contains_key(validator));
    assert(ranking[i].total >= support[validator].total);
}

/// The distribution of assignment `j` names the validator.
pub open spec fn assigned_to(
    assignments: Seq<AssignmentView>,
    j: int,
    validator: AccountId,
) -> bool {
    &&& 0 <= j < assignments.len()
    &&& exists|k: int|
        0 <= k < assignments[j].distribution.len() && (
        #[trigger] assignments[j].distribution[k]).0 == validator
}

/// Assignment `j` hands a part of its voter's stake to the validator: its distribution names the
/// validator, and the voter has a stake.
pub open spec fn assigned_by(
    assignments: Seq<AssignmentView>,
    voters: Seq<VoterView>,
    j: int,
    validator: AccountId,
) -> bool {
    &&& assigned_to(assignments, j, validator)
    &&& stakes_of(voters).contains_key(assignments[j].who)
}

proof fn lemma_edge_from_assignment(
    assignments: Seq<AssignmentView>,
    voters: Seq<VoterView>,
    i: int,
) -> (j: int)
    requires
        0 <= i < all_edges(assignments, stakes_of(voters)).len(),
    ensures
        assigned_by(
            assignments,
            voters,
            j,
            all_edges(assignments, stakes_of(voters))[i].validator,
        ),
        all_edges(assignments, stakes_of(voters))[i].voter == assignments[j].who,
    decreases assignments.len(),
{
    let stakes = stakes_of(voters);
    let shorter = assignments.drop_last();
    let before = all_edges(shorter, stakes);
    if i < before.len() {
        let j = lemma_edge_from_assignment(shorter, voters, i);
        assert(shorter[j] == assignments[j]);
        let validator = before[i].validator;
        let k = choose|k: int|
            0 <= k < shorter[j].distribution.len() && (
            #[trigger] shorter[j].distribution[k]).0 == validator;
        assert(assignments[j].distribution[k].0 == validator);
        j
    } else {
        let own = edges_of(assignments.last(), stakes);
        let k = i - before.len();
        assert(all_edges(assignments, stakes)[i] == own[k]);
        assert(assignments[assignments.len() - 1].distribution[k].0 == own[k].validator);
        assignments.len() - 1
    }
}

proof fn lemma_edge_of_assignment(
    assignments: Seq<AssignmentView>,
    voters: Seq<VoterView>,
    j: int,
    validator: AccountId,
) -> (i: int)
    requires
        assigned_by(assignments, voters, j, validator),
    ensures
        leads_from_to(
            all_edges(assignments, stakes_of(voters)),
            i,
            assignments[j].who,
            validator,
        ),
    decreases assignments.len(),
{
    let stakes = stakes_of(voters);
    let shorter = assignments.drop_last();
    let before = all_edges(shorter, stakes);
    let k = choose|k: int|
        0 <= k < assignments[j].distribution.len() && (
        #[trigger] assignments[j].distribution[k]).0 == validator;
    if j < shorter.len() {
        assert(shorter[j].distribution[k].0 == validator);
        lemma_edge_of_assignment(shorter, voters, j, validator)
    } else {
        let own = edges_of(assignments.last(), stakes);
        assert(own[k].validator == validator);
        assert(all_edges(assignments, stakes)[before.len() + k] == own[k]);
        before.len() + k
    }
}

/// The validators that are assigned a part of a stake.
pub open spec fn validators_assigned(
    assignments: Seq<AssignmentView>,
    voters: Seq<VoterView>,
) -> Set<AccountId> {
    Set::new(
        |validator: AccountId| exists|j: int| assigned_by(assignments, voters, j, validator),
    )
}

/// The voters that hand a part of their stake to the validator.
pub open spec fn voters_assigned(
    assignments: Seq<AssignmentView>,
    voters: Seq<VoterView>,
    validator: AccountId,
) -> Set<AccountId> {
    Set::new(
        |voter: AccountId|
            exists|j: int| #[trigger]
                assigned_by(assignments, voters, j, validator) && assignments[j].who == voter,
    )
}

/// The supported validators are those that are assigned a part of a stake, and the backers of
/// each are the voters that hand it one.
pub proof fn support_is_what_is_assigned(
    assignments: Seq<AssignmentView>,
    voters: Seq<VoterView>,
)
    ensures
        support_of(all_edges(assignments, stakes_of(voters))).dom() == validators_assigned(
            assignments,
            voters,
        ),
        forall|validator: AccountId| #[trigger]
            backers(all_edges(assignments, stakes_of(voters)), validator) == voters_assigned(
                assignments,
                voters,
                validator,
            ),
{
    let edges = all_edges(assignments, stakes_of(voters));
    let dom = support_of(edges).dom();
    let assigned = validators_assigned(assignments, voters);
    assert forall|v: AccountId| #[trigger] dom.contains(v) == assigned.contains(v) by {
        if dom.contains(v) {
            let i = choose|i: int| leads_to(edges, i, v);
            let j = lemma_edge_from_assignment(assignments, voters, i);
            assert(assigned_by(assignments, voters, j, v));
        }
        if assigned.contains(v) {
            let j = choose|j: int| assigned_by(assignments, voters, j, v);
            let i = lemma_edge_of_assignment(assignments, voters, j, v);
            assert(leads_to(edges, i, v));
        }
    }
    assert(dom =~= assigned);
    assert forall|v: AccountId| #[trigger] backers(edges, v) == voters_assigned(
        assignments,
        voters,
        v,
    ) by {
        let handing = voters_assigned(assignments, voters, v);
        assert forall|w: AccountId| #[trigger]
            backers(edges, v).contains(w) == handing.contains(w) by {
            if backers(edges, v).contains(w) {
                let i = choose|i: int| leads_from_to(edges, i, w, v);
                let j = lemma_edge_from_assignment(assignments, voters, i);
                assert(assigned_by(assignments, voters, j, v));
            }
            if handing.contains(w) {
                let j = choose|j: int| #[trigger]
                    assigned_by(assignments, voters, j, v) && assignments[j].who == w;
                let i = lemma_edge_of_assignment(assignments, voters, j, v);
                assert(leads_from_to(edges, i, w, v));
            }
        }
        assert(backers(edges, v) =~= handing);
    }
}

/// Every reported validator stands in the distribution of a voter with a stake.
pub proof fn every_winner_is_assigned(
    assignments: Seq<AssignmentView>,
    voters: Seq<VoterView>,
    desired: nat,
    self_stakes: Option<Map<AccountId, u128>>,
    results: PredictionResultsView,
    i: int,
)
    requires
        is_prediction(assignments, voters, desired, self_stakes, results),
        0 <= i < results.active_validators.len(),
    ensures
        exists|j: int, validator: AccountId|
            #[trigger] assigned_by(assignments, voters, j, validator) && account_text(validator)
                == results.active_validators[i].account,
{
    let edges = all_edges(assignments, stakes_of(voters));
    let support = support_of(edges);
    let ranking = lemma_ranking_behind(assignments, voters, desired, self_stakes, results);
    assert(describes(ranking[i], support));
    assert(results.active_validators[i] == reported(ranking[i], self_stakes));
    let validator = ranking[i].who;
    let e = choose|e: int| leads_to(edges, e, validator);
    let j = lemma_edge_from_assignment(assignments, voters, e);
    assert(assigned_by(assignments, voters, j, validator));
}

/// The sum of the reported total stakes.
pub open spec fn sum_of_stakes(validators: Seq<ActiveValidatorView>) -> nat
    decreases validators.len(),
{
    if validators.len() == 0 {
        0
    } else {
        sum_of_stakes(validators.drop_last()) + validators.last().total_stake as nat
    }
}

proof fn lemma_reported_sum(
    ranking: Seq<RankedValidator>,
    self_stakes: Option<Map<AccountId, u128>>,
)
    ensures
        sum_of_stakes(report_of(ranking, self_stakes).active_validators) == sum_of_totals(
            ranking,
        ),
    decreases ranking.len(),
{
    if ranking.len() > 0 {
        lemma_reported_sum(ranking.drop_last(), self_stakes);
        assert(report_of(ranking, self_stakes).active_validators.drop_last() =~= report_of(
            ranking.drop_last(),
            self_stakes,
        ).active_validators);
    }
}

pub(crate) proof fn lemma_least_total(ranking: Seq<RankedValidator>)
    requires
        forall|i: int, j: int|
            0 <= i < j < ranking.len() ==> (#[trigger] ranking[i]).total >= (
            #[trigger] ranking[j]).total,
        ranking.len() > 0,
    ensures
        least_total(ranking) == ranking.last().total,
        sum_of_totals(ranking) >= ranking.len() * ranking.last().total,
        sum_of_totals(ranking) <= ranking.len() * ranking[0].total,
    decreases ranking.len(),
{
    let n = ranking.len();
    if n > 1 {
        let shorter = ranking.drop_last();
        lemma_least_total(shorter);
        assert(ranking[n - 2].total >= ranking[n - 1].total);
        assert(ranking[0].total >= ranking[n - 1].total);
        let last = ranking.last().total as int;
        let above = shorter.last().total as int;
        let first = ranking[0].total as int;
        assert((n - 1) * above + last >= n * last) by (nonlinear_arith)
            requires
                above >= last,
                n >= 1,
        ;
        assert((n - 1) * first + last <= n * first) by (nonlinear_arith)
            requires
                first >= last,
        ;
    } else {
        assert(ranking.drop_last() =~= Seq::empty());
        assert(sum_of_totals(ranking.drop_last()) == 0);
        let last = ranking.last().total as int;
        assert(1 * last == last) by (nonlinear_arith);
    }
}

/// The statistics are those of the reported validators: the total is the sum of their stakes,
/// the minimum is the stake of the last one, and the average is the total divided by their
/// number, between the minimum and the largest stake. Without validators all are zero.
pub proof fn statistics_fit_the_list(
    assignments: Seq<AssignmentView>,
    voters: Seq<VoterView>,
    desired: nat,
    self_stakes: Option<Map<AccountId, u128>>,
    results: PredictionResultsView,
)
    requires
        is_prediction(assignments, voters, desired, self_stakes, results),
    ensures
        ({
            let list = results.active_validators;
            let statistics = results.statistics;
            &&& statistics.total_staked == sum_of_stakes(list)
            &&& list.len() == 0 ==> statistics.minimum_stake == 0 && statistics.average_stake == 0
            &&& list.len() > 0 ==> {
                &&& statistics.minimum_stake == list.last().total_stake
                &&& statistics.average_stake == sum_of_stakes(list) / list.len()
                &&& statistics.minimum_stake <= statistics.average_stake <= list[0].total_stake
            }
        }),
{
    let support = support_of(all_edges(assignments, stakes_of(voters)));
    let ranking = lemma_ranking_behind(assignments, voters, desired, self_stakes, results);
    let list = results.active_validators;
    lemma_reported_sum(ranking, self_stakes);
    if ranking.len() > 0 {
        assert forall|i: int, j: int| 0 <= i < j < ranking.len() implies (
        #[trigger] ranking[i]).total >= (#[trigger] ranking[j]).total by {
            ranking_lists_once(support, desired, ranking, i, j);
        }
        lemma_least_total(ranking);
        let sum = sum_of_totals(ranking);
        let m = ranking.len();
        let least = ranking.last().total as nat;
        let most = ranking[0].total as nat;
        assert(list.last() == reported(ranking.last(), self_stakes));
        assert(list[0] == reported(ranking[0], self_stakes));
        assert(least <= sum / m <= most && sum / m <= sum) by (nonlinear_arith)
            requires
                m * least <= sum <= m * most,
                m > 0,
        ;
    }
}

/// The self stake that is reported for a validator is the one that was given for it, or zero
/// where none was given.
pub proof fn self_stakes_are_those_given(
    assignments: Seq<AssignmentView>,
    voters: Seq<VoterView>,
    desired: nat,
    self_stakes: Option<Map<AccountId, u128>>,
    results: PredictionResultsView,
    i: int,
    validator: AccountId,
)
    requires
        is_prediction(assignments, voters, desired, self_stakes, results),
        0 <= i < results.active_validators.len(),
        results.active_validators[i].account == account_text(validator),
    ensures
        results.active_validators[i].self_stake == self_stake_of(self_stakes, validator),
{
    let ranking = lemma_ranking_behind(assignments, voters, desired, self_stakes, results);
    assert(results.active_validators[i] == reported(ranking[i], self_stakes));
    account_text_injective(ranking[i].who, validator);
}

/// The entries are the same but for their self stakes.
pub open spec fn same_but_self_stake(a: ActiveValidatorView, b: ActiveValidatorView) -> bool {
    &&& a.account == b.account
    &&& a.total_stake == b.total_stake
    &&& a.nominators_count == b.nominators_count
}

/// The results are the same but for the self stakes of the validators.
pub open spec fn same_but_self_stakes(
    a: PredictionResultsView,
    b: PredictionResultsView,
) -> bool {
    &&& a.active_validators.len() == b.active_validators.len()
    &&& forall|i: int|
        0 <= i < a.active_validators.len() ==> same_but_self_stake(
            #[trigger] a.active_validators[i],
            b.active_validators[i],
        )
    &&& a.statistics == b.statistics
}

/// The self stakes decide nothing but what is reported as self stake.
pub proof fn self_stakes_decide_nothing_else(
    assignments: Seq<AssignmentView>,
    voters: Seq<VoterView>,
    desired: nat,
    stakes_a: Option<Map<AccountId, u128>>,
    stakes_b: Option<Map<AccountId, u128>>,
    a: PredictionResultsView,
    b: PredictionResultsView,
)
    requires
        is_prediction(assignments, voters, desired, stakes_a, a),
        is_prediction(assignments, voters, desired, stakes_b, b),
    ensures
        same_but_self_stakes(a, b),
{
    let support = support_of(all_edges(assignments, stakes_of(voters)));
    let ra = lemma_ranking_behind(assignments, voters, desired, stakes_a, a);
    let rb = lemma_ranking_behind(assignments, voters, desired, stakes_b, b);
    ranking_unique(support, desired, ra, rb);
    assert forall|i: int| 0 <= i < a.active_validators.len() implies same_but_self_stake(
        #[trigger] a.active_validators[i],
        b.active_validators[i],
    ) by {
        assert(a.active_validators[i] == reported(ra[i], stakes_a));
        assert(b.active_validators[i] == reported(rb[i], stakes_b));
    }
}

proof fn lemma_fewer_average_more(ranking: Seq<RankedValidator>, n: nat)
    requires
        forall|i: int, j: int|
            0 <= i < j < ranking.len() ==> (#[trigger] ranking[i]).total >= (
            #[trigger] ranking[j]).total,
        0 < n <= ranking.len(),
    ensures
        sum_of_totals(ranking) * n <= sum_of_totals(ranking.take(n as int)) * ranking.len(),
        sum_of_totals(ranking.take(n as int)) <= sum_of_totals(ranking),
    decreases ranking.len(),
{
    let first = ranking.take(n as int);
    if n == ranking.len() {
        assert(first =~= ranking);
    } else {
        let shorter = ranking.drop_last();
        lemma_fewer_average_more(shorter, n);
        assert(shorter.take(n as int) =~= first);
        lemma_least_total(first);
        let m = ranking.len() as int;
        let sum = sum_of_totals(first) as int;
        let before = sum_of_totals(shorter) as int;
        let last = ranking.last().total as int;
        let above = first.last().total as int;
        assert(above >= last) by {
            assert(ranking[n - 1].total >= ranking[m - 1].total);
        }
        assert((before + last) * n <= sum * m) by (nonlinear_arith)
            requires
                before * n <= sum * (m - 1),
                sum >= n * above,
                above >= last,
                n > 0,
        ;
    }
}

/// The first results are the second ones cut short to a number of seats: their list is the
/// beginning of the other, the validators in front as they are. Their total is not larger, and
/// where there is a seat, their minimum and average are not smaller.
pub open spec fn cut_short(
    a: PredictionResultsView,
    b: PredictionResultsView,
    seats: nat,
) -> bool {
    &&& a.active_validators == b.active_validators.take(
        if seats <= b.active_validators.len() {
            seats as int
        } else {
            b.active_validators.len() as int
        },
    )
    &&& a.statistics.total_staked <= b.statistics.total_staked
    &&& seats > 0 ==> a.statistics.minimum_stake >= b.statistics.minimum_stake
    &&& seats > 0 ==> a.statistics.average_stake >= b.statistics.average_stake
}

/// The results for fewer seats are those for more seats, cut short.
pub proof fn more_seats_extend_the_list(
    assignments: Seq<AssignmentView>,
    voters: Seq<VoterView>,
    fewer: nat,
    more: nat,
    self_stakes: Option<Map<AccountId, u128>>,
    a: PredictionResultsView,
    b: PredictionResultsView,
)
    requires
        fewer <= more,
        is_prediction(assignments, voters, fewer, self_stakes, a),
        is_prediction(assignments, voters, more, self_stakes, b),
    ensures
        cut_short(a, b, fewer),
{
    let support = support_of(all_edges(assignments, stakes_of(voters)));
    let ra = lemma_ranking_behind(assignments, voters, fewer, self_stakes, a);
    let rb = lemma_ranking_behind(assignments, voters, more, self_stakes, b);
    fewer_seats_keep_the_first(support, fewer, more, ra, rb);
    let n = ra.len();
    assert(a.active_validators =~= b.active_validators.take(n as int));
    if n > 0 {
        assert forall|i: int, j: int| 0 <= i < j < rb.len() implies (#[trigger] rb[i]).total >= (
        #[trigger] rb[j]).total by {
            ranking_lists_once(support, more, rb, i, j);
        }
        lemma_least_total(rb);
        lemma_least_total(ra);
        lemma_fewer_average_more(rb, n);
        assert(ra.last() == rb[n - 1]);
        let m = rb.len();
        let fewer_sum = sum_of_totals(ra);
        let more_sum = sum_of_totals(rb);
        assert(fewer_sum / n >= more_sum / m && fewer_sum / n <= fewer_sum && more_sum / m
            <= more_sum) by (nonlinear_arith)
            requires
                more_sum * n <= fewer_sum * m,
                n > 0,
                m > 0,
        ;
        assert(average_total(ra) >= average_total(rb));
    }
}

/// Two processings of one solution: both succeed on the same assignments, or both fail with the
/// same error. The number of seats and the self stakes do not decide that.
pub proof fn processings_agree<
    F: Fn(usize, &VoterPage, &Vec<AccountId>) -> PageConversion,
>(
    into_assignment: F,
    solution_pages: nat,
    target_snapshot: &Vec<AccountId>,
    voter_snapshot_pages: &Vec<VoterPage>,
    desired_a: nat,
    stakes_a: Option<Map<AccountId, u128>>,
    a: Result<PredictionResults, Error>,
    desired_b: nat,
    stakes_b: Option<Map<AccountId, u128>>,
    b: Result<PredictionResults, Error>,
)
    requires
        one_result(into_assignment, target_snapshot, voter_snapshot_pages),
        predicts(
            into_assignment,
            solution_pages,
            desired_a,
            target_snapshot,
            voter_snapshot_pages,
            stakes_a,
            a,
        ),
        predicts(
            into_assignment,
            solution_pages,
            desired_b,
            target_snapshot,
            voter_snapshot_pages,
            stakes_b,
            b,
        ),
    ensures
        a is Ok <==> b is Ok,
        a is Err ==> a->Err_0.text() == b->Err_0.text(),
        a is Ok ==> exists|assignments: Seq<AssignmentView>| #[trigger]
            is_prediction(
                assignments,
                page_views(voter_snapshot_pages@).flatten(),
                desired_a,
                stakes_a,
                a->Ok_0@,
            ) && is_prediction(
                assignments,
                page_views(voter_snapshot_pages@).flatten(),
                desired_b,
                stakes_b,
                b->Ok_0@,
            ),
{
    let voters = page_views(voter_snapshot_pages@).flatten();
    let of_a = choose|converted: Seq<PageConversion>|
        #![trigger collected(converted)]
        conversions_of(
            into_assignment,
            solution_pages,
            target_snapshot,
            voter_snapshot_pages,
            converted,
        ) && is_outcome(converted, voters, desired_a, stakes_a, a);
    let of_b = choose|converted: Seq<PageConversion>|
        #![trigger collected(converted)]
        conversions_of(
            into_assignment,
            solution_pages,
            target_snapshot,
            voter_snapshot_pages,
            converted,
        ) && is_outcome(converted, voters, desired_b, stakes_b, b);
    conversions_determined(
        into_assignment,
        solution_pages,
        target_snapshot,
        voter_snapshot_pages,
        of_a,
        of_b,
    );
}

/// The inputs determine the outcome of processing a solution.
pub proof fn processing_determined<
    F: Fn(usize, &VoterPage, &Vec<AccountId>) -> PageConversion,
>(
    into_assignment: F,
    solution_pages: nat,
    target_snapshot: &Vec<AccountId>,
    voter_snapshot_pages: &Vec<VoterPage>,
    desired: nat,
    self_stakes: Option<Map<AccountId, u128>>,
    a: Result<PredictionResults, Error>,
    b: Result<PredictionResults, Error>,
)
    requires
        one_result(into_assignment, target_snapshot, voter_snapshot_pages),
        predicts(
            into_assignment,
            solution_pages,
            desired,
            target_snapshot,
            voter_snapshot_pages,
            self_stakes,
            a,
        ),
        predicts(
            into_assignment,
            solution_pages,
            desired,
            target_snapshot,
            voter_snapshot_pages,
            self_stakes,
            b,
        ),
    ensures
        match (a, b) {
            (Ok(of_a), Ok(of_b)) => of_a@ == of_b@,
            (Err(of_a), Err(of_b)) => of_a.text() == of_b.text(),
            _ => false,
        },
{
    processings_agree(
        into_assignment,
        solution_pages,
        target_snapshot,
        voter_snapshot_pages,
        desired,
        self_stakes,
        a,
        desired,
        self_stakes,
        b,
    );
    if let (Ok(of_a), Ok(of_b)) = (a, b) {
        let voters = page_views(voter_snapshot_pages@).flatten();
        let assignments = choose|assignments: Seq<AssignmentView>| #[trigger]
            is_prediction(assignments, voters, desired, self_stakes, of_a@) && is_prediction(
                assignments,
                voters,
                desired,
                self_stakes,
                of_b@,
            );
        prediction_determined(assignments, voters, desired, self_stakes, of_a@, of_b@);
    }
}

/// A solution that is processed with other self stakes: the outcome is the same but for what is
/// reported as self stake.
pub proof fn processing_with_other_self_stakes<
    F: Fn(usize, &VoterPage, &Vec<AccountId>) -> PageConversion,
>(
    into_assignment: F,
    solution_pages: nat,
    target_snapshot: &Vec<AccountId>,
    voter_snapshot_pages: &Vec<VoterPage>,
    desired: nat,
    stakes_a: Option<Map<AccountId, u128>>,
    stakes_b: Option<Map<AccountId, u128>>,
    a: Result<PredictionResults, Error>,
    b: Result<PredictionResults, Error>,
)
    requires
        one_result(into_assignment, target_snapshot, voter_snapshot_pages),
        predicts(
            into_assignment,
            solution_pages,
            desired,
            target_snapshot,
            voter_snapshot_pages,
            stakes_a,
            a,
        ),
        predicts(
            into_assignment,
            solution_pages,
            desired,
            target_snapshot,
            voter_snapshot_pages,
            stakes_b,
            b,
        ),
    ensures
        match (a, b) {
            (Ok(of_a), Ok(of_b)) => same_but_self_stakes(of_a@, of_b@),
            (Err(of_a), Err(of_b)) => of_a.text() == of_b.text(),
            _ => false,
        },
{
    processings_agree(
        into_assignment,
        solution_pages,
        target_snapshot,
        voter_snapshot_pages,
        desired,
        stakes_a,
        a,
        desired,
        stakes_b,
        b,
    );
    if let (Ok(of_a), Ok(of_b)) = (a, b) {
        let voters = page_views(voter_snapshot_pages@).flatten();
        let assignments = choose|assignments: Seq<AssignmentView>| #[trigger]
            is_prediction(assignments, voters, desired, stakes_a, of_a@) && is_prediction(
                assignments,
                voters,
                desired,
                stakes_b,
                of_b@,
            );
        self_stakes_decide_nothing_else(
            assignments,
            voters,
            desired,
            stakes_a,
            stakes_b,
            of_a@,
            of_b@,
        );
    }
}

/// A solution that is processed with fewer seats: it fails with the same error, or the results
/// are those with more seats, cut short.
pub proof fn processing_with_fewer_seats<
    F: Fn(usize, &VoterPage, &Vec<AccountId>) -> PageConversion,
>(
    into_assignment: F,
    solution_pages: nat,
    target_snapshot: &Vec<AccountId>,
    voter_snapshot_pages: &Vec<VoterPage>,
    fewer: nat,
    more: nat,
    self_stakes: Option<Map<AccountId, u128>>,
    a: Result<PredictionResults, Error>,
    b: Result<PredictionResults, Error>,
)
    requires
        fewer <= more,
        one_result(into_assignment, target_snapshot, voter_snapshot_pages),
        predicts(
            into_assignment,
            solution_pages,
            fewer,
            target_snapshot,
            voter_snapshot_pages,
            self_stakes,
            a,
        ),
        predicts(
            into_assignment,
            solution_pages,
            more,
            target_snapshot,
            voter_snapshot_pages,
            self_stakes,
            b,
        ),
    ensures
        match (a, b) {
            (Ok(of_a), Ok(of_b)) => cut_short(of_a@, of_b@, fewer),
            (Err(of_a), Err(of_b)) => of_a.text() == of_b.text(),
            _ => false,
        },
{
    processings_agree(
        into_assignment,
        solution_pages,
        target_snapshot,
        voter_snapshot_pages,
        fewer,
        self_stakes,
        a,
        more,
        self_stakes,
        b,
    );
    if let (Ok(of_a), Ok(of_b)) = (a, b) {
        let voters = page_views(voter_snapshot_pages@).flatten();
        let assignments = choose|assignments: Seq<AssignmentView>| #[trigger]
            is_prediction(assignments, voters, fewer, self_stakes, of_a@) && is_prediction(
                assignments,
                voters,
                more,
                self_stakes,
                of_b@,
            );
        more_seats_extend_the_list(
            assignments,
            voters,
            fewer,
            more,
            self_stakes,
            of_a@,
            of_b@,
        );
    }
}

/// The assignments are the same but for the weights in their distributions.
pub open spec fn same_but_weights(a: Seq<AssignmentView>, b: Seq<AssignmentView>) -> bool {
    &&& a.len() == b.len()
    &&& forall|j: int|
        0 <= j < a.len() ==> (#[trigger] a[j]).who == b[j].who && a[j].distribution.map_values(
            |entry: (AccountId, u128)| entry.0,
        ) == b[j].distribution.map_values(|entry: (AccountId, u128)| entry.0)
}

proof fn lemma_edges_ignore_weights(
    a: Seq<AssignmentView>,
    b: Seq<AssignmentView>,
    stakes: Map<AccountId, u64>,
)
    requires
        same_but_weights(a, b),
    ensures
        all_edges(a, stakes) == all_edges(b, stakes),
    decreases a.len(),
{
    if a.len() > 0 {
        let last = a.len() - 1;
        let of_a = a[last].distribution;
        let of_b = b[last].distribution;
        let accounts = |entry: (AccountId, u128)| entry.0;
        assert forall|j: int| 0 <= j < a.drop_last().len() implies (
        #[trigger] a.drop_last()[j]).who == b.drop_last()[j].who
            && a.drop_last()[j].distribution.map_values(|entry: (AccountId, u128)| entry.0)
            == b.drop_last()[j].distribution.map_values(
            |entry: (AccountId, u128)| entry.0,
        ) by {
            assert(a[j].who == b[j].who);
        }
        lemma_edges_ignore_weights(a.drop_last(), b.drop_last(), stakes);
        assert(of_a.map_values(accounts) == of_b.map_values(accounts));
        assert(of_a.len() == of_a.map_values(accounts).len());
        assert(of_b.len() == of_b.map_values(accounts).len());
        assert forall|k: int| 0 <= k < of_a.len() implies of_a[k].0 == of_b[k].0 by {
            assert(of_a.map_values(accounts)[k] == of_b.map_values(accounts)[k]);
        }
        assert(edges_of(a.last(), stakes) =~= edges_of(b.last(), stakes));
    }
}

/// The weights decide nothing: stakes are split equally.
pub proof fn weights_decide_nothing(
    a: Seq<AssignmentView>,
    b: Seq<AssignmentView>,
    voters: Seq<VoterView>,
    desired: nat,
    self_stakes: Option<Map<AccountId, u128>>,
    results: PredictionResultsView,
)
    requires
        same_but_weights(a, b),
        is_prediction(a, voters, desired, self_stakes, results),
    ensures
        is_prediction(b, voters, desired, self_stakes, results),
{
    lemma_edges_ignore_weights(a, b, stakes_of(voters));
}

proof fn lemma_backers_are_voters(assignments: Seq<AssignmentView>, stakes: Map<AccountId, u64>)
    ensures
        forall|i: int|
            0 <= i < all_edges(assignments, stakes).len() ==> assignments.map_values(
                |a: AssignmentView| a.who,
            ).contains((#[trigger] all_edges(assignments, stakes)[i]).voter),
    decreases assignments.len(),
{
    if assignments.len() > 0 {
        let shorter = assignments.drop_last();
        let whos = assignments.map_values(|a: AssignmentView| a.who);
        let shorter_whos = shorter.map_values(|a: AssignmentView| a.who);
        lemma_backers_are_voters(shorter, stakes);
        let edges = all_edges(assignments, stakes);
        let before = all_edges(shorter, stakes);
        assert forall|i: int| 0 <= i < edges.len() implies whos.contains(
            (#[trigger] edges[i]).voter,
        ) by {
            if i < before.len() {
                assert(edges[i] == before[i]);
                let j = choose|j: int|
                    0 <= j < shorter_whos.len() && shorter_whos[j] == before[i].voter;
                assert(whos[j] == edges[i].voter);
            } else {
                assert(edges[i] == edges_of(assignments.last(), stakes)[i - before.len()]);
                assert(whos[whos.len() - 1] == edges[i].voter);
            }
        }
    }
}

/// A validator with support has at least one backer, and no more backers than there are
/// assignments.
pub proof fn supported_validators_have_backers(
    assignments: Seq<AssignmentView>,
    voters: Seq<VoterView>,
    validator: AccountId,
)
    requires
        support_of(all_edges(assignments, stakes_of(voters))).contains_key(validator),
    ensures
        ({
            let support = support_of(all_edges(assignments, stakes_of(voters)))[validator];
            support.backers.finite() && 1 <= support.backers.len() <= assignments.len()
        }),
{
    let stakes = stakes_of(voters);
    let edges = all_edges(assignments, stakes);
    let backing = backers(edges, validator);
    let whos = assignments.map_values(|a: AssignmentView| a.who);
    lemma_backers_are_voters(assignments, stakes);
    whos.lemma_cardinality_of_set();
    vstd::seq_lib::seq_to_set_is_finite(whos);
    assert(backing.subset_of(whos.to_set())) by {
        assert forall|voter: AccountId| backing.contains(voter) implies whos.to_set().contains(
            voter,
        ) by {
            let i = choose|i: int| leads_from_to(edges, i, voter, validator);
            assert(whos.contains(edges[i].voter));
        }
    }
    vstd::set_lib::lemma_len_subset(backing, whos.to_set());
    let i = choose|i: int| leads_to(edges, i, validator);
    assert(leads_from_to(edges, i, edges[i].voter, validator));
    assert(backing.contains(edges[i].voter));
    assert(backing.len() > 0) by {
        vstd::set::axiom_set_contains_len(backing, edges[i].voter);
    }
}

/// The support does not depend on the order in which two groups of edges come.
pub proof fn support_ignores_order(a: Seq<Edge>, b: Seq<Edge>)
    ensures
        support_of(a + b) == support_of(b + a),
{
    assert forall|v: AccountId| #[trigger]
        support_of(a + b).contains_key(v) == support_of(b + a).contains_key(v) by {
        lemma_leads_either_way(a, b, v);
        lemma_leads_either_way(b, a, v);
    }
    assert forall|v: AccountId| support_of(a + b).contains_key(v) implies #[trigger] support_of(
        a + b,
    )[v] == support_of(b + a)[v] by {
        lemma_total_for_add(a, b, v);
        lemma_total_for_add(b, a, v);
        lemma_backers_add(a, b, v);
        lemma_backers_add(b, a, v);
        assert(backers(a + b, v) =~= backers(b + a, v));
    }
    assert(support_of(a + b) =~= support_of(b + a));
}

proof fn lemma_all_edges_add(
    a: Seq<AssignmentView>,
    b: Seq<AssignmentView>,
    stakes: Map<AccountId, u64>,
)
    ensures
        all_edges(a + b, stakes) == all_edges(a, stakes) + all_edges(b, stakes),
    decreases b.len(),
{
    if b.len() == 0 {
        assert(a + b =~= a);
        assert(all_edges(a + b, stakes) =~= all_edges(a, stakes) + all_edges(b, stakes));
    } else {
        assert((a + b).drop_last() =~= a + b.drop_last());
        lemma_all_edges_add(a, b.drop_last(), stakes);
        assert(all_edges(a + b, stakes) =~= all_edges(a, stakes) + all_edges(b, stakes));
    }
}

/// The prediction does not depend on the order in which two groups of assignments come.
pub proof fn prediction_ignores_order(
    a: Seq<AssignmentView>,
    b: Seq<AssignmentView>,
    voters: Seq<VoterView>,
    desired: nat,
    self_stakes: Option<Map<AccountId, u128>>,
    results: PredictionResultsView,
)
    requires
        is_prediction(a + b, voters, desired, self_stakes, results),
    ensures
        is_prediction(b + a, voters, desired, self_stakes, results),
{
    let stakes = stakes_of(voters);
    lemma_all_edges_add(a, b, stakes);
    lemma_all_edges_add(b, a, stakes);
    support_ignores_order(all_edges(a, stakes), all_edges(b, stakes));
}

pub(crate) proof fn lemma_leads_either_way(a: Seq<Edge>, b: Seq<Edge>, v: AccountId)
    ensures
        support_of(a + b).contains_key(v) == (support_of(a).contains_key(v) || support_of(
            b,
        ).contains_key(v)),
{
    if exists|i: int| leads_to(a + b, i, v) {
        let i = choose|i: int| leads_to(a + b, i, v);
        if i < a.len() {
            assert(leads_to(a, i, v));
        } else {
            assert(leads_to(b, i - a.len(), v));
        }
    }
    if exists|i: int| leads_to(a, i, v) {
        let i = choose|i: int| leads_to(a, i, v);
        assert(leads_to(a + b, i, v));
    }
    if exists|i: int| leads_to(b, i, v) {
        let i = choose|i: int| leads_to(b, i, v);
        assert(leads_to(a + b, i + a.len(), v));
    }
}

pub(crate) proof fn lemma_total_for_add(a: Seq<Edge>, b: Seq<Edge>, v: AccountId)
    ensures
        total_for(a + b, v) == total_for(a, v) + total_for(b, v),
    decreases b.len(),
{
    if b.len() == 0 {
        assert(a + b =~= a);
    } else {
        assert((a + b).drop_last() =~= a + b.drop_last());
        lemma_total_for_add(a, b.drop_last(), v);
    }
}

pub(crate) proof fn lemma_backers_add(a: Seq<Edge>, b: Seq<Edge>, v: AccountId)
    ensures
        backers(a + b, v) == backers(a, v).union(backers(b, v)),
{
    assert forall|w: AccountId| #[trigger]
        backers(a + b, v).contains(w) == backers(a, v).union(backers(b, v)).contains(w) by {
        if exists|i: int| leads_from_to(a + b, i, w, v) {
            let i = choose|i: int| leads_from_to(a + b, i, w, v);
            if i < a.len() {
                assert(leads_from_to(a, i, w, v));
            } else {
                assert(leads_from_to(b, i - a.len(), w, v));
            }
        }
        if exists|i: int| leads_from_to(a, i, w, v) {
            let i = choose|i: int| leads_from_to(a, i, w, v);
            assert(leads_from_to(a + b, i, w, v));
        }
        if exists|i: int| leads_from_to(b, i, w, v) {
            let i = choose|i: int| leads_from_to(b, i, w, v);
            assert(leads_from_to(a + b, i + a.len(), w, v));
        }
    }
    assert(backers(a + b, v) =~= backers(a, v).union(backers(b, v)));
}

} // verus!
