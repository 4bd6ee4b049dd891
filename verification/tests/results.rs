use election_prediction::account::AccountId;
use election_prediction::account_map::AccountMap;
use election_prediction::assignments::{
    all_assignments, assignment_info, collect_assignments, target_at, voter_at, PageConversion,
};
use election_prediction::prediction::{
    get_chain_name, predict_with_custom_setup, predict_with_solution, prediction_at,
};
use election_prediction::ranking::{rank_validators, RankedValidator};
use election_prediction::results::{process_assignments, process_solution_results, report};
use election_prediction::tally::{tally_support, voter_stakes};
use election_prediction::types::{
    Assignment, ElectionStatistics, Error, PredictionResults, Voter, VoterPage,
};

fn account(n: u8) -> AccountId {
    AccountId([n; 32])
}

fn text(n: u8) -> String {
    let mut s = String::from("0x");
    for _ in 0..32 {
        s.push_str(&format!("{:02x}", n));
    }
    s
}

fn voter(n: u8, stake: u64) -> Voter {
    Voter { who: account(n), stake, targets: vec![] }
}

/// An assignment in which the weight of each target is ten times its number.
fn assign(n: u8, to: &[u8]) -> Assignment {
    Assignment {
        who: account(n),
        distribution: to.iter().map(|t| (account(*t), 10 * (*t as u128))).collect(),
    }
}

/// A solution page as the test writes it: voters with their targets, or the reason of a failure.
type Page = Result<Vec<(u8, Vec<u8>)>, &'static str>;

fn converter(
    pages: Vec<Page>,
) -> impl Fn(usize, &VoterPage, &Vec<AccountId>) -> PageConversion {
    move |i, _, _| match &pages[i] {
        Ok(votes) => Ok(votes.iter().map(|(who, to)| assign(*who, to)).collect()),
        Err(reason) => Err(reason.to_string()),
    }
}

fn process(
    solution: Vec<Page>,
    desired: u32,
    pages: &Vec<VoterPage>,
    self_stakes: Option<&AccountMap<u128>>,
) -> Result<PredictionResults, Error> {
    let n = solution.len();
    process_solution_results(converter(solution), n, desired, &vec![], pages, self_stakes)
}

fn message(e: Error) -> String {
    match e {
        Error::Other(s) => s,
    }
}

fn listing(results: &PredictionResults) -> Vec<(String, u128, u128, u32)> {
    results
        .active_validators
        .iter()
        .map(|v| (v.account.clone(), v.total_stake, v.self_stake, v.nominators_count))
        .collect()
}

#[test]
fn stake_is_split_equally_and_rounded_down() {
    let pages: Vec<VoterPage> = vec![vec![voter(1, 100)]];
    let converted: Vec<Page> = vec![Ok(vec![(1, vec![10, 11, 12])])];
    let results = process(converted, 5, &pages, None).unwrap();
    assert_eq!(
        listing(&results),
        vec![(text(10), 33, 0, 1), (text(11), 33, 0, 1), (text(12), 33, 0, 1)]
    );
    assert_eq!(
        results.statistics,
        ElectionStatistics { minimum_stake: 33, average_stake: 33, total_staked: 99 }
    );
}

#[test]
fn validators_are_ranked_by_total_and_truncated() {
    let pages: Vec<VoterPage> =
        vec![vec![voter(1, 100), voter(2, 60)], vec![voter(3, 7)], vec![]];
    let converted: Vec<Page> = vec![
        Ok(vec![(1, vec![10, 11]), (2, vec![11])]),
        Ok(vec![(3, vec![12])]),
        Ok(vec![]),
    ];
    let mut self_stakes: AccountMap<u128> = AccountMap::new();
    self_stakes.insert(account(11), 77);
    self_stakes.insert(account(99), 5);
    let results = process(converted, 2, &pages, Some(&self_stakes)).unwrap();
    assert_eq!(listing(&results), vec![(text(11), 110, 77, 2), (text(10), 50, 0, 1)]);
    assert_eq!(
        results.statistics,
        ElectionStatistics { minimum_stake: 50, average_stake: 80, total_staked: 160 }
    );
}

#[test]
fn equal_totals_go_by_account() {
    let pages: Vec<VoterPage> = vec![vec![voter(1, 10), voter(2, 10), voter(3, 10)]];
    let converted: Vec<Page> =
        vec![Ok(vec![(1, vec![30]), (2, vec![20]), (3, vec![25])])];
    let results = process(converted, 2, &pages, None).unwrap();
    assert_eq!(listing(&results), vec![(text(20), 10, 0, 1), (text(25), 10, 0, 1)]);
}

#[test]
fn unknown_voters_and_empty_distributions_do_not_count() {
    let pages: Vec<VoterPage> = vec![vec![voter(1, 10)]];
    let converted: Vec<Page> =
        vec![Ok(vec![(9, vec![30]), (1, vec![]), (1, vec![31])])];
    let results = process(converted, 9, &pages, None).unwrap();
    assert_eq!(listing(&results), vec![(text(31), 10, 0, 1)]);
}

#[test]
fn a_validator_with_nothing_but_empty_parts_is_still_supported() {
    let pages: Vec<VoterPage> = vec![vec![voter(1, 1)]];
    let converted: Vec<Page> = vec![Ok(vec![(1, vec![30, 31])])];
    let results = process(converted, 9, &pages, None).unwrap();
    assert_eq!(listing(&results), vec![(text(30), 0, 0, 1), (text(31), 0, 0, 1)]);
    assert_eq!(
        results.statistics,
        ElectionStatistics { minimum_stake: 0, average_stake: 0, total_staked: 0 }
    );
}

#[test]
fn the_last_stake_of_a_voter_counts() {
    let pages: Vec<VoterPage> = vec![vec![voter(1, 10), voter(1, 20)], vec![voter(1, 30)]];
    let stakes = voter_stakes(&pages);
    assert_eq!(stakes.len(), 1);
    assert_eq!(stakes.get(&account(1)), Some(&30));
    let converted: Vec<Page> = vec![Ok(vec![(1, vec![5])])];
    let results = process(converted, 1, &pages, None).unwrap();
    assert_eq!(listing(&results), vec![(text(5), 30, 0, 1)]);
}

#[test]
fn repeated_edges_add_up_but_count_one_nominator() {
    let pages: Vec<VoterPage> = vec![vec![voter(1, 9)], vec![voter(2, 1)]];
    let converted: Vec<Page> =
        vec![Ok(vec![(1, vec![5, 5, 6])]), Ok(vec![(1, vec![5]), (2, vec![5])])];
    let results = process(converted, 3, &pages, None).unwrap();
    assert_eq!(listing(&results), vec![(text(5), 16, 0, 2), (text(6), 3, 0, 1)]);
}

#[test]
fn no_seats_no_validators() {
    let pages: Vec<VoterPage> = vec![vec![voter(1, 9)]];
    let converted: Vec<Page> = vec![Ok(vec![(1, vec![5])])];
    let results = process(converted, 0, &pages, None).unwrap();
    assert!(results.active_validators.is_empty());
    assert_eq!(
        results.statistics,
        ElectionStatistics { minimum_stake: 0, average_stake: 0, total_staked: 0 }
    );
}

#[test]
fn the_largest_stakes_do_not_overflow() {
    let page: VoterPage = (0..200u8).map(|n| voter(n, u64::MAX)).collect();
    let pages = vec![page];
    let converted: Vec<Page> =
        vec![Ok((0..200u8).map(|n| (n, vec![255])).collect())];
    let results = process(converted, 1, &pages, None).unwrap();
    assert_eq!(listing(&results), vec![(text(255), 200 * (u64::MAX as u128), 0, 200)]);
}

#[test]
fn the_order_of_assignments_does_not_matter() {
    let pages: Vec<VoterPage> = vec![vec![voter(1, 9), voter(2, 5)]];
    let one: Vec<Page> = vec![Ok(vec![(1, vec![5, 6]), (2, vec![6])])];
    let other: Vec<Page> = vec![Ok(vec![(2, vec![6]), (1, vec![5, 6])])];
    let a = process(one, 2, &pages, None).unwrap();
    let b = process(other, 2, &pages, None).unwrap();
    assert_eq!(listing(&a), listing(&b));
    assert_eq!(listing(&a), vec![(text(6), 9, 0, 2), (text(5), 4, 0, 1)]);
}

#[test]
fn a_failed_conversion_fails_the_whole() {
    let pages: Vec<VoterPage> = vec![vec![voter(1, 9)], vec![], vec![]];
    let converted: Vec<Page> = vec![
        Ok(vec![(1, vec![5])]),
        Err("SolutionInvalidIndex"),
        Err("SolutionWeightOverflow"),
    ];
    let e = process(converted, 2, &pages, None).unwrap_err();
    assert_eq!(message(e), "Assignment error: SolutionInvalidIndex");
}

#[test]
fn pages_without_voters_page_are_passed_over() {
    let pages: Vec<VoterPage> = vec![vec![voter(1, 9)]];
    let converted: Vec<Page> = vec![
        Ok(vec![(1, vec![5]), (2, vec![6])]),
        Err("SolutionInvalidIndex"),
        Ok(vec![(3, vec![7])]),
    ];
    let n = converted.len();
    let assignments = all_assignments(converter(converted), n, &vec![], &pages).unwrap();
    assert_eq!(assignments.len(), 2);
    assert_eq!(assignments[0].who, account(1));
    assert_eq!(assignments[1].who, account(2));
    assert_eq!(assignments[1].distribution, vec![(account(6), 60)]);
}

#[test]
fn assignments_keep_the_order_of_pages() {
    let pages: Vec<VoterPage> = vec![vec![], vec![]];
    let converted: Vec<Page> =
        vec![Ok(vec![(2, vec![]), (1, vec![])]), Ok(vec![(3, vec![])])];
    let n = converted.len();
    let assignments = all_assignments(converter(converted), n, &vec![], &pages).unwrap();
    let order: Vec<AccountId> = assignments.iter().map(|a| a.who).collect();
    assert_eq!(order, vec![account(2), account(1), account(3)]);
}

#[test]
fn indices_are_resolved_on_the_snapshots() {
    let page: VoterPage = vec![voter(4, 1), voter(5, 1)];
    assert_eq!(voter_at(&page, 1), Some(account(5)));
    assert_eq!(voter_at(&page, 2), None);
    let targets = vec![account(8)];
    assert_eq!(target_at(&targets, 0), Some(account(8)));
    assert_eq!(target_at(&targets, 1), None);
}

#[test]
fn assignment_info_gives_account_and_count() {
    let (who, count) = assignment_info(&assign(0xab, &[1, 2, 3]));
    assert_eq!(who, text(0xab));
    assert_eq!(count, 3);
}

#[test]
fn support_is_tallied_per_validator() {
    let pages: Vec<VoterPage> = vec![vec![voter(1, 9), voter(2, 5)]];
    let stakes = voter_stakes(&pages);
    let support = tally_support(&vec![assign(1, &[5, 6]), assign(2, &[6])], &stakes);
    assert_eq!(support.len(), 2);
    let six = support.get(&account(6)).unwrap();
    assert_eq!(six.total, 9);
    assert_eq!(six.nominators.len(), 2);
    assert!(support.get(&account(7)).is_none());
    let ranking = rank_validators(&support, 1);
    assert_eq!(
        ranking,
        vec![RankedValidator { who: account(6), total: 9, nominators_count: 2 }]
    );
}

#[test]
fn every_seat_taken_loses_nothing_but_rounding() {
    let pages: Vec<VoterPage> = vec![vec![voter(1, 10), voter(2, 11)]];
    let converted: Vec<Page> =
        vec![Ok(vec![(1, vec![5, 6, 7]), (2, vec![6, 8])])];
    let results = process(converted, 100, &pages, None).unwrap();
    assert_eq!(results.statistics.total_staked, 3 * 3 + 2 * 5);
    assert_eq!(results.active_validators.len(), 4);
}

#[test]
fn report_of_a_ranking() {
    let ranking = vec![
        RankedValidator { who: account(1), total: 10, nominators_count: 4 },
        RankedValidator { who: account(2), total: 3, nominators_count: 1 },
    ];
    let results = report(&ranking, None);
    assert_eq!(listing(&results), vec![(text(1), 10, 0, 4), (text(2), 3, 0, 1)]);
    assert_eq!(
        results.statistics,
        ElectionStatistics { minimum_stake: 3, average_stake: 6, total_staked: 13 }
    );
}

/// The text is an instant of the last minute, in coordinated universal time.
fn assert_is_now(text: &str) {
    let stamp = chrono::DateTime::parse_from_rfc3339(text).unwrap();
    let age = chrono::Utc::now().timestamp() - stamp.timestamp();
    assert!((0..60).contains(&age));
    assert!(text.ends_with("+00:00"));
    let bytes = text.as_bytes();
    let t = text.find('T').unwrap();
    assert_eq!((bytes[t - 6], bytes[t - 3], bytes[t + 3], bytes[t + 6]), (b'-', b'-', b':', b':'));
    for i in t - 10..t + 9 {
        if ![t - 6, t - 3, t, t + 3, t + 6].contains(&i) {
            assert!(bytes[i].is_ascii_digit());
        }
    }
}

#[test]
fn prediction_carries_its_metadata() {
    let pages: Vec<VoterPage> = vec![vec![voter(1, 9)]];
    let converted: Vec<Page> = vec![Ok(vec![(1, vec![5])])];
    let self_stakes: AccountMap<u128> = AccountMap::new();
    let p = predict_with_solution(
        converter(converted),
        1,
        7,
        &vec![],
        &pages,
        &self_stakes,
        42,
        get_chain_name(),
    )
    .unwrap();
    assert_eq!(p.metadata.block_number, 42);
    assert_eq!(p.metadata.chain, "Westend Asset Hub");
    assert_eq!(p.metadata.desired_validators, 7);
    assert_is_now(&p.metadata.timestamp);
    assert_eq!(listing(&p.results), vec![(text(5), 9, 0, 1)]);

    let failed: Vec<Page> = vec![Err("DuplicateVoter")];
    let e = predict_with_solution(
        converter(failed),
        1,
        7,
        &vec![],
        &pages,
        &self_stakes,
        42,
        get_chain_name(),
    );
    assert_eq!(message(e.unwrap_err()), "Assignment error: DuplicateVoter");
}

#[test]
fn custom_setup_predicts_nothing_yet() {
    let p = predict_with_custom_setup("setup.json".to_string(), 3, 8, "chain".to_string());
    assert!(p.results.active_validators.is_empty());
    assert_eq!(
        p.results.statistics,
        ElectionStatistics { minimum_stake: 0, average_stake: 0, total_staked: 0 }
    );
    assert_eq!(p.metadata.block_number, 8);
    assert_eq!(p.metadata.desired_validators, 3);
    assert_eq!(p.metadata.chain, "chain");
    assert_is_now(&p.metadata.timestamp);
}

#[test]
fn a_prediction_is_put_together_from_its_parts() {
    let results = report(&vec![], None);
    let p = prediction_at("now".to_string(), 1, "c".to_string(), 2, results);
    assert_eq!(p.metadata.timestamp, "now");
    assert_eq!(p.metadata.block_number, 1);
    assert_eq!(p.metadata.chain, "c");
    assert_eq!(p.metadata.desired_validators, 2);
    assert!(p.results.active_validators.is_empty());
}

/// Converts a page of indices as a solution does: every index has to resolve.
fn resolve(
    votes: &Vec<(usize, Vec<usize>)>,
    voters: &VoterPage,
    targets: &Vec<AccountId>,
) -> PageConversion {
    let mut assignments = vec![];
    for (voter_index, target_indices) in votes {
        let who = voter_at(voters, *voter_index).ok_or("SolutionInvalidIndex")?;
        let mut distribution = vec![];
        for t in target_indices {
            distribution.push((target_at(targets, *t).ok_or("SolutionInvalidIndex")?, 1));
        }
        assignments.push(Assignment { who, distribution });
    }
    Ok(assignments)
}

#[test]
fn indices_of_a_page_resolve_on_its_own_voter_page() {
    let targets = vec![account(50), account(51)];
    let pages: Vec<VoterPage> = vec![vec![voter(1, 10)], vec![voter(2, 8), voter(3, 6)]];
    let solution = vec![vec![(0usize, vec![1usize])], vec![(1, vec![0, 1]), (0, vec![0])]];
    let results = process_solution_results(
        |i, voters: &VoterPage, targets: &Vec<AccountId>| resolve(&solution[i], voters, targets),
        2,
        9,
        &targets,
        &pages,
        None,
    )
    .unwrap();
    assert_eq!(listing(&results), vec![(text(51), 13, 0, 2), (text(50), 11, 0, 2)]);
}

#[test]
fn an_index_that_does_not_resolve_is_an_error() {
    let targets = vec![account(50)];
    let pages: Vec<VoterPage> = vec![vec![voter(1, 10)]];
    for votes in [vec![(1usize, vec![0usize])], vec![(0, vec![1])]] {
        let e = process_solution_results(
            |_, voters: &VoterPage, targets: &Vec<AccountId>| resolve(&votes, voters, targets),
            1,
            9,
            &targets,
            &pages,
            None,
        )
        .unwrap_err();
        assert_eq!(message(e), "Assignment error: SolutionInvalidIndex");
    }
}

#[test]
fn converted_pages_are_collected_up_to_the_first_failure() {
    let ok = collect_assignments(vec![Ok(vec![assign(1, &[2])]), Ok(vec![])]).unwrap();
    assert_eq!(ok.len(), 1);
    let e = collect_assignments(vec![Err("a".to_string()), Err("b".to_string())]).unwrap_err();
    assert_eq!(message(e), "Assignment error: a");
}

#[test]
fn assignments_are_processed_without_pages_of_a_solution() {
    let pages: Vec<VoterPage> = vec![vec![voter(1, 10)]];
    let results = process_assignments(&vec![assign(1, &[4])], 1, &pages, None);
    assert_eq!(listing(&results), vec![(text(4), 10, 0, 1)]);
}

#[test]
fn weights_are_kept_but_decide_nothing() {
    let weighted = |a: u128, b: u128| {
        vec![Assignment { who: account(1), distribution: vec![(account(4), a), (account(5), b)] }]
    };
    let kept = collect_assignments(vec![Ok(weighted(900, 100))]).unwrap();
    assert_eq!(kept[0].distribution, vec![(account(4), 900), (account(5), 100)]);
    let pages: Vec<VoterPage> = vec![vec![voter(1, 10)]];
    let one = process_assignments(&kept, 2, &pages, None);
    let other = process_assignments(&weighted(0, 1000), 2, &pages, None);
    assert_eq!(listing(&one), vec![(text(4), 5, 0, 1), (text(5), 5, 0, 1)]);
    assert_eq!(listing(&one), listing(&other));
    assert_eq!(one.statistics, other.statistics);
}

#[test]
fn self_stakes_change_only_what_is_reported_as_self_stake() {
    let pages: Vec<VoterPage> = vec![vec![voter(1, 30), voter(2, 7)]];
    let solution = || -> Vec<Page> { vec![Ok(vec![(1, vec![5, 6]), (2, vec![7])])] };
    let mut self_stakes: AccountMap<u128> = AccountMap::new();
    self_stakes.insert(account(5), 1000);
    self_stakes.insert(account(7), 1);
    let with = process(solution(), 3, &pages, Some(&self_stakes)).unwrap();
    let without = process(solution(), 3, &pages, None).unwrap();
    assert_eq!(
        listing(&with),
        vec![(text(5), 15, 1000, 1), (text(6), 15, 0, 1), (text(7), 7, 1, 1)]
    );
    assert_eq!(
        listing(&without),
        vec![(text(5), 15, 0, 1), (text(6), 15, 0, 1), (text(7), 7, 0, 1)]
    );
    assert_eq!(with.statistics, without.statistics);

    let failing = || -> Vec<Page> { vec![Err("SolutionInvalidIndex")] };
    let a = process(failing(), 3, &pages, Some(&self_stakes)).unwrap_err();
    let b = process(failing(), 3, &pages, None).unwrap_err();
    assert_eq!(message(a), message(b));
}

#[test]
fn fewer_seats_cut_the_list_short() {
    let pages: Vec<VoterPage> = vec![vec![voter(1, 30), voter(2, 7), voter(3, 20)]];
    let solution =
        || -> Vec<Page> { vec![Ok(vec![(1, vec![5]), (2, vec![7]), (3, vec![6])])] };
    let all = process(solution(), 9, &pages, None).unwrap();
    assert_eq!(
        all.statistics,
        ElectionStatistics { minimum_stake: 7, average_stake: 19, total_staked: 57 }
    );
    for seats in 0..9usize {
        let some = process(solution(), seats as u32, &pages, None).unwrap();
        let expected = seats.min(3);
        assert_eq!(listing(&some), listing(&all)[..expected].to_vec());
        assert!(some.statistics.total_staked <= all.statistics.total_staked);
        if seats > 0 {
            assert!(some.statistics.minimum_stake >= all.statistics.minimum_stake);
            assert!(some.statistics.average_stake >= all.statistics.average_stake);
        }
    }
    let two = process(solution(), 2, &pages, None).unwrap();
    assert_eq!(
        two.statistics,
        ElectionStatistics { minimum_stake: 20, average_stake: 25, total_staked: 50 }
    );
}

/// Who is assigned to whom, or the text of the error.
fn outcome(
    solution: Vec<Page>,
    pages: &Vec<VoterPage>,
) -> Result<Vec<(AccountId, Vec<(AccountId, u128)>)>, String> {
    let n = solution.len();
    all_assignments(converter(solution), n, &vec![], pages)
        .map(|assignments| assignments.into_iter().map(|a| (a.who, a.distribution)).collect())
        .map_err(message)
}

#[test]
fn pages_past_the_end_change_nothing() {
    let solution = || -> Vec<Page> { vec![Ok(vec![(1, vec![5])]), Ok(vec![(2, vec![6])])] };
    let two: Vec<VoterPage> = vec![vec![voter(1, 9)], vec![voter(2, 9)]];
    let four: Vec<VoterPage> =
        vec![vec![voter(1, 9)], vec![voter(2, 9)], vec![voter(3, 9)], vec![]];
    let expected = outcome(solution(), &two);
    assert_eq!(
        expected,
        Ok(vec![
            (account(1), vec![(account(5), 50)]),
            (account(2), vec![(account(6), 60)]),
        ])
    );
    assert_eq!(outcome(solution(), &four), expected);

    let mut longer = solution();
    longer.push(Err("SolutionInvalidIndex"));
    longer.push(Ok(vec![(3, vec![7])]));
    assert_eq!(outcome(longer, &two), expected);
}

#[test]
fn split_pages_are_collected_in_turn() {
    let first = || -> Vec<Page> { vec![Ok(vec![(1, vec![5])])] };
    let second = || -> Vec<Page> { vec![Ok(vec![(2, vec![6])]), Ok(vec![(3, vec![7])])] };
    let one: Vec<VoterPage> = vec![vec![]];
    let two: Vec<VoterPage> = vec![vec![], vec![]];
    let three: Vec<VoterPage> = vec![vec![], vec![], vec![]];
    let mut whole = first();
    whole.extend(second());
    let mut in_turn = outcome(first(), &one).unwrap();
    in_turn.extend(outcome(second(), &two).unwrap());
    assert_eq!(outcome(whole, &three), Ok(in_turn));

    let mut failing = first();
    failing.push(Err("SolutionInvalidIndex"));
    failing.push(Err("SolutionWeightOverflow"));
    let of_second =
        outcome(vec![Err("SolutionInvalidIndex"), Err("SolutionWeightOverflow")], &two);
    assert!(of_second.is_err());
    assert_eq!(outcome(failing, &three), of_second);

    assert_eq!(outcome(vec![], &three), Ok(vec![]));
}

#[test]
fn resolved_indices_report_targets_only() {
    let targets = vec![account(50), account(51), account(52), account(53)];
    let pages: Vec<VoterPage> =
        vec![vec![voter(1, 10), voter(2, 8)], vec![voter(3, 6), voter(1, 4)]];
    let solution = vec![
        vec![(0usize, vec![1usize, 2]), (1, vec![1])],
        vec![(0, vec![3]), (1, vec![1])],
    ];
    let convert = |i: usize, voters: &VoterPage, targets: &Vec<AccountId>| {
        resolve(&solution[i], voters, targets)
    };
    let assignments = all_assignments(convert, 2, &targets, &pages).unwrap();
    let snapshot_voters = [account(1), account(2), account(3)];
    for a in &assignments {
        assert!(snapshot_voters.contains(&a.who));
        assert!(a.distribution.iter().all(|(target, _)| targets.contains(target)));
    }

    let target_texts: Vec<String> = [50, 51, 52, 53].iter().map(|n| text(*n)).collect();
    for desired in 0..6u32 {
        let results =
            process_solution_results(convert, 2, desired, &targets, &pages, None).unwrap();
        assert_eq!(results.active_validators.len(), desired.min(3) as usize);
        assert!(results.active_validators.iter().all(|v| target_texts.contains(&v.account)));
    }
    let all = process_solution_results(convert, 2, 9, &targets, &pages, None).unwrap();
    assert_eq!(
        listing(&all),
        vec![(text(51), 14, 0, 2), (text(53), 6, 0, 1), (text(52), 2, 0, 1)]
    );
}
