use election_prediction::account::{subxt_account_from_key_bytes, AccountId};
use election_prediction::snapshot::{
    bound_voter, build_live_snapshot, build_target_snapshot, build_voter_pages,
    record_self_stake, SnapshotLimits, ValidatorRoster,
};
use election_prediction::account_map::AccountMap;
use election_prediction::types::{Error, Nominator, VoterPage};

fn account(n: u8) -> AccountId {
    AccountId([n; 32])
}

fn nominator(n: u8, stake: u128, targets: &[u8]) -> Nominator {
    Nominator { who: account(n), stake, targets: targets.iter().map(|t| account(*t)).collect() }
}

fn nominators(n: u8) -> Vec<Nominator> {
    (0..n).map(|i| nominator(i, i as u128 + 1, &[200])).collect()
}

fn layout(pages: &Vec<VoterPage>) -> Vec<Vec<u8>> {
    pages.iter().map(|p| p.iter().map(|v| v.who.0[0]).collect()).collect()
}

fn message(e: Error) -> String {
    match e {
        Error::Other(s) => s,
    }
}

#[test]
fn voters_fill_page_after_page() {
    let pages = build_voter_pages(nominators(5), 3, 2, 16);
    assert_eq!(layout(&pages), vec![vec![0, 1], vec![2, 3], vec![4]]);
    assert_eq!(pages[2][0].stake, 5);
    assert_eq!(pages[2][0].targets, vec![account(200)]);
}

#[test]
fn remaining_pages_are_empty() {
    let pages = build_voter_pages(nominators(2), 4, 2, 16);
    assert_eq!(layout(&pages), vec![vec![0, 1], vec![], vec![], vec![]]);
    let none = build_voter_pages(vec![], 2, 2, 16);
    assert_eq!(layout(&none), vec![Vec::<u8>::new(), vec![]]);
}

#[test]
fn voters_beyond_the_last_page_are_left_out() {
    let pages = build_voter_pages(nominators(7), 2, 3, 16);
    assert_eq!(layout(&pages), vec![vec![0, 1, 2], vec![3, 4, 5]]);
    let exact = build_voter_pages(nominators(6), 2, 3, 16);
    assert_eq!(layout(&exact), vec![vec![0, 1, 2], vec![3, 4, 5]]);
}

#[test]
fn pages_of_no_voters_stay_empty() {
    let pages = build_voter_pages(nominators(3), 2, 0, 16);
    assert_eq!(layout(&pages), vec![Vec::<u8>::new(), vec![]]);
}

#[test]
fn no_pages_wanted() {
    assert_eq!(layout(&build_voter_pages(nominators(2), 0, 2, 16)), Vec::<Vec<u8>>::new());
    assert_eq!(layout(&build_voter_pages(nominators(3), 0, 2, 16)), vec![vec![0, 1]]);
    assert_eq!(layout(&build_voter_pages(nominators(1), 0, 0, 16)), vec![Vec::<u8>::new()]);
    assert_eq!(layout(&build_voter_pages(vec![], 0, 0, 16)), Vec::<Vec<u8>>::new());
}

#[test]
fn targets_are_cut_to_the_limit() {
    let voter = bound_voter(nominator(1, 5, &[7, 8, 9]), 2);
    assert_eq!(voter.targets, vec![account(7), account(8)]);
    let all = bound_voter(nominator(1, 5, &[7, 8, 9]), 3);
    assert_eq!(all.targets.len(), 3);
    let none = bound_voter(nominator(1, 5, &[7, 8, 9]), 0);
    assert!(none.targets.is_empty());
}

#[test]
fn stakes_keep_their_low_64_bits() {
    assert_eq!(bound_voter(nominator(1, u64::MAX as u128, &[]), 1).stake, u64::MAX);
    assert_eq!(bound_voter(nominator(1, u64::MAX as u128 + 6, &[]), 1).stake, 5);
}

#[test]
fn target_snapshot_is_bounded() {
    let validators: Vec<AccountId> = (0..12).map(account).collect();
    assert_eq!(build_target_snapshot(validators.clone(), 12).unwrap(), validators);
    let e = build_target_snapshot(validators, 11).unwrap_err();
    assert_eq!(message(e), "Too many validators (12)");
}

#[test]
fn roster_records_self_stakes() {
    let mut roster = ValidatorRoster::new();
    roster.add(account(3), Some(30));
    roster.add(account(1), None);
    roster.add(account(3), Some(31));
    assert_eq!(roster.validators, vec![account(3), account(1), account(3)]);
    assert_eq!(roster.self_stakes.get(&account(3)), Some(&31));
    assert_eq!(roster.self_stakes.get(&account(1)), Some(&0));
    assert_eq!(roster.self_stakes.len(), 2);
}

#[test]
fn roster_of_a_list_of_keys() {
    let ledger = |who: AccountId| if who == account(2) { None } else { Some(10) };
    let mut roster = ValidatorRoster::new();
    for key in [vec![3; 32], vec![9; 31], vec![2; 40], vec![], vec![1; 33]] {
        if let Some(who) = subxt_account_from_key_bytes(&key) {
            roster.add(who, ledger(who));
        }
    }
    assert_eq!(roster.validators, vec![account(3), account(2), account(1)]);
    assert_eq!(roster.self_stakes.len(), 3);
    assert_eq!(roster.self_stakes.get(&account(3)), Some(&10));
    assert_eq!(roster.self_stakes.get(&account(2)), Some(&0));
    assert_eq!(roster.self_stakes.get(&account(1)), Some(&10));
}

#[test]
fn self_stakes_without_ledger_are_zero() {
    let mut stakes: AccountMap<u128> = AccountMap::new();
    record_self_stake(&mut stakes, account(1), Some(4));
    record_self_stake(&mut stakes, account(2), None);
    assert_eq!(stakes.get(&account(1)), Some(&4));
    assert_eq!(stakes.get(&account(2)), Some(&0));
}

#[test]
fn live_snapshot_from_roster_and_nominators() {
    let limits = SnapshotLimits {
        n_pages: 2,
        max_targets: 2,
        max_voters_per_page: 1,
        max_targets_per_voter: 1,
    };
    let mut roster = ValidatorRoster::new();
    roster.add(account(9), Some(1));
    let snapshot =
        build_live_snapshot(roster, vec![nominator(1, 5, &[9, 8])], limits).unwrap();
    assert_eq!(snapshot.target_snapshot, vec![account(9)]);
    assert_eq!(layout(&snapshot.voter_pages), vec![vec![1], vec![]]);
    assert_eq!(snapshot.voter_pages[0][0].targets, vec![account(9)]);
    assert_eq!(snapshot.self_stakes.get(&account(9)), Some(&1));

    let mut roster = ValidatorRoster::new();
    roster.add(account(1), None);
    roster.add(account(2), None);
    roster.add(account(3), None);
    let e = build_live_snapshot(roster, vec![], limits).unwrap_err();
    assert_eq!(message(e), "Too many validators (3)");
}
