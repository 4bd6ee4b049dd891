//! Snapshots built from live staking data: the validators, and the voters in bounded pages.

use crate::account::account_of_key;
use crate::account::account_read_from_key;
use crate::account::AccountId;
use crate::account_map::AccountMap;
use crate::nominators::lookup;
use crate::text::decimal;
use crate::text::decimal_text;
use crate::types::nominator_views;
use crate::types::page_views;
use crate::types::voter_views;
use crate::types::Error;
use crate::types::Nominator;
use crate::types::NominatorView;
use crate::types::Voter;
use crate::types::VoterPage;
use crate::types::VoterView;
use vstd::prelude::*;

verus! {

/// The self stake that a ledger reply stands for: its total, or zero where there is no ledger.
pub open spec fn ledger_stake(ledger_total: Option<u128>) -> u128 {
    match ledger_total {
        Some(total) => total,
        None => 0,
    }
}

/// Records the self stake of a validator from the total of its ledger, zero where it has none.
pub fn record_self_stake(
    self_stakes: &mut AccountMap<u128>,
    validator: AccountId,
    ledger_total: Option<u128>,
)
    ensures
        final(self_stakes)@ == old(self_stakes)@.insert(validator, ledger_stake(ledger_total)),
        final(self_stakes)@.contains_key(validator),
        ledger_total matches Some(total) ==> final(self_stakes)@[validator] == total,
        ledger_total is None ==> final(self_stakes)@[validator] == 0,
        final(self_stakes)@.remove(validator) == old(self_stakes)@.remove(validator),
{
    let stake: u128 = match ledger_total {
        Some(total) => total,
        None => 0,
    };
    self_stakes.insert(validator, stake);
    assert(self_stakes@.remove(validator) =~= old(self_stakes)@.remove(validator));
}

/// The self stakes recorded for targets, one after the other, given the ledgers of the staking
/// state.
pub open spec fn self_stakes_of_targets(
    targets: Seq<AccountId>,
    ledgers: Map<AccountId, u128>,
) -> Map<AccountId, u128>
    decreases targets.len(),
{
    if targets.len() == 0 {
        Map::empty()
    } else {
        self_stakes_of_targets(targets.drop_last(), ledgers).insert(
            targets.last(),
            ledger_stake(lookup(ledgers, targets.last())),
        )
    }
}

/// Every target, and no other account, gets as self stake the total of its ledger, or zero where
/// it has none.
pub proof fn every_target_has_its_self_stake(
    targets: Seq<AccountId>,
    ledgers: Map<AccountId, u128>,
)
    ensures
        self_stakes_of_targets(targets, ledgers).dom() == targets.to_set(),
        forall|account: AccountId| #[trigger]
            self_stakes_of_targets(targets, ledgers).contains_key(account)
                ==> self_stakes_of_targets(targets, ledgers)[account] == ledger_stake(
                lookup(ledgers, account),
            ),
        forall|account: AccountId|
            targets.contains(account) && ledgers.contains_key(account)
                ==> self_stakes_of_targets(targets, ledgers)[account] == ledgers[account],
        forall|account: AccountId|
            targets.contains(account) && !ledgers.contains_key(account)
                ==> self_stakes_of_targets(targets, ledgers)[account] == 0,
    decreases targets.len(),
{
    let stakes = self_stakes_of_targets(targets, ledgers);
    if targets.len() == 0 {
        assert(stakes.dom() =~= targets.to_set());
    } else {
        let shorter = targets.drop_last();
        every_target_has_its_self_stake(shorter, ledgers);
        shorter.lemma_push_to_set_commute(targets.last());
        assert(targets =~= shorter.push(targets.last()));
        assert(stakes.dom() =~= self_stakes_of_targets(shorter, ledgers).dom().insert(
            targets.last(),
        ));
    }
    assert forall|account: AccountId| targets.contains(account) implies stakes.contains_key(
        account,
    ) by {
        assert(targets.to_set().contains(account));
    }
}

/// The validators collected so far, in the order in which they came, with their self stakes.
#[derive(Debug)]
pub struct ValidatorRoster {
    pub validators: Vec<AccountId>,
    pub self_stakes: AccountMap<u128>,
}

/// A roster with its validators as a sequence and its self stakes as a map.
#[verifier::ext_equal]
pub struct RosterView {
    pub validators: Seq<AccountId>,
    pub self_stakes: Map<AccountId, u128>,
}

impl View for ValidatorRoster {
    type V = RosterView;

    open spec fn view(&self) -> RosterView {
        RosterView { validators: self.validators@, self_stakes: self.self_stakes@ }
    }
}

/// The empty roster.
pub open spec fn empty_roster() -> RosterView {
    RosterView { validators: Seq::empty(), self_stakes: Map::empty() }
}

impl RosterView {
    /// A self stake is recorded for exactly the validators of the list.
    pub open spec fn well_formed(self) -> bool {
        self.self_stakes.dom() == self.validators.to_set()
    }

    /// The roster with one more validator and the total of its ledger.
    pub open spec fn with(self, validator: AccountId, ledger_total: Option<u128>) -> RosterView {
        RosterView {
            validators: self.validators.push(validator),
            self_stakes: self.self_stakes.insert(validator, ledger_stake(ledger_total)),
        }
    }
}

/// The roster that the keys lead to, given the ledgers of the staking state: for each key that
/// ends in an account, that account is added with the total of its ledger.
pub open spec fn roster_of_keys(
    keys: Seq<Seq<u8>>,
    ledgers: Map<AccountId, u128>,
) -> RosterView
    decreases keys.len(),
{
    if keys.len() == 0 {
        empty_roster()
    } else {
        let before = roster_of_keys(keys.drop_last(), ledgers);
        match account_of_key(keys.last()) {
            Some(account) => before.with(account, lookup(ledgers, account)),
            None => before,
        }
    }
}

/// The accounts of the keys of 32 bytes or more, in their order.
pub open spec fn accounts_of_keys(keys: Seq<Seq<u8>>) -> Seq<AccountId>
    decreases keys.len(),
{
    if keys.len() == 0 {
        Seq::empty()
    } else {
        let before = accounts_of_keys(keys.drop_last());
        match account_of_key(keys.last()) {
            Some(account) => before.push(account),
            None => before,
        }
    }
}

/// The roster grows key by key: a key that ends in an account adds that account with the total
/// of its ledger, and a shorter key adds nothing.
pub proof fn roster_grows_key_by_key(
    keys: Seq<Seq<u8>>,
    key: Seq<u8>,
    ledgers: Map<AccountId, u128>,
)
    ensures
        key.len() < 32 ==> roster_of_keys(keys.push(key), ledgers) == roster_of_keys(
            keys,
            ledgers,
        ),
        account_of_key(key) matches Some(account) ==> roster_of_keys(keys.push(key), ledgers)
            == roster_of_keys(keys, ledgers).with(account, lookup(ledgers, account)),
{
    assert(keys.push(key).drop_last() =~= keys);
}

/// No keys lead to an empty roster. One more key that ends in an account puts that account behind
/// the validators before it and records its ledger total, or zero where it has no ledger; a key
/// of less than 32 bytes changes nothing.
pub proof fn roster_by_bytes(
    keys: Seq<Seq<u8>>,
    prefix: Seq<u8>,
    account: AccountId,
    short: Seq<u8>,
    ledgers: Map<AccountId, u128>,
)
    requires
        short.len() < 32,
    ensures
        roster_of_keys(Seq::empty(), ledgers).validators.len() == 0,
        roster_of_keys(Seq::empty(), ledgers).self_stakes == Map::<AccountId, u128>::empty(),
        roster_of_keys(keys.push(short), ledgers) == roster_of_keys(keys, ledgers),
        ({
            let before = roster_of_keys(keys, ledgers);
            let after = roster_of_keys(keys.push(prefix + account.0@), ledgers);
            &&& after.validators == before.validators.push(account)
            &&& ledgers.contains_key(account) ==> after.self_stakes == before.self_stakes.insert(
                account,
                ledgers[account],
            )
            &&& !ledgers.contains_key(account) ==> after.self_stakes
                == before.self_stakes.insert(account, 0)
        }),
        accounts_of_keys(Seq::empty()).len() == 0,
        accounts_of_keys(keys.push(short)) == accounts_of_keys(keys),
        accounts_of_keys(keys.push(prefix + account.0@)) == accounts_of_keys(keys).push(account),
{
    account_read_from_key(prefix, account);
    assert(keys.push(prefix + account.0@).drop_last() =~= keys);
    assert(keys.push(short).drop_last() =~= keys);
}

/// The roster that the keys lead to lists the accounts of the keys, in their order, and records
/// for each of them, and for no other, the total of its ledger, or zero where it has none.
pub proof fn roster_holds_the_keys(keys: Seq<Seq<u8>>, ledgers: Map<AccountId, u128>)
    ensures
        ({
            let roster = roster_of_keys(keys, ledgers);
            &&& roster.well_formed()
            &&& roster.validators == accounts_of_keys(keys)
            &&& forall|account: AccountId| #[trigger]
                roster.self_stakes.contains_key(account) ==> roster.self_stakes[account]
                    == ledger_stake(lookup(ledgers, account))
            &&& forall|account: AccountId|
                roster.self_stakes.contains_key(account) && ledgers.contains_key(account)
                    ==> roster.self_stakes[account] == ledgers[account]
            &&& forall|account: AccountId|
                roster.self_stakes.contains_key(account) && !ledgers.contains_key(account)
                    ==> roster.self_stakes[account] == 0
        }),
    decreases keys.len(),
{
    let roster = roster_of_keys(keys, ledgers);
    if keys.len() == 0 {
        assert(roster.self_stakes.dom() =~= roster.validators.to_set());
    } else {
        let shorter = keys.drop_last();
        let before = roster_of_keys(shorter, ledgers);
        roster_holds_the_keys(shorter, ledgers);
        if let Some(account) = account_of_key(keys.last()) {
            before.validators.lemma_push_to_set_commute(account);
            assert(roster.self_stakes.dom() =~= before.self_stakes.dom().insert(account));
        }
    }
}

impl ValidatorRoster {
    /// A self stake is recorded for exactly the validators of the list.
    pub open spec fn well_formed(self) -> bool {
        self@.well_formed()
    }

    /// The empty roster.
    pub fn new() -> (roster: Self)
        ensures
            roster@ == empty_roster(),
            roster.validators@.len() == 0,
            roster.self_stakes@.dom() == Set::<AccountId>::empty(),
            roster.well_formed(),
    {
        let roster = ValidatorRoster { validators: Vec::new(), self_stakes: AccountMap::new() };
        assert(roster.self_stakes@.dom() =~= roster.validators@.to_set());
        assert(roster.self_stakes@.dom() =~= Set::<AccountId>::empty());
        roster
    }

    /// Adds a validator with the total of its ledger.
    pub fn add(&mut self, validator: AccountId, ledger_total: Option<u128>)
        ensures
            final(self)@ == old(self)@.with(validator, ledger_total),
            final(self).validators@ == old(self).validators@.push(validator),
            ledger_total matches Some(total) ==> final(self).self_stakes@ == old(
                self,
            ).self_stakes@.insert(validator, total),
            ledger_total is None ==> final(self).self_stakes@ == old(self).self_stakes@.insert(
                validator,
                0,
            ),
            old(self).well_formed() ==> final(self).well_formed(),
    {
        self.validators.push(validator);
        record_self_stake(&mut self.self_stakes, validator, ledger_total);
        proof {
            old(self).validators@.lemma_push_to_set_commute(validator);
            assert(self.self_stakes@.dom() =~= old(self).self_stakes@.dom().insert(validator));
        }
    }
}

/// The text of the error for a roster that does not fit a target page.
pub open spec fn too_many_validators_text(n: nat) -> Seq<char> {
    "Too many validators ("@ + decimal_text(n) + ")"@
}

/// The target snapshot: the validators as they are, where they fit the bound of a target page.
pub fn build_target_snapshot(validators: Vec<AccountId>, max_targets: u32) -> (r: Result<
    Vec<AccountId>,
    Error,
>)
    ensures
        validators@.len() <= max_targets ==> (r matches Ok(targets) && targets@ == validators@),
        validators@.len() > max_targets ==> (r matches Err(e) && e.text()
            == too_many_validators_text(validators@.len())),
        r matches Err(e) ==> e.text() == "Too many validators ("@ + decimal_text(
            validators@.len(),
        ) + ")"@,
{
    if validators.len() <= max_targets as usize {
        Ok(validators)
    } else {
        let mut text: String = "Too many validators (".to_owned();
        text.append(decimal(validators.len()).as_str());
        text.append(")");
        Err(Error::Other(text))
    }
}

/// A nominator as a voter of the snapshot: at most `max_targets` of its targets, the first ones,
/// and the low 64 bits of its stake.
pub open spec fn snapshot_voter(nominator: NominatorView, max_targets: nat) -> VoterView {
    VoterView {
        who: nominator.who,
        stake: (nominator.stake % 0x1_0000_0000_0000_0000) as u64,
        targets: if nominator.targets.len() <= max_targets {
            nominator.targets
        } else {
            nominator.targets.take(max_targets as int)
        },
    }
}

/// The nominators as voters of the snapshot, one by one.
pub open spec fn snapshot_voters(
    nominators: Seq<NominatorView>,
    max_targets: nat,
) -> Seq<VoterView> {
    nominators.map_values(|nominator: NominatorView| snapshot_voter(nominator, max_targets))
}

/// Where page `i` of pages of `size` begins in a list of `n` voters: at the end of the list,
/// where the pages before it hold all of them.
pub open spec fn page_start(i: nat, size: nat, n: nat) -> nat {
    if i * size <= n {
        i * size
    } else {
        n
    }
}

/// The voters of page `i`.
pub open spec fn page_of(voters: Seq<VoterView>, i: nat, size: nat) -> Seq<VoterView> {
    voters.subrange(
        page_start(i, size, voters.len()) as int,
        page_start(i + 1, size, voters.len()) as int,
    )
}

/// How many pages there are: the wanted number. Where none is wanted, a first page is made all
/// the same if the voters do not fit on it.
pub open spec fn page_count(n_voters: nat, n_pages: nat, size: nat) -> nat {
    if n_pages > 0 {
        n_pages
    } else if n_voters > size {
        1
    } else {
        0
    }
}

/// The pages of the voter snapshot.
pub open spec fn voter_pages_of(
    voters: Seq<VoterView>,
    n_pages: nat,
    size: nat,
) -> Seq<Seq<VoterView>> {
    Seq::new(
        page_count(voters.len(), n_pages, size),
        |i: int| page_of(voters, i as nat, size),
    )
}

/// Turns a nominator into a voter of the snapshot.
pub fn bound_voter(nominator: Nominator, max_targets_per_voter: u32) -> (voter: Voter)
    ensures
        voter@ == snapshot_voter(nominator@, max_targets_per_voter as nat),
        voter.who == nominator.who,
        nominator.stake <= u64::MAX ==> voter.stake == nominator.stake,
        voter.stake == nominator.stake % 0x1_0000_0000_0000_0000,
        nominator.targets@.len() <= max_targets_per_voter ==> voter.targets@
            == nominator.targets@,
        nominator.targets@.len() > max_targets_per_voter ==> voter.targets@
            == nominator.targets@.take(max_targets_per_voter as int),
{
    let stake: u128 = nominator.stake;
    assert((stake as u64) as u128 == stake % 0x1_0000_0000_0000_0000u128) by (bit_vector);
    let mut targets: Vec<AccountId> = nominator.targets;
    targets.truncate(max_targets_per_voter as usize);
    #[verifier::truncate]
    let low: u64 = stake as u64;
    let voter = Voter { who: nominator.who, stake: low, targets };
    assert(voter@.targets =~= snapshot_voter(nominator@, max_targets_per_voter as nat).targets);
    voter
}

/// Distributes the voters over pages, page after page, with at most `max_voters_per_page` on
/// each. Voters that do not fit on `n_pages` pages are left out, and pages that get none are
/// empty.
pub fn build_voter_pages(
    voters: Vec<Nominator>,
    n_pages: u32,
    max_voters_per_page: u32,
    max_targets_per_voter: u32,
) -> (pages: Vec<VoterPage>)
    ensures
        page_views(pages@) == voter_pages_of(
            snapshot_voters(nominator_views(voters@), max_targets_per_voter as nat),
            n_pages as nat,
            max_voters_per_page as nat,
        ),
        n_pages > 0 ==> pages@.len() == n_pages,
        forall|p: int, k: int|
            0 <= p < pages@.len() && 0 <= k < pages@[p]@.len() ==> (
            #[trigger] pages@[p]@[k]).who == voters@[p * max_voters_per_page + k].who,
        forall|p: int, k: int|
            0 <= p < pages@.len() && 0 <= k < pages@[p]@.len() && voters@[p * max_voters_per_page
                + k].stake <= u64::MAX ==> (#[trigger] pages@[p]@[k]).stake == voters@[p
                * max_voters_per_page + k].stake,
        forall|p: int, k: int|
            0 <= p < pages@.len() && 0 <= k < pages@[p]@.len() ==> (
            #[trigger] pages@[p]@[k]).targets@ == voters@[p * max_voters_per_page
                + k].targets@.take(
                if voters@[p * max_voters_per_page + k].targets@.len()
                    <= max_targets_per_voter {
                    voters@[p * max_voters_per_page + k].targets@.len() as int
                } else {
                    max_targets_per_voter as int
                },
            ),
{
    let size: usize = max_voters_per_page as usize;
    let wanted: usize = n_pages as usize;
    let ghost all = snapshot_voters(nominator_views(voters@), max_targets_per_voter as nat);
    let ghost given = voters@;
    let n: usize = voters.len();
    let mut remaining: Vec<Nominator> = voters;
    let mut pages: Vec<VoterPage> = Vec::new();
    let mut current: VoterPage = Vec::new();
    let mut full: bool = false;
    let mut i: usize = 0;
    assert(voter_views(current@) =~= all.subrange(0, 0));
    while i < n && !full
        invariant
            i <= n,
            n == given.len(),
            remaining@.len() == n,
            size == max_voters_per_page,
            wanted == n_pages,
            all == snapshot_voters(nominator_views(given), max_targets_per_voter as nat),
            forall|j: int| i <= j < n ==> remaining@[j] == #[trigger] given[j],
            forall|k: int|
                0 <= k < pages@.len() ==> voter_views((#[trigger] pages@[k])@) == page_of(
                    all,
                    k as nat,
                    size as nat,
                ),
            pages@.len() * size <= i,
            !full ==> (pages@.len() < wanted || pages@.len() == 0),
            !full ==> voter_views(current@) == all.subrange(
                pages@.len() * size,
                i as int,
            ),
            !full && size > 0 ==> current@.len() <= size,
            !full && size == 0 && i > 0 ==> pages@.len() == 1,
            !full && size == 0 && i == 0 ==> pages@.len() == 0,
            full ==> pages@.len() >= wanted && pages@.len() == page_count(
                n as nat,
                n_pages as nat,
                size as nat,
            ),
        decreases
            n - i,
            (if full {
                0int
            } else {
                1int
            }),
    {
        if current.len() == size {
            let ghost at = pages@.len();
            let mut page: VoterPage = Vec::new();
            std::mem::swap(&mut page, &mut current);
            proof {
                assert(voter_views(page@).len() == page@.len());
                assert((at + 1) * size == at * size + size) by (nonlinear_arith);
                assert(at * size + size == i);
                assert(page_of(all, at, size as nat) == all.subrange(at * size, i as int));
            }
            pages.push(page);
            assert(voter_views(current@) =~= all.subrange(i as int, i as int));
            if pages.len() >= wanted {
                full = true;
            }
        }
        if !full {
            let mut nominator = Nominator { who: remaining[i].who, stake: 0, targets: Vec::new() };
            std::mem::swap(&mut nominator, &mut remaining[i]);
            let voter = bound_voter(nominator, max_targets_per_voter);
            let ghost before = current@;
            assert(voter@ == all[i as int]);
            current.push(voter);
            proof {
                assert(voter_views(current@) =~= voter_views(before).push(voter@));
                assert(voter_views(current@) =~= all.subrange(pages@.len() * size, i + 1));
            }
            i = i + 1;
        }
    }
    if !full && current.len() > 0 && pages.len() < wanted && current.len() <= size {
        proof {
            let at = pages@.len();
            assert(voter_views(current@).len() == current@.len());
            assert((at + 1) * size == at * size + size) by (nonlinear_arith);
            assert(page_of(all, at, size as nat) == all.subrange(at * size, n as int));
        }
        pages.push(current);
    }
    while pages.len() < wanted
        invariant
            wanted == n_pages,
            size == max_voters_per_page,
            forall|k: int|
                0 <= k < pages@.len() ==> voter_views((#[trigger] pages@[k])@) == page_of(
                    all,
                    k as nat,
                    size as nat,
                ),
            pages@.len() <= page_count(n as nat, n_pages as nat, size as nat),
            wanted == 0 ==> pages@.len() == page_count(n as nat, n_pages as nat, size as nat),
            pages@.len() < wanted ==> pages@.len() * size >= n || size == 0,
            all.len() == n,
        decreases wanted - pages@.len(),
    {
        let empty: VoterPage = Vec::new();
        proof {
            let at = pages@.len();
            assert((at + 1) * size == at * size + size) by (nonlinear_arith);
            assert(at * 0 == 0 && (at + 1) * 0 == 0);
            assert(voter_views(empty@) =~= page_of(all, at, size as nat));
        }
        pages.push(empty);
    }
    proof {
        let expected = voter_pages_of(all, n_pages as nat, size as nat);
        assert forall|k: int| 0 <= k < pages@.len() implies page_views(pages@)[k]
            == expected[k] by {
            assert(voter_views(pages@[k]@) == page_of(all, k as nat, size as nat));
        }
    }
    assert(page_views(pages@) =~= voter_pages_of(all, n_pages as nat, size as nat));
    proof {
        lemma_voters_by_position(
            given,
            pages@,
            n_pages as nat,
            max_voters_per_page,
            max_targets_per_voter,
        );
    }
    assert(page_views(pages@).len() == pages@.len());
    pages
}

/// The bounds of the snapshots of an election.
#[derive(Debug, Clone, Copy, PartialEq, Eq, Structural)]
pub struct SnapshotLimits {
    /// Pages of the voter snapshot.
    pub n_pages: u32,
    /// Validators of the target snapshot.
    pub max_targets: u32,
    /// Voters of a page.
    pub max_voters_per_page: u32,
    /// Targets of a voter.
    pub max_targets_per_voter: u32,
}

/// Snapshots that stand for the live staking data.
#[derive(Debug)]
pub struct LiveSnapshot {
    pub target_snapshot: Vec<AccountId>,
    pub voter_pages: Vec<VoterPage>,
    pub self_stakes: AccountMap<u128>,
}

/// Simulates the snapshots from live staking data: the validators of the roster are the targets,
/// and the nominators are distributed over the voter pages. It fails where there are more
/// validators than targets may be.
pub fn build_live_snapshot(
    roster: ValidatorRoster,
    voters: Vec<Nominator>,
    limits: SnapshotLimits,
) -> (r: Result<LiveSnapshot, Error>)
    ensures
        roster.validators@.len() <= limits.max_targets ==> {
            &&& r matches Ok(snapshot)
            &&& snapshot.target_snapshot@ == roster.validators@
            &&& snapshot.self_stakes@ == roster.self_stakes@
            &&& snapshot.target_snapshot@.len() <= limits.max_targets
            &&& limits.n_pages > 0 ==> snapshot.voter_pages@.len() == limits.n_pages
            &&& page_views(snapshot.voter_pages@) == voter_pages_of(
                snapshot_voters(nominator_views(voters@), limits.max_targets_per_voter as nat),
                limits.n_pages as nat,
                limits.max_voters_per_page as nat,
            )
        },
        roster.validators@.len() > limits.max_targets ==> (r matches Err(e) && e.text()
            == too_many_validators_text(roster.validators@.len())),
{
    match build_target_snapshot(roster.validators, limits.max_targets) {
        Ok(target_snapshot) => {
            let voter_pages = build_voter_pages(
                voters,
                limits.n_pages,
                limits.max_voters_per_page,
                limits.max_targets_per_voter,
            );
            Ok(
                LiveSnapshot {
                    target_snapshot,
                    voter_pages,
                    self_stakes: roster.self_stakes,
                },
            )
        },
        Err(e) => Err(e),
    }
}

/// No page holds more voters than it may, and no voter more targets.
pub proof fn pages_within_bounds(
    nominators: Seq<NominatorView>,
    n_pages: nat,
    size: nat,
    max_targets: nat,
    page: int,
    voter: int,
)
    requires
        0 <= page < voter_pages_of(snapshot_voters(nominators, max_targets), n_pages, size).len(),
    ensures
        ({
            let pages = voter_pages_of(snapshot_voters(nominators, max_targets), n_pages, size);
            &&& pages[page].len() <= size
            &&& 0 <= voter < pages[page].len() ==> pages[page][voter].targets.len()
                <= max_targets
        }),
{
    assert((page + 1) * size == page * size + size) by (nonlinear_arith);
}

/// A voter of the snapshot is its nominator: the same account, the same stake wherever that fits
/// 64 bits, and the first of its targets, as many as may be. The stake does not depend on the
/// targets, nor the targets on the stake.
pub proof fn snapshot_voter_is_its_nominator(nominator: NominatorView, max_targets: nat, k: int)
    ensures
        ({
            let voter = snapshot_voter(nominator, max_targets);
            &&& voter.who == nominator.who
            &&& nominator.stake <= u64::MAX ==> voter.stake == nominator.stake
            &&& voter.stake == nominator.stake % 0x1_0000_0000_0000_0000
            &&& voter.targets.len() <= max_targets
            &&& voter.targets.len() < max_targets ==> voter.targets.len()
                == nominator.targets.len()
            &&& voter.targets.len() <= nominator.targets.len()
            &&& voter.targets.len() == max_targets || voter.targets.len()
                == nominator.targets.len()
            &&& 0 <= k < voter.targets.len() ==> voter.targets[k] == nominator.targets[k]
        }),
{
    assert(nominator.stake % 0x1_0000_0000_0000_0000 <= u64::MAX);
}

/// Nominator `p * size + k` is voter `k` of page `p`, with its account, its stake wherever that
/// fits 64 bits, and its first targets. Every page is full as long as there are nominators left,
/// and there are as many pages as are wanted.
pub proof fn every_nominator_has_its_place(
    nominators: Seq<NominatorView>,
    n_pages: nat,
    size: nat,
    max_targets: nat,
    p: int,
    k: int,
)
    ensures
        ({
            let pages = voter_pages_of(snapshot_voters(nominators, max_targets), n_pages, size);
            let left = nominators.len() - p * size;
            &&& n_pages > 0 ==> pages.len() == n_pages
            &&& n_pages == 0 && nominators.len() <= size ==> pages.len() == 0
            &&& n_pages == 0 && nominators.len() > size ==> pages.len() == 1
            &&& 0 <= p < pages.len() ==> {
                &&& left <= 0 ==> pages[p].len() == 0
                &&& 0 < left <= size ==> pages[p].len() == left
                &&& left > size ==> pages[p].len() == size
            }
            &&& 0 <= p < pages.len() && 0 <= k < pages[p].len() ==> {
                let voter = pages[p][k];
                let nominator = nominators[p * size + k];
                &&& 0 <= p * size + k < nominators.len()
                &&& voter.who == nominator.who
                &&& nominator.stake <= u64::MAX ==> voter.stake == nominator.stake
                &&& voter.stake == nominator.stake % 0x1_0000_0000_0000_0000
                &&& nominator.targets.len() <= max_targets ==> voter.targets
                    == nominator.targets
                &&& nominator.targets.len() > max_targets ==> voter.targets
                    == nominator.targets.take(max_targets as int)
            }
        }),
{
    assert((p + 1) * size == p * size + size) by (nonlinear_arith);
    if p >= 0 {
        assert(p * size >= 0) by (nonlinear_arith)
            requires
                p >= 0,
        ;
    }
    let pages = voter_pages_of(snapshot_voters(nominators, max_targets), n_pages, size);
    if 0 <= p < pages.len() && 0 <= k < pages[p].len() {
        snapshot_voter_is_its_nominator(nominators[p * size + k], max_targets, 0);
    }
}

/// What stands on the pages, read off the nominators by position.
proof fn lemma_voters_by_position(
    voters: Seq<Nominator>,
    pages: Seq<VoterPage>,
    n_pages: nat,
    size: u32,
    max_targets: u32,
)
    requires
        page_views(pages) == voter_pages_of(
            snapshot_voters(nominator_views(voters), max_targets as nat),
            n_pages,
            size as nat,
        ),
    ensures
        forall|p: int, k: int|
            0 <= p < pages.len() && 0 <= k < pages[p]@.len() ==> (
            #[trigger] pages[p]@[k]).who == voters[p * size + k].who,
        forall|p: int, k: int|
            0 <= p < pages.len() && 0 <= k < pages[p]@.len() && voters[p * size
                + k].stake <= u64::MAX ==> (#[trigger] pages[p]@[k]).stake == voters[p
                * size + k].stake,
        forall|p: int, k: int|
            0 <= p < pages.len() && 0 <= k < pages[p]@.len() ==> (
            #[trigger] pages[p]@[k]).targets@ == voters[p * size
                + k].targets@.take(
                if voters[p * size + k].targets@.len()
                    <= max_targets {
                    voters[p * size + k].targets@.len() as int
                } else {
                    max_targets as int
                },
            ),
{
    let views = nominator_views(voters);
    assert forall|p: int, k: int| 0 <= p < pages.len() && 0 <= k < pages[p]@.len() implies {
        let voter = #[trigger] pages[p]@[k];
        let nominator = voters[p * size + k];
        &&& 0 <= p * size + k < voters.len()
        &&& voter.who == nominator.who
        &&& nominator.stake <= u64::MAX ==> voter.stake == nominator.stake
        &&& voter.targets@ == nominator.targets@.take(
            if nominator.targets@.len() <= max_targets {
                nominator.targets@.len() as int
            } else {
                max_targets as int
            },
        )
    } by {
        every_nominator_has_its_place(
            views,
            n_pages,
            size as nat,
            max_targets as nat,
            p,
            k,
        );
        assert(page_views(pages).len() == pages.len());
        assert(page_views(pages)[p].len() == pages[p]@.len());
        assert(page_views(pages)[p][k] == pages[p]@[k]@);
        assert(views[p * size + k] == voters[p * size + k]@);
        let targets = voters[p * size + k].targets@;
        assert(targets.take(targets.len() as int) =~= targets);
    }
}

proof fn lemma_first_pages(voters: Seq<VoterView>, m: nat, size: nat)
    ensures
        Seq::new(m, |i: int| page_of(voters, i as nat, size)).flatten() == voters.take(
            page_start(m, size, voters.len()) as int,
        ),
    decreases m,
{
    let pages = Seq::new(m, |i: int| page_of(voters, i as nat, size));
    if m == 0 {
        assert(0 * size == 0) by (nonlinear_arith);
        assert(pages =~= Seq::empty());
        assert(pages.flatten() =~= voters.take(0));
    } else {
        let fewer = Seq::new((m - 1) as nat, |i: int| page_of(voters, i as nat, size));
        lemma_first_pages(voters, (m - 1) as nat, size);
        assert((m - 1) * size + size == m * size) by (nonlinear_arith);
        assert(pages =~= fewer.push(page_of(voters, (m - 1) as nat, size)));
        fewer.lemma_flatten_push(page_of(voters, (m - 1) as nat, size));
        assert(pages.flatten() =~= voters.take(page_start(m, size, voters.len()) as int));
    }
}

/// The pages one after the other are the first voters, in their order and each once: as many as
/// the pages can hold.
pub proof fn pages_hold_the_first_voters(voters: Seq<VoterView>, n_pages: nat, size: nat)
    ensures
        voter_pages_of(voters, n_pages, size).flatten() == voters.take(
            page_start(page_count(voters.len(), n_pages, size), size, voters.len()) as int,
        ),
{
    lemma_first_pages(voters, page_count(voters.len(), n_pages, size), size);
    assert(voter_pages_of(voters, n_pages, size) =~= Seq::new(
        page_count(voters.len(), n_pages, size),
        |i: int| page_of(voters, i as nat, size),
    ));
}

/// The voters of the pages, one page after the other, are the nominators in their order, from the
/// first on: as many as the pages can hold. Each has the account of its nominator, its stake
/// wherever that fits 64 bits, and its first targets.
pub proof fn pages_hold_the_first_nominators(
    nominators: Seq<NominatorView>,
    n_pages: nat,
    size: nat,
    max_targets: nat,
    k: int,
)
    ensures
        ({
            let pages = voter_pages_of(snapshot_voters(nominators, max_targets), n_pages, size);
            let voters = pages.flatten();
            &&& voters.len() <= nominators.len()
            &&& voters.len() == nominators.len() || voters.len() == pages.len() * size
            &&& 0 <= k < voters.len() ==> {
                &&& voters[k].who == nominators[k].who
                &&& nominators[k].stake <= u64::MAX ==> voters[k].stake == nominators[k].stake
                &&& nominators[k].targets.len() <= max_targets ==> voters[k].targets
                    == nominators[k].targets
                &&& nominators[k].targets.len() > max_targets ==> voters[k].targets
                    == nominators[k].targets.take(max_targets as int)
            }
        }),
{
    pages_hold_the_first_voters(snapshot_voters(nominators, max_targets), n_pages, size);
    if 0 <= k < nominators.len() {
        snapshot_voter_is_its_nominator(nominators[k], max_targets, 0);
    }
}

/// Where the wanted pages can hold all voters, none is left out.
pub proof fn no_voter_left_out(voters: Seq<VoterView>, n_pages: nat, size: nat)
    requires
        n_pages > 0,
        voters.len() <= n_pages * size,
    ensures
        voter_pages_of(voters, n_pages, size).flatten() == voters,
{
    pages_hold_the_first_voters(voters, n_pages, size);
    assert(voters.take(voters.len() as int) =~= voters);
}

} // verus!
