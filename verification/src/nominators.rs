//! Which accounts count as nominators: those with nominations and a stake.

use crate::account::account_of_key;
use crate::account::account_read_from_key;
use crate::account::AccountId;
use crate::types::Error;
use crate::types::Nominator;
use crate::types::NominatorView;
use vstd::prelude::*;

verus! {

/// How many fetches may be under way at a time.
pub const CONCURRENCY_LIMIT: usize = 100;

/// The lists of storage keys that a prediction from live data walks.
#[derive(Debug, Clone, Copy, PartialEq, Eq, Structural)]
pub enum KeyList {
    /// The validators.
    Validators,
    /// The nominators, each fetched as its key comes.
    StreamedNominators,
    /// The nominators, fetched in batches once all keys are there.
    BatchedNominators,
}

/// Does a key list that cannot be opened count as empty? Where it does not, the failure is the
/// outcome.
pub fn failed_opening_is_empty(list: KeyList) -> (r: bool)
    ensures
        r == !(list is StreamedNominators),
{
    match list {
        KeyList::Validators => true,
        KeyList::StreamedNominators => false,
        KeyList::BatchedNominators => true,
    }
}

/// What a fetch of nominations gave: the nominated validators, nothing, or a failure.
pub type NominationsReply = Result<Option<Vec<AccountId>>, Error>;

/// What a fetch of a ledger gave: its total, nothing, or a failure.
pub type LedgerReply = Result<Option<u128>, Error>;

/// The nominations of a successful reply.
pub open spec fn nominations_in(reply: NominationsReply) -> Option<Seq<AccountId>> {
    match reply {
        Ok(Some(targets)) => Some(targets@),
        _ => None,
    }
}

/// The ledger total of a successful reply.
pub open spec fn ledger_in(reply: LedgerReply) -> Option<u128> {
    match reply {
        Ok(Some(total)) => Some(total),
        _ => None,
    }
}

/// The nominator that an account is: there is one where the account has nominations and a
/// ledger with a total above zero.
pub open spec fn nominator_of(
    account: AccountId,
    nominations: Option<Seq<AccountId>>,
    ledger_total: Option<u128>,
) -> Option<NominatorView> {
    match (nominations, ledger_total) {
        (Some(targets), Some(total)) => if total > 0 {
            Some(NominatorView { who: account, stake: total, targets })
        } else {
            None
        },
        _ => None,
    }
}

/// The view of an optional nominator.
pub open spec fn optional_view(nominator: Option<Nominator>) -> Option<NominatorView> {
    match nominator {
        Some(nominator) => Some(nominator@),
        None => None,
    }
}

/// The nominator that the two replies of a streamed fetch stand for. A failed reply counts as
/// none.
pub fn streamed_nominator(
    account: AccountId,
    nominations: NominationsReply,
    ledger: LedgerReply,
) -> (r: Option<Nominator>)
    ensures
        optional_view(r) == nominator_of(
            account,
            nominations_in(nominations),
            ledger_in(ledger),
        ),
        r is Some <==> (nominations matches Ok(Some(_)) && ledger matches Ok(Some(total)) && total
            > 0),
        r matches Some(nominator) ==> {
            &&& nominator.who == account
            &&& ledger == Ok::<Option<u128>, Error>(Some(nominator.stake))
            &&& nominations == Ok::<Option<Vec<AccountId>>, Error>(Some(nominator.targets))
        },
{
    match (nominations, ledger) {
        (Ok(Some(targets)), Ok(Some(total))) => {
            if total > 0 {
                Some(Nominator { who: account, stake: total, targets })
            } else {
                None
            }
        },
        _ => None,
    }
}

/// The nominators that the keys lead to, given what the staking state holds: one for each key
/// whose account has nominations and a stake, in the order of the keys.
pub open spec fn nominators_of_keys(
    keys: Seq<Seq<u8>>,
    nominations: Map<AccountId, Seq<AccountId>>,
    ledgers: Map<AccountId, u128>,
) -> Seq<NominatorView>
    decreases keys.len(),
{
    if keys.len() == 0 {
        Seq::empty()
    } else {
        let before = nominators_of_keys(keys.drop_last(), nominations, ledgers);
        match nominator_of_key(keys.last(), nominations, ledgers) {
            Some(nominator) => before.push(nominator),
            None => before,
        }
    }
}

/// The value of a key of a map, if it has one.
pub open spec fn lookup<V>(map: Map<AccountId, V>, account: AccountId) -> Option<V> {
    if map.contains_key(account) {
        Some(map[account])
    } else {
        None
    }
}

/// The nominator that a key leads to.
pub open spec fn nominator_of_key(
    key: Seq<u8>,
    nominations: Map<AccountId, Seq<AccountId>>,
    ledgers: Map<AccountId, u128>,
) -> Option<NominatorView> {
    match account_of_key(key) {
        Some(account) => nominator_of(
            account,
            lookup(nominations, account),
            lookup(ledgers, account),
        ),
        None => None,
    }
}

/// A nominator carries all of its nominations and all of its ledger total. There is one exactly
/// where there are nominations and a ledger with something in it.
pub proof fn nominator_carries_what_was_fetched(
    account: AccountId,
    nominations: Option<Seq<AccountId>>,
    ledger_total: Option<u128>,
)
    ensures
        nominator_of(account, nominations, ledger_total) matches Some(nominator) ==> {
            &&& nominator.who == account
            &&& Some(nominator.stake) == ledger_total
            &&& Some(nominator.targets) == nominations
        },
        nominator_of(account, nominations, ledger_total) is Some <==> nominations is Some
            && ledger_total is Some && ledger_total != Some(0u128),
{
}

/// Only a successful reply that holds something counts, and it counts as it is.
pub proof fn replies_are_taken_as_they_are(
    targets: Vec<AccountId>,
    total: u128,
    failure: Error,
    nominator: Nominator,
)
    ensures
        nominations_in(Ok(Some(targets))) == Some(targets@),
        nominations_in(Ok(None)) is None,
        nominations_in(Err(failure)) is None,
        ledger_in(Ok(Some(total))) == Some(total),
        ledger_in(Ok(None)) is None,
        ledger_in(Err(failure)) is None,
        optional_view(None) is None,
        optional_view(Some(nominator)) is Some,
        optional_view(Some(nominator))->0.who == nominator.who,
        optional_view(Some(nominator))->0.stake == nominator.stake,
        optional_view(Some(nominator))->0.targets == nominator.targets@,
{
}

/// No keys lead to no nominators.
pub proof fn no_keys_no_nominators(
    nominations: Map<AccountId, Seq<AccountId>>,
    ledgers: Map<AccountId, u128>,
)
    ensures
        nominators_of_keys(Seq::empty(), nominations, ledgers).len() == 0,
{
}

/// One more key leads to one more nominator, at the end, exactly where it ends in an account that
/// has nominations and a ledger with something in it. That nominator is the account, with its
/// ledger total and all of its nominations.
pub proof fn one_more_key(
    keys: Seq<Seq<u8>>,
    prefix: Seq<u8>,
    account: AccountId,
    nominations: Map<AccountId, Seq<AccountId>>,
    ledgers: Map<AccountId, u128>,
)
    ensures
        ({
            let before = nominators_of_keys(keys, nominations, ledgers);
            let after = nominators_of_keys(
                keys.push(prefix + account.0@),
                nominations,
                ledgers,
            );
            if nominations.contains_key(account) && ledgers.contains_key(account)
                && ledgers[account] > 0 {
                &&& after.len() == before.len() + 1
                &&& after.drop_last() == before
                &&& after.last().who == account
                &&& after.last().stake == ledgers[account]
                &&& after.last().targets == nominations[account]
            } else {
                after == before
            }
        }),
{
    let key = prefix + account.0@;
    account_read_from_key(prefix, account);
    assert(keys.push(key).drop_last() =~= keys);
    let before = nominators_of_keys(keys, nominations, ledgers);
    let after = nominators_of_keys(keys.push(key), nominations, ledgers);
    if after != before {
        assert(after.drop_last() =~= before);
    }
}

/// A key that is too short for an account leads to nothing.
pub proof fn one_more_short_key(
    keys: Seq<Seq<u8>>,
    key: Seq<u8>,
    nominations: Map<AccountId, Seq<AccountId>>,
    ledgers: Map<AccountId, u128>,
)
    requires
        key.len() < 32,
    ensures
        nominators_of_keys(keys.push(key), nominations, ledgers) == nominators_of_keys(
            keys,
            nominations,
            ledgers,
        ),
{
    assert(keys.push(key).drop_last() =~= keys);
}

/// Every nominator that the keys lead to carries what the staking state holds for it.
pub proof fn nominators_carry_the_staking_state(
    keys: Seq<Seq<u8>>,
    nominations: Map<AccountId, Seq<AccountId>>,
    ledgers: Map<AccountId, u128>,
    i: int,
)
    requires
        0 <= i < nominators_of_keys(keys, nominations, ledgers).len(),
    ensures
        ({
            let nominator = nominators_of_keys(keys, nominations, ledgers)[i];
            &&& nominations.contains_key(nominator.who)
            &&& nominator.targets == nominations[nominator.who]
            &&& ledgers.contains_key(nominator.who)
            &&& nominator.stake == ledgers[nominator.who]
        }),
    decreases keys.len(),
{
    let before = nominators_of_keys(keys.drop_last(), nominations, ledgers);
    if i < before.len() {
        nominators_carry_the_staking_state(keys.drop_last(), nominations, ledgers, i);
    }
}

/// Every nominator found has a stake, and stands at the end of one of the keys.
pub proof fn nominators_have_stake(
    keys: Seq<Seq<u8>>,
    nominations: Map<AccountId, Seq<AccountId>>,
    ledgers: Map<AccountId, u128>,
    i: int,
)
    requires
        0 <= i < nominators_of_keys(keys, nominations, ledgers).len(),
    ensures
        ({
            let nominator = nominators_of_keys(keys, nominations, ledgers)[i];
            &&& nominator.stake > 0
            &&& exists|k: int|
                0 <= k < keys.len() && account_of_key(#[trigger] keys[k]) == Some(nominator.who)
        }),
    decreases keys.len(),
{
    let shorter = keys.drop_last();
    let before = nominators_of_keys(shorter, nominations, ledgers);
    if i < before.len() {
        nominators_have_stake(shorter, nominations, ledgers, i);
        let k = choose|k: int|
            0 <= k < shorter.len() && account_of_key(#[trigger] shorter[k]) == Some(
                before[i].who,
            );
        assert(keys[k] == shorter[k]);
    } else {
        assert(keys[keys.len() - 1] == keys.last());
    }
}

/// What two lists of keys lead to, one after the other, is what they lead to together.
pub proof fn nominators_of_keys_add(
    a: Seq<Seq<u8>>,
    b: Seq<Seq<u8>>,
    nominations: Map<AccountId, Seq<AccountId>>,
    ledgers: Map<AccountId, u128>,
)
    ensures
        nominators_of_keys(a + b, nominations, ledgers) == nominators_of_keys(
            a,
            nominations,
            ledgers,
        ) + nominators_of_keys(b, nominations, ledgers),
    decreases b.len(),
{
    if b.len() == 0 {
        assert(a + b =~= a);
        assert(nominators_of_keys(a + b, nominations, ledgers) =~= nominators_of_keys(
            a,
            nominations,
            ledgers,
        ) + nominators_of_keys(b, nominations, ledgers));
    } else {
        assert((a + b).drop_last() =~= a + b.drop_last());
        nominators_of_keys_add(a, b.drop_last(), nominations, ledgers);
        assert(nominators_of_keys(a + b, nominations, ledgers) =~= nominators_of_keys(
            a,
            nominations,
            ledgers,
        ) + nominators_of_keys(b, nominations, ledgers));
    }
}

} // verus!
