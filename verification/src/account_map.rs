//! A map from accounts to values, kept in ascending order of the accounts.

use crate::account::account_order_irreflexive;
use crate::account::account_order_total;
use crate::account::account_order_transitive;
use crate::account::AccountId;
use vstd::prelude::*;

verus! {

/// The accounts of the pairs ascend strictly, so no account occurs twice.
pub open spec fn ascending<V>(pairs: Seq<(AccountId, V)>) -> bool {
    forall|i: int, j: int|
        0 <= i < j < pairs.len() ==> (#[trigger] pairs[i]).0.before((#[trigger] pairs[j]).0)
}

/// The pair at position `i` is that of `account`.
pub open spec fn pair_at<V>(pairs: Seq<(AccountId, V)>, i: int, account: AccountId) -> bool {
    0 <= i < pairs.len() && pairs[i].0 == account
}

/// The map that consists of the given pairs.
pub open spec fn map_of<V>(pairs: Seq<(AccountId, V)>) -> Map<AccountId, V> {
    Map::new(
        |account: AccountId| exists|i: int| pair_at(pairs, i, account),
        |account: AccountId| pairs[choose|i: int| pair_at(pairs, i, account)].1,
    )
}

/// A map keyed by accounts. Its pairs are held in ascending order of the accounts, each account
/// at most once.
#[derive(Debug)]
pub struct AccountMap<V> {
    entries: Vec<(AccountId, V)>,
}

impl<V> View for AccountMap<V> {
    type V = Map<AccountId, V>;

    open spec fn view(&self) -> Map<AccountId, V> {
        map_of(self.pairs())
    }
}

impl<V> AccountMap<V> {
    /// The pairs of the map in ascending order of the accounts.
    pub closed spec fn pairs(self) -> Seq<(AccountId, V)> {
        self.entries@
    }

    #[verifier::type_invariant]
    spec fn well_formed(self) -> bool {
        ascending(self.entries@)
    }

    /// The empty map.
    pub fn new() -> (map: Self)
        ensures
            map@ == Map::<AccountId, V>::empty(),
            map.pairs() == Seq::<(AccountId, V)>::empty(),
    {
        let map = AccountMap { entries: Vec::new() };
        assert(map@ =~= Map::<AccountId, V>::empty());
        map
    }

    /// Number of accounts in the map.
    pub fn len(&self) -> (n: usize)
        ensures
            n == self.pairs().len(),
            n == self@.len(),
            self@.dom().finite(),
            ascending(self.pairs()),
    {
        proof {
            use_type_invariant(self);
            lemma_map_of_len(self.pairs());
        }
        self.entries.len()
    }

    /// The pair at a position of the ascending order.
    pub fn pair(&self, i: usize) -> (r: (AccountId, &V))
        requires
            i < self.pairs().len(),
        ensures
            r.0 == self.pairs()[i as int].0,
            *r.1 == self.pairs()[i as int].1,
    {
        (self.entries[i].0, &self.entries[i].1)
    }

    /// The value of an account.
    pub fn get(&self, account: &AccountId) -> (r: Option<&V>)
        ensures
            r matches Some(value) ==> self@.contains_key(*account) && *value == self@[*account],
            r is None ==> !self@.contains_key(*account),
    {
        proof {
            use_type_invariant(self);
        }
        let (found, i) = find(&self.entries, account);
        if found {
            proof {
                lemma_map_of_index(self.pairs(), i as int);
            }
            Some(&self.entries[i].1)
        } else {
            None
        }
    }

    /// Sets the value of an account and gives back the one that it had before.
    pub fn insert(&mut self, account: AccountId, value: V) -> (r: Option<V>)
        ensures
            final(self)@ == old(self)@.insert(account, value),
            r matches Some(before) ==> old(self)@.contains_key(account) && before
                == old(self)@[account],
            r is None ==> !old(self)@.contains_key(account),
    {
        proof {
            use_type_invariant(&*self);
        }
        let mut entries: Vec<(AccountId, V)> = Vec::new();
        std::mem::swap(&mut entries, &mut self.entries);
        let ghost pairs = entries@;
        let (found, i) = find(&entries, &account);
        let mut value = value;
        if found {
            proof {
                lemma_map_of_index(pairs, i as int);
                lemma_map_of_update(pairs, i as int, value);
            }
            std::mem::swap(&mut value, &mut entries[i].1);
            assert(entries@ =~= pairs.update(i as int, (account, entries@[i as int].1)));
            self.entries = entries;
            Some(value)
        } else {
            proof {
                lemma_map_of_insert(pairs, i as int, account, value);
            }
            entries.insert(i, (account, value));
            self.entries = entries;
            None
        }
    }
}

/// Binary search: whether the account is there, and the position at which it is or belongs.
fn find<V>(entries: &Vec<(AccountId, V)>, account: &AccountId) -> (r: (bool, usize))
    requires
        ascending(entries@),
    ensures
        r.1 <= entries@.len(),
        r.0 ==> pair_at(entries@, r.1 as int, *account),
        r.0 == (exists|i: int| pair_at(entries@, i, *account)),
        forall|i: int| 0 <= i < r.1 ==> (#[trigger] entries@[i]).0.before(*account),
        !r.0 ==> forall|i: int|
            r.1 <= i < entries@.len() ==> account.before((#[trigger] entries@[i]).0),
{
    let mut low: usize = 0;
    let mut high: usize = entries.len();
    while low < high
        invariant
            low <= high <= entries@.len(),
            ascending(entries@),
            forall|i: int| 0 <= i < low ==> (#[trigger] entries@[i]).0.before(*account),
            forall|i: int|
                high <= i < entries@.len() ==> account.before((#[trigger] entries@[i]).0),
        decreases high - low,
    {
        let middle: usize = low + (high - low) / 2;
        let candidate = entries[middle].0;
        if candidate.same(account) {
            assert(pair_at(entries@, middle as int, *account));
            return (true, middle);
        }
        if candidate.precedes(account) {
            proof {
                assert forall|i: int| 0 <= i < middle + 1 implies (
                #[trigger] entries@[i]).0.before(*account) by {
                    if i < middle {
                        account_order_transitive(entries@[i].0, candidate, *account);
                    }
                }
            }
            low = middle + 1;
        } else {
            proof {
                account_order_total(candidate, *account);
                assert forall|i: int| middle <= i < entries@.len() implies account.before(
                    (#[trigger] entries@[i]).0,
                ) by {
                    if i > middle {
                        account_order_transitive(*account, candidate, entries@[i].0);
                    }
                }
            }
            high = middle;
        }
    }
    proof {
        account_order_irreflexive(*account);
        assert forall|i: int| !pair_at(entries@, i, *account) by {
            if 0 <= i < entries@.len() {
                if i < low {
                    assert(entries@[i].0.before(*account));
                } else {
                    assert(account.before(entries@[i].0));
                }
            }
        }
    }
    (false, low)
}

/// The value of the account at position `i` is the one that stands there.
pub proof fn lemma_map_of_index<V>(pairs: Seq<(AccountId, V)>, i: int)
    requires
        ascending(pairs),
        0 <= i < pairs.len(),
    ensures
        map_of(pairs).contains_key(pairs[i].0),
        map_of(pairs)[pairs[i].0] == pairs[i].1,
{
    let account = pairs[i].0;
    assert(pair_at(pairs, i, account));
    let j = choose|j: int| pair_at(pairs, j, account);
    account_order_irreflexive(account);
    if i < j {
        assert(pairs[i].0.before(pairs[j].0));
    } else if j < i {
        assert(pairs[j].0.before(pairs[i].0));
    }
}

proof fn lemma_map_of_update<V>(pairs: Seq<(AccountId, V)>, i: int, value: V)
    requires
        ascending(pairs),
        0 <= i < pairs.len(),
    ensures
        ascending(pairs.update(i, (pairs[i].0, value))),
        map_of(pairs.update(i, (pairs[i].0, value))) == map_of(pairs).insert(pairs[i].0, value),
{
    let account = pairs[i].0;
    let updated = pairs.update(i, (account, value));
    assert(ascending(updated));
    assert forall|k: AccountId| #[trigger]
        map_of(updated).contains_key(k) == map_of(pairs).insert(account, value).contains_key(k) by {
        if map_of(updated).contains_key(k) {
            let j = choose|j: int| pair_at(updated, j, k);
            assert(pair_at(pairs, j, k));
        }
        if map_of(pairs).contains_key(k) {
            let j = choose|j: int| pair_at(pairs, j, k);
            assert(pair_at(updated, j, k));
        }
        assert(pair_at(updated, i, account));
    }
    assert forall|k: AccountId| map_of(updated).contains_key(k) implies #[trigger] map_of(
        updated,
    )[k] == map_of(pairs).insert(account, value)[k] by {
        let j = choose|j: int| pair_at(updated, j, k);
        lemma_map_of_index(updated, j);
        lemma_map_of_index(pairs, j);
        lemma_map_of_index(updated, i);
    }
    assert(map_of(updated) =~= map_of(pairs).insert(account, value));
}

proof fn lemma_map_of_insert<V>(
    pairs: Seq<(AccountId, V)>,
    i: int,
    account: AccountId,
    value: V,
)
    requires
        ascending(pairs),
        0 <= i <= pairs.len(),
        forall|j: int| 0 <= j < i ==> (#[trigger] pairs[j]).0.before(account),
        forall|j: int| i <= j < pairs.len() ==> account.before((#[trigger] pairs[j]).0),
    ensures
        ascending(pairs.insert(i, (account, value))),
        map_of(pairs.insert(i, (account, value))) == map_of(pairs).insert(account, value),
        !map_of(pairs).contains_key(account),
{
    let updated = pairs.insert(i, (account, value));
    assert forall|a: int, b: int| 0 <= a < b < updated.len() implies (
    #[trigger] updated[a]).0.before((#[trigger] updated[b]).0) by {
        if a < i && b > i {
            account_order_transitive(pairs[a].0, account, pairs[b - 1].0);
        }
        if a > i {
            assert(updated[a] == pairs[a - 1]);
            assert(updated[b] == pairs[b - 1]);
        }
    }
    account_order_irreflexive(account);
    assert(!map_of(pairs).contains_key(account)) by {
        if map_of(pairs).contains_key(account) {
            let j = choose|j: int| pair_at(pairs, j, account);
            assert(pairs[j].0 == account);
        }
    }
    assert forall|k: AccountId| #[trigger]
        map_of(updated).contains_key(k) == map_of(pairs).insert(account, value).contains_key(k) by {
        if map_of(updated).contains_key(k) {
            let j = choose|j: int| pair_at(updated, j, k);
            if j < i {
                assert(pair_at(pairs, j, k));
            } else if j > i {
                assert(pair_at(pairs, j - 1, k));
            }
        }
        if map_of(pairs).contains_key(k) {
            let j = choose|j: int| pair_at(pairs, j, k);
            if j < i {
                assert(pair_at(updated, j, k));
            } else {
                assert(pair_at(updated, j + 1, k));
            }
        }
        assert(pair_at(updated, i, account));
    }
    assert forall|k: AccountId| map_of(updated).contains_key(k) implies #[trigger] map_of(
        updated,
    )[k] == map_of(pairs).insert(account, value)[k] by {
        let j = choose|j: int| pair_at(updated, j, k);
        lemma_map_of_index(updated, j);
        if j < i {
            lemma_map_of_index(pairs, j);
        } else if j > i {
            lemma_map_of_index(pairs, j - 1);
        }
    }
    assert(map_of(updated) =~= map_of(pairs).insert(account, value));
}

/// As many accounts as pairs.
pub proof fn lemma_map_of_len<V>(pairs: Seq<(AccountId, V)>)
    requires
        ascending(pairs),
    ensures
        map_of(pairs).dom().finite(),
        map_of(pairs).len() == pairs.len(),
    decreases pairs.len(),
{
    if pairs.len() == 0 {
        assert(map_of(pairs).dom() =~= Set::empty());
    } else {
        let shorter = pairs.drop_last();
        lemma_map_of_len(shorter);
        lemma_map_of_insert(shorter, shorter.len() as int, pairs.last().0, pairs.last().1);
        assert(shorter.insert(shorter.len() as int, pairs.last()) =~= pairs);
    }
}

} // verus!
