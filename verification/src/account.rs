//! Accounts: 32 raw bytes, ordered lexicographically.

use vstd::prelude::*;

verus! {

/// An account: 32 raw bytes.
#[derive(Clone, Copy, Debug, PartialEq, Eq)]
pub struct AccountId(pub [u8; 32]);

impl AccountId {
    /// The two accounts agree on every byte before position `k`.
    pub open spec fn agrees_before(self, other: AccountId, k: int) -> bool {
        forall|j: int| 0 <= j < k ==> self.0@[j] == #[trigger] other.0@[j]
    }

    /// `self` comes strictly before `other` in lexicographic byte order: at the first byte in
    /// which they differ, the byte of `self` is the smaller one.
    pub open spec fn before(self, other: AccountId) -> bool {
        exists|k: int|
            0 <= k < 32 && #[trigger] self.agrees_before(other, k) && self.0@[k] < other.0@[k]
    }

    /// Are the two accounts the same?
    pub fn same(&self, other: &AccountId) -> (r: bool)
        ensures
            r == (*self == *other),
    {
        let mut i: usize = 0;
        while i < 32
            invariant
                i <= 32,
                self.agrees_before(*other, i as int),
            decreases 32 - i,
        {
            if self.0[i] != other.0[i] {
                return false;
            }
            i = i + 1;
        }
        assert(self.0 =~= other.0);
        true
    }

    /// Does this account come strictly before the other one?
    pub fn precedes(&self, other: &AccountId) -> (r: bool)
        ensures
            r == self.before(*other),
    {
        let mut i: usize = 0;
        while i < 32
            invariant
                i <= 32,
                self.agrees_before(*other, i as int),
            decreases 32 - i,
        {
            if self.0[i] < other.0[i] {
                return true;
            }
            if self.0[i] > other.0[i] {
                assert forall|k: int|
                    0 <= k < 32 && #[trigger] self.agrees_before(
                        *other,
                        k,
                    ) implies !(self.0@[k] < other.0@[k]) by {
                    if k > i {
                        assert(self.0@[i as int] == other.0@[i as int]);
                    }
                }
                return false;
            }
            i = i + 1;
        }
        false
    }
}

/// No account comes before itself.
pub proof fn account_order_irreflexive(a: AccountId)
    ensures
        !a.before(a),
{
}

/// The account order is transitive.
pub proof fn account_order_transitive(a: AccountId, b: AccountId, c: AccountId)
    requires
        a.before(b),
        b.before(c),
    ensures
        a.before(c),
{
    let i = choose|k: int| 0 <= k < 32 && #[trigger] a.agrees_before(b, k) && a.0@[k] < b.0@[k];
    let j = choose|k: int| 0 <= k < 32 && #[trigger] b.agrees_before(c, k) && b.0@[k] < c.0@[k];
    let k = if i < j {
        i
    } else {
        j
    };
    assert forall|m: int| 0 <= m < k implies a.0@[m] == #[trigger] c.0@[m] by {
        assert(a.0@[m] == b.0@[m]);
    }
    assert(a.agrees_before(c, k));
}

/// Of two different accounts one comes before the other.
pub proof fn account_order_total(a: AccountId, b: AccountId)
    ensures
        a.before(b) || b.before(a) || a == b,
{
    if a != b {
        if a.0@ =~= b.0@ {
            assert(a.0 =~= b.0);
        }
        let d = choose|d: int| 0 <= d < 32 && a.0@[d] != b.0@[d];
        lemma_first_difference(a, b, d);
    }
}

proof fn lemma_first_difference(a: AccountId, b: AccountId, d: int)
    requires
        0 <= d < 32,
        a.0@[d] != b.0@[d],
    ensures
        a.before(b) || b.before(a),
    decreases d,
{
    if exists|e: int| 0 <= e < d && a.0@[e] != b.0@[e] {
        let e = choose|e: int| 0 <= e < d && a.0@[e] != b.0@[e];
        lemma_first_difference(a, b, e);
    } else {
        assert(a.agrees_before(b, d));
        assert(b.agrees_before(a, d));
    }
}

/// The account that consists of the given 32 bytes.
pub open spec fn account_with_bytes(bytes: Seq<u8>) -> AccountId {
    choose|account: AccountId| account.0@ == bytes
}

/// The account that ends a storage key: its last 32 bytes, or nothing where the key is shorter.
pub open spec fn account_of_key(key: Seq<u8>) -> Option<AccountId> {
    if key.len() >= 32 {
        Some(account_with_bytes(key.skip(key.len() - 32)))
    } else {
        None
    }
}

/// The account that ends a storage key: its last 32 bytes, or nothing where the key is shorter.
///
/// The keys of the staking maps end in the account that they belong to; what stands before it
/// (the prefix of the map and the hash of the account) is skipped.
pub fn subxt_account_from_key_bytes(key_bytes: &[u8]) -> (r: Option<AccountId>)
    ensures
        r is Some <==> key_bytes@.len() >= 32,
        r matches Some(account) ==> account.0@ == key_bytes@.skip(key_bytes@.len() - 32),
        r == account_of_key(key_bytes@),
{
    if key_bytes.len() >= 32 {
        let start: usize = key_bytes.len() - 32;
        let mut bytes: [u8; 32] = [0u8; 32];
        let mut i: usize = 0;
        while i < 32
            invariant
                i <= 32,
                start + 32 == key_bytes.len(),
                forall|j: int| 0 <= j < i ==> bytes@[j] == key_bytes@[start + j],
            decreases 32 - i,
        {
            bytes[i] = key_bytes[start + i];
            i = i + 1;
        }
        let account = AccountId(bytes);
        proof {
            let suffix = key_bytes@.skip(start as int);
            assert(account.0@ =~= suffix);
            assert(account_with_bytes(suffix).0@ == suffix);
            assert(account_with_bytes(suffix).0 =~= account.0);
        }
        Some(account)
    } else {
        None
    }
}

proof fn lemma_account_with_prefix(bytes: Seq<u8>, n: int) -> (account: AccountId)
    requires
        bytes.len() == 32,
        0 <= n <= 32,
    ensures
        account.0@.take(n) == bytes.take(n),
    decreases n,
{
    if n == 0 {
        let account = AccountId(vstd::array::spec_array_fill_for_copy_type(0u8));
        assert(account.0@.take(0) =~= bytes.take(0));
        account
    } else {
        let shorter = lemma_account_with_prefix(bytes, n - 1);
        let account = AccountId(vstd::array::spec_array_update(shorter.0, n - 1, bytes[n - 1]));
        assert forall|i: int| 0 <= i < n implies account.0@[i] == bytes[i] by {
            if i < n - 1 {
                assert(shorter.0@.take(n - 1)[i] == bytes.take(n - 1)[i]);
            }
        }
        assert(account.0@.take(n) =~= bytes.take(n));
        account
    }
}

/// A key that is any prefix followed by the bytes of an account gives that account back.
pub proof fn account_read_from_key(prefix: Seq<u8>, account: AccountId)
    ensures
        account_of_key(prefix + account.0@) == Some(account),
{
    let key = prefix + account.0@;
    let suffix = key.skip(key.len() - 32);
    assert(suffix =~= account.0@);
    assert(account_with_bytes(suffix).0@ == suffix);
    assert(account_with_bytes(suffix).0 =~= account.0);
}

/// A key has an account exactly where it has 32 bytes or more, and that account is its last 32
/// bytes.
pub proof fn key_has_an_account(key: Seq<u8>)
    ensures
        account_of_key(key) is Some <==> key.len() >= 32,
        account_of_key(key) matches Some(account) ==> account.0@ == key.skip(key.len() - 32),
{
    if key.len() >= 32 {
        account_with_bytes_unique(key.skip(key.len() - 32));
    }
}

/// Any 32 bytes are an account, and only one.
pub proof fn account_with_bytes_unique(bytes: Seq<u8>)
    requires
        bytes.len() == 32,
    ensures
        account_with_bytes(bytes).0@ == bytes,
        forall|account: AccountId| account.0@ == bytes ==> account == account_with_bytes(bytes),
{
    let witness = lemma_account_with_prefix(bytes, 32);
    assert(witness.0@ =~= witness.0@.take(32));
    assert(bytes =~= bytes.take(32));
    assert(witness.0@ == bytes);
    assert forall|account: AccountId| account.0@ == bytes implies account == account_with_bytes(
        bytes,
    ) by {
        assert(account.0 =~= account_with_bytes(bytes).0);
    }
}

} // verus!
