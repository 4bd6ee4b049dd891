//! Ranking: the validators with the largest support, largest first.

use crate::account::account_order_irreflexive;
use crate::account::account_order_total;
use crate::account::account_order_transitive;
use crate::account::AccountId;
use crate::account_map::ascending;
use crate::account_map::lemma_map_of_index;
use crate::account_map::lemma_map_of_len;
use crate::account_map::map_of;
use crate::account_map::pair_at;
use crate::account_map::AccountMap;
use crate::tally::support_views;
use crate::tally::Support;
use crate::tally::SupportView;
use vstd::prelude::*;

verus! {

/// A ranked validator: its total support and the number of its nominators.
#[derive(Debug, Clone, Copy, PartialEq, Eq)]
pub struct RankedValidator {
    pub who: AccountId,
    pub total: u128,
    pub nominators_count: u32,
}

/// The order of the ranking: the larger total first, equal totals in the order of the accounts.
pub open spec fn ranks_before(
    total_a: nat,
    a: AccountId,
    total_b: nat,
    b: AccountId,
) -> bool {
    total_a > total_b || (total_a == total_b && a.before(b))
}

/// Entry `a` of a ranking stands before entry `b`.
pub open spec fn ahead(a: RankedValidator, b: RankedValidator) -> bool {
    ranks_before(a.total as nat, a.who, b.total as nat, b.who)
}

/// The entry gives the support of its validator: the total, and the number of backers as a
/// 32-bit number.
pub open spec fn describes(
    entry: RankedValidator,
    support: Map<AccountId, SupportView>,
) -> bool {
    &&& support.contains_key(entry.who)
    &&& entry.total == support[entry.who].total
    &&& entry.nominators_count == support[entry.who].backers.len() % 0x1_0000_0000
}

/// The validator has an entry.
pub open spec fn listed(ranking: Seq<RankedValidator>, validator: AccountId) -> bool {
    exists|i: int| 0 <= i < ranking.len() && (#[trigger] ranking[i]).who == validator
}

/// The ranking of the `desired` best supported validators: as many of them as there are, each
/// with its support, in the order of the ranking, and all of them before any validator that is
/// left out.
pub open spec fn is_ranking(
    support: Map<AccountId, SupportView>,
    desired: nat,
    ranking: Seq<RankedValidator>,
) -> bool {
    &&& ranking.len() == if desired <= support.len() {
        desired
    } else {
        support.len()
    }
    &&& forall|i: int| 0 <= i < ranking.len() ==> describes(#[trigger] ranking[i], support)
    &&& forall|i: int, j: int|
        0 <= i < j < ranking.len() ==> ahead(#[trigger] ranking[i], #[trigger] ranking[j])
    &&& forall|i: int, validator: AccountId|
        0 <= i < ranking.len() && #[trigger] support.contains_key(validator) && !listed(
            ranking,
            validator,
        ) ==> ranks_before(
            (#[trigger] ranking[i]).total as nat,
            ranking[i].who,
            support[validator].total,
            validator,
        )
}

/// The entry of a pair of the support map.
spec fn entry_of(pair: (AccountId, Support)) -> RankedValidator {
    RankedValidator {
        who: pair.0,
        total: pair.1.total,
        nominators_count: (pair.1.nominators@.len() % 0x1_0000_0000) as u32,
    }
}

spec fn entries_of(pairs: Seq<(AccountId, Support)>) -> Seq<RankedValidator> {
    pairs.map_values(|pair: (AccountId, Support)| entry_of(pair))
}

/// Position of the first entry that does not stand before the given one.
fn position(ranking: &Vec<RankedValidator>, entry: &RankedValidator) -> (r: usize)
    requires
        forall|i: int, j: int|
            0 <= i < j < ranking@.len() ==> ahead(
                #[trigger] ranking@[i],
                #[trigger] ranking@[j],
            ),
        forall|i: int| 0 <= i < ranking@.len() ==> (#[trigger] ranking@[i]).who != entry.who,
    ensures
        r <= ranking@.len(),
        forall|i: int| 0 <= i < r ==> ahead(#[trigger] ranking@[i], *entry),
        forall|i: int| r <= i < ranking@.len() ==> ahead(*entry, #[trigger] ranking@[i]),
{
    let mut low: usize = 0;
    let mut high: usize = ranking.len();
    while low < high
        invariant
            low <= high <= ranking@.len(),
            forall|i: int, j: int|
                0 <= i < j < ranking@.len() ==> ahead(
                    #[trigger] ranking@[i],
                    #[trigger] ranking@[j],
                ),
            forall|i: int| 0 <= i < ranking@.len() ==> (#[trigger] ranking@[i]).who != entry.who,
            forall|i: int| 0 <= i < low ==> ahead(#[trigger] ranking@[i], *entry),
            forall|i: int| high <= i < ranking@.len() ==> ahead(*entry, #[trigger] ranking@[i]),
        decreases high - low,
    {
        let middle: usize = low + (high - low) / 2;
        let other = ranking[middle];
        if other.total > entry.total || (other.total == entry.total && other.who.precedes(
            &entry.who,
        )) {
            assert forall|i: int| 0 <= i < middle + 1 implies ahead(
                #[trigger] ranking@[i],
                *entry,
            ) by {
                if i < middle {
                    lemma_ahead_transitive(ranking@[i], other, *entry);
                }
            }
            low = middle + 1;
        } else {
            proof {
                account_order_total(other.who, entry.who);
            }
            assert forall|i: int| middle <= i < ranking@.len() implies ahead(
                *entry,
                #[trigger] ranking@[i],
            ) by {
                if i > middle {
                    lemma_ahead_transitive(*entry, other, ranking@[i]);
                }
            }
            high = middle;
        }
    }
    low
}

proof fn lemma_ahead_transitive(a: RankedValidator, b: RankedValidator, c: RankedValidator)
    requires
        ahead(a, b),
        ahead(b, c),
    ensures
        ahead(a, c),
{
    if a.total == b.total && b.total == c.total {
        account_order_transitive(a.who, b.who, c.who);
    }
}

fn count_as_u32(n: usize) -> (r: u32)
    ensures
        r == n as nat % 0x1_0000_0000,
{
    assert(n as u32 == (n as u64) % 0x1_0000_0000u64) by (bit_vector);
    #[verifier::truncate]
    let r: u32 = n as u32;
    r
}

/// Ranks the supported validators and keeps the `desired` first ones.
pub fn rank_validators(
    support: &AccountMap<Support>,
    desired: u32,
) -> (ranking: Vec<RankedValidator>)
    ensures
        is_ranking(support_views(support@), desired as nat, ranking@),
{
    let n: usize = support.len();
    let ghost pairs = support.pairs();
    let ghost entries = entries_of(pairs);
    let mut ranking: Vec<RankedValidator> = Vec::new();
    let mut p: usize = 0;
    assert(entries.take(0) =~= Seq::empty());
    while p < n
        invariant
            p <= n,
            n == pairs.len(),
            pairs == support.pairs(),
            entries == entries_of(pairs),
            ascending(pairs),
            ranking@.to_multiset() == entries.take(p as int).to_multiset(),
            forall|i: int, j: int|
                0 <= i < j < ranking@.len() ==> ahead(
                    #[trigger] ranking@[i],
                    #[trigger] ranking@[j],
                ),
        decreases n - p,
    {
        broadcast use vstd::seq_lib::group_to_multiset_ensures;

        let (who, of_validator) = support.pair(p);
        let nominators: usize = of_validator.nominators.len();
        let entry = RankedValidator {
            who,
            total: of_validator.total,
            nominators_count: count_as_u32(nominators),
        };
        proof {
            assert(entry == entries[p as int]);
            assert forall|i: int| 0 <= i < ranking@.len() implies (#[trigger] ranking@[i]).who
                != who by {
                assert(ranking@.contains(ranking@[i]));
                lemma_same_members(ranking@, entries.take(p as int), ranking@[i]);
                let j = choose|j: int|
                    0 <= j < p && entries.take(p as int)[j] == ranking@[i];
                assert(pairs[j].0.before(pairs[p as int].0));
                account_order_irreflexive(who);
            }
            assert(entries.take(p + 1) =~= entries.take(p as int).push(entry));
        }
        let at: usize = position(&ranking, &entry);
        let ghost before = ranking@;
        ranking.insert(at, entry);
        assert forall|i: int, j: int| 0 <= i < j < ranking@.len() implies ahead(
            #[trigger] ranking@[i],
            #[trigger] ranking@[j],
        ) by {
            if i > at {
                assert(ranking@[i] == before[i - 1]);
            }
            if j > at {
                assert(ranking@[j] == before[j - 1]);
            }
        }
        p = p + 1;
    }
    let ghost full = ranking@;
    proof {
        assert(entries.take(p as int) =~= entries);
        lemma_full_ranking(pairs, full);
        lemma_map_of_len(pairs);
    }
    ranking.truncate(desired as usize);
    proof {
        assert(full.take(full.len() as int) =~= full);
        lemma_truncated_ranking(pairs, full, desired as nat, ranking@);
        assert(support_views(map_of(pairs)) == support_views(support@));
    }
    ranking
}

proof fn lemma_same_members(
    a: Seq<RankedValidator>,
    b: Seq<RankedValidator>,
    entry: RankedValidator,
)
    requires
        a.to_multiset() == b.to_multiset(),
        a.contains(entry),
    ensures
        b.contains(entry),
{
    broadcast use vstd::seq_lib::group_to_multiset_ensures;

    assert(a.to_multiset().count(entry) > 0);
    assert(b.to_multiset().count(entry) > 0);
}

/// A sorted permutation of the entries describes the support and lists every validator.
proof fn lemma_full_ranking(pairs: Seq<(AccountId, Support)>, full: Seq<RankedValidator>)
    requires
        ascending(pairs),
        full.to_multiset() == entries_of(pairs).to_multiset(),
    ensures
        full.len() == pairs.len(),
        forall|i: int|
            0 <= i < full.len() ==> describes(
                #[trigger] full[i],
                support_views(map_of(pairs)),
            ),
        forall|validator: AccountId| #[trigger]
            map_of(pairs).contains_key(validator) ==> listed(full, validator),
{
    broadcast use vstd::seq_lib::group_to_multiset_ensures;

    let support = support_views(map_of(pairs));
    let entries = entries_of(pairs);
    assert(entries.len() == entries.to_multiset().len());
    assert(full.len() == full.to_multiset().len());
    assert forall|i: int| 0 <= i < full.len() implies describes(#[trigger] full[i], support) by {
        assert(full.contains(full[i]));
        lemma_same_members(full, entries, full[i]);
        let j = choose|j: int| 0 <= j < entries.len() && entries[j] == full[i];
        lemma_map_of_index(pairs, j);
        assert(full[i] == entry_of(pairs[j]));
        assert(support[pairs[j].0] == pairs[j].1@);
    }
    assert forall|validator: AccountId| #[trigger]
        map_of(pairs).contains_key(validator) implies listed(full, validator) by {
        let j = choose|j: int| pair_at(pairs, j, validator);
        assert(entries[j].who == validator);
        assert(entries.contains(entries[j]));
        lemma_same_members(entries, full, entries[j]);
        let i = choose|i: int| 0 <= i < full.len() && full[i] == entries[j];
        assert(full[i].who == validator);
    }
}

/// The first `desired` entries of the full ranking are the ranking.
proof fn lemma_truncated_ranking(
    pairs: Seq<(AccountId, Support)>,
    full: Seq<RankedValidator>,
    desired: nat,
    kept: Seq<RankedValidator>,
)
    requires
        ascending(pairs),
        full.len() == pairs.len(),
        forall|i: int|
            0 <= i < full.len() ==> describes(
                #[trigger] full[i],
                support_views(map_of(pairs)),
            ),
        forall|validator: AccountId| #[trigger]
            map_of(pairs).contains_key(validator) ==> listed(full, validator),
        forall|i: int, j: int|
            0 <= i < j < full.len() ==> ahead(#[trigger] full[i], #[trigger] full[j]),
        kept == full.take(
            if desired <= full.len() {
                desired as int
            } else {
                full.len() as int
            },
        ),
    ensures
        is_ranking(support_views(map_of(pairs)), desired, kept),
{
    let support = support_views(map_of(pairs));
    lemma_map_of_len(pairs);
    assert(support.dom() =~= map_of(pairs).dom());
    assert forall|i: int, validator: AccountId|
        0 <= i < kept.len() && #[trigger] support.contains_key(validator) && !listed(
            kept,
            validator,
        ) implies ranks_before(
        (#[trigger] kept[i]).total as nat,
        kept[i].who,
        support[validator].total,
        validator,
    ) by {
        assert(map_of(pairs).contains_key(validator));
        let j = choose|j: int| 0 <= j < full.len() && (#[trigger] full[j]).who == validator;
        if j < kept.len() {
            assert(kept[j].who == validator);
        }
        assert(ahead(full[i], full[j]));
        assert(describes(full[j], support));
    }
}

/// A ranking lists no validator twice.
pub proof fn ranking_lists_once(
    support: Map<AccountId, SupportView>,
    desired: nat,
    ranking: Seq<RankedValidator>,
    i: int,
    j: int,
)
    requires
        is_ranking(support, desired, ranking),
        0 <= i < j < ranking.len(),
    ensures
        ranking[i].who != ranking[j].who,
        ranking[i].total >= ranking[j].total,
{
    assert(ahead(ranking[i], ranking[j]));
    account_order_irreflexive(ranking[i].who);
    assert(describes(ranking[i], support));
    assert(describes(ranking[j], support));
}

/// The support and the number of seats determine the ranking.
pub proof fn ranking_unique(
    support: Map<AccountId, SupportView>,
    desired: nat,
    a: Seq<RankedValidator>,
    b: Seq<RankedValidator>,
)
    requires
        is_ranking(support, desired, a),
        is_ranking(support, desired, b),
    ensures
        a == b,
{
    assert forall|i: int| 0 <= i < a.len() implies a[i] == b[i] by {
        lemma_rankings_agree(support, desired, a, b, i);
    }
    assert(a =~= b);
}

/// A ranking lists as many validators as there are seats, or all where there are fewer. Each entry
/// has the total and the number of backers of its validator; the totals do not rise; no validator
/// stands twice; and none that is left out has more than one that is listed.
pub proof fn ranking_by_totals(
    support: Map<AccountId, SupportView>,
    desired: nat,
    ranking: Seq<RankedValidator>,
    i: int,
    j: int,
    other: AccountId,
)
    requires
        is_ranking(support, desired, ranking),
        0 <= i < ranking.len(),
    ensures
        ranking.len() <= desired,
        ranking.len() <= support.len(),
        ranking.len() == desired || ranking.len() == support.len(),
        support.contains_key(ranking[i].who),
        ranking[i].total == support[ranking[i].who].total,
        ranking[i].nominators_count == support[ranking[i].who].backers.len() % 0x1_0000_0000,
        support[ranking[i].who].backers.len() <= u32::MAX ==> ranking[i].nominators_count
            == support[ranking[i].who].backers.len(),
        i < j < ranking.len() ==> ranking[i].total >= ranking[j].total && ranking[i].who
            != ranking[j].who,
        support.contains_key(other) && (forall|l: int|
            0 <= l < ranking.len() ==> (#[trigger] ranking[l]).who != other)
            ==> ranking[i].total >= support[other].total,
{
    assert(describes(ranking[i], support));
    if i < j < ranking.len() {
        ranking_lists_once(support, desired, ranking, i, j);
    }
    if support.contains_key(other) && (forall|l: int|
        0 <= l < ranking.len() ==> (#[trigger] ranking[l]).who != other) {
        assert(!listed(ranking, other));
        assert(ranks_before(
            ranking[i].total as nat,
            ranking[i].who,
            support[other].total,
            other,
        ));
    }
}

/// A ranking for fewer seats is the beginning of one for more.
pub proof fn fewer_seats_keep_the_first(
    support: Map<AccountId, SupportView>,
    fewer: nat,
    more: nat,
    a: Seq<RankedValidator>,
    b: Seq<RankedValidator>,
)
    requires
        fewer <= more,
        is_ranking(support, fewer, a),
        is_ranking(support, more, b),
    ensures
        a.len() <= b.len(),
        a == b.take(a.len() as int),
{
    let first = b.take(a.len() as int);
    assert forall|i: int, validator: AccountId|
        0 <= i < first.len() && #[trigger] support.contains_key(validator) && !listed(
            first,
            validator,
        ) implies ranks_before(
        (#[trigger] first[i]).total as nat,
        first[i].who,
        support[validator].total,
        validator,
    ) by {
        assert(first[i] == b[i]);
        if listed(b, validator) {
            let j = choose|j: int| 0 <= j < b.len() && (#[trigger] b[j]).who == validator;
            if j < first.len() {
                assert(first[j].who == validator);
            }
            assert(ahead(b[i], b[j]));
            assert(describes(b[j], support));
        }
    }
    assert(is_ranking(support, fewer, first));
    ranking_unique(support, fewer, a, first);
}

proof fn lemma_rankings_agree(
    support: Map<AccountId, SupportView>,
    desired: nat,
    a: Seq<RankedValidator>,
    b: Seq<RankedValidator>,
    i: int,
)
    requires
        is_ranking(support, desired, a),
        is_ranking(support, desired, b),
        0 <= i < a.len(),
    ensures
        a[i] == b[i],
    decreases i,
{
    assert forall|j: int| 0 <= j < i implies a[j] == b[j] by {
        lemma_rankings_agree(support, desired, a, b, j);
    }
    assert(describes(a[i], support));
    assert(describes(b[i], support));
    if a[i].who != b[i].who {
        lemma_not_behind(support, desired, a, b, i);
        lemma_not_behind(support, desired, b, a, i);
        account_order_irreflexive(a[i].who);
        if a[i].who.before(b[i].who) && b[i].who.before(a[i].who) {
            account_order_transitive(a[i].who, b[i].who, a[i].who);
        }
    }
}

/// Where two rankings agree before position `i`, the entry of the one at `i` stands before that
/// of the other, if they differ.
proof fn lemma_not_behind(
    support: Map<AccountId, SupportView>,
    desired: nat,
    a: Seq<RankedValidator>,
    b: Seq<RankedValidator>,
    i: int,
)
    requires
        is_ranking(support, desired, a),
        is_ranking(support, desired, b),
        0 <= i < a.len(),
        forall|j: int| 0 <= j < i ==> a[j] == b[j],
        a[i].who != b[i].who,
    ensures
        ahead(a[i], b[i]),
{
    assert(describes(b[i], support));
    if listed(a, b[i].who) {
        let j = choose|j: int| 0 <= j < a.len() && (#[trigger] a[j]).who == b[i].who;
        assert(describes(a[j], support));
        if j < i {
            assert(b[j].who == b[i].who);
            ranking_lists_once(support, desired, b, j, i);
        } else {
            assert(ahead(a[i], a[j]));
        }
    } else {
        assert(support.contains_key(b[i].who));
    }
}

} // verus!
