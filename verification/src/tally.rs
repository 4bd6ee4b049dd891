//! From assignments to the support of each validator: every voter's stake is split equally
//! over the validators that it is assigned to.

use crate::account::AccountId;
use crate::account_map::AccountMap;
use crate::types::assignment_views;
use crate::types::page_views;
use crate::types::voter_views;
use crate::types::Assignment;
use crate::types::AssignmentView;
use crate::types::VoterPage;
use crate::types::VoterView;
use vstd::prelude::*;

verus! {

/// The stake of each voter. Where an account occurs more than once, its last stake counts.
pub open spec fn stakes_of(voters: Seq<VoterView>) -> Map<AccountId, u64>
    decreases voters.len(),
{
    if voters.len() == 0 {
        Map::empty()
    } else {
        stakes_of(voters.drop_last()).insert(voters.last().who, voters.last().stake)
    }
}

/// The stake of a voter is the one that its last occurrence names, whatever its targets are.
pub proof fn last_stake_counts(voters: Seq<VoterView>, k: int)
    requires
        0 <= k < voters.len(),
        forall|j: int| k < j < voters.len() ==> (#[trigger] voters[j]).who != voters[k].who,
    ensures
        stakes_of(voters).contains_key(voters[k].who),
        stakes_of(voters)[voters[k].who] == voters[k].stake,
    decreases voters.len(),
{
    let shorter = voters.drop_last();
    if k < shorter.len() {
        assert(voters[voters.len() - 1].who != voters[k].who);
        assert forall|j: int| k < j < shorter.len() implies (#[trigger] shorter[j]).who
            != shorter[k].who by {
            assert(voters[j].who != voters[k].who);
        }
        last_stake_counts(shorter, k);
    }
}

/// Who is no voter has no stake.
pub proof fn strangers_have_no_stake(voters: Seq<VoterView>, account: AccountId)
    requires
        forall|j: int| 0 <= j < voters.len() ==> (#[trigger] voters[j]).who != account,
    ensures
        !stakes_of(voters).contains_key(account),
    decreases voters.len(),
{
    if voters.len() > 0 {
        let shorter = voters.drop_last();
        assert(voters[voters.len() - 1].who != account);
        assert forall|j: int| 0 <= j < shorter.len() implies (#[trigger] shorter[j]).who
            != account by {
            assert(voters[j].who != account);
        }
        strangers_have_no_stake(shorter, account);
    }
}

/// An amount of stake that goes from a voter to a validator.
#[verifier::ext_equal]
pub struct Edge {
    pub voter: AccountId,
    pub validator: AccountId,
    pub amount: nat,
}

/// A part of a stake that is split equally over `n` entries, rounded down.
pub open spec fn equal_part(stake: u64, n: nat) -> nat {
    if n == 0 {
        0
    } else {
        stake as nat / n
    }
}

/// The edges of one assignment: an equal part of the voter's stake, rounded down, to each entry
/// of the distribution, whatever its weight. A voter without a known stake has none.
pub open spec fn edges_of(
    assignment: AssignmentView,
    stakes: Map<AccountId, u64>,
) -> Seq<Edge> {
    if stakes.contains_key(assignment.who) {
        Seq::new(
            assignment.distribution.len(),
            |i: int|
                Edge {
                    voter: assignment.who,
                    validator: assignment.distribution[i].0,
                    amount: equal_part(stakes[assignment.who], assignment.distribution.len()),
                },
        )
    } else {
        Seq::empty()
    }
}

/// The edges of all assignments, in their order.
pub open spec fn all_edges(
    assignments: Seq<AssignmentView>,
    stakes: Map<AccountId, u64>,
) -> Seq<Edge>
    decreases assignments.len(),
{
    if assignments.len() == 0 {
        Seq::empty()
    } else {
        all_edges(assignments.drop_last(), stakes) + edges_of(assignments.last(), stakes)
    }
}

/// What the edges bring to a validator in all.
pub open spec fn total_for(edges: Seq<Edge>, validator: AccountId) -> nat
    decreases edges.len(),
{
    if edges.len() == 0 {
        0
    } else {
        total_for(edges.drop_last(), validator) + if edges.last().validator == validator {
            edges.last().amount
        } else {
            0
        }
    }
}

/// The sum of all amounts.
pub open spec fn total_amount(edges: Seq<Edge>) -> nat
    decreases edges.len(),
{
    if edges.len() == 0 {
        0
    } else {
        total_amount(edges.drop_last()) + edges.last().amount
    }
}

/// Edge `i` leads to the validator.
pub open spec fn leads_to(edges: Seq<Edge>, i: int, validator: AccountId) -> bool {
    0 <= i < edges.len() && edges[i].validator == validator
}

/// Edge `i` leads from the voter to the validator.
pub open spec fn leads_from_to(
    edges: Seq<Edge>,
    i: int,
    voter: AccountId,
    validator: AccountId,
) -> bool {
    leads_to(edges, i, validator) && edges[i].voter == voter
}

/// The voters with an edge to the validator.
pub open spec fn backers(edges: Seq<Edge>, validator: AccountId) -> Set<AccountId> {
    Set::new(|voter: AccountId| exists|i: int| leads_from_to(edges, i, voter, validator))
}

/// What a validator has: the sum of the amounts that lead to it, and its backers.
#[verifier::ext_equal]
pub struct SupportView {
    pub total: nat,
    pub backers: Set<AccountId>,
}

/// The support of each validator to which an edge leads (be it an edge of amount zero).
pub open spec fn support_of(edges: Seq<Edge>) -> Map<AccountId, SupportView> {
    Map::new(
        |validator: AccountId| exists|i: int| leads_to(edges, i, validator),
        |validator: AccountId|
            SupportView { total: total_for(edges, validator), backers: backers(edges, validator) },
    )
}

/// The support of a validator.
#[derive(Debug)]
pub struct Support {
    pub total: u128,
    pub nominators: AccountMap<()>,
}

impl View for Support {
    type V = SupportView;

    open spec fn view(&self) -> SupportView {
        SupportView { total: self.total as nat, backers: self.nominators@.dom() }
    }
}

/// Nothing of a support is lost or changed in its view.
pub proof fn support_views_keep_everything(
    support: Map<AccountId, Support>,
    validator: AccountId,
)
    ensures
        support_views(support).dom() == support.dom(),
        support.contains_key(validator) ==> {
            &&& support_views(support)[validator].total == support[validator].total
            &&& support_views(support)[validator].backers
                == support[validator].nominators@.dom()
        },
{
    assert(support_views(support).dom() =~= support.dom());
}

/// The views of supports, account by account.
pub open spec fn support_views(support: Map<AccountId, Support>) -> Map<AccountId, SupportView> {
    support.map_values(|s: Support| s@)
}

proof fn lemma_support_of_push(edges: Seq<Edge>, edge: Edge)
    ensures
        support_of(edges.push(edge)) == support_of(edges).insert(
            edge.validator,
            SupportView {
                total: total_for(edges, edge.validator) + edge.amount,
                backers: backers(edges, edge.validator).insert(edge.voter),
            },
        ),
{
    let longer = edges.push(edge);
    let expected = support_of(edges).insert(
        edge.validator,
        SupportView {
            total: total_for(edges, edge.validator) + edge.amount,
            backers: backers(edges, edge.validator).insert(edge.voter),
        },
    );
    assert(longer.drop_last() =~= edges);
    assert(leads_from_to(longer, edges.len() as int, edge.voter, edge.validator));
    assert forall|v: AccountId| #[trigger]
        support_of(longer).contains_key(v) == expected.contains_key(v) by {
        if exists|i: int| leads_to(longer, i, v) {
            let i = choose|i: int| leads_to(longer, i, v);
            if i < edges.len() {
                assert(leads_to(edges, i, v));
            }
        }
        if exists|i: int| leads_to(edges, i, v) {
            let i = choose|i: int| leads_to(edges, i, v);
            assert(leads_to(longer, i, v));
        }
        assert(leads_to(longer, edges.len() as int, edge.validator));
    }
    assert forall|v: AccountId| support_of(longer).contains_key(v) implies #[trigger] support_of(
        longer,
    )[v] == expected[v] by {
        assert forall|w: AccountId| #[trigger]
            backers(longer, v).contains(w) == (backers(edges, v).contains(w) || (v
                == edge.validator && w == edge.voter)) by {
            if exists|i: int| leads_from_to(longer, i, w, v) {
                let i = choose|i: int| leads_from_to(longer, i, w, v);
                if i < edges.len() {
                    assert(leads_from_to(edges, i, w, v));
                }
            }
            if exists|i: int| leads_from_to(edges, i, w, v) {
                let i = choose|i: int| leads_from_to(edges, i, w, v);
                assert(leads_from_to(longer, i, w, v));
            }
        }
        if v == edge.validator {
            assert(backers(longer, v) =~= backers(edges, v).insert(edge.voter));
        } else {
            assert(backers(longer, v) =~= backers(edges, v));
        }
    }
    assert(support_of(longer) =~= expected);
}

proof fn lemma_unsupported(edges: Seq<Edge>, validator: AccountId)
    requires
        !support_of(edges).contains_key(validator),
    ensures
        total_for(edges, validator) == 0,
        backers(edges, validator) == Set::<AccountId>::empty(),
    decreases edges.len(),
{
    assert(backers(edges, validator) =~= Set::<AccountId>::empty());
    if edges.len() > 0 {
        let shorter = edges.drop_last();
        assert(!support_of(shorter).contains_key(validator)) by {
            if exists|i: int| leads_to(shorter, i, validator) {
                let i = choose|i: int| leads_to(shorter, i, validator);
                assert(leads_to(edges, i, validator));
            }
        }
        assert(!leads_to(edges, edges.len() - 1, validator));
        lemma_unsupported(shorter, validator);
    }
}

/// No validator gets more than the sum of all amounts.
pub proof fn total_for_at_most_total_amount(edges: Seq<Edge>, validator: AccountId)
    ensures
        total_for(edges, validator) <= total_amount(edges),
    decreases edges.len(),
{
    if edges.len() > 0 {
        total_for_at_most_total_amount(edges.drop_last(), validator);
    }
}

proof fn lemma_total_amount_add(a: Seq<Edge>, b: Seq<Edge>)
    ensures
        total_amount(a + b) == total_amount(a) + total_amount(b),
    decreases b.len(),
{
    if b.len() == 0 {
        assert(a + b =~= a);
    } else {
        assert((a + b).drop_last() =~= a + b.drop_last());
        lemma_total_amount_add(a, b.drop_last());
    }
}

proof fn lemma_total_amount_equal_parts(edges: Seq<Edge>, part: nat)
    requires
        forall|i: int| 0 <= i < edges.len() ==> (#[trigger] edges[i]).amount == part,
    ensures
        total_amount(edges) == edges.len() * part,
    decreases edges.len(),
{
    if edges.len() > 0 {
        lemma_total_amount_equal_parts(edges.drop_last(), part);
        assert((edges.len() - 1) * part + part == edges.len() * part) by (nonlinear_arith);
    }
}

/// An assignment hands out no more than the stake of its voter, and what rounding keeps back is
/// less than one unit for each entry of the distribution.
pub proof fn equal_split_hands_out_the_stake(
    assignment: AssignmentView,
    stakes: Map<AccountId, u64>,
)
    requires
        stakes.contains_key(assignment.who),
        assignment.distribution.len() > 0,
    ensures
        total_amount(edges_of(assignment, stakes)) <= stakes[assignment.who],
        stakes[assignment.who] < total_amount(edges_of(assignment, stakes))
            + assignment.distribution.len(),
{
    let stake = stakes[assignment.who] as nat;
    let n = assignment.distribution.len();
    lemma_total_amount_equal_parts(edges_of(assignment, stakes), stake / n);
    assert(n * (stake / n) <= stake && stake < n * (stake / n) + n) by (nonlinear_arith)
        requires
            n > 0,
    ;
}

proof fn lemma_edges_of_amount(assignment: AssignmentView, stakes: Map<AccountId, u64>)
    ensures
        total_amount(edges_of(assignment, stakes)) <= u64::MAX,
{
    if stakes.contains_key(assignment.who) && assignment.distribution.len() > 0 {
        equal_split_hands_out_the_stake(assignment, stakes);
    } else {
        assert(edges_of(assignment, stakes).len() == 0);
    }
}

/// All assignments together hand out at most the largest stake for each of them.
pub proof fn total_amount_bounded(assignments: Seq<AssignmentView>, stakes: Map<AccountId, u64>)
    ensures
        total_amount(all_edges(assignments, stakes)) <= assignments.len() * u64::MAX,
    decreases assignments.len(),
{
    if assignments.len() > 0 {
        let shorter = assignments.drop_last();
        total_amount_bounded(shorter, stakes);
        lemma_edges_of_amount(assignments.last(), stakes);
        lemma_total_amount_add(
            all_edges(shorter, stakes),
            edges_of(assignments.last(), stakes),
        );
    }
}

proof fn lemma_all_edges_take(
    assignments: Seq<AssignmentView>,
    stakes: Map<AccountId, u64>,
    i: int,
)
    requires
        0 <= i < assignments.len(),
    ensures
        all_edges(assignments.take(i + 1), stakes) == all_edges(assignments.take(i), stakes)
            + edges_of(assignments[i], stakes),
{
    assert(assignments.take(i + 1).drop_last() =~= assignments.take(i));
}

/// The stake of each voter of the pages.
pub fn voter_stakes(pages: &Vec<VoterPage>) -> (stakes: AccountMap<u64>)
    ensures
        stakes@ == stakes_of(page_views(pages@).flatten()),
{
    let mut stakes: AccountMap<u64> = AccountMap::new();
    let ghost views = page_views(pages@);
    assert(views.take(0) =~= Seq::empty());
    let mut p: usize = 0;
    while p < pages.len()
        invariant
            p <= pages@.len(),
            views == page_views(pages@),
            stakes@ == stakes_of(views.take(p as int).flatten()),
        decreases pages@.len() - p,
    {
        let page: &VoterPage = &pages[p];
        let ghost done = views.take(p as int).flatten();
        let ghost voters = voter_views(page@);
        assert(done + voters.take(0) =~= done);
        let mut v: usize = 0;
        while v < page.len()
            invariant
                v <= page@.len(),
                voters == voter_views(page@),
                stakes@ == stakes_of(done + voters.take(v as int)),
            decreases page@.len() - v,
        {
            stakes.insert(page[v].who, page[v].stake);
            proof {
                let so_far = done + voters.take(v as int);
                let next = done + voters.take(v + 1);
                assert(next.drop_last() =~= so_far);
                assert(next.last() == page@[v as int]@);
            }
            v = v + 1;
        }
        proof {
            assert(voters.take(v as int) =~= voters);
            assert(views.take(p + 1) =~= views.take(p as int).push(voters));
            views.take(p as int).lemma_flatten_push(voters);
        }
        p = p + 1;
    }
    assert(views.take(p as int) =~= views);
    stakes
}

/// Adds one edge to the support of its validator.
fn add_edge(
    support: &mut AccountMap<Support>,
    voter: AccountId,
    validator: AccountId,
    part: u128,
    Ghost(edges): Ghost<Seq<Edge>>,
)
    requires
        support_views(old(support)@) == support_of(edges),
        total_amount(edges) + part <= u128::MAX,
    ensures
        support_views(final(support)@) == support_of(
            edges.push(Edge { voter, validator, amount: part as nat }),
        ),
{
    let ghost edge = Edge { voter, validator, amount: part as nat };
    let ghost before = support@;
    let placeholder = Support { total: 0, nominators: AccountMap::new() };
    let mut entry: Support = match support.insert(validator, placeholder) {
        Some(entry) => entry,
        None => Support { total: 0, nominators: AccountMap::new() },
    };
    proof {
        assert(support_views(before).contains_key(validator) == before.contains_key(validator));
        if before.contains_key(validator) {
            assert(support_views(before)[validator] == entry@);
        } else {
            lemma_unsupported(edges, validator);
            assert(entry.nominators@.dom() =~= Set::<AccountId>::empty());
        }
        assert(entry@.total == total_for(edges, validator));
        assert(entry@.backers == backers(edges, validator));
        total_for_at_most_total_amount(edges, validator);
    }
    entry.total = entry.total + part;
    let ghost nominators = entry.nominators@;
    entry.nominators.insert(voter, ());
    assert(entry.nominators@.dom() =~= nominators.dom().insert(voter));
    let ghost new_view = entry@;
    support.insert(validator, entry);
    proof {
        lemma_support_of_push(edges, edge);
        assert(support_views(support@) =~= support_views(before).insert(validator, new_view));
    }
}

/// The support of each validator, from the assignments and the stakes of the voters.
pub fn tally_support(
    assignments: &Vec<Assignment>,
    stakes: &AccountMap<u64>,
) -> (support: AccountMap<Support>)
    ensures
        support_views(support@) == support_of(
            all_edges(assignment_views(assignments@), stakes@),
        ),
{
    let mut support: AccountMap<Support> = AccountMap::new();
    let ghost views = assignment_views(assignments@);
    proof {
        assert(views.take(0) =~= Seq::empty());
        assert(support_views(support@) =~= support_of(Seq::empty()));
    }
    let mut a: usize = 0;
    while a < assignments.len()
        invariant
            a <= assignments@.len(),
            views == assignment_views(assignments@),
            support_views(support@) == support_of(all_edges(views.take(a as int), stakes@)),
        decreases assignments@.len() - a,
    {
        let assignment: &Assignment = &assignments[a];
        let ghost done = all_edges(views.take(a as int), stakes@);
        let ghost own = edges_of(views[a as int], stakes@);
        proof {
            lemma_all_edges_take(views, stakes@, a as int);
            lemma_total_amount_add(done, own);
            total_amount_bounded(views.take(a + 1), stakes@);
            assert((a + 1) * u64::MAX <= u128::MAX) by (nonlinear_arith)
                requires
                    a + 1 <= u64::MAX,
            ;
        }
        match stakes.get(&assignment.who) {
            Some(stake) => {
                let edges: usize = assignment.distribution.len();
                if edges != 0 {
                    let part: u128 = (*stake as u128) / (edges as u128);
                    let mut d: usize = 0;
                    assert(done + own.take(0) =~= done);
                    while d < edges
                        invariant
                            d <= edges,
                            edges == assignment.distribution@.len(),
                            assignment@ == views[a as int],
                            own.len() == edges,
                            forall|i: int|
                                0 <= i < edges ==> #[trigger] own[i] == (Edge {
                                    voter: assignment.who,
                                    validator: assignment.distribution@[i].0,
                                    amount: part as nat,
                                }),
                            total_amount(done + own) <= u128::MAX,
                            support_views(support@) == support_of(done + own.take(d as int)),
                        decreases edges - d,
                    {
                        proof {
                            let so_far = done + own.take(d as int);
                            assert(so_far.push(own[d as int]) =~= done + own.take(d + 1));
                            assert(done + own =~= so_far.push(own[d as int]) + own.skip(d + 1));
                            lemma_total_amount_add(so_far.push(own[d as int]), own.skip(d + 1));
                            assert(so_far.push(own[d as int]).drop_last() =~= so_far);
                        }
                        add_edge(
                            &mut support,
                            assignment.who,
                            assignment.distribution[d].0,
                            part,
                            Ghost(done + own.take(d as int)),
                        );
                        d = d + 1;
                    }
                    assert(own.take(d as int) =~= own);
                } else {
                    assert(own.len() == 0);
                    assert(done + own =~= done);
                }
            },
            None => {
                assert(done + own =~= done);
            },
        }
        a = a + 1;
    }
    assert(views.take(a as int) =~= views);
    support
}

/// Finitely many validators have support.
pub proof fn support_finite(edges: Seq<Edge>)
    ensures
        support_of(edges).dom().finite(),
{
    let validators = edges.map_values(|e: Edge| e.validator);
    vstd::seq_lib::seq_to_set_is_finite(validators);
    assert(support_of(edges).dom().subset_of(validators.to_set())) by {
        assert forall|v: AccountId| support_of(edges).dom().contains(
            v,
        ) implies validators.to_set().contains(v) by {
            let i = choose|i: int| leads_to(edges, i, v);
            assert(validators[i] == v);
        }
    }
    vstd::set_lib::lemma_set_subset_finite(validators.to_set(), support_of(edges).dom());
}

} // verus!
