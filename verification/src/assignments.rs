//! Collecting the assignments of a paged solution.

use crate::account::AccountId;
use crate::text::account_hex;
use crate::text::account_text;
use crate::types::assignment_views;
use crate::types::Assignment;
use crate::types::AssignmentView;
use crate::types::Error;
use crate::types::VoterPage;
use vstd::prelude::*;

verus! {

/// What the conversion of one solution page into assignments gave: the assignments, or the
/// reason of its failure in debug form.
pub type PageConversion = Result<Vec<Assignment>, String>;

/// Resolves a voter index of a solution page: the account of that voter of the page.
pub fn voter_at(voter_page: &VoterPage, voter_index: usize) -> (r: Option<AccountId>)
    ensures
        r == (if voter_index < voter_page@.len() {
            Some(voter_page@[voter_index as int].who)
        } else {
            None
        }),
{
    if voter_index < voter_page.len() {
        Some(voter_page[voter_index].who)
    } else {
        None
    }
}

/// Resolves a target index of a solution page: that account of the target snapshot.
pub fn target_at(target_snapshot: &Vec<AccountId>, target_index: usize) -> (r: Option<AccountId>)
    ensures
        r == (if target_index < target_snapshot@.len() {
            Some(target_snapshot@[target_index as int])
        } else {
            None
        }),
{
    if target_index < target_snapshot.len() {
        Some(target_snapshot[target_index])
    } else {
        None
    }
}

/// The text of the error for a page that could not be converted.
pub open spec fn assignment_error_text(reason: Seq<char>) -> Seq<char> {
    "Assignment error: "@ + reason
}

/// The assignments of converted pages, page after page; the first failure ends it.
pub open spec fn collected(converted: Seq<PageConversion>) -> Result<
    Seq<AssignmentView>,
    Seq<char>,
>
    decreases converted.len(),
{
    if converted.len() == 0 {
        Ok(Seq::empty())
    } else {
        match collected(converted.drop_last()) {
            Ok(assignments) => match converted.last() {
                Ok(page) => Ok(assignments + assignment_views(page@)),
                Err(reason) => Err(assignment_error_text(reason@)),
            },
            Err(text) => Err(text),
        }
    }
}

/// The number of solution pages that count: a solution page without a voter page of the same
/// position is passed over.
pub open spec fn pages_that_count(solution_pages: nat, voter_pages: nat) -> nat {
    if solution_pages <= voter_pages {
        solution_pages
    } else {
        voter_pages
    }
}

/// `converted` is what the conversion of the solution pages that count gave, page after page,
/// each resolved against the voter page of the same position and the target snapshot. It ends
/// with the first page that failed, if one did.
pub open spec fn conversions_of<F: Fn(usize, &VoterPage, &Vec<AccountId>) -> PageConversion>(
    into_assignment: F,
    solution_pages: nat,
    target_snapshot: &Vec<AccountId>,
    voter_snapshot_pages: &Vec<VoterPage>,
    converted: Seq<PageConversion>,
) -> bool {
    let counting = pages_that_count(solution_pages, voter_snapshot_pages@.len());
    &&& converted.len() <= counting
    &&& forall|i: int|
        0 <= i < converted.len() ==> call_ensures(
            into_assignment,
            (i as usize, &voter_snapshot_pages@[i], target_snapshot),
            #[trigger] converted[i],
        )
    &&& forall|i: int| 0 <= i < converted.len() - 1 ==> (#[trigger] converted[i]) is Ok
    &&& converted.len() < counting ==> converted.len() > 0 && converted.last() is Err
}

/// The views of the assignments, or the text of the error.
pub open spec fn outcome_view(r: Result<Vec<Assignment>, Error>) -> Result<
    Seq<AssignmentView>,
    Seq<char>,
> {
    match r {
        Ok(assignments) => Ok(assignment_views(assignments@)),
        Err(e) => Err(e.text()),
    }
}

/// `r` is the outcome of collecting the converted pages.
pub open spec fn is_collection(
    converted: Seq<PageConversion>,
    r: Result<Vec<Assignment>, Error>,
) -> bool {
    outcome_view(r) == collected(converted)
}

/// `r` is an outcome of collecting the assignments of a paged solution: the solution pages that
/// count are converted, page after page, and what they gave is collected.
pub open spec fn assigns<F: Fn(usize, &VoterPage, &Vec<AccountId>) -> PageConversion>(
    into_assignment: F,
    solution_pages: nat,
    target_snapshot: &Vec<AccountId>,
    voter_snapshot_pages: &Vec<VoterPage>,
    r: Result<Vec<Assignment>, Error>,
) -> bool {
    exists|converted: Seq<PageConversion>|
        #![trigger collected(converted)]
        conversions_of(
            into_assignment,
            solution_pages,
            target_snapshot,
            voter_snapshot_pages,
            converted,
        ) && is_collection(converted, r)
}

/// Puts the assignments of converted pages together, page after page. The first conversion that
/// failed makes the whole fail.
pub fn collect_assignments(converted: Vec<PageConversion>) -> (r: Result<Vec<Assignment>, Error>)
    ensures
        is_collection(converted@, r),
{
    let ghost all = converted@;
    let mut pages: Vec<PageConversion> = converted;
    let mut assignments: Vec<Assignment> = Vec::new();
    let mut p: usize = 0;
    proof {
        assert(all.take(0) =~= Seq::empty());
        assert(assignment_views(assignments@) =~= Seq::empty());
    }
    while p < pages.len()
        invariant
            p <= pages@.len(),
            pages@.len() == all.len(),
            forall|i: int| p <= i < all.len() ==> pages@[i] == #[trigger] all[i],
            collected(all.take(p as int)) == Ok::<Seq<AssignmentView>, Seq<char>>(
                assignment_views(assignments@),
            ),
            all == converted@,
        decreases all.len() - p,
    {
        let mut page: PageConversion = Ok(Vec::new());
        std::mem::swap(&mut page, &mut pages[p]);
        proof {
            assert(page == all[p as int]);
            assert(all.take(p + 1).drop_last() =~= all.take(p as int));
        }
        match page {
            Ok(mut of_page) => {
                let ghost before = assignments@;
                let ghost added = of_page@;
                assignments.append(&mut of_page);
                assert(assignment_views(assignments@) =~= assignment_views(before)
                    + assignment_views(added));
            },
            Err(reason) => {
                let mut text: String = "Assignment error: ".to_owned();
                text.append(reason.as_str());
                proof {
                    lemma_failure_stays(all, p + 1);
                }
                return Err(Error::Other(text));
            },
        }
        p = p + 1;
    }
    assert(all.take(p as int) =~= all);
    Ok(assignments)
}

/// The assignments of a paged solution, page after page.
///
/// `into_assignment` converts the solution page of a position into assignments. It gets the
/// voter page of the same position and the target snapshot, on which [`voter_at`] and
/// [`target_at`] resolve the indices of the solution. A solution page without such a voter page
/// is passed over, and the first page that cannot be converted makes the whole fail.
pub fn all_assignments<F: Fn(usize, &VoterPage, &Vec<AccountId>) -> PageConversion>(
    into_assignment: F,
    solution_pages: usize,
    target_snapshot: &Vec<AccountId>,
    voter_snapshot_pages: &Vec<VoterPage>,
) -> (r: Result<Vec<Assignment>, Error>)
    requires
        forall|i: usize|
            i < pages_that_count(solution_pages as nat, voter_snapshot_pages@.len())
                ==> #[trigger] call_requires(
                into_assignment,
                (i, &voter_snapshot_pages@[i as int], target_snapshot),
            ),
    ensures
        assigns(
            into_assignment,
            solution_pages as nat,
            target_snapshot,
            voter_snapshot_pages,
            r,
        ),
{
    let mut converted: Vec<PageConversion> = Vec::new();
    let mut failed: bool = false;
    let mut page_idx: usize = 0;
    while page_idx < solution_pages && page_idx < voter_snapshot_pages.len() && !failed
        invariant
            page_idx <= pages_that_count(solution_pages as nat, voter_snapshot_pages@.len()),
            page_idx == converted@.len(),
            forall|i: usize|
                i < pages_that_count(solution_pages as nat, voter_snapshot_pages@.len())
                    ==> #[trigger] call_requires(
                    into_assignment,
                    (i, &voter_snapshot_pages@[i as int], target_snapshot),
                ),
            forall|i: int|
                0 <= i < converted@.len() ==> call_ensures(
                    into_assignment,
                    (i as usize, &voter_snapshot_pages@[i], target_snapshot),
                    #[trigger] converted@[i],
                ),
            forall|i: int| 0 <= i < converted@.len() - 1 ==> (#[trigger] converted@[i]) is Ok,
            failed == (converted@.len() > 0 && converted@.last() is Err),
        decreases solution_pages - page_idx,
    {
        let page = into_assignment(page_idx, &voter_snapshot_pages[page_idx], target_snapshot);
        failed = page.is_err();
        converted.push(page);
        page_idx = page_idx + 1;
    }
    let ghost all = converted@;
    let r = collect_assignments(converted);
    assert(is_collection(all, r));
    r
}

proof fn lemma_failure_stays(converted: Seq<PageConversion>, n: int)
    requires
        0 <= n <= converted.len(),
        collected(converted.take(n)) is Err,
    ensures
        collected(converted) == collected(converted.take(n)),
    decreases converted.len() - n,
{
    if n == converted.len() {
        assert(converted.take(n) =~= converted);
    } else {
        assert(converted.take(n + 1).drop_last() =~= converted.take(n));
        lemma_failure_stays(converted, n + 1);
    }
}

/// The account of an assignment in text form, and how many validators it is distributed to.
pub fn assignment_info(assignment: &Assignment) -> (r: (String, usize))
    ensures
        r.0@ == account_text(assignment.who),
        r.1 == assignment.distribution@.len(),
{
    let account = account_hex(&assignment.who);
    let targets_count: usize = assignment.distribution.len();
    (account, targets_count)
}

/// A solution fails to convert exactly when one of the pages that count does.
pub proof fn collected_fails_iff_a_page_fails(converted: Seq<PageConversion>)
    ensures
        collected(converted) is Err <==> exists|i: int|
            0 <= i < converted.len() && (#[trigger] converted[i]) is Err,
    decreases converted.len(),
{
    if converted.len() > 0 {
        let shorter = converted.drop_last();
        collected_fails_iff_a_page_fails(shorter);
        if exists|i: int| 0 <= i < converted.len() && (#[trigger] converted[i]) is Err {
            let i = choose|i: int| 0 <= i < converted.len() && (#[trigger] converted[i]) is Err;
            if i < shorter.len() {
                assert(shorter[i] is Err);
            }
        }
        if exists|i: int| 0 <= i < shorter.len() && (#[trigger] shorter[i]) is Err {
            let i = choose|i: int| 0 <= i < shorter.len() && (#[trigger] shorter[i]) is Err;
            assert(converted[i] is Err);
        }
        if converted.last() is Err {
            assert(converted[converted.len() - 1] is Err);
        }
    }
}

/// The views of the assignments that the conversion of a page gave, or the reason of its failure.
pub open spec fn conversion_view(converted: PageConversion) -> Result<
    Seq<AssignmentView>,
    Seq<char>,
> {
    match converted {
        Ok(page) => Ok(assignment_views(page@)),
        Err(reason) => Err(reason@),
    }
}

/// The two lists of converted pages have the same views, page by page.
pub open spec fn same_views(a: Seq<PageConversion>, b: Seq<PageConversion>) -> bool {
    &&& a.len() == b.len()
    &&& forall|i: int|
        0 <= i < a.len() ==> conversion_view(#[trigger] a[i]) == conversion_view(b[i])
}

/// What is collected depends on the views of the converted pages alone.
pub proof fn collected_by_views(a: Seq<PageConversion>, b: Seq<PageConversion>)
    requires
        same_views(a, b),
    ensures
        collected(a) == collected(b),
    decreases a.len(),
{
    if a.len() > 0 {
        let last = a.len() - 1;
        assert(conversion_view(a[last]) == conversion_view(b[last]));
        assert forall|i: int| 0 <= i < last implies conversion_view(#[trigger] a.drop_last()[i])
            == conversion_view(b.drop_last()[i]) by {
            assert(conversion_view(a[i]) == conversion_view(b[i]));
        }
        collected_by_views(a.drop_last(), b.drop_last());
    }
}

/// The list ends with the first page that failed, if one did, and has `counting` pages otherwise.
spec fn stops_at_failure(converted: Seq<PageConversion>, counting: nat) -> bool {
    &&& converted.len() <= counting
    &&& forall|i: int| 0 <= i < converted.len() - 1 ==> (#[trigger] converted[i]) is Ok
    &&& converted.len() < counting ==> converted.len() > 0 && converted.last() is Err
}

/// Lists that stop at the first failure and have the same views as far as both go are equally
/// long.
proof fn lemma_same_stop(a: Seq<PageConversion>, b: Seq<PageConversion>, counting: nat)
    requires
        stops_at_failure(a, counting),
        stops_at_failure(b, counting),
        forall|i: int|
            0 <= i < a.len() && i < b.len() ==> conversion_view(#[trigger] a[i])
                == conversion_view(b[i]),
    ensures
        same_views(a, b),
        collected(a) == collected(b),
{
    if a.len() < b.len() {
        let last = a.len() - 1;
        assert(conversion_view(a[last]) == conversion_view(b[last]));
        assert(b[last] is Ok);
    } else if b.len() < a.len() {
        let last = b.len() - 1;
        assert(conversion_view(a[last]) == conversion_view(b[last]));
        assert(a[last] is Ok);
    }
    collected_by_views(a, b);
}

/// Where all pages were converted, what is collected is the assignments of the pages, one page
/// after the other.
pub proof fn collected_page_by_page(converted: Seq<PageConversion>)
    requires
        forall|i: int| 0 <= i < converted.len() ==> (#[trigger] converted[i]) is Ok,
    ensures
        collected(converted) == Ok::<Seq<AssignmentView>, Seq<char>>(
            converted.map_values(
                |page: PageConversion|
                    page->Ok_0@.map_values(|assignment: Assignment| assignment@),
            ).flatten(),
        ),
    decreases converted.len(),
{
    let of_page = |page: PageConversion|
        page->Ok_0@.map_values(|assignment: Assignment| assignment@);
    let pages = converted.map_values(of_page);
    if converted.len() == 0 {
        assert(pages =~= Seq::empty());
        assert(pages.flatten() =~= Seq::empty());
    } else {
        let shorter = converted.drop_last();
        assert forall|i: int| 0 <= i < shorter.len() implies (#[trigger] shorter[i]) is Ok by {
            assert(converted[i] is Ok);
        }
        collected_page_by_page(shorter);
        assert(converted[converted.len() - 1] is Ok);
        let last = of_page(converted.last());
        assert(pages =~= shorter.map_values(of_page).push(last));
        shorter.map_values(of_page).lemma_flatten_push(last);
        assert(last =~= assignment_views(converted.last()->Ok_0@));
    }
}

/// The first page that failed decides the error, whatever comes behind it.
pub proof fn collected_fails_with_the_first(converted: Seq<PageConversion>, i: int)
    requires
        0 <= i < converted.len(),
        forall|j: int| 0 <= j < i ==> (#[trigger] converted[j]) is Ok,
        converted[i] is Err,
    ensures
        collected(converted) == Err::<Seq<AssignmentView>, Seq<char>>(
            "Assignment error: "@ + converted[i]->Err_0@,
        ),
{
    let first = converted.take(i + 1);
    assert(first.drop_last() =~= converted.take(i));
    collected_fails_iff_a_page_fails(converted.take(i));
    lemma_failure_stays(converted, i + 1);
}

/// The assignments of a paged solution are those of its pages, one page after the other: of every
/// page that has a voter page of the same position, converted against that voter page and the
/// target snapshot. It fails exactly where one of these pages does, with the reason of the first.
pub proof fn assignments_page_by_page<
    F: Fn(usize, &VoterPage, &Vec<AccountId>) -> PageConversion,
>(
    into_assignment: F,
    solution_pages: nat,
    target_snapshot: &Vec<AccountId>,
    voter_snapshot_pages: &Vec<VoterPage>,
    r: Result<Vec<Assignment>, Error>,
) -> (converted: Seq<PageConversion>)
    requires
        assigns(into_assignment, solution_pages, target_snapshot, voter_snapshot_pages, r),
    ensures
        converted.len() <= solution_pages,
        converted.len() <= voter_snapshot_pages@.len(),
        forall|i: int|
            0 <= i < converted.len() ==> call_ensures(
                into_assignment,
                (i as usize, &voter_snapshot_pages@[i], target_snapshot),
                #[trigger] converted[i],
            ),
        forall|i: int| 0 <= i < converted.len() - 1 ==> (#[trigger] converted[i]) is Ok,
        r matches Ok(assignments) ==> {
            &&& converted.len() == solution_pages || converted.len()
                == voter_snapshot_pages@.len()
            &&& converted.len() > 0 ==> converted.last() is Ok
            &&& assignments@.map_values(|assignment: Assignment| assignment@)
                == converted.map_values(
                |page: PageConversion|
                    page->Ok_0@.map_values(|assignment: Assignment| assignment@),
            ).flatten()
        },
        r matches Err(Error::Other(text)) ==> {
            &&& converted.len() > 0
            &&& converted.last() is Err
            &&& text@ == "Assignment error: "@ + converted.last()->Err_0@
        },
{
    let converted = lemma_pages_behind(
        into_assignment,
        solution_pages,
        target_snapshot,
        voter_snapshot_pages,
        r,
    );
    lemma_collected_either_way(converted);
    if let Ok(assignments) = r {
        assert(assignments@.map_values(|assignment: Assignment| assignment@)
            =~= assignment_views(assignments@));
    }
    converted
}

/// A list of converted pages in which only the last may have failed.
pub(crate) proof fn lemma_collected_either_way(converted: Seq<PageConversion>)
    requires
        forall|i: int| 0 <= i < converted.len() - 1 ==> (#[trigger] converted[i]) is Ok,
    ensures
        collected(converted) is Ok ==> (converted.len() > 0 ==> converted.last() is Ok)
            && collected(converted)->Ok_0 == converted.map_values(
            |page: PageConversion|
                page->Ok_0@.map_values(|assignment: Assignment| assignment@),
        ).flatten(),
        collected(converted) is Err ==> converted.len() > 0 && converted.last() is Err
            && collected(converted)->Err_0 == "Assignment error: "@
            + converted.last()->Err_0@,
{
    if converted.len() > 0 && converted.last() is Err {
        collected_fails_with_the_first(converted, converted.len() - 1);
    } else {
        assert forall|i: int| 0 <= i < converted.len() implies (#[trigger] converted[i]) is Ok by {
            if i == converted.len() - 1 {
                assert(converted[i] == converted.last());
            }
        }
        collected_page_by_page(converted);
    }
}

/// The conversion can only give one result for each page, as far as the views go.
pub open spec fn one_result<F: Fn(usize, &VoterPage, &Vec<AccountId>) -> PageConversion>(
    into_assignment: F,
    target_snapshot: &Vec<AccountId>,
    voter_snapshot_pages: &Vec<VoterPage>,
) -> bool {
    forall|i: usize, x: PageConversion, y: PageConversion|
        i < voter_snapshot_pages@.len() && #[trigger] call_ensures(
            into_assignment,
            (i, &voter_snapshot_pages@[i as int], target_snapshot),
            x,
        ) && #[trigger] call_ensures(
            into_assignment,
            (i, &voter_snapshot_pages@[i as int], target_snapshot),
            y,
        ) ==> conversion_view(x) == conversion_view(y)
}

/// A conversion that can only give one result for each page determines the converted pages and
/// what is collected from them.
pub proof fn conversions_determined<
    F: Fn(usize, &VoterPage, &Vec<AccountId>) -> PageConversion,
>(
    into_assignment: F,
    solution_pages: nat,
    target_snapshot: &Vec<AccountId>,
    voter_snapshot_pages: &Vec<VoterPage>,
    a: Seq<PageConversion>,
    b: Seq<PageConversion>,
)
    requires
        conversions_of(into_assignment, solution_pages, target_snapshot, voter_snapshot_pages, a),
        conversions_of(into_assignment, solution_pages, target_snapshot, voter_snapshot_pages, b),
        one_result(into_assignment, target_snapshot, voter_snapshot_pages),
    ensures
        same_views(a, b),
        collected(a) == collected(b),
{
    let n: usize = voter_snapshot_pages.len();
    assert forall|i: int| 0 <= i < a.len() && i < b.len() implies conversion_view(
        #[trigger] a[i],
    ) == conversion_view(b[i]) by {
        let k = i as usize;
        assert(call_ensures(
            into_assignment,
            (k, &voter_snapshot_pages@[k as int], target_snapshot),
            a[i],
        ));
        assert(call_ensures(
            into_assignment,
            (k, &voter_snapshot_pages@[k as int], target_snapshot),
            b[i],
        ));
    }
    lemma_same_stop(a, b, pages_that_count(solution_pages, voter_snapshot_pages@.len()));
}

/// A conversion that can only give one result for each page leaves one outcome.
pub proof fn assignments_determined<
    F: Fn(usize, &VoterPage, &Vec<AccountId>) -> PageConversion,
>(
    into_assignment: F,
    solution_pages: nat,
    target_snapshot: &Vec<AccountId>,
    voter_snapshot_pages: &Vec<VoterPage>,
    a: Result<Vec<Assignment>, Error>,
    b: Result<Vec<Assignment>, Error>,
)
    requires
        assigns(into_assignment, solution_pages, target_snapshot, voter_snapshot_pages, a),
        assigns(into_assignment, solution_pages, target_snapshot, voter_snapshot_pages, b),
        one_result(into_assignment, target_snapshot, voter_snapshot_pages),
    ensures
        outcome_view(a) == outcome_view(b),
{
    let of_a = lemma_pages_behind(
        into_assignment,
        solution_pages,
        target_snapshot,
        voter_snapshot_pages,
        a,
    );
    let of_b = lemma_pages_behind(
        into_assignment,
        solution_pages,
        target_snapshot,
        voter_snapshot_pages,
        b,
    );
    conversions_determined(
        into_assignment,
        solution_pages,
        target_snapshot,
        voter_snapshot_pages,
        of_a,
        of_b,
    );
}

/// The converted pages behind an outcome.
proof fn lemma_pages_behind<F: Fn(usize, &VoterPage, &Vec<AccountId>) -> PageConversion>(
    into_assignment: F,
    solution_pages: nat,
    target_snapshot: &Vec<AccountId>,
    voter_snapshot_pages: &Vec<VoterPage>,
    r: Result<Vec<Assignment>, Error>,
) -> (converted: Seq<PageConversion>)
    requires
        assigns(into_assignment, solution_pages, target_snapshot, voter_snapshot_pages, r),
    ensures
        conversions_of(
            into_assignment,
            solution_pages,
            target_snapshot,
            voter_snapshot_pages,
            converted,
        ),
        is_collection(converted, r),
{
    choose|converted: Seq<PageConversion>|
        #![trigger collected(converted)]
        conversions_of(
            into_assignment,
            solution_pages,
            target_snapshot,
            voter_snapshot_pages,
            converted,
        ) && is_collection(converted, r)
}

/// A solution without pages has no assignments.
pub proof fn no_solution_pages<F: Fn(usize, &VoterPage, &Vec<AccountId>) -> PageConversion>(
    into_assignment: F,
    target_snapshot: &Vec<AccountId>,
    voter_snapshot_pages: &Vec<VoterPage>,
    r: Result<Vec<Assignment>, Error>,
)
    requires
        assigns(into_assignment, 0, target_snapshot, voter_snapshot_pages, r),
    ensures
        outcome_view(r) == Ok::<Seq<AssignmentView>, Seq<char>>(Seq::empty()),
{
}

/// The two conversions give results with the same view for `n` pages: the one for those from
/// `f_at` on, the other for those from `g_at` on.
pub open spec fn convert_alike<
    F: Fn(usize, &VoterPage, &Vec<AccountId>) -> PageConversion,
    G: Fn(usize, &VoterPage, &Vec<AccountId>) -> PageConversion,
>(
    f: F,
    f_pages: &Vec<VoterPage>,
    f_at: nat,
    g: G,
    g_pages: &Vec<VoterPage>,
    g_at: nat,
    n: nat,
    target_snapshot: &Vec<AccountId>,
) -> bool {
    forall|i: int, j: int, x: PageConversion, y: PageConversion|
        0 <= i - f_at < n && i - f_at == j - g_at && #[trigger] call_ensures(
            f,
            (i as usize, &f_pages@[i], target_snapshot),
            x,
        ) && #[trigger] call_ensures(g, (j as usize, &g_pages@[j], target_snapshot), y)
            ==> conversion_view(x) == conversion_view(y)
}

/// The pages that count decide: where as many count on both sides, and they are converted alike,
/// the outcomes are the same.
pub proof fn counting_pages_decide<
    F: Fn(usize, &VoterPage, &Vec<AccountId>) -> PageConversion,
    G: Fn(usize, &VoterPage, &Vec<AccountId>) -> PageConversion,
>(
    f: F,
    f_solution_pages: nat,
    f_pages: &Vec<VoterPage>,
    g: G,
    g_solution_pages: nat,
    g_pages: &Vec<VoterPage>,
    target_snapshot: &Vec<AccountId>,
    a: Result<Vec<Assignment>, Error>,
    b: Result<Vec<Assignment>, Error>,
)
    requires
        pages_that_count(f_solution_pages, f_pages@.len()) == pages_that_count(
            g_solution_pages,
            g_pages@.len(),
        ),
        convert_alike(
            f,
            f_pages,
            0,
            g,
            g_pages,
            0,
            pages_that_count(f_solution_pages, f_pages@.len()),
            target_snapshot,
        ),
        assigns(f, f_solution_pages, target_snapshot, f_pages, a),
        assigns(g, g_solution_pages, target_snapshot, g_pages, b),
    ensures
        outcome_view(a) == outcome_view(b),
{
    let of_a = lemma_pages_behind(f, f_solution_pages, target_snapshot, f_pages, a);
    let of_b = lemma_pages_behind(g, g_solution_pages, target_snapshot, g_pages, b);
    assert forall|i: int| 0 <= i < of_a.len() && i < of_b.len() implies conversion_view(
        #[trigger] of_a[i],
    ) == conversion_view(of_b[i]) by {
        assert(call_ensures(f, (i as usize, &f_pages@[i], target_snapshot), of_a[i]));
        assert(call_ensures(g, (i as usize, &g_pages@[i], target_snapshot), of_b[i]));
    }
    lemma_same_stop(of_a, of_b, pages_that_count(f_solution_pages, f_pages@.len()));
}

/// One outcome after another: the assignments of both, or the first error.
pub open spec fn in_turn(
    first: Result<Seq<AssignmentView>, Seq<char>>,
    second: Result<Seq<AssignmentView>, Seq<char>>,
) -> Result<Seq<AssignmentView>, Seq<char>> {
    match first {
        Ok(a) => match second {
            Ok(b) => Ok(a + b),
            Err(text) => Err(text),
        },
        Err(text) => Err(text),
    }
}

/// Converted pages in two parts are collected part after part.
pub proof fn collected_in_turn(a: Seq<PageConversion>, b: Seq<PageConversion>)
    ensures
        collected(a + b) == in_turn(collected(a), collected(b)),
    decreases b.len(),
{
    if b.len() == 0 {
        assert(a + b =~= a);
        if let Ok(of_a) = collected(a) {
            assert(of_a + Seq::<AssignmentView>::empty() =~= of_a);
        }
    } else {
        let shorter = b.drop_last();
        assert((a + b).drop_last() =~= a + shorter);
        collected_in_turn(a, shorter);
        if let (Ok(of_a), Ok(of_shorter), Ok(page)) = (
            collected(a),
            collected(shorter),
            b.last(),
        ) {
            let of_page = assignment_views(page@);
            assert((of_a + of_shorter) + of_page =~= of_a + (of_shorter + of_page));
        }
    }
}

/// A solution and voter pages that are split in two at the same place: the whole is converted
/// exactly where both parts are, and then gives the assignments of the first part followed by
/// those of the second. Otherwise it gives the error of the first part, or of the second where
/// the first has none.
pub proof fn split_pages_in_turn<
    F: Fn(usize, &VoterPage, &Vec<AccountId>) -> PageConversion,
    G: Fn(usize, &VoterPage, &Vec<AccountId>) -> PageConversion,
    H: Fn(usize, &VoterPage, &Vec<AccountId>) -> PageConversion,
>(
    whole: F,
    pages: &Vec<VoterPage>,
    first: G,
    first_pages: &Vec<VoterPage>,
    second: H,
    second_solution_pages: nat,
    second_pages: &Vec<VoterPage>,
    target_snapshot: &Vec<AccountId>,
    r: Result<Vec<Assignment>, Error>,
    of_first: Result<Vec<Assignment>, Error>,
    of_second: Result<Vec<Assignment>, Error>,
)
    requires
        pages@.len() == first_pages@.len() + second_pages@.len(),
        convert_alike(
            whole,
            pages,
            0,
            first,
            first_pages,
            0,
            first_pages@.len(),
            target_snapshot,
        ),
        convert_alike(
            whole,
            pages,
            first_pages@.len(),
            second,
            second_pages,
            0,
            pages_that_count(second_solution_pages, second_pages@.len()),
            target_snapshot,
        ),
        assigns(
            whole,
            first_pages@.len() + second_solution_pages,
            target_snapshot,
            pages,
            r,
        ),
        assigns(first, first_pages@.len(), target_snapshot, first_pages, of_first),
        assigns(second, second_solution_pages, target_snapshot, second_pages, of_second),
    ensures
        outcome_view(r) == in_turn(outcome_view(of_first), outcome_view(of_second)),
{
    let at = first_pages@.len();
    let a = lemma_pages_behind(first, at, target_snapshot, first_pages, of_first);
    let b = lemma_pages_behind(
        second,
        second_solution_pages,
        target_snapshot,
        second_pages,
        of_second,
    );
    let c = lemma_pages_behind(whole, at + second_solution_pages, target_snapshot, pages, r);
    collected_fails_iff_a_page_fails(a);
    let both = if collected(a) is Ok {
        a + b
    } else {
        a
    };
    assert forall|i: int| 0 <= i < c.len() && i < both.len() implies conversion_view(
        #[trigger] c[i],
    ) == conversion_view(both[i]) by {
        assert(call_ensures(whole, (i as usize, &pages@[i], target_snapshot), c[i]));
        if i < a.len() {
            assert(both[i] == a[i]);
            assert(call_ensures(first, (i as usize, &first_pages@[i], target_snapshot), a[i]));
        } else {
            let j = i - a.len();
            assert(a.len() == at);
            assert(both[i] == b[j]);
            assert(call_ensures(second, (j as usize, &second_pages@[j], target_snapshot), b[j]));
        }
    }
    let counting = pages_that_count(at + second_solution_pages, pages@.len());
    if collected(a) is Ok {
        assert(a.len() == at);
        assert forall|i: int| 0 <= i < both.len() - 1 implies (#[trigger] both[i]) is Ok by {
            if i < a.len() {
                assert(both[i] == a[i]);
            } else {
                assert(both[i] == b[i - a.len()]);
            }
        }
        if both.len() < counting {
            assert(both.last() == b.last());
        }
        collected_in_turn(a, b);
    } else {
        assert(both.last() is Err);
    }
    lemma_same_stop(c, both, counting);
}

/// Voter pages past the last solution page change nothing of the assignments: the outcomes are
/// the same with them and without.
pub proof fn voter_pages_past_the_solution<
    F: Fn(usize, &VoterPage, &Vec<AccountId>) -> PageConversion,
>(
    into_assignment: F,
    solution_pages: nat,
    target_snapshot: &Vec<AccountId>,
    voter_snapshot_pages: &Vec<VoterPage>,
    more_pages: &Vec<VoterPage>,
    r: Result<Vec<Assignment>, Error>,
)
    requires
        solution_pages <= voter_snapshot_pages@.len(),
        voter_snapshot_pages@.is_prefix_of(more_pages@),
    ensures
        assigns(into_assignment, solution_pages, target_snapshot, voter_snapshot_pages, r)
            <==> assigns(into_assignment, solution_pages, target_snapshot, more_pages, r),
{
    assert forall|converted: Seq<PageConversion>| #[trigger]
        conversions_of(
            into_assignment,
            solution_pages,
            target_snapshot,
            voter_snapshot_pages,
            converted,
        ) == conversions_of(
            into_assignment,
            solution_pages,
            target_snapshot,
            more_pages,
            converted,
        ) by {
        assert forall|i: int| 0 <= i < solution_pages implies voter_snapshot_pages@[i]
            == more_pages@[i] by {
            let n = voter_snapshot_pages@.len() as int;
            assert(more_pages@.subrange(0, n)[i] == more_pages@[i]);
        }
    }
}

/// Solution pages past the last voter page change nothing of the assignments: a longer solution
/// whose pages up to there are converted alike has the same outcome.
pub proof fn solution_pages_past_the_voters<
    F: Fn(usize, &VoterPage, &Vec<AccountId>) -> PageConversion,
    G: Fn(usize, &VoterPage, &Vec<AccountId>) -> PageConversion,
>(
    into_assignment: F,
    solution_pages: nat,
    longer: G,
    longer_pages: nat,
    target_snapshot: &Vec<AccountId>,
    voter_snapshot_pages: &Vec<VoterPage>,
    a: Result<Vec<Assignment>, Error>,
    b: Result<Vec<Assignment>, Error>,
)
    requires
        voter_snapshot_pages@.len() <= solution_pages <= longer_pages,
        convert_alike(
            into_assignment,
            voter_snapshot_pages,
            0,
            longer,
            voter_snapshot_pages,
            0,
            voter_snapshot_pages@.len(),
            target_snapshot,
        ),
        assigns(into_assignment, solution_pages, target_snapshot, voter_snapshot_pages, a),
        assigns(longer, longer_pages, target_snapshot, voter_snapshot_pages, b),
    ensures
        outcome_view(a) == outcome_view(b),
{
    counting_pages_decide(
        into_assignment,
        solution_pages,
        voter_snapshot_pages,
        longer,
        longer_pages,
        voter_snapshot_pages,
        target_snapshot,
        a,
        b,
    );
}

} // verus!
