//! A complete prediction: its results and when, where and for how many seats it was made.

use crate::account::AccountId;
use crate::account_map::AccountMap;
use crate::assignments::pages_that_count;
use crate::assignments::PageConversion;
use crate::results::predicts;
use crate::results::process_solution_results;
use crate::types::ElectionStatistics;
use crate::types::Error;
use crate::types::PredictionMetadata;
use crate::types::PredictionResult;
use crate::types::PredictionResults;
use crate::types::PredictionResultsView;
use crate::types::VoterPage;
use vstd::prelude::*;

verus! {

/// A decimal digit.
pub open spec fn is_digit(c: char) -> bool {
    '0' <= c <= '9'
}

/// The text has the form of an instant in coordinated universal time, with the date before and
/// the time of day behind the `T` at position `t`: `1996-12-19T16:39:57+00:00`. The year may have
/// more in front of its last four digits, and a fraction may follow the seconds.
pub open spec fn utc_text_around(text: Seq<char>, t: int) -> bool {
    &&& 10 <= t && t + 15 <= text.len()
    &&& text[t - 6] == '-' && text[t - 3] == '-'
    &&& text[t] == 'T'
    &&& text[t + 3] == ':' && text[t + 6] == ':'
    &&& forall|i: int|
        t - 10 <= i < t + 9 && i != t - 6 && i != t - 3 && i != t && i != t + 3 && i != t + 6
            ==> is_digit(#[trigger] text[i])
    &&& text.skip(text.len() - 6) == "+00:00"@
}

/// The text has the form of an instant in coordinated universal time.
pub open spec fn is_utc_text(text: Seq<char>) -> bool {
    exists|t: int| utc_text_around(text, t)
}

/// A text of that form has 25 characters or more, a `T` among them, and ends in `+00:00`.
pub proof fn utc_text_ends_in_its_offset(text: Seq<char>)
    requires
        is_utc_text(text),
    ensures
        text.len() >= 25,
        text.contains('T'),
        text[text.len() - 6] == '+',
        text[text.len() - 5] == '0',
        text[text.len() - 4] == '0',
        text[text.len() - 3] == ':',
        text[text.len() - 2] == '0',
        text[text.len() - 1] == '0',
{
    reveal_strlit("+00:00");
    let t = choose|t: int| utc_text_around(text, t);
    assert(text[t] == 'T');
    let offset = text.skip(text.len() - 6);
    assert(offset[0] == '+' && offset[1] == '0' && offset[2] == '0' && offset[3] == ':'
        && offset[4] == '0' && offset[5] == '0');
}

/// Calls `chrono::Utc::now` and writes the instant with `to_rfc3339`: year, month, day, `T`,
/// hours, minutes and seconds, a fraction where there is one, and the offset of coordinated
/// universal time. Which instant it is depends on the clock, and nothing is claimed of that.
/// `Utc::now` panics where the clock stands before 1970, or after the last date that chrono knows.
#[verifier::external_body]
fn timestamp_now() -> (r: String)
    ensures
        is_utc_text(r@),
{
    chrono::Utc::now().to_rfc3339()
}

/// The name of the chain that predictions are made for.
pub fn get_chain_name() -> (r: String)
    ensures
        r@ == "Westend Asset Hub"@,
{
    "Westend Asset Hub".to_owned()
}

/// The metadata carries what was given for the prediction.
pub open spec fn made_for(
    metadata: PredictionMetadata,
    block_number: u32,
    chain: Seq<char>,
    desired_validators: u32,
) -> bool {
    &&& metadata.block_number == block_number
    &&& metadata.chain@ == chain
    &&& metadata.desired_validators == desired_validators
}

/// Puts a prediction together.
pub fn prediction_at(
    timestamp: String,
    block_number: u32,
    chain_name: String,
    desired_validators: u32,
    results: PredictionResults,
) -> (prediction: PredictionResult)
    ensures
        prediction.metadata.timestamp@ == timestamp@,
        made_for(prediction.metadata, block_number, chain_name@, desired_validators),
        prediction.results == results,
        prediction.metadata.block_number == block_number,
        prediction.metadata.chain@ == chain_name@,
        prediction.metadata.desired_validators == desired_validators,
{
    PredictionResult {
        metadata: PredictionMetadata {
            timestamp,
            block_number,
            chain: chain_name,
            desired_validators,
        },
        results,
    }
}

/// Results with no validators.
pub open spec fn no_results() -> PredictionResultsView {
    PredictionResultsView {
        active_validators: Seq::empty(),
        statistics: ElectionStatistics { minimum_stake: 0, average_stake: 0, total_staked: 0 },
    }
}

/// The prediction for a custom setup. Custom setups are not evaluated yet: whatever the file,
/// the results are empty and all statistics zero. It is stamped with the current time.
pub fn predict_with_custom_setup(
    _custom_file: String,
    desired_validators: u32,
    block_number: u32,
    chain_name: String,
) -> (prediction: PredictionResult)
    ensures
        made_for(prediction.metadata, block_number, chain_name@, desired_validators),
        is_utc_text(prediction.metadata.timestamp@),
        prediction.results@ == no_results(),
        prediction.results.active_validators@.len() == 0,
        prediction.results.statistics.minimum_stake == 0,
        prediction.results.statistics.average_stake == 0,
        prediction.results.statistics.total_staked == 0,
        prediction.metadata.block_number == block_number,
        prediction.metadata.chain@ == chain_name@,
        prediction.metadata.desired_validators == desired_validators,
{
    let results = PredictionResults {
        active_validators: Vec::new(),
        statistics: ElectionStatistics { minimum_stake: 0, average_stake: 0, total_staked: 0 },
    };
    assert(results@.active_validators =~= no_results().active_validators);
    prediction_at(timestamp_now(), block_number, chain_name, desired_validators, results)
}

/// The prediction for a mined solution, stamped with the current time.
///
/// See [`process_solution_results`] for the results.
pub fn predict_with_solution<F: Fn(usize, &VoterPage, &Vec<AccountId>) -> PageConversion>(
    into_assignment: F,
    solution_pages: usize,
    desired_validators: u32,
    target_snapshot: &Vec<AccountId>,
    voter_snapshot_pages: &Vec<VoterPage>,
    validator_self_stake: &AccountMap<u128>,
    block_number: u32,
    chain_name: String,
) -> (r: Result<PredictionResult, Error>)
    requires
        forall|i: usize|
            i < pages_that_count(solution_pages as nat, voter_snapshot_pages@.len())
                ==> #[trigger] call_requires(
                into_assignment,
                (i, &voter_snapshot_pages@[i as int], target_snapshot),
            ),
    ensures
        r matches Ok(prediction) ==> made_for(
            prediction.metadata,
            block_number,
            chain_name@,
            desired_validators,
        ),
        r matches Ok(prediction) ==> is_utc_text(prediction.metadata.timestamp@),
        r matches Ok(prediction) ==> {
            &&& prediction.metadata.block_number == block_number
            &&& prediction.metadata.chain@ == chain_name@
            &&& prediction.metadata.desired_validators == desired_validators
        },
        predicts(
            into_assignment,
            solution_pages as nat,
            desired_validators as nat,
            target_snapshot,
            voter_snapshot_pages,
            Some(validator_self_stake@),
            results_of(r),
        ),
{
    match process_solution_results(
        into_assignment,
        solution_pages,
        desired_validators,
        target_snapshot,
        voter_snapshot_pages,
        Some(validator_self_stake),
    ) {
        Ok(results) => Ok(
            prediction_at(
                timestamp_now(),
                block_number,
                chain_name,
                desired_validators,
                results,
            ),
        ),
        Err(e) => Err(e),
    }
}

/// The results of a prediction are those that it holds, and its error is the one that it gives.
pub proof fn results_of_a_prediction(prediction: PredictionResult, failure: Error)
    ensures
        results_of(Ok(prediction)) == Ok::<PredictionResults, Error>(prediction.results),
        results_of(Err(failure)) == Err::<PredictionResults, Error>(failure),
{
}

/// The results of a prediction, or its error.
pub open spec fn results_of(r: Result<PredictionResult, Error>) -> Result<
    PredictionResults,
    Error,
> {
    match r {
        Ok(prediction) => Ok(prediction.results),
        Err(e) => Err(e),
    }
}

} // verus!
