//! The decisions of the predict command: how many validators are wanted, and where the data of
//! the prediction comes from.

use crate::types::Error;
use vstd::prelude::*;

verus! {

/// Number of validators wanted when neither the configuration nor the chain names one.
pub const DEFAULT_DESIRED_VALIDATORS: u32 = 19;

/// What the command was called with.
#[derive(Debug, Clone)]
pub struct PredictConfig {
    /// Number of validators wanted; the chain is asked where there is none.
    pub desired_validators: Option<u32>,
    /// File with a custom setup, if one is to be used.
    pub custom_nominators_validators: Option<String>,
    /// File to which the prediction is written.
    pub output: String,
}

/// The phase of the election on the chain.
#[derive(Debug, Clone, Copy, PartialEq, Eq, Structural)]
pub enum Phase {
    Off,
    Snapshot(u32),
    Signed(u32),
    Unsigned(u32),
    Done,
    Export(u32),
    /// Any other phase.
    Other,
}

/// Where the data of a prediction comes from.
#[derive(Debug, Clone, Copy, PartialEq, Eq, Structural)]
pub enum PredictionSource {
    /// The custom setup of the configuration.
    CustomSetup,
    /// The snapshot that the chain holds.
    Snapshot,
    /// The live staking data of the chain.
    LiveData,
}

/// The next step of the command.
#[derive(Debug, Clone, Copy, PartialEq, Eq, Structural)]
pub enum CommandStep {
    /// Ask the chain for the desired targets of the current round.
    AskDesiredTargets,
    /// Make the prediction.
    Predict { source: PredictionSource, desired_validators: u32 },
}

/// What a mined solution is asked for.
#[derive(Debug, Clone, Copy, PartialEq, Eq, Structural)]
pub struct MiningRequest {
    pub n_pages: u32,
    pub round: u32,
    pub desired_targets: u32,
    pub block_number: u32,
    /// Whether the solution is to be reduced to fewer edges.
    pub do_reduce: bool,
}

/// The phases in which the chain holds snapshot data.
pub open spec fn snapshot_phase(phase: Phase) -> bool {
    phase is Signed || phase is Snapshot || phase is Done || phase is Export || phase is Unsigned
}

/// A custom setup goes first; without one, the snapshot is used where the chain holds one, and
/// the live data otherwise.
pub open spec fn source_for(custom_setup: bool, phase: Phase) -> PredictionSource {
    if custom_setup {
        PredictionSource::CustomSetup
    } else if snapshot_phase(phase) {
        PredictionSource::Snapshot
    } else {
        PredictionSource::LiveData
    }
}

/// A custom setup is used exactly where the configuration names one, in every phase. Without one,
/// the snapshot of the chain is used exactly in the phases `Signed`, `Snapshot`, `Unsigned`,
/// `Export` and `Done`, whatever number they carry, and the live data in all others.
pub proof fn source_by_setup_and_phase(phase: Phase, n: u32)
    ensures
        source_for(true, phase) is CustomSetup,
        !(source_for(false, phase) is CustomSetup),
        source_for(false, Phase::Signed(n)) is Snapshot,
        source_for(false, Phase::Snapshot(n)) is Snapshot,
        source_for(false, Phase::Unsigned(n)) is Snapshot,
        source_for(false, Phase::Export(n)) is Snapshot,
        source_for(false, Phase::Done) is Snapshot,
        source_for(false, phase) is Snapshot ==> !(phase is Off || phase is Other),
        source_for(false, phase) is LiveData ==> phase is Off || phase is Other,
        snapshot_phase(phase) == (source_for(false, phase) is Snapshot),
{
}

/// Does the chain hold snapshot data in this phase?
pub fn has_snapshot_data(phase: &Phase) -> (r: bool)
    ensures
        r == snapshot_phase(*phase),
        r == match *phase {
            Phase::Off => false,
            Phase::Snapshot(_) => true,
            Phase::Signed(_) => true,
            Phase::Unsigned(_) => true,
            Phase::Done => true,
            Phase::Export(_) => true,
            Phase::Other => false,
        },
{
    match phase {
        Phase::Signed(_) | Phase::Snapshot(_) | Phase::Done | Phase::Export(_)
        | Phase::Unsigned(_) => true,
        _ => false,
    }
}

/// Chooses where the data comes from.
pub fn choose_source(config: &PredictConfig, phase: &Phase) -> (source: PredictionSource)
    ensures
        source == source_for(config.custom_nominators_validators is Some, *phase),
        config.custom_nominators_validators is Some ==> source is CustomSetup,
        config.custom_nominators_validators is None ==> source == (match *phase {
            Phase::Off => PredictionSource::LiveData,
            Phase::Other => PredictionSource::LiveData,
            _ => PredictionSource::Snapshot,
        }),
{
    if config.custom_nominators_validators.is_some() {
        PredictionSource::CustomSetup
    } else if has_snapshot_data(phase) {
        PredictionSource::Snapshot
    } else {
        PredictionSource::LiveData
    }
}

/// The first step: the chain is asked for the number of validators only where the configuration
/// names none.
pub fn first_step(config: &PredictConfig, phase: &Phase) -> (step: CommandStep)
    ensures
        step == (match config.desired_validators {
            Some(count) => CommandStep::Predict {
                source: source_for(config.custom_nominators_validators is Some, *phase),
                desired_validators: count,
            },
            None => CommandStep::AskDesiredTargets,
        }),
        config.desired_validators is None <==> step is AskDesiredTargets,
        step matches CommandStep::Predict { source, desired_validators } ==> {
            &&& config.desired_validators == Some(desired_validators)
            &&& source is CustomSetup <==> config.custom_nominators_validators is Some
            &&& source is LiveData <==> config.custom_nominators_validators is None && (phase
                is Off || phase is Other)
        },
{
    match config.desired_validators {
        Some(count) => CommandStep::Predict {
            source: choose_source(config, phase),
            desired_validators: count,
        },
        None => CommandStep::AskDesiredTargets,
    }
}

/// The step after the chain was asked: its number is taken, or the default where it has none.
pub fn step_after_desired_targets(
    config: &PredictConfig,
    phase: &Phase,
    desired_targets: Option<u32>,
) -> (step: CommandStep)
    ensures
        step == (CommandStep::Predict {
            source: source_for(config.custom_nominators_validators is Some, *phase),
            desired_validators: match desired_targets {
                Some(count) => count,
                None => DEFAULT_DESIRED_VALIDATORS,
            },
        }),
        step matches CommandStep::Predict { source, desired_validators } && {
            &&& desired_targets is Some ==> desired_targets == Some(desired_validators)
            &&& desired_targets is None ==> desired_validators == 19
            &&& source is CustomSetup <==> config.custom_nominators_validators is Some
            &&& source is LiveData <==> config.custom_nominators_validators is None && (phase
                is Off || phase is Other)
        },
{
    let desired_validators: u32 = match desired_targets {
        Some(count) => count,
        None => DEFAULT_DESIRED_VALIDATORS,
    };
    CommandStep::Predict { source: choose_source(config, phase), desired_validators }
}

/// What the miner is asked for. A prediction does not reduce its solution.
pub fn mining_request(
    n_pages: u32,
    round: u32,
    desired_validators: u32,
    block_number: u32,
) -> (request: MiningRequest)
    ensures
        request == (MiningRequest {
            n_pages,
            round,
            desired_targets: desired_validators,
            block_number,
            do_reduce: false,
        }),
{
    MiningRequest {
        n_pages,
        round,
        desired_targets: desired_validators,
        block_number,
        do_reduce: false,
    }
}

/// The error for a prediction that could not be serialized.
pub fn serialize_error(reason: &str) -> (e: Error)
    ensures
        e.text() == "Failed to serialize prediction result: "@ + reason@,
{
    let mut text: String = "Failed to serialize prediction result: ".to_owned();
    text.append(reason);
    Error::Other(text)
}

/// The error for an output file that could not be written.
pub fn write_error(output: &str, reason: &str) -> (e: Error)
    ensures
        e.text() == "Failed to write output file "@ + output@ + ": "@ + reason@,
{
    let mut text: String = "Failed to write output file ".to_owned();
    text.append(output);
    text.append(": ");
    text.append(reason);
    Error::Other(text)
}

} // verus!
