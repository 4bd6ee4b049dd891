use election_prediction::account::AccountId;
use election_prediction::batches::{
    key_batches, BatchAction, BatchRun, BatchSchedule, ScheduleAction,
};
use election_prediction::command::{
    choose_source, first_step, has_snapshot_data, mining_request, serialize_error,
    step_after_desired_targets, write_error, CommandStep, MiningRequest, Phase, PredictConfig,
    PredictionSource,
};
use election_prediction::nominators::{failed_opening_is_empty, streamed_nominator, KeyList};
use election_prediction::stream::{NominatorStream, StreamAction};
use election_prediction::types::{Error, Nominator};

fn account(n: u8) -> AccountId {
    AccountId([n; 32])
}

fn key(n: u8) -> Vec<u8> {
    let mut k = vec![0xee; 20];
    k.extend_from_slice(&[n; 32]);
    k
}

fn nominator(n: u8) -> Nominator {
    Nominator { who: account(n), stake: 1, targets: vec![] }
}

fn message(e: Error) -> String {
    match e {
        Error::Other(s) => s,
    }
}

fn failure() -> Error {
    Error::Other("gone".to_string())
}

#[test]
fn only_streamed_nominators_need_their_keys_opened() {
    assert!(failed_opening_is_empty(KeyList::Validators));
    assert!(failed_opening_is_empty(KeyList::BatchedNominators));
    assert!(!failed_opening_is_empty(KeyList::StreamedNominators));
}

#[test]
fn streamed_nominators_need_nominations_and_stake() {
    let n = streamed_nominator(account(1), Ok(Some(vec![account(2)])), Ok(Some(5))).unwrap();
    assert_eq!(n.who, account(1));
    assert_eq!(n.stake, 5);
    assert_eq!(n.targets, vec![account(2)]);
    assert!(streamed_nominator(account(1), Ok(Some(vec![])), Ok(Some(0))).is_none());
    assert!(streamed_nominator(account(1), Ok(None), Ok(Some(5))).is_none());
    assert!(streamed_nominator(account(1), Ok(Some(vec![])), Ok(None)).is_none());
    assert!(streamed_nominator(account(1), Err(failure()), Ok(Some(5))).is_none());
    assert!(streamed_nominator(account(1), Ok(Some(vec![])), Err(failure())).is_none());
}

#[test]
fn stream_pulls_until_the_limit_and_drains() {
    let mut stream = NominatorStream::new();
    for n in 0..100u8 {
        assert_eq!(stream.next_action(), StreamAction::PullKey);
        assert_eq!(stream.on_key(&key(n)), Some(account(n)));
    }
    assert_eq!(stream.next_action(), StreamAction::AwaitReply);
    stream.on_reply(Some(nominator(7)));
    assert_eq!(stream.next_action(), StreamAction::PullKey);
    assert_eq!(stream.on_key(&[1, 2, 3]), None);
    assert_eq!(stream.next_action(), StreamAction::PullKey);
    stream.on_last_key();
    for _ in 0..99 {
        assert_eq!(stream.next_action(), StreamAction::AwaitReply);
        stream.on_reply(None);
        assert_eq!(stream.next_action(), StreamAction::PullKey);
        stream.on_last_key();
    }
    assert_eq!(stream.next_action(), StreamAction::Finish);
    let voters = stream.finish();
    assert_eq!(voters.len(), 1);
    assert_eq!(voters[0].who, account(7));
}

#[test]
fn stream_without_keys_finishes_empty() {
    let mut stream = NominatorStream::new();
    assert_eq!(stream.next_action(), StreamAction::PullKey);
    stream.on_last_key();
    assert_eq!(stream.next_action(), StreamAction::Finish);
    assert!(stream.finish().is_empty());
}

#[test]
fn keys_are_cut_into_batches() {
    let keys: Vec<Vec<u8>> = (0..2500u32).map(|i| i.to_be_bytes().to_vec()).collect();
    let batches = key_batches(keys.clone());
    let sizes: Vec<usize> = batches.iter().map(|b| b.len()).collect();
    assert_eq!(sizes, vec![1000, 1000, 500]);
    let again: Vec<Vec<u8>> = batches.into_iter().flatten().collect();
    assert_eq!(again, keys);
    assert!(key_batches(vec![]).is_empty());
    assert_eq!(key_batches(vec![vec![1]; 1000]).len(), 1);
    assert_eq!(key_batches(vec![vec![1]; 1001]).len(), 2);
}

#[test]
fn schedule_keeps_the_limit() {
    let mut schedule = BatchSchedule::new(101);
    for n in 0..100 {
        assert_eq!(schedule.next_action(), ScheduleAction::Start(n));
        schedule.on_start();
    }
    assert_eq!(schedule.next_action(), ScheduleAction::AwaitBatch);
    schedule.on_batch(Ok(vec![nominator(1), nominator(2)])).unwrap();
    assert_eq!(schedule.next_action(), ScheduleAction::Start(100));
    schedule.on_start();
    for _ in 0..100 {
        assert_eq!(schedule.next_action(), ScheduleAction::AwaitBatch);
        schedule.on_batch(Ok(vec![nominator(3)])).unwrap();
    }
    assert_eq!(schedule.next_action(), ScheduleAction::Finish);
    let voters = schedule.finish();
    assert_eq!(voters.len(), 102);
    assert_eq!(voters[1].who, account(2));
}

#[test]
fn a_failed_batch_fails_the_schedule() {
    let mut schedule = BatchSchedule::new(1);
    schedule.on_start();
    assert_eq!(message(schedule.on_batch(Err(failure())).unwrap_err()), "gone");
    assert_eq!(BatchSchedule::new(0).next_action(), ScheduleAction::Finish);
}

#[test]
fn a_batch_fetches_ledgers_only_for_nominations() {
    let run = BatchRun::new(vec![vec![1], key(1), key(2), vec![], key(3), key(4), vec![2]]);
    assert_eq!(run.next_action(), BatchAction::FetchNominations(account(1)));
    let run = run.on_nominations(Ok(None)).unwrap();
    assert_eq!(run.next_action(), BatchAction::FetchNominations(account(2)));
    let run = run.on_nominations(Ok(Some(vec![account(9)]))).unwrap();
    assert_eq!(run.next_action(), BatchAction::FetchLedger(account(2)));
    let run = run.on_ledger(Ok(Some(6))).unwrap();
    assert_eq!(run.next_action(), BatchAction::FetchNominations(account(3)));
    let run = run.on_nominations(Ok(Some(vec![]))).unwrap();
    let run = run.on_ledger(Ok(Some(0))).unwrap();
    assert_eq!(run.next_action(), BatchAction::FetchNominations(account(4)));
    let run = run.on_nominations(Ok(Some(vec![]))).unwrap();
    let run = run.on_ledger(Ok(None)).unwrap();
    assert_eq!(run.next_action(), BatchAction::Finish);
    let voters = run.finish();
    assert_eq!(voters.len(), 1);
    assert_eq!(voters[0].who, account(2));
    assert_eq!(voters[0].stake, 6);
    assert_eq!(voters[0].targets, vec![account(9)]);
}

#[test]
fn a_failed_fetch_fails_the_batch() {
    let run = BatchRun::new(vec![key(1)]);
    assert_eq!(message(run.on_nominations(Err(failure())).unwrap_err()), "gone");
    let run = BatchRun::new(vec![key(1)]).on_nominations(Ok(Some(vec![]))).unwrap();
    assert_eq!(message(run.on_ledger(Err(failure())).unwrap_err()), "gone");
    assert_eq!(BatchRun::new(vec![vec![0; 31]]).next_action(), BatchAction::Finish);
}

fn config(desired: Option<u32>, custom: Option<&str>) -> PredictConfig {
    PredictConfig {
        desired_validators: desired,
        custom_nominators_validators: custom.map(|s| s.to_string()),
        output: "out.json".to_string(),
    }
}

#[test]
fn snapshot_phases() {
    assert!(has_snapshot_data(&Phase::Signed(3)));
    assert!(has_snapshot_data(&Phase::Snapshot(0)));
    assert!(has_snapshot_data(&Phase::Done));
    assert!(has_snapshot_data(&Phase::Export(1)));
    assert!(has_snapshot_data(&Phase::Unsigned(1)));
    assert!(!has_snapshot_data(&Phase::Off));
    assert!(!has_snapshot_data(&Phase::Other));
}

#[test]
fn custom_setup_goes_first() {
    let custom = config(None, Some("f"));
    assert_eq!(choose_source(&custom, &Phase::Done), PredictionSource::CustomSetup);
    assert_eq!(choose_source(&config(None, None), &Phase::Done), PredictionSource::Snapshot);
    assert_eq!(choose_source(&config(None, None), &Phase::Off), PredictionSource::LiveData);
}

#[test]
fn desired_validators_from_config_chain_or_default() {
    assert_eq!(
        first_step(&config(Some(4), None), &Phase::Off),
        CommandStep::Predict { source: PredictionSource::LiveData, desired_validators: 4 }
    );
    let asking = config(None, None);
    assert_eq!(first_step(&asking, &Phase::Done), CommandStep::AskDesiredTargets);
    assert_eq!(
        step_after_desired_targets(&asking, &Phase::Done, Some(300)),
        CommandStep::Predict { source: PredictionSource::Snapshot, desired_validators: 300 }
    );
    assert_eq!(
        step_after_desired_targets(&asking, &Phase::Done, None),
        CommandStep::Predict { source: PredictionSource::Snapshot, desired_validators: 19 }
    );
}

#[test]
fn predictions_do_not_reduce() {
    assert_eq!(
        mining_request(4, 7, 19, 1000),
        MiningRequest {
            n_pages: 4,
            round: 7,
            desired_targets: 19,
            block_number: 1000,
            do_reduce: false,
        }
    );
}

#[test]
fn error_texts() {
    assert_eq!(
        message(serialize_error("bad")),
        "Failed to serialize prediction result: bad"
    );
    assert_eq!(
        message(write_error("a.json", "denied")),
        "Failed to write output file a.json: denied"
    );
}

fn chain_nominations(account: &AccountId) -> Option<Vec<AccountId>> {
    if account.0[0] % 3 == 0 {
        None
    } else {
        Some(vec![AccountId([account.0[0] + 100; 32])])
    }
}

fn chain_ledger(account: &AccountId) -> Option<u128> {
    match account.0[0] % 4 {
        0 => None,
        1 => Some(0),
        n => Some(n as u128 * 10),
    }
}

#[test]
fn both_fetches_find_the_same_nominators() {
    let mut keys: Vec<Vec<u8>> = (0..50u8).map(key).collect();
    keys.insert(10, vec![1, 2, 3]);

    let mut run = BatchRun::new(keys.clone());
    let in_batches = loop {
        match run.next_action() {
            BatchAction::FetchNominations(a) => {
                run = run.on_nominations(Ok(chain_nominations(&a))).unwrap();
            }
            BatchAction::FetchLedger(a) => {
                run = run.on_ledger(Ok(chain_ledger(&a))).unwrap();
            }
            BatchAction::Finish => break run.finish(),
        }
    };

    let mut stream = NominatorStream::new();
    let mut remaining = keys.into_iter();
    let mut under_way: Vec<AccountId> = vec![];
    let streamed = loop {
        match stream.next_action() {
            StreamAction::PullKey => match remaining.next() {
                Some(k) => {
                    if let Some(a) = stream.on_key(&k) {
                        under_way.push(a);
                    }
                }
                None => stream.on_last_key(),
            },
            StreamAction::AwaitReply => {
                let a = under_way.pop().unwrap();
                let reply =
                    streamed_nominator(a, Ok(chain_nominations(&a)), Ok(chain_ledger(&a)));
                stream.on_reply(reply);
            }
            StreamAction::Finish => break stream.finish(),
        }
    };

    let expected: Vec<u8> =
        (0..50u8).filter(|n| n % 3 != 0 && n % 4 >= 2).collect();
    let from_batches: Vec<u8> = in_batches.iter().map(|n| n.who.0[0]).collect();
    let mut from_stream: Vec<u8> = streamed.iter().map(|n| n.who.0[0]).collect();
    from_stream.sort();
    assert_eq!(from_batches, expected);
    assert_eq!(from_stream, expected);
    assert!(streamed.iter().all(|n| n.stake > 0));
}
