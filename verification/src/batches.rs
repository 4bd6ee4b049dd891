//! Fetching nominators in batches: the keys are cut into batches, a limited number of batches is
//! worked on at a time, and each batch fetches its accounts one after the other.

use crate::account::account_of_key;
use crate::account::key_has_an_account;
use crate::account::subxt_account_from_key_bytes;
use crate::account::AccountId;
use crate::nominators::ledger_in;
use crate::nominators::lookup;
use crate::nominators::nominations_in;
use crate::nominators::nominator_of;
use crate::nominators::nominators_of_keys;
use crate::nominators::nominators_of_keys_add;
use crate::nominators::LedgerReply;
use crate::nominators::NominationsReply;
use crate::nominators::CONCURRENCY_LIMIT;
use crate::types::nominator_views;
use crate::types::Error;
use crate::types::Nominator;
use crate::types::NominatorView;
use vstd::prelude::*;

verus! {

/// How many keys make a batch.
pub const BATCH_SIZE: usize = 1000;

/// The views of keys, one by one.
pub open spec fn key_views(keys: Seq<Vec<u8>>) -> Seq<Seq<u8>> {
    keys.map_values(|key: Vec<u8>| key@)
}

/// The views of batches, one by one.
pub open spec fn batch_views(batches: Seq<Vec<Vec<u8>>>) -> Seq<Seq<Seq<u8>>> {
    batches.map_values(|batch: Vec<Vec<u8>>| key_views(batch@))
}

/// The keys cut into batches of `BATCH_SIZE`; the last one may be shorter.
pub open spec fn batches_of(keys: Seq<Seq<u8>>) -> Seq<Seq<Seq<u8>>>
    decreases keys.len(),
{
    if keys.len() == 0 {
        Seq::empty()
    } else if keys.len() <= BATCH_SIZE {
        seq![keys]
    } else {
        seq![keys.take(BATCH_SIZE as int)] + batches_of(keys.skip(BATCH_SIZE as int))
    }
}

/// Cuts the keys into batches.
pub fn key_batches(keys: Vec<Vec<u8>>) -> (batches: Vec<Vec<Vec<u8>>>)
    ensures
        batch_views(batches@) == batches_of(key_views(keys@)),
{
    let ghost all = key_views(keys@);
    let mut rest: Vec<Vec<u8>> = keys;
    let mut batches: Vec<Vec<Vec<u8>>> = Vec::new();
    assert(batch_views(batches@) + batches_of(all) =~= batches_of(all));
    while rest.len() > BATCH_SIZE
        invariant
            batch_views(batches@) + batches_of(key_views(rest@)) == batches_of(all),
        decreases rest@.len(),
    {
        let ghost before = rest@;
        let ghost done = batches@;
        let tail: Vec<Vec<u8>> = rest.split_off(BATCH_SIZE);
        proof {
            assert(key_views(rest@) =~= key_views(before).take(BATCH_SIZE as int));
            assert(key_views(tail@) =~= key_views(before).skip(BATCH_SIZE as int));
            assert(batch_views(done.push(rest)) =~= batch_views(done).push(key_views(rest@)));
            assert(batch_views(done) + (seq![key_views(rest@)] + batches_of(key_views(tail@)))
                =~= batch_views(done.push(rest)) + batches_of(key_views(tail@)));
        }
        batches.push(rest);
        rest = tail;
    }
    if rest.len() > 0 {
        let ghost done = batches@;
        batches.push(rest);
        assert(batch_views(batches@) =~= batch_views(done) + seq![key_views(rest@)]);
    } else {
        assert(batches_of(key_views(rest@)) =~= Seq::empty());
        assert(batch_views(batches@) + batches_of(key_views(rest@)) =~= batch_views(batches@));
    }
    batches
}

/// Cutting into batches loses no key, repeats none and keeps their order; no batch is empty or
/// longer than `BATCH_SIZE`, and all but the last are full.
pub proof fn batches_hold_the_keys(keys: Seq<Seq<u8>>)
    ensures
        batches_of(keys).flatten() == keys,
        forall|i: int|
            0 <= i < batches_of(keys).len() - 1 ==> (#[trigger] batches_of(keys)[i]).len()
                == BATCH_SIZE,
        forall|i: int|
            0 <= i < batches_of(keys).len() ==> 0 < (#[trigger] batches_of(keys)[i]).len()
                <= BATCH_SIZE,
    decreases keys.len(),
{
    if keys.len() == 0 {
    } else if keys.len() <= BATCH_SIZE {
        seq![keys].lemma_flatten_one_element();
        assert(seq![keys].flatten() =~= keys);
    } else {
        let first = keys.take(BATCH_SIZE as int);
        let rest = keys.skip(BATCH_SIZE as int);
        batches_hold_the_keys(rest);
        let all = seq![first] + batches_of(rest);
        assert(all.drop_first() =~= batches_of(rest));
        assert(all.flatten() =~= first + batches_of(rest).flatten());
        assert(first + rest =~= keys);
        assert forall|i: int| 0 <= i < all.len() implies 0 < (#[trigger] all[i]).len()
            <= BATCH_SIZE by {
            if i > 0 {
                assert(all[i] == batches_of(rest)[i - 1]);
            }
        }
        assert forall|i: int| 0 <= i < all.len() - 1 implies (#[trigger] all[i]).len()
            == BATCH_SIZE by {
            if i > 0 {
                assert(all[i] == batches_of(rest)[i - 1]);
            }
        }
    }
}

/// The views hold every key and every batch, each at its place.
pub proof fn key_views_keep_every_key(
    keys: Seq<Vec<u8>>,
    batches: Seq<Vec<Vec<u8>>>,
    i: int,
)
    ensures
        key_views(keys).len() == keys.len(),
        0 <= i < keys.len() ==> key_views(keys)[i] == keys[i]@,
        batch_views(batches).len() == batches.len(),
        0 <= i < batches.len() ==> batch_views(batches)[i] == key_views(batches[i]@),
{
}

/// What is to be done next with the batches.
#[derive(Debug, Clone, Copy, PartialEq, Eq, Structural)]
pub enum ScheduleAction {
    /// Start the batch at this position.
    Start(usize),
    /// Wait for one of the batches under way.
    AwaitBatch,
    /// Nothing is left to do.
    Finish,
}

/// The state of the work on all batches.
#[derive(Debug)]
pub struct BatchSchedule {
    /// Number of batches.
    total: usize,
    /// Batches started.
    started: usize,
    /// Batches under way.
    running: usize,
    /// The nominators of the batches that are done.
    voters: Vec<Nominator>,
}

/// The state of the work on all batches, with the nominators as a sequence.
#[verifier::ext_equal]
pub struct ScheduleView {
    pub total: usize,
    pub started: usize,
    pub running: usize,
    pub voters: Seq<NominatorView>,
}

impl ScheduleView {
    /// What is to be done next: at the limit a batch is awaited, below it the next one is
    /// started, and when all are started those under way are awaited.
    pub open spec fn next_action(self) -> ScheduleAction {
        if self.running >= CONCURRENCY_LIMIT {
            ScheduleAction::AwaitBatch
        } else if self.started < self.total {
            ScheduleAction::Start(self.started)
        } else if self.running > 0 {
            ScheduleAction::AwaitBatch
        } else {
            ScheduleAction::Finish
        }
    }

    /// No more batches are under way than were started and than may be.
    pub open spec fn well_formed(self) -> bool {
        self.running <= self.started <= self.total && self.running <= CONCURRENCY_LIMIT
    }

    /// The state before the first batch is started.
    pub open spec fn initial(total: usize) -> ScheduleView {
        ScheduleView { total, started: 0, running: 0, voters: Seq::empty() }
    }

    /// The state after the next batch was started.
    pub open spec fn after_start(self) -> ScheduleView {
        ScheduleView {
            started: (self.started + 1) as usize,
            running: (self.running + 1) as usize,
            ..self
        }
    }

    /// The state after a batch was done.
    pub open spec fn after_batch(self, voters: Seq<NominatorView>) -> ScheduleView {
        ScheduleView {
            running: (self.running - 1) as usize,
            voters: self.voters + voters,
            ..self
        }
    }
}

impl View for BatchSchedule {
    type V = ScheduleView;

    closed spec fn view(&self) -> ScheduleView {
        ScheduleView {
            total: self.total,
            started: self.started,
            running: self.running,
            voters: nominator_views(self.voters@),
        }
    }
}

impl BatchSchedule {
    #[verifier::type_invariant]
    spec fn well_formed(self) -> bool {
        self.running <= self.started <= self.total && self.running <= CONCURRENCY_LIMIT
    }

    /// A schedule of which nothing has been started.
    pub fn new(total: usize) -> (schedule: Self)
        ensures
            schedule@ == ScheduleView::initial(total),
    {
        let schedule = BatchSchedule { total, started: 0, running: 0, voters: Vec::new() };
        assert(nominator_views(schedule.voters@) =~= Seq::empty());
        schedule
    }

    /// What is to be done next.
    pub fn next_action(&self) -> (action: ScheduleAction)
        ensures
            action == self@.next_action(),
            self@.well_formed(),
    {
        proof {
            use_type_invariant(self);
        }
        if self.running >= CONCURRENCY_LIMIT {
            ScheduleAction::AwaitBatch
        } else if self.started < self.total {
            ScheduleAction::Start(self.started)
        } else if self.running > 0 {
            ScheduleAction::AwaitBatch
        } else {
            ScheduleAction::Finish
        }
    }

    /// Notes that the next batch was started.
    pub fn on_start(&mut self)
        requires
            old(self)@.next_action() is Start,
        ensures
            final(self)@ == old(self)@.after_start(),
    {
        proof {
            use_type_invariant(&*self);
        }
        self.started = self.started + 1;
        self.running = self.running + 1;
    }

    /// Takes what a batch gave. A failed batch makes the whole fail.
    pub fn on_batch(&mut self, outcome: Result<Vec<Nominator>, Error>) -> (r: Result<(), Error>)
        requires
            old(self)@.next_action() == ScheduleAction::AwaitBatch,
        ensures
            match outcome {
                Ok(voters) => r is Ok && final(self)@ == old(self)@.after_batch(
                    nominator_views(voters@),
                ),
                Err(e) => r == Err::<(), Error>(e) && final(self)@ == old(self)@,
            },
    {
        proof {
            use_type_invariant(&*self);
        }
        match outcome {
            Ok(mut of_batch) => {
                let mut voters: Vec<Nominator> = Vec::new();
                std::mem::swap(&mut voters, &mut self.voters);
                let ghost before = voters@;
                let ghost added = of_batch@;
                voters.append(&mut of_batch);
                assert(nominator_views(voters@) =~= nominator_views(before) + nominator_views(
                    added,
                ));
                self.voters = voters;
                self.running = self.running - 1;
                Ok(())
            },
            Err(e) => Err(e),
        }
    }

    /// Hands out the nominators once nothing is left to do.
    pub fn finish(self) -> (voters: Vec<Nominator>)
        requires
            self@.next_action() == ScheduleAction::Finish,
        ensures
            nominator_views(voters@) == self@.voters,
    {
        self.voters
    }
}

/// A schedule begins with nothing. It starts the batches in their order, one at a time, as long as
/// there is one left and the limit is not reached; otherwise it waits as long as a batch is under
/// way. A start takes up one place and finds nothing; a batch that is done gives its place back,
/// and what it found comes behind what was found before.
pub proof fn schedule_step_by_step(
    schedule: ScheduleView,
    total: usize,
    found: Seq<NominatorView>,
)
    requires
        schedule.well_formed(),
    ensures
        ScheduleView::initial(total).total == total,
        ScheduleView::initial(total).started == 0,
        ScheduleView::initial(total).running == 0,
        ScheduleView::initial(total).voters.len() == 0,
        schedule.next_action() matches ScheduleAction::Start(position) ==> {
            let next = schedule.after_start();
            &&& position == schedule.started
            &&& position < schedule.total
            &&& schedule.running < CONCURRENCY_LIMIT
            &&& next.started == schedule.started + 1
            &&& next.running == schedule.running + 1
            &&& next.total == schedule.total
            &&& next.voters == schedule.voters
        },
        schedule.next_action() is AwaitBatch ==> {
            let next = schedule.after_batch(found);
            &&& schedule.running > 0
            &&& schedule.running == CONCURRENCY_LIMIT || schedule.started == schedule.total
            &&& next.running == schedule.running - 1
            &&& next.started == schedule.started
            &&& next.total == schedule.total
            &&& next.voters.len() == schedule.voters.len() + found.len()
            &&& next.voters.take(schedule.voters.len() as int) == schedule.voters
            &&& next.voters.skip(schedule.voters.len() as int) == found
        },
        schedule.next_action() is Finish <==> schedule.running == 0 && schedule.started
            == schedule.total,
{
    let next = schedule.after_batch(found);
    if schedule.next_action() is AwaitBatch {
        assert(next.voters.take(schedule.voters.len() as int) =~= schedule.voters);
        assert(next.voters.skip(schedule.voters.len() as int) =~= found);
    }
}

/// What happens to a schedule.
#[verifier::ext_equal]
pub enum ScheduleEvent {
    Started,
    Done(Seq<NominatorView>),
}

/// The state of a schedule of `total` batches after some events, from the beginning.
pub open spec fn schedule_after(total: usize, events: Seq<ScheduleEvent>) -> ScheduleView
    decreases events.len(),
{
    if events.len() == 0 {
        ScheduleView::initial(total)
    } else {
        let before = schedule_after(total, events.drop_last());
        match events.last() {
            ScheduleEvent::Started => before.after_start(),
            ScheduleEvent::Done(voters) => before.after_batch(voters),
        }
    }
}

/// Each event answers the action that the state before it asks for.
pub open spec fn schedule_follows_actions(total: usize, events: Seq<ScheduleEvent>) -> bool
    decreases events.len(),
{
    events.len() > 0 ==> {
        let action = schedule_after(total, events.drop_last()).next_action();
        &&& schedule_follows_actions(total, events.drop_last())
        &&& match events.last() {
            ScheduleEvent::Started => action is Start,
            ScheduleEvent::Done(_) => action == ScheduleAction::AwaitBatch,
        }
    }
}

/// What the batches that are done gave, in the order in which they were done.
pub open spec fn batches_done(events: Seq<ScheduleEvent>) -> Seq<Seq<NominatorView>>
    decreases events.len(),
{
    if events.len() == 0 {
        Seq::empty()
    } else {
        let before = batches_done(events.drop_last());
        match events.last() {
            ScheduleEvent::Started => before,
            ScheduleEvent::Done(voters) => before.push(voters),
        }
    }
}

/// At every moment the batches under way are those that were started and are not done, they are
/// no more than the limit, and the nominators are those of the batches that are done.
pub proof fn schedule_keeps_every_batch(total: usize, events: Seq<ScheduleEvent>)
    requires
        schedule_follows_actions(total, events),
    ensures
        schedule_after(total, events).total == total,
        schedule_after(total, events).well_formed(),
        schedule_after(total, events).started == schedule_after(total, events).running
            + batches_done(events).len(),
        schedule_after(total, events).voters == batches_done(events).flatten(),
    decreases events.len(),
{
    if events.len() > 0 {
        schedule_keeps_every_batch(total, events.drop_last());
        match events.last() {
            ScheduleEvent::Started => {},
            ScheduleEvent::Done(voters) => {
                batches_done(events.drop_last()).lemma_flatten_push(voters);
            },
        }
    }
}

/// A schedule is finished only when all of its batches are done.
pub proof fn schedule_finishes_when_all_are_done(total: usize, events: Seq<ScheduleEvent>)
    requires
        schedule_follows_actions(total, events),
        schedule_after(total, events).next_action() == ScheduleAction::Finish,
    ensures
        batches_done(events).len() == total,
{
    schedule_keeps_every_batch(total, events);
}

/// What a batch asks for next.
#[derive(Debug, Clone, Copy, PartialEq, Eq)]
pub enum BatchAction {
    /// Fetch the nominations of the account.
    FetchNominations(AccountId),
    /// Fetch the ledger of the account.
    FetchLedger(AccountId),
    /// Nothing is left to do.
    Finish,
}

/// The work on one batch.
#[derive(Debug)]
pub struct BatchRun {
    /// The keys of the batch.
    keys: Vec<Vec<u8>>,
    /// Keys that are dealt with.
    position: usize,
    /// The nominations of the account of the current key, once they are fetched.
    nominations: Option<Vec<AccountId>>,
    /// The nominators found so far.
    voters: Vec<Nominator>,
}

/// The work on one batch, with its collections as sequences.
#[verifier::ext_equal]
pub struct BatchView {
    pub keys: Seq<Seq<u8>>,
    pub position: nat,
    pub nominations: Option<Seq<AccountId>>,
    pub voters: Seq<NominatorView>,
}

/// The first position from `from` on whose key has an account; the number of keys where there is
/// none.
pub open spec fn next_account_position(keys: Seq<Seq<u8>>, from: nat) -> nat
    decreases keys.len() - from,
{
    if from >= keys.len() {
        keys.len()
    } else if account_of_key(keys[from as int]) is Some {
        from
    } else {
        next_account_position(keys, from + 1)
    }
}

impl BatchView {
    /// The batch stands at a key with an account or at its end; nominations are held only for an
    /// account.
    pub open spec fn well_formed(self) -> bool {
        &&& self.position <= self.keys.len()
        &&& self.position < self.keys.len() ==> account_of_key(
            self.keys[self.position as int],
        ) is Some
        &&& self.nominations is Some ==> self.position < self.keys.len()
    }

    /// What is to be done next: for each account its nominations are fetched, and its ledger
    /// where it has nominations.
    pub open spec fn next_action(self) -> BatchAction {
        if self.position >= self.keys.len() {
            BatchAction::Finish
        } else {
            let account = account_of_key(self.keys[self.position as int])->0;
            if self.nominations is Some {
                BatchAction::FetchLedger(account)
            } else {
                BatchAction::FetchNominations(account)
            }
        }
    }

    /// The state before the first fetch.
    pub open spec fn initial(keys: Seq<Seq<u8>>) -> BatchView {
        BatchView {
            keys,
            position: next_account_position(keys, 0),
            nominations: None,
            voters: Seq::empty(),
        }
    }

    /// The state at the next account.
    pub open spec fn at_next_account(self) -> BatchView {
        BatchView {
            position: next_account_position(self.keys, self.position + 1),
            nominations: None,
            ..self
        }
    }

    /// The state after nominations were fetched: an account without any is passed over.
    pub open spec fn after_nominations(self, nominations: Option<Seq<AccountId>>) -> BatchView {
        if nominations is Some {
            BatchView { nominations, ..self }
        } else {
            self.at_next_account()
        }
    }

    /// The state after a ledger was fetched: an account with a stake is a nominator.
    pub open spec fn after_ledger(self, ledger_total: Option<u128>) -> BatchView {
        let account = account_of_key(self.keys[self.position as int])->0;
        match nominator_of(account, self.nominations, ledger_total) {
            Some(nominator) => BatchView {
                voters: self.voters.push(nominator),
                ..self.at_next_account()
            },
            None => self.at_next_account(),
        }
    }
}

impl View for BatchRun {
    type V = BatchView;

    closed spec fn view(&self) -> BatchView {
        BatchView {
            keys: key_views(self.keys@),
            position: self.position as nat,
            nominations: match self.nominations {
                Some(targets) => Some(targets@),
                None => None,
            },
            voters: nominator_views(self.voters@),
        }
    }
}

/// The first position from `from` on whose key has an account.
fn find_account(keys: &Vec<Vec<u8>>, from: usize) -> (position: usize)
    requires
        from <= keys@.len(),
    ensures
        position == next_account_position(key_views(keys@), from as nat),
        position <= keys@.len(),
        position < keys@.len() ==> account_of_key(keys@[position as int]@) is Some,
{
    let mut i: usize = from;
    while i < keys.len()
        invariant
            i <= keys@.len(),
            next_account_position(key_views(keys@), i as nat) == next_account_position(
                key_views(keys@),
                from as nat,
            ),
        decreases keys@.len() - i,
    {
        if subxt_account_from_key_bytes(keys[i].as_slice()).is_some() {
            return i;
        }
        i = i + 1;
    }
    i
}

impl BatchRun {
    #[verifier::type_invariant]
    spec fn well_formed(self) -> bool {
        self@.well_formed()
    }

    /// The work on a batch, of which nothing has been done.
    pub fn new(keys: Vec<Vec<u8>>) -> (run: Self)
        ensures
            run@ == BatchView::initial(key_views(keys@)),
    {
        let position = find_account(&keys, 0);
        let run = BatchRun { keys, position, nominations: None, voters: Vec::new() };
        assert(nominator_views(run.voters@) =~= Seq::empty());
        run
    }

    /// What is to be done next.
    pub fn next_action(&self) -> (action: BatchAction)
        ensures
            action == self@.next_action(),
            self@.well_formed(),
    {
        proof {
            use_type_invariant(self);
        }
        if self.position >= self.keys.len() {
            return BatchAction::Finish;
        }
        match subxt_account_from_key_bytes(self.keys[self.position].as_slice()) {
            Some(account) => {
                if self.nominations.is_some() {
                    BatchAction::FetchLedger(account)
                } else {
                    BatchAction::FetchNominations(account)
                }
            },
            None => BatchAction::Finish,
        }
    }

    /// Takes the nominations of the current account. A failed fetch makes the batch fail.
    pub fn on_nominations(self, reply: NominationsReply) -> (r: Result<Self, Error>)
        requires
            self@.next_action() is FetchNominations,
        ensures
            match reply {
                Ok(_) => r matches Ok(run) && run@ == self@.after_nominations(
                    nominations_in(reply),
                ),
                Err(e) => r matches Err(failure) && failure == e,
            },
    {
        proof {
            use_type_invariant(&self);
            assert(self.position < self.keys.len());
        }
        match reply {
            Ok(Some(targets)) => Ok(
                BatchRun {
                    keys: self.keys,
                    position: self.position,
                    nominations: Some(targets),
                    voters: self.voters,
                },
            ),
            Ok(None) => {
                let position = find_account(&self.keys, self.position + 1);
                Ok(
                    BatchRun {
                        keys: self.keys,
                        position,
                        nominations: None,
                        voters: self.voters,
                    },
                )
            },
            Err(e) => Err(e),
        }
    }

    /// Takes the ledger of the current account. A failed fetch makes the batch fail.
    pub fn on_ledger(self, reply: LedgerReply) -> (r: Result<Self, Error>)
        requires
            self@.next_action() is FetchLedger,
        ensures
            match reply {
                Ok(_) => r matches Ok(run) && run@ == self@.after_ledger(ledger_in(reply)),
                Err(e) => r matches Err(failure) && failure == e,
            },
    {
        proof {
            use_type_invariant(&self);
            assert(self.position < self.keys.len());
        }
        let stake: u128 = match reply {
            Ok(Some(total)) => total,
            Ok(None) => 0,
            Err(e) => {
                return Err(e);
            },
        };
        let account = subxt_account_from_key_bytes(self.keys[self.position].as_slice());
        let position = find_account(&self.keys, self.position + 1);
        let mut voters: Vec<Nominator> = self.voters;
        let ghost before = voters@;
        match (account, self.nominations) {
            (Some(who), Some(targets)) => {
                if stake > 0 {
                    let nominator = Nominator { who, stake, targets };
                    voters.push(nominator);
                    assert(nominator_views(voters@) =~= nominator_views(before).push(
                        nominator@,
                    ));
                }
            },
            _ => {},
        }
        Ok(BatchRun { keys: self.keys, position, nominations: None, voters })
    }

    /// Hands out the nominators once nothing is left to do.
    pub fn finish(self) -> (voters: Vec<Nominator>)
        requires
            self@.next_action() == BatchAction::Finish,
        ensures
            nominator_views(voters@) == self@.voters,
    {
        self.voters
    }
}

/// The position is that of the first key from `from` on that has 32 bytes or more, or the end.
pub proof fn next_account_is_the_first(keys: Seq<Seq<u8>>, from: nat)
    requires
        from <= keys.len(),
    ensures
        from <= next_account_position(keys, from) <= keys.len(),
        forall|k: int|
            from <= k < next_account_position(keys, from) ==> (#[trigger] keys[k]).len() < 32,
        next_account_position(keys, from) < keys.len() ==> keys[next_account_position(
            keys,
            from,
        ) as int].len() >= 32,
    decreases keys.len() - from,
{
    if from < keys.len() {
        key_has_an_account(keys[from as int]);
        if keys[from as int].len() < 32 {
            next_account_is_the_first(keys, from + 1);
        }
    }
}

/// A batch begins at its first account with nothing found. For each account it asks for the
/// nominations first, and then, where there are any, for the ledger; it is done when no account is
/// left.
pub proof fn batch_asks_account_by_account(batch: BatchView, keys: Seq<Seq<u8>>)
    requires
        batch.well_formed(),
    ensures
        BatchView::initial(keys).keys == keys,
        BatchView::initial(keys).position == next_account_position(keys, 0),
        BatchView::initial(keys).nominations is None,
        BatchView::initial(keys).voters.len() == 0,
        batch.next_action() is Finish <==> batch.position == batch.keys.len(),
        batch.next_action() matches BatchAction::FetchNominations(account) ==> {
            let key = batch.keys[batch.position as int];
            batch.nominations is None && account.0@ == key.skip(key.len() - 32)
        },
        batch.next_action() matches BatchAction::FetchLedger(account) ==> {
            let key = batch.keys[batch.position as int];
            batch.nominations is Some && account.0@ == key.skip(key.len() - 32)
        },
{
    if batch.position < batch.keys.len() {
        key_has_an_account(batch.keys[batch.position as int]);
    }
}

/// An account without nominations is left for the next one, with nothing found. One with
/// nominations stays until its ledger is there, and is then left for the next one: where the
/// ledger holds something, the account comes behind those found before, with all of that and with
/// all of its nominations; where it does not, nothing is found.
pub proof fn batch_takes_what_it_fetched(
    batch: BatchView,
    targets: Seq<AccountId>,
    ledger_total: Option<u128>,
)
    requires
        batch.well_formed(),
    ensures
        batch.next_action() is FetchNominations ==> {
            let passed_over = batch.after_nominations(None);
            let kept = batch.after_nominations(Some(targets));
            &&& passed_over.keys == batch.keys
            &&& passed_over.position == next_account_position(batch.keys, batch.position + 1)
            &&& passed_over.nominations is None
            &&& passed_over.voters == batch.voters
            &&& kept.keys == batch.keys
            &&& kept.position == batch.position
            &&& kept.nominations == Some(targets)
            &&& kept.voters == batch.voters
        },
        batch.next_action() matches BatchAction::FetchLedger(account) ==> {
            let next = batch.after_ledger(ledger_total);
            &&& next.keys == batch.keys
            &&& next.position == next_account_position(batch.keys, batch.position + 1)
            &&& next.nominations is None
            &&& ledger_total is None || ledger_total == Some(0u128) ==> next.voters
                == batch.voters
            &&& ledger_total is Some && ledger_total != Some(0u128) ==> {
                &&& next.voters.len() == batch.voters.len() + 1
                &&& next.voters.drop_last() == batch.voters
                &&& next.voters.last().who == account
                &&& Some(next.voters.last().stake) == ledger_total
                &&& Some(next.voters.last().targets) == batch.nominations
            }
        },
{
    let next = batch.after_ledger(ledger_total);
    if batch.next_action() is FetchLedger && ledger_total is Some && ledger_total != Some(0u128) {
        assert(next.voters.drop_last() =~= batch.voters);
    }
}

/// The batch has found what its keys before the current one lead to, and holds the nominations
/// of the current account or none.
pub open spec fn batch_on_track(
    batch: BatchView,
    nominations: Map<AccountId, Seq<AccountId>>,
    ledgers: Map<AccountId, u128>,
) -> bool {
    &&& batch.well_formed()
    &&& batch.voters == nominators_of_keys(
        batch.keys.take(batch.position as int),
        nominations,
        ledgers,
    )
    &&& batch.nominations is Some ==> batch.nominations == lookup(
        nominations,
        account_of_key(batch.keys[batch.position as int])->0,
    )
}

proof fn lemma_skip_keys_without_account(
    keys: Seq<Seq<u8>>,
    from: nat,
    nominations: Map<AccountId, Seq<AccountId>>,
    ledgers: Map<AccountId, u128>,
)
    requires
        from <= keys.len(),
    ensures
        from <= next_account_position(keys, from) <= keys.len(),
        next_account_position(keys, from) < keys.len() ==> account_of_key(
            keys[next_account_position(keys, from) as int],
        ) is Some,
        nominators_of_keys(
            keys.take(next_account_position(keys, from) as int),
            nominations,
            ledgers,
        ) == nominators_of_keys(keys.take(from as int), nominations, ledgers),
    decreases keys.len() - from,
{
    if from < keys.len() && account_of_key(keys[from as int]) is None {
        lemma_skip_keys_without_account(keys, from + 1, nominations, ledgers);
        assert(keys.take((from + 1) as int).drop_last() =~= keys.take(from as int));
    }
}

/// A batch begins on track.
pub proof fn batch_begins_on_track(
    keys: Seq<Seq<u8>>,
    nominations: Map<AccountId, Seq<AccountId>>,
    ledgers: Map<AccountId, u128>,
)
    ensures
        batch_on_track(BatchView::initial(keys), nominations, ledgers),
{
    lemma_skip_keys_without_account(keys, 0, nominations, ledgers);
    assert(keys.take(0) =~= Seq::empty());
}

/// A batch that is on track stays so, when its fetches give what the staking state holds.
pub proof fn batch_stays_on_track(
    batch: BatchView,
    nominations: Map<AccountId, Seq<AccountId>>,
    ledgers: Map<AccountId, u128>,
)
    requires
        batch_on_track(batch, nominations, ledgers),
    ensures
        batch.next_action() matches BatchAction::FetchNominations(account) ==> batch_on_track(
            batch.after_nominations(lookup(nominations, account)),
            nominations,
            ledgers,
        ),
        batch.next_action() matches BatchAction::FetchLedger(account) ==> batch_on_track(
            batch.after_ledger(lookup(ledgers, account)),
            nominations,
            ledgers,
        ),
{
    if batch.position < batch.keys.len() {
        let p = batch.position as int;
        assert(batch.keys.take(p + 1).drop_last() =~= batch.keys.take(p));
        assert(batch.keys.take(p + 1).last() == batch.keys[p]);
        lemma_skip_keys_without_account(batch.keys, batch.position + 1, nominations, ledgers);
    }
}

/// A batch that finishes on track has found exactly the nominators that its keys lead to.
pub proof fn batch_finds_its_nominators(
    batch: BatchView,
    nominations: Map<AccountId, Seq<AccountId>>,
    ledgers: Map<AccountId, u128>,
)
    requires
        batch_on_track(batch, nominations, ledgers),
        batch.next_action() == BatchAction::Finish,
    ensures
        batch.voters == nominators_of_keys(batch.keys, nominations, ledgers),
{
    assert(batch.keys.take(batch.position as int) =~= batch.keys);
}

/// What the batches lead to, one by one.
pub open spec fn nominators_of_batches(
    batches: Seq<Seq<Seq<u8>>>,
    nominations: Map<AccountId, Seq<AccountId>>,
    ledgers: Map<AccountId, u128>,
) -> Seq<Seq<NominatorView>> {
    batches.map_values(|keys: Seq<Seq<u8>>| nominators_of_keys(keys, nominations, ledgers))
}

/// The batches together lead to what the keys lead to.
pub proof fn batches_lead_to_what_the_keys_lead_to(
    keys: Seq<Seq<u8>>,
    nominations: Map<AccountId, Seq<AccountId>>,
    ledgers: Map<AccountId, u128>,
)
    ensures
        nominators_of_batches(batches_of(keys), nominations, ledgers).flatten()
            == nominators_of_keys(keys, nominations, ledgers),
    decreases keys.len(),
{
    let results = nominators_of_batches(batches_of(keys), nominations, ledgers);
    if keys.len() == 0 {
        assert(results =~= Seq::empty());
    } else if keys.len() <= BATCH_SIZE {
        results.lemma_flatten_one_element();
        assert(results =~= seq![nominators_of_keys(keys, nominations, ledgers)]);
    } else {
        let first = keys.take(BATCH_SIZE as int);
        let rest = keys.skip(BATCH_SIZE as int);
        batches_lead_to_what_the_keys_lead_to(rest, nominations, ledgers);
        nominators_of_keys_add(first, rest, nominations, ledgers);
        assert(first + rest =~= keys);
        assert(results.drop_first() =~= nominators_of_batches(
            batches_of(rest),
            nominations,
            ledgers,
        ));
    }
}

proof fn lemma_flatten_ignores_order(
    a: Seq<Seq<NominatorView>>,
    b: Seq<Seq<NominatorView>>,
)
    requires
        a.to_multiset() == b.to_multiset(),
    ensures
        a.flatten().to_multiset() == b.flatten().to_multiset(),
    decreases a.len(),
{
    broadcast use vstd::seq_lib::group_to_multiset_ensures;

    assert(a.len() == a.to_multiset().len() && b.len() == b.to_multiset().len());
    if a.len() == 0 {
        assert(a =~= b);
    } else {
        let x = a.last();
        let shorter = a.drop_last();
        assert(a =~= shorter.push(x));
        assert(a.contains(x)) by {
            assert(a[a.len() - 1] == x);
        }
        assert(a.to_multiset().count(x) > 0);
        assert(b.to_multiset().count(x) > 0);
        let i = choose|i: int| 0 <= i < b.len() && b[i] == x;
        let without = b.remove(i);
        assert(shorter.to_multiset() =~= a.to_multiset().remove(x)) by {
            assert(a.to_multiset() =~= shorter.to_multiset().insert(x));
        }
        assert(without.to_multiset() =~= b.to_multiset().remove(x));
        lemma_flatten_ignores_order(shorter, without);
        let left = b.take(i);
        let right = b.skip(i + 1);
        assert(b =~= left.push(x) + right);
        assert(without =~= left + right);
        vstd::seq_lib::lemma_flatten_concat(left.push(x), right);
        vstd::seq_lib::lemma_flatten_concat(left, right);
        left.lemma_flatten_push(x);
        shorter.lemma_flatten_push(x);
        vstd::seq_lib::lemma_multiset_commutative(left.flatten() + x, right.flatten());
        vstd::seq_lib::lemma_multiset_commutative(left.flatten(), x);
        vstd::seq_lib::lemma_multiset_commutative(left.flatten(), right.flatten());
        vstd::seq_lib::lemma_multiset_commutative(shorter.flatten(), x);
        assert(a.flatten().to_multiset() =~= b.flatten().to_multiset());
    }
}

/// A fetch in batches finds the nominators that the keys lead to, whatever the order in which
/// the batches are done.
pub proof fn schedule_finds_the_nominators_of_its_keys(
    keys: Seq<Seq<u8>>,
    events: Seq<ScheduleEvent>,
    nominations: Map<AccountId, Seq<AccountId>>,
    ledgers: Map<AccountId, u128>,
)
    requires
        batches_of(keys).len() <= usize::MAX,
        schedule_follows_actions(batches_of(keys).len() as usize, events),
        batches_done(events).to_multiset() == nominators_of_batches(
            batches_of(keys),
            nominations,
            ledgers,
        ).to_multiset(),
    ensures
        schedule_after(
            batches_of(keys).len() as usize,
            events,
        ).voters.to_multiset() == nominators_of_keys(
            keys,
            nominations,
            ledgers,
        ).to_multiset(),
{
    schedule_keeps_every_batch(batches_of(keys).len() as usize, events);
    lemma_flatten_ignores_order(
        batches_done(events),
        nominators_of_batches(batches_of(keys), nominations, ledgers),
    );
    batches_lead_to_what_the_keys_lead_to(keys, nominations, ledgers);
}

} // verus!
