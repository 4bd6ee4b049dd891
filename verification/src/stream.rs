//! Fetching nominators as a stream: keys are pulled and fetches started until the limit is
//! reached or the keys are used up, then one reply is awaited, and so on until no fetch is left.

use crate::account::account_of_key;
use crate::account::key_has_an_account;
use crate::account::subxt_account_from_key_bytes;
use crate::account::AccountId;
use crate::nominators::lookup;
use crate::nominators::nominator_of;
use crate::nominators::nominators_of_keys;
use crate::nominators::optional_view;
use crate::nominators::CONCURRENCY_LIMIT;
use crate::types::nominator_views;
use crate::types::Nominator;
use crate::types::NominatorView;
use vstd::prelude::*;

verus! {

/// What is to be done next.
#[derive(Debug, Clone, Copy, PartialEq, Eq, Structural)]
pub enum StreamAction {
    /// Pull the next storage key.
    PullKey,
    /// Wait for the next reply of the fetches under way.
    AwaitReply,
    /// Nothing is left to do.
    Finish,
}

/// The state of a streamed fetch.
#[derive(Debug)]
pub struct NominatorStream {
    /// Are keys being pulled?
    filling: bool,
    /// Fetches under way.
    pending: usize,
    /// The nominators found so far.
    voters: Vec<Nominator>,
}

/// The state of a streamed fetch, with the nominators as a sequence.
#[verifier::ext_equal]
pub struct StreamView {
    pub filling: bool,
    pub pending: nat,
    pub voters: Seq<NominatorView>,
}

impl StreamView {
    /// What is to be done next: keys are pulled while that is on and the limit is not reached,
    /// then replies are awaited while there are fetches under way.
    pub open spec fn next_action(self) -> StreamAction {
        if self.filling && self.pending < CONCURRENCY_LIMIT {
            StreamAction::PullKey
        } else if self.pending > 0 {
            StreamAction::AwaitReply
        } else {
            StreamAction::Finish
        }
    }

    /// No more fetches are under way than may be.
    pub open spec fn well_formed(self) -> bool {
        self.pending <= CONCURRENCY_LIMIT
    }

    /// The state before the first key is pulled.
    pub open spec fn initial() -> StreamView {
        StreamView { filling: true, pending: 0, voters: Seq::empty() }
    }

    /// The state after a key: a fetch for its account is started, if it has one.
    pub open spec fn after_key(self, key: Seq<u8>) -> StreamView {
        StreamView {
            pending: if account_of_key(key) is Some {
                self.pending + 1
            } else {
                self.pending
            },
            ..self
        }
    }

    /// The state after the keys were found used up.
    pub open spec fn after_last_key(self) -> StreamView {
        StreamView { filling: false, ..self }
    }

    /// The state after a reply: keys are pulled again.
    pub open spec fn after_reply(self, reply: Option<NominatorView>) -> StreamView {
        StreamView {
            filling: true,
            pending: (self.pending - 1) as nat,
            voters: match reply {
                Some(nominator) => self.voters.push(nominator),
                None => self.voters,
            },
        }
    }
}

impl View for NominatorStream {
    type V = StreamView;

    closed spec fn view(&self) -> StreamView {
        StreamView {
            filling: self.filling,
            pending: self.pending as nat,
            voters: nominator_views(self.voters@),
        }
    }
}

impl NominatorStream {
    #[verifier::type_invariant]
    spec fn well_formed(self) -> bool {
        self.pending <= CONCURRENCY_LIMIT
    }

    /// A stream that has not begun.
    pub fn new() -> (stream: Self)
        ensures
            stream@ == StreamView::initial(),
    {
        let stream = NominatorStream { filling: true, pending: 0, voters: Vec::new() };
        assert(nominator_views(stream.voters@) =~= Seq::empty());
        stream
    }

    /// What is to be done next.
    pub fn next_action(&self) -> (action: StreamAction)
        ensures
            action == self@.next_action(),
            self@.well_formed(),
    {
        proof {
            use_type_invariant(self);
        }
        if self.filling && self.pending < CONCURRENCY_LIMIT {
            StreamAction::PullKey
        } else if self.pending > 0 {
            StreamAction::AwaitReply
        } else {
            StreamAction::Finish
        }
    }

    /// Takes a pulled key and gives the account to fetch, if the key has one.
    pub fn on_key(&mut self, key_bytes: &[u8]) -> (account: Option<AccountId>)
        requires
            old(self)@.next_action() == StreamAction::PullKey,
        ensures
            account == account_of_key(key_bytes@),
            final(self)@ == old(self)@.after_key(key_bytes@),
    {
        let account = subxt_account_from_key_bytes(key_bytes);
        if account.is_some() {
            self.pending = self.pending + 1;
        }
        account
    }

    /// Notes that the keys are used up.
    pub fn on_last_key(&mut self)
        requires
            old(self)@.next_action() == StreamAction::PullKey,
        ensures
            final(self)@ == old(self)@.after_last_key(),
    {
        self.filling = false;
    }

    /// Takes the reply of a fetch: the nominator, if the account is one.
    pub fn on_reply(&mut self, reply: Option<Nominator>)
        requires
            old(self)@.next_action() == StreamAction::AwaitReply,
        ensures
            final(self)@ == old(self)@.after_reply(optional_view(reply)),
    {
        proof {
            use_type_invariant(&*self);
        }
        self.filling = true;
        self.pending = self.pending - 1;
        let mut voters: Vec<Nominator> = Vec::new();
        std::mem::swap(&mut voters, &mut self.voters);
        let ghost before = voters@;
        match reply {
            Some(nominator) => {
                voters.push(nominator);
                assert(nominator_views(voters@) =~= nominator_views(before).push(nominator@));
            },
            None => {},
        }
        self.voters = voters;
    }

    /// Hands out the nominators once nothing is left to do.
    pub fn finish(self) -> (voters: Vec<Nominator>)
        requires
            self@.next_action() == StreamAction::Finish,
        ensures
            nominator_views(voters@) == self@.voters,
    {
        self.voters
    }
}

/// A stream begins by pulling keys, with nothing found. It pulls as long as keys may come and the
/// limit is not reached, waits as long as a fetch is under way otherwise, and is done when neither
/// holds. A key starts a fetch exactly where it has 32 bytes or more, and finds nothing; when the
/// keys are used up no more are pulled until the next reply; a reply ends one fetch, and its
/// nominator comes behind those found before.
pub proof fn stream_step_by_step(
    stream: StreamView,
    key: Seq<u8>,
    reply: Option<NominatorView>,
)
    requires
        stream.well_formed(),
    ensures
        StreamView::initial().filling,
        StreamView::initial().pending == 0,
        StreamView::initial().voters.len() == 0,
        stream.next_action() is PullKey <==> stream.filling && stream.pending
            < CONCURRENCY_LIMIT,
        stream.next_action() is Finish <==> !stream.filling && stream.pending == 0,
        stream.after_key(key).pending == stream.pending + if key.len() >= 32 {
            1int
        } else {
            0
        },
        stream.after_key(key).filling == stream.filling,
        stream.after_key(key).voters == stream.voters,
        !stream.after_last_key().filling,
        stream.after_last_key().pending == stream.pending,
        stream.after_last_key().voters == stream.voters,
        stream.next_action() is AwaitReply ==> {
            let next = stream.after_reply(reply);
            &&& next.filling
            &&& next.pending == stream.pending - 1
            &&& reply is None ==> next.voters == stream.voters
            &&& reply matches Some(nominator) ==> next.voters.len() == stream.voters.len() + 1
                && next.voters.drop_last() == stream.voters && next.voters.last() == nominator
        },
{
    key_has_an_account(key);
    if reply is Some {
        assert(stream.after_reply(reply).voters.drop_last() =~= stream.voters);
    }
}

/// What happens to a streamed fetch.
#[verifier::ext_equal]
pub enum StreamEvent {
    Key(Seq<u8>),
    LastKey,
    Reply(Option<NominatorView>),
}

/// The state after some events, from the beginning.
pub open spec fn stream_after(events: Seq<StreamEvent>) -> StreamView
    decreases events.len(),
{
    if events.len() == 0 {
        StreamView::initial()
    } else {
        let before = stream_after(events.drop_last());
        match events.last() {
            StreamEvent::Key(key) => before.after_key(key),
            StreamEvent::LastKey => before.after_last_key(),
            StreamEvent::Reply(reply) => before.after_reply(reply),
        }
    }
}

/// Each event answers the action that the state before it asks for.
pub open spec fn follows_actions(events: Seq<StreamEvent>) -> bool
    decreases events.len(),
{
    events.len() > 0 ==> {
        let action = stream_after(events.drop_last()).next_action();
        &&& follows_actions(events.drop_last())
        &&& match events.last() {
            StreamEvent::Reply(_) => action == StreamAction::AwaitReply,
            _ => action == StreamAction::PullKey,
        }
    }
}

/// The accounts whose fetches the events started, in order.
pub open spec fn fetches_started(events: Seq<StreamEvent>) -> Seq<AccountId>
    decreases events.len(),
{
    if events.len() == 0 {
        Seq::empty()
    } else {
        let before = fetches_started(events.drop_last());
        match events.last() {
            StreamEvent::Key(key) => match account_of_key(key) {
                Some(account) => before.push(account),
                None => before,
            },
            _ => before,
        }
    }
}

/// The replies among the events, in order.
pub open spec fn replies_received(events: Seq<StreamEvent>) -> Seq<Option<NominatorView>>
    decreases events.len(),
{
    if events.len() == 0 {
        Seq::empty()
    } else {
        let before = replies_received(events.drop_last());
        match events.last() {
            StreamEvent::Reply(reply) => before.push(reply),
            _ => before,
        }
    }
}

/// The nominators among replies, in order.
pub open spec fn nominators_among(replies: Seq<Option<NominatorView>>) -> Seq<NominatorView>
    decreases replies.len(),
{
    if replies.len() == 0 {
        Seq::empty()
    } else {
        let before = nominators_among(replies.drop_last());
        match replies.last() {
            Some(nominator) => before.push(nominator),
            None => before,
        }
    }
}

/// At every moment of a streamed fetch, the fetches under way are those that were started and
/// not yet answered, they are no more than the limit, and the nominators found are those among
/// the replies, in the order of the replies.
pub proof fn stream_keeps_every_reply(events: Seq<StreamEvent>)
    requires
        follows_actions(events),
    ensures
        stream_after(events).pending + replies_received(events).len() == fetches_started(
            events,
        ).len(),
        stream_after(events).well_formed(),
        stream_after(events).voters == nominators_among(replies_received(events)),
    decreases events.len(),
{
    if events.len() > 0 {
        stream_keeps_every_reply(events.drop_last());
        match events.last() {
            StreamEvent::Reply(reply) => {
                let replies = replies_received(events.drop_last());
                assert(replies.push(reply).drop_last() =~= replies);
            },
            _ => {},
        }
    }
}

/// A streamed fetch is finished only when the keys were found used up and every fetch that was
/// started has been answered.
pub proof fn stream_finishes_when_all_is_answered(events: Seq<StreamEvent>)
    requires
        follows_actions(events),
        stream_after(events).next_action() == StreamAction::Finish,
    ensures
        !stream_after(events).filling,
        replies_received(events).len() == fetches_started(events).len(),
{
    stream_keeps_every_reply(events);
}

/// The keys among the events, in order.
pub open spec fn keys_pulled(events: Seq<StreamEvent>) -> Seq<Seq<u8>>
    decreases events.len(),
{
    if events.len() == 0 {
        Seq::empty()
    } else {
        let before = keys_pulled(events.drop_last());
        match events.last() {
            StreamEvent::Key(key) => before.push(key),
            _ => before,
        }
    }
}

/// What fetches for the accounts give, when they give what the staking state holds.
pub open spec fn replies_for(
    accounts: Seq<AccountId>,
    nominations: Map<AccountId, Seq<AccountId>>,
    ledgers: Map<AccountId, u128>,
) -> Seq<Option<NominatorView>> {
    accounts.map_values(
        |account: AccountId|
            nominator_of(account, lookup(nominations, account), lookup(ledgers, account)),
    )
}

proof fn lemma_replies_in_key_order(
    events: Seq<StreamEvent>,
    nominations: Map<AccountId, Seq<AccountId>>,
    ledgers: Map<AccountId, u128>,
)
    ensures
        nominators_among(replies_for(fetches_started(events), nominations, ledgers))
            == nominators_of_keys(keys_pulled(events), nominations, ledgers),
    decreases events.len(),
{
    if events.len() == 0 {
        assert(replies_for(Seq::empty(), nominations, ledgers) =~= Seq::empty());
    } else {
        let before = events.drop_last();
        lemma_replies_in_key_order(before, nominations, ledgers);
        match events.last() {
            StreamEvent::Key(key) => {
                let keys = keys_pulled(before);
                assert(keys.push(key).drop_last() =~= keys);
                match account_of_key(key) {
                    Some(account) => {
                        let accounts = fetches_started(before);
                        let replies = replies_for(accounts, nominations, ledgers);
                        let longer = replies_for(accounts.push(account), nominations, ledgers);
                        assert(longer.drop_last() =~= replies);
                    },
                    None => {},
                }
            },
            _ => {},
        }
    }
}

proof fn lemma_nominators_among_count(
    replies: Seq<Option<NominatorView>>,
    nominator: NominatorView,
)
    ensures
        nominators_among(replies).to_multiset().count(nominator) == replies.to_multiset().count(
            Some(nominator),
        ),
    decreases replies.len(),
{
    broadcast use vstd::seq_lib::group_to_multiset_ensures;

    if replies.len() > 0 {
        let shorter = replies.drop_last();
        lemma_nominators_among_count(shorter, nominator);
        assert(replies =~= shorter.push(replies.last()));
        assert(replies.to_multiset() =~= shorter.to_multiset().insert(replies.last()));
        match replies.last() {
            Some(last) => {
                assert(nominators_among(replies).to_multiset() =~= nominators_among(
                    shorter,
                ).to_multiset().insert(last));
            },
            None => {},
        }
    }
}

/// A streamed fetch finds the nominators that its keys lead to, whatever the order in which the
/// replies come: those that a fetch in batches finds for the same keys.
pub proof fn stream_finds_the_nominators_of_its_keys(
    events: Seq<StreamEvent>,
    nominations: Map<AccountId, Seq<AccountId>>,
    ledgers: Map<AccountId, u128>,
)
    requires
        follows_actions(events),
        replies_received(events).to_multiset() == replies_for(
            fetches_started(events),
            nominations,
            ledgers,
        ).to_multiset(),
    ensures
        stream_after(events).voters.to_multiset() == nominators_of_keys(
            keys_pulled(events),
            nominations,
            ledgers,
        ).to_multiset(),
{
    stream_keeps_every_reply(events);
    lemma_replies_in_key_order(events, nominations, ledgers);
    let replies = replies_received(events);
    let expected = replies_for(fetches_started(events), nominations, ledgers);
    assert forall|nominator: NominatorView|
        nominators_among(replies).to_multiset().count(nominator) == nominators_among(
            expected,
        ).to_multiset().count(nominator) by {
        lemma_nominators_among_count(replies, nominator);
        lemma_nominators_among_count(expected, nominator);
    }
    assert(nominators_among(replies).to_multiset() =~= nominators_among(expected).to_multiset());
}

} // verus!
