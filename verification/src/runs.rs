//! What holds of a queue over any run of calls.

use crate::channel::{self, ChannelView};
use crate::in_flight;
use crate::laws;
use crate::message::Message;
use crate::queue::{self, ChannelInfo, CheckpointView, QueueCheckpoint, QueueState, QueueView};
use vstd::prelude::*;

verus! {

/// A call on a queue, with what the store answers for it.
pub enum Call {
    /// Create a channel, where the store's head is `head`.
    Create { name: Seq<char>, clock: u32, head: u64 },
    /// Delete a channel.
    DeleteChannel { name: Seq<char> },
    /// Ask a channel for a message; the store answers `fetched` for the id that it wants.
    Get { name: Seq<char>, clock: u32, fetched: Option<Message> },
    /// Acknowledge a message on a channel.
    Ack { name: Seq<char>, id: u64, clock: u32 },
    /// Ask what there is to tell.
    Info { clock: u32 },
    /// Empty the store, which begins at `tail` then.
    Purge { tail: u64 },
    /// Write a checkpoint.
    Checkpoint,
    /// Let go of what no channel needs, and write a checkpoint.
    Maintenance,
    /// Send the queue away.
    Delete,
    /// Take back what a checkpoint kept, if it could be read.
    Recover { stored: Option<QueueCheckpoint> },
}

/// What a call returns.
pub enum Reply {
    /// Whether a channel was created.
    Created(bool),
    /// Whether a channel was deleted.
    Deleted(bool),
    /// The message, or the id that is not there yet, if there is the channel.
    Handed(Option<Result<Message, u64>>),
    /// Whether it is done, if there is the channel.
    Acked(Option<bool>),
    /// What is told of each channel.
    Told(Map<Seq<char>, ChannelInfo>),
    /// What is written.
    Kept(CheckpointView),
    /// The id below which the store may let go, and what is written.
    Collected(u64, CheckpointView),
    /// Nothing.
    Nothing,
}

impl Call {
    /// The clock of the call, where it has one.
    pub open spec fn clock(self) -> Option<u32> {
        match self {
            Call::Create { clock, .. } => Some(clock),
            Call::Get { clock, .. } => Some(clock),
            Call::Ack { clock, .. } => Some(clock),
            Call::Info { clock } => Some(clock),
            _ => None,
        }
    }

    /// The call is not made before `clock`, where it has a clock.
    pub open spec fn not_before(self, clock: u32) -> bool {
        self.clock() matches Some(at) ==> clock <= at
    }
}

impl QueueView {
    /// The queue after a call.
    pub open spec fn after(self, call: Call) -> QueueView {
        match call {
            Call::Create { name, clock, head } => self.after_create(name, clock, head),
            Call::DeleteChannel { name } => self.after_delete_channel(name),
            Call::Get { name, clock, fetched } => self.after_get(name, clock, fetched),
            Call::Ack { name, id, clock } => self.after_ack(name, id, clock),
            Call::Info { clock } => self.after_info(clock),
            Call::Purge { tail } => self.after_purge(tail),
            Call::Checkpoint => self,
            Call::Maintenance => self,
            Call::Delete => QueueView { state: QueueState::Deleting, ..self },
            Call::Recover { stored } => self.after_recover(stored),
        }
    }

    /// What a call returns.
    pub open spec fn reply(self, call: Call) -> Reply {
        match call {
            Call::Create { name, .. } => Reply::Created(!self.channels.contains_key(name)),
            Call::DeleteChannel { name } => Reply::Deleted(self.channels.contains_key(name)),
            Call::Get { name, fetched, .. } => Reply::Handed(
                if self.channels.contains_key(name) {
                    Some(self.channels[name].answer(fetched))
                } else {
                    None
                },
            ),
            Call::Ack { name, id, clock } => Reply::Acked(
                if self.channels.contains_key(name) {
                    Some(self.channels[name].can_ack(id, clock))
                } else {
                    None
                },
            ),
            Call::Info { clock } => Reply::Told(
                self.channels.map_values(|c: ChannelView| queue::told(c, clock)),
            ),
            Call::Purge { tail } => Reply::Kept(self.after_purge(tail).record()),
            Call::Checkpoint => Reply::Kept(self.record()),
            Call::Maintenance => Reply::Collected(self.smallest_tail(), self.record()),
            Call::Delete => Reply::Kept(self.after(call).record()),
            Call::Recover { .. } => Reply::Nothing,
        }
    }

    /// The id below which the store may let go.
    pub open spec fn smallest_tail(self) -> u64 {
        choose|tail: u64| self.is_smallest_tail(tail)
    }

    /// The call can be made: the queue goes on with what the store has answered, and the
    /// deadline that a message gets is not 0.
    pub open spec fn allows(self, call: Call) -> bool {
        call matches Call::Get { name, clock, fetched } ==> {
            &&& self.accepts(name, clock, fetched)
            &&& clock + self.time_to_live > 0
        }
    }

    /// What the store has answered is an answer to what was wanted.
    pub open spec fn is_answered_honestly(self, call: Call) -> bool {
        call matches Call::Get { name, clock, fetched } ==> self.channels.contains_key(name)
            ==> self.channels[name].honest(clock, fetched)
    }

    /// What the store has answered to the channel does not skip the id.
    pub open spec fn does_not_skip(self, call: Call, channel: Seq<char>, id: u64) -> bool {
        call matches Call::Get { name, clock, fetched } ==> name == channel
            && self.channels.contains_key(name) && !self.channels[name].due(clock)
            && self.channels[name].tail <= id ==> (fetched matches Some(message) ==> message.id
            <= id)
    }

    /// The queue after some calls, one after the other.
    pub open spec fn after_all(self, calls: Seq<Call>) -> QueueView
        decreases calls.len(),
    {
        if calls.len() == 0 {
            self
        } else {
            self.after_all(calls.drop_last()).after(calls.last())
        }
    }

    /// The queue just before the call at `k`.
    pub open spec fn before(self, calls: Seq<Call>, k: int) -> QueueView {
        self.after_all(calls.take(k))
    }

    /// Each call can be made when its turn comes.
    pub open spec fn allows_all(self, calls: Seq<Call>) -> bool {
        forall|k: int|
            0 <= k < calls.len() ==> (#[trigger] self.before(calls, k)).allows(calls[k])
    }

    /// The store answers each call with what was wanted.
    pub open spec fn is_always_answered_honestly(self, calls: Seq<Call>) -> bool {
        forall|k: int|
            0 <= k < calls.len() ==> (#[trigger] self.before(calls, k)).is_answered_honestly(
                calls[k],
            )
    }

    /// Some call acknowledges the id on the channel, and it is done.
    pub open spec fn acknowledges(self, calls: Seq<Call>, name: Seq<char>, id: u64) -> bool {
        exists|k: int|
            0 <= k < calls.len() && is_ack(calls[k], name, id) && (#[trigger] self.before(
                calls,
                k,
            )).reply(calls[k]) == Reply::Acked(Some(true))
    }
}

/// The call acknowledges the id on the channel.
pub open spec fn is_ack(call: Call, channel: Seq<char>, acked: u64) -> bool {
    call matches Call::Ack { name, id, .. } && name == channel && id == acked
}

/// The call neither empties the store nor deletes the channel, nor puts back what a checkpoint
/// kept of it.
pub open spec fn keeps_channel(call: Call, channel: Seq<char>) -> bool {
    match call {
        Call::Purge { .. } => false,
        Call::DeleteChannel { name } => name != channel,
        Call::Recover { stored } => match stored {
            Some(record) => record.state == QueueState::Ready ==> !record.channels@.contains_key(
                channel,
            ),
            None => true,
        },
        _ => true,
    }
}

/// No clock goes back, neither behind `from` nor behind the clock of an earlier call.
pub open spec fn in_clock_order(calls: Seq<Call>, from: u32) -> bool {
    &&& forall|k: int| 0 <= k < calls.len() ==> (#[trigger] calls[k]).not_before(from)
    &&& forall|j: int, k: int|
        0 <= j < k < calls.len() ==> {
            (#[trigger] calls[j]).clock() matches Some(clock) ==> (
            #[trigger] calls[k]).not_before(clock)
        }
}

/// The clock of the last call that has one, or `from`.
pub open spec fn latest_clock(calls: Seq<Call>, from: u32) -> u32
    decreases calls.len(),
{
    if calls.len() == 0 {
        from
    } else {
        match calls.last().clock() {
            Some(clock) => clock,
            None => latest_clock(calls.drop_last(), from),
        }
    }
}

/// One call less: the run before the last call, and where it stands.
proof fn lemma_last_call(queue: QueueView, calls: Seq<Call>)
    requires
        calls.len() > 0,
    ensures
        queue.before(calls, calls.len() - 1) == queue.after_all(calls.drop_last()),
        queue.after_all(calls) == queue.after_all(calls.drop_last()).after(calls.last()),
        forall|k: int|
            0 <= k < calls.len() - 1 ==> #[trigger] queue.before(calls.drop_last(), k)
                == queue.before(calls, k),
{
    assert(calls.take(calls.len() - 1) =~= calls.drop_last());
    assert forall|k: int| 0 <= k < calls.len() - 1 implies #[trigger] queue.before(
        calls.drop_last(),
        k,
    ) == queue.before(calls, k) by {
        assert(calls.drop_last().take(k) =~= calls.take(k));
    }
}

proof fn lemma_allowed_before_last(queue: QueueView, calls: Seq<Call>)
    requires
        calls.len() > 0,
        queue.allows_all(calls),
    ensures
        queue.allows_all(calls.drop_last()),
        queue.after_all(calls.drop_last()).allows(calls.last()),
{
    lemma_last_call(queue, calls);
    let less = calls.drop_last();
    assert forall|k: int| 0 <= k < less.len() implies (#[trigger] queue.before(less, k)).allows(
        less[k],
    ) by {
        assert(queue.before(calls, k).allows(calls[k]));
    }
}

proof fn lemma_honest_before_last(queue: QueueView, calls: Seq<Call>)
    requires
        calls.len() > 0,
        queue.is_always_answered_honestly(calls),
    ensures
        queue.is_always_answered_honestly(calls.drop_last()),
        queue.after_all(calls.drop_last()).is_answered_honestly(calls.last()),
{
    lemma_last_call(queue, calls);
    let less = calls.drop_last();
    assert forall|k: int| 0 <= k < less.len() implies (#[trigger] queue.before(
        less,
        k,
    )).is_answered_honestly(less[k]) by {
        assert(queue.before(calls, k).is_answered_honestly(calls[k]));
    }
}

/// A call keeps a queue orderly, and of each channel the least held id in flight.
pub proof fn law_call_keeps_order(queue: QueueView, call: Call)
    requires
        queue.orderly(),
        queue.tight(),
        queue.allows(call),
        queue.is_answered_honestly(call),
    ensures
        queue.after(call).orderly(),
        queue.after(call).tight(),
{
    match call {
        Call::Create { name, clock, head } => {
            laws::law_create_keeps_queue_orderly(queue, name, clock, head);
            laws::law_starting_channel(clock, head);
        },
        Call::DeleteChannel { name } => {
            laws::law_delete_channel_keeps_queue_orderly(queue, name);
            let next = queue.after(call);
            assert forall|other: Seq<char>| #[trigger] next.channels.contains_key(other) implies
                next.channels[other].tight() by {
                assert(queue.channels.contains_key(other));
            }
        },
        Call::Get { name, clock, fetched } => {
            laws::law_get_keeps_queue_orderly(queue, name, clock, fetched);
            if queue.channels.contains_key(name) {
                laws::law_get_keeps_tight(
                    queue.channels[name],
                    clock,
                    queue.time_to_live,
                    fetched,
                );
            }
        },
        Call::Ack { name, id, clock } => {
            laws::law_ack_keeps_queue_orderly(queue, name, id, clock);
            if queue.channels.contains_key(name) {
                laws::law_ack_makes_tight(queue.channels[name], id, clock);
            }
        },
        Call::Info { clock } => {
            laws::law_info_keeps_queue_orderly(queue, clock);
            let next = queue.after(call);
            assert forall|name: Seq<char>| #[trigger] next.channels.contains_key(name) implies
                next.channels[name].tight() by {
                assert(queue.channels.contains_key(name));
                laws::law_sweep_keeps_tight(queue.channels[name], clock);
            }
        },
        Call::Purge { tail } => {
            laws::law_purge_keeps_queue_orderly(queue, tail);
        },
        Call::Recover { stored } => {
            if let Some(record) = stored {
                let kept = record@;
                laws::law_recover_keeps_queue_orderly(queue, kept);
                let next = queue.after(call);
                assert forall|name: Seq<char>| #[trigger] next.channels.contains_key(name) implies
                    next.channels[name].tight() by {
                    if kept.state == QueueState::Ready && kept.channels.contains_key(name) {
                        let of = kept.channels[name];
                        laws::law_starting_channel(of.last_touched, of.tail);
                    } else {
                        assert(queue.channels.contains_key(name));
                    }
                }
            }
        },
        Call::Delete => {
            laws::law_state_keeps_queue_orderly(queue, QueueState::Deleting);
            let next = queue.after(call);
            assert forall|name: Seq<char>| #[trigger] next.channels.contains_key(name) implies
                next.channels[name].tight() by {
                assert(queue.channels.contains_key(name));
            }
        },
        Call::Checkpoint => {},
        Call::Maintenance => {},
    }
}

/// Any run of calls keeps a queue orderly, and of each channel the least held id in flight. So
/// in every state that a queue comes to, the real tail of a channel is the smallest id in
/// flight, or the tail where nothing is in flight.
pub proof fn law_run_keeps_order(queue: QueueView, calls: Seq<Call>)
    requires
        queue.orderly(),
        queue.tight(),
        queue.allows_all(calls),
        queue.is_always_answered_honestly(calls),
    ensures
        queue.after_all(calls).orderly(),
        queue.after_all(calls).tight(),
        forall|name: Seq<char>| #[trigger]
            queue.after_all(calls).channels.contains_key(name) ==> {
                let channel = queue.after_all(calls).channels[name];
                &&& channel.in_flight.len() == 0 ==> channel.real_tail() == channel.tail
                &&& channel.in_flight.len() > 0 ==> in_flight::has_id(
                    channel.in_flight,
                    channel.real_tail(),
                )
            },
    decreases calls.len(),
{
    if calls.len() > 0 {
        lemma_last_call(queue, calls);
        lemma_allowed_before_last(queue, calls);
        lemma_honest_before_last(queue, calls);
        law_run_keeps_order(queue, calls.drop_last());
        law_call_keeps_order(queue.after_all(calls.drop_last()), calls.last());
    }
    let after = queue.after_all(calls);
    assert forall|name: Seq<char>| #[trigger] after.channels.contains_key(name) implies {
        let channel = after.channels[name];
        &&& channel.in_flight.len() == 0 ==> channel.real_tail() == channel.tail
        &&& channel.in_flight.len() > 0 ==> in_flight::has_id(
            channel.in_flight,
            channel.real_tail(),
        )
    } by {
        laws::law_tight_real_tail(after.channels[name]);
    }
}

/// No run of calls moves the name of a queue or its time to live. Its state moves only where
/// the queue is sent away or recovers: without either it stays, and a queue that is going away
/// stays so in any run in which it does not recover.
pub proof fn law_run_keeps_state(queue: QueueView, calls: Seq<Call>)
    ensures
        queue.after_all(calls).name == queue.name,
        queue.after_all(calls).time_to_live == queue.time_to_live,
        (forall|k: int| 0 <= k < calls.len() ==> !(#[trigger] calls[k] is Recover)) ==> {
            queue.state == QueueState::Deleting ==> queue.after_all(calls).state
                == QueueState::Deleting
        },
        (forall|k: int|
            0 <= k < calls.len() ==> !(#[trigger] calls[k] is Recover) && !(calls[k] is Delete))
            ==> queue.after_all(calls).state == queue.state,
    decreases calls.len(),
{
    if calls.len() > 0 {
        let less = calls.drop_last();
        law_run_keeps_state(queue, less);
        assert(forall|k: int| 0 <= k < less.len() ==> #[trigger] less[k] == calls[k]);
        assert(calls.last() == calls[calls.len() - 1]);
    }
}

/// What a channel owes, one call later it owes, unless the call acknowledges it.
pub proof fn law_call_keeps_owing(queue: QueueView, call: Call, name: Seq<char>, id: u64)
    requires
        queue.orderly(),
        queue.allows(call),
        queue.channels.contains_key(name),
        queue.channels[name].owes(id),
        keeps_channel(call, name),
        queue.does_not_skip(call, name, id),
        !(is_ack(call, name, id) && queue.reply(call) == Reply::Acked(Some(true))),
    ensures
        queue.after(call).channels.contains_key(name),
        queue.after(call).channels[name].owes(id),
{
    let channel = queue.channels[name];
    match call {
        Call::Get { name: other, clock, fetched } => {
            if other == name {
                laws::law_get_keeps_owing(channel, clock, queue.time_to_live, fetched, id);
            }
        },
        Call::Ack { name: other, id: acked, clock } => {
            if other == name {
                laws::law_ack_keeps_owing(channel, acked, clock, id);
            }
        },
        Call::Info { clock } => {
            laws::law_sweep_keeps_owing(channel, clock, id);
        },
        _ => {},
    }
}

/// Nothing that is not acknowledged is lost in a run of calls: what a channel owes it owes at
/// the end, unread or in flight, unless it was acknowledged on the channel, the store was
/// emptied, or the channel was deleted. The store must not skip the message.
pub proof fn law_run_keeps_owing(queue: QueueView, calls: Seq<Call>, name: Seq<char>, id: u64)
    requires
        queue.orderly(),
        queue.tight(),
        queue.allows_all(calls),
        queue.is_always_answered_honestly(calls),
        queue.channels.contains_key(name),
        queue.channels[name].owes(id),
        forall|k: int| 0 <= k < calls.len() ==> keeps_channel(#[trigger] calls[k], name),
        forall|k: int|
            0 <= k < calls.len() ==> (#[trigger] queue.before(calls, k)).does_not_skip(
                calls[k],
                name,
                id,
            ),
    ensures
        queue.after_all(calls).channels.contains_key(name),
        queue.acknowledges(calls, name, id) || queue.after_all(calls).channels[name].owes(id),
    decreases calls.len(),
{
    if calls.len() > 0 {
        let less = calls.drop_last();
        let before = queue.after_all(less);
        lemma_last_call(queue, calls);
        lemma_allowed_before_last(queue, calls);
        lemma_honest_before_last(queue, calls);
        assert forall|k: int| 0 <= k < less.len() implies (#[trigger] queue.before(
            less,
            k,
        )).does_not_skip(less[k], name, id) by {
            assert(queue.before(calls, k).does_not_skip(calls[k], name, id));
        }
        law_run_keeps_owing(queue, less, name, id);
        law_run_keeps_order(queue, less);
        let last = calls.len() - 1;
        assert(calls[last] == calls.last());
        assert(queue.before(calls, last).does_not_skip(calls[last], name, id));
        assert(keeps_channel(calls[last], name));
        if queue.acknowledges(less, name, id) {
            let k = choose|k: int|
                0 <= k < less.len() && is_ack(less[k], name, id) && (#[trigger] queue.before(
                    less,
                    k,
                )).reply(less[k]) == Reply::Acked(Some(true));
            assert(queue.before(calls, k).reply(calls[k]) == Reply::Acked(Some(true)));
        } else if !(is_ack(calls.last(), name, id) && before.reply(calls.last())
            == Reply::Acked(Some(true))) {
            law_call_keeps_owing(before, calls.last(), name, id);
        } else {
            assert(queue.before(calls, last).reply(calls[last]) == Reply::Acked(Some(true)));
        }
        assert(before.after(calls.last()).channels.contains_key(name));
    }
}

/// Each message handed out to a channel is in flight or was acknowledged: after the call that
/// hands it out, and after any run of calls from then on that neither empties the store nor
/// deletes the channel.
pub proof fn law_handed_out_is_in_flight_or_acknowledged(
    queue: QueueView,
    name: Seq<char>,
    clock: u32,
    message: Message,
    calls: Seq<Call>,
)
    requires
        queue.orderly(),
        queue.tight(),
        queue.channels.contains_key(name),
        queue.allows(Call::Get { name, clock, fetched: Some(message) }),
        queue.is_answered_honestly(Call::Get { name, clock, fetched: Some(message) }),
        queue.after_get(name, clock, Some(message)).allows_all(calls),
        queue.after_get(name, clock, Some(message)).is_always_answered_honestly(calls),
        forall|k: int| 0 <= k < calls.len() ==> keeps_channel(#[trigger] calls[k], name),
    ensures
        ({
            let handed = queue.after_get(name, clock, Some(message));
            &&& handed.after_all(calls).channels.contains_key(name)
            &&& handed.acknowledges(calls, name, message.id) || in_flight::has_id(
                handed.after_all(calls).channels[name].in_flight,
                message.id,
            )
        }),
    decreases calls.len(),
{
    let call = Call::Get { name, clock, fetched: Some(message) };
    let handed = queue.after(call);
    law_call_keeps_order(queue, call);
    laws::law_handed_out_is_in_flight(
        queue.channels[name],
        clock,
        queue.time_to_live,
        message,
    );
    law_read_stays_read(handed, calls, name, message.id);
    assert forall|k: int| 0 <= k < calls.len() implies (#[trigger] handed.before(
        calls,
        k,
    )).does_not_skip(calls[k], name, message.id) by {
        lemma_prefix(handed, calls, k);
        law_read_stays_read(handed, calls.take(k), name, message.id);
    }
    law_run_keeps_owing(handed, calls, name, message.id);
}

/// The start of a run is a run.
pub proof fn lemma_prefix(queue: QueueView, calls: Seq<Call>, n: int)
    requires
        0 <= n <= calls.len(),
        queue.allows_all(calls),
        queue.is_always_answered_honestly(calls),
    ensures
        queue.allows_all(calls.take(n)),
        queue.is_always_answered_honestly(calls.take(n)),
{
    let some = calls.take(n);
    assert forall|k: int| 0 <= k < n implies (#[trigger] queue.before(some, k)).allows(some[k])
        && queue.before(some, k).is_answered_honestly(some[k]) by {
        assert(some.take(k) =~= calls.take(k));
        assert(queue.before(calls, k).allows(calls[k]));
        assert(queue.before(calls, k).is_answered_honestly(calls[k]));
    }
}

/// What a channel has read it does not read again: its tail stays behind, in any run of calls
/// that neither empties the store nor deletes the channel.
pub proof fn law_read_stays_read(queue: QueueView, calls: Seq<Call>, name: Seq<char>, id: u64)
    requires
        queue.orderly(),
        queue.tight(),
        queue.allows_all(calls),
        queue.is_always_answered_honestly(calls),
        queue.channels.contains_key(name),
        id < queue.channels[name].tail || in_flight::has_id(queue.channels[name].in_flight, id),
        forall|k: int| 0 <= k < calls.len() ==> keeps_channel(#[trigger] calls[k], name),
    ensures
        queue.after_all(calls).channels.contains_key(name),
        id < queue.after_all(calls).channels[name].tail,
    decreases calls.len(),
{
    if calls.len() > 0 {
        lemma_last_call(queue, calls);
        lemma_allowed_before_last(queue, calls);
        lemma_honest_before_last(queue, calls);
        let less = calls.drop_last();
        law_read_stays_read(queue, less, name, id);
        law_run_keeps_order(queue, less);
        assert(keeps_channel(calls[calls.len() - 1], name));
        let before = queue.after_all(less);
        assert(before.after(calls.last()).channels.contains_key(name));
    } else {
        let channel = queue.channels[name];
        if in_flight::has_id(channel.in_flight, id) {
            let at = in_flight::index_of_id(channel.in_flight, id);
            assert(channel.held.contains(channel.in_flight[at].0));
        }
    }
}

/// No message that is not acknowledged is lost: after any run of calls, a message that a
/// channel owed at its start, and that was not acknowledged there since, is handed out by the
/// queue that comes back from the checkpoint, unless the queue is going away. The run must
/// neither empty the store nor delete the channel, and the store must not skip the message.
pub proof fn law_unacknowledged_come_back(
    queue: QueueView,
    calls: Seq<Call>,
    name: Seq<char>,
    id: u64,
    clock: u32,
    store: Map<u64, Message>,
)
    requires
        queue.orderly(),
        queue.tight(),
        queue.after_all(calls).state == QueueState::Ready,
        queue.allows_all(calls),
        queue.is_always_answered_honestly(calls),
        queue.channels.contains_key(name),
        queue.channels[name].owes(id),
        forall|k: int| 0 <= k < calls.len() ==> keeps_channel(#[trigger] calls[k], name),
        forall|k: int|
            0 <= k < calls.len() ==> (#[trigger] queue.before(calls, k)).does_not_skip(
                calls[k],
                name,
                id,
            ),
        !queue.acknowledges(calls, name, id),
        0 < queue.time_to_live,
        clock + queue.time_to_live <= u32::MAX,
        laws::numbered(store),
        store.contains_key(id),
        id < u64::MAX,
        laws::count_between(
            store,
            queue.after_all(calls).channels[name].real_tail() as int,
            id as int,
        ) < u32::MAX,
    ensures
        ({
            let last = queue.after_all(calls);
            let back = QueueView::empty(queue.name, queue.time_to_live).recovered(last.record());
            let tail = last.channels[name].real_tail();
            &&& forall|stored: QueueCheckpoint| #[trigger]
                stored@ == last.record() ==> QueueView::empty(
                    queue.name,
                    queue.time_to_live,
                ).after_recover(Some(stored)) == back
            &&& back.channels.contains_key(name)
            &&& back.channels[name].tail == tail
            &&& tail <= id
            &&& laws::nth_answer(
                back.channels[name],
                clock,
                queue.time_to_live,
                store,
                laws::count_between(store, tail as int, id as int),
            ) == Ok::<Message, u64>(store[id])
        }),
{
    law_run_keeps_order(queue, calls);
    law_run_keeps_state(queue, calls);
    law_run_keeps_owing(queue, calls, name, id);
    laws::law_owed_messages_come_back(queue.after_all(calls), name, id, clock, store);
}

impl ChannelView {
    /// The channels differ at most in which deadlines that are past at `now` are marked.
    pub open spec fn alike(self, other: ChannelView, now: u32) -> bool {
        &&& self.marked()
        &&& other.marked()
        &&& self.last_touched == other.last_touched
        &&& self.tail == other.tail
        &&& self.held == other.held
        &&& self.in_flight.len() == other.in_flight.len()
        &&& forall|i: int|
            0 <= i < self.in_flight.len() ==> alike_entries(
                #[trigger] self.in_flight[i],
                other.in_flight[i],
                now,
            )
    }
}

impl QueueView {
    /// The queues differ at most in which deadlines that are past at `now` are marked.
    pub open spec fn alike(self, other: QueueView, now: u32) -> bool {
        &&& self.same_but_for_channels(other)
        &&& self.channels.dom() == other.channels.dom()
        &&& forall|name: Seq<char>| #[trigger]
            self.channels.contains_key(name) ==> self.channels[name].alike(
                other.channels[name],
                now,
            )
    }
}

/// The entries are of one id, and have the same deadline or both are past at `now`.
pub open spec fn alike_entries(a: (u64, u32), b: (u64, u32), now: u32) -> bool {
    a.0 == b.0 && (a.1 == b.1 || (a.1 <= now && b.1 <= now))
}

/// The sweep goes as far from the start as from a place before which all is past.
proof fn lemma_sweep_from_start(entries: Seq<(u64, u32)>, from: int, clock: u32)
    requires
        0 <= from <= entries.len(),
        forall|i: int| 0 <= i < from ==> (#[trigger] entries[i]).1 <= clock,
    ensures
        channel::first_alive(entries, 0, clock) == channel::first_alive(entries, from, clock),
    decreases from,
{
    if from > 0 {
        lemma_sweep_from_start(entries, from - 1, clock);
    }
}

proof fn lemma_alike_sweeps(
    a: Seq<(u64, u32)>,
    b: Seq<(u64, u32)>,
    from: int,
    now: u32,
    clock: u32,
)
    requires
        0 <= from <= a.len(),
        a.len() == b.len(),
        now <= clock,
        forall|i: int| 0 <= i < a.len() ==> alike_entries(#[trigger] a[i], b[i], now),
    ensures
        channel::first_alive(a, from, clock) == channel::first_alive(b, from, clock),
    decreases a.len() - from,
{
    if from < a.len() {
        assert(alike_entries(a[from], b[from], now));
        lemma_alike_sweeps(a, b, from + 1, now, clock);
    }
}

proof fn lemma_alike_index(a: ChannelView, b: ChannelView, now: u32, id: u64)
    requires
        a.alike(b, now),
    ensures
        in_flight::has_id(a.in_flight, id) == in_flight::has_id(b.in_flight, id),
        in_flight::has_id(a.in_flight, id) ==> in_flight::index_of_id(a.in_flight, id)
            == in_flight::index_of_id(b.in_flight, id),
{
    if in_flight::has_id(a.in_flight, id) {
        let at = in_flight::index_of_id(a.in_flight, id);
        assert(a.in_flight[at].0 == id);
        assert(b.in_flight[at].0 == id);
        in_flight::lemma_index_of_id(b.in_flight, at);
    }
    if in_flight::has_id(b.in_flight, id) {
        let at = in_flight::index_of_id(b.in_flight, id);
        assert(b.in_flight[at].0 == id);
        assert(alike_entries(a.in_flight[at], b.in_flight[at], now));
    }
}

/// A channel that was asked what there is to tell is like one that was not.
pub proof fn law_swept_is_alike(channel: ChannelView, clock: u32)
    requires
        channel.marked(),
    ensures
        channel.swept(clock).alike(channel, clock),
{
    laws::law_sweep_keeps_marked(channel, clock);
    channel::lemma_first_alive(channel.in_flight, channel.expired_count as int, clock);
    let next = channel.swept(clock);
    assert forall|i: int| 0 <= i < next.in_flight.len() implies alike_entries(
        #[trigger] next.in_flight[i],
        channel.in_flight[i],
        clock,
    ) by {}
}

/// Channels that are alike want the same id, answer the same, take the same acknowledgements,
/// and have the same told and kept of them.
pub proof fn law_alike_channels_answer_alike(
    a: ChannelView,
    b: ChannelView,
    now: u32,
    clock: u32,
    time_to_live: u32,
    fetched: Option<Message>,
    id: u64,
)
    requires
        a.alike(b, now),
        now <= clock,
    ensures
        a.due(clock) == b.due(clock),
        a.wanted(clock) == b.wanted(clock),
        a.accepts(clock, time_to_live, fetched) == b.accepts(clock, time_to_live, fetched),
        a.answer(fetched) == b.answer(fetched),
        a.can_ack(id, clock) == b.can_ack(id, clock),
        a.expired_at(clock) == b.expired_at(clock),
        queue::told(a, clock) == queue::told(b, clock),
        queue::kept(a) == queue::kept(b),
{
    if a.in_flight.len() > 0 {
        assert(alike_entries(a.in_flight[0], b.in_flight[0], now));
    }
    lemma_alike_index(a, b, now, id);
    if in_flight::has_id(a.in_flight, id) {
        let at = in_flight::index_of_id(a.in_flight, id);
        assert(a.in_flight[at].0 == id);
        assert(alike_entries(a.in_flight[at], b.in_flight[at], now));
    }
    if let Some(message) = fetched {
        lemma_alike_index(a, b, now, message.id);
    }
    lemma_sweep_from_start(a.in_flight, a.expired_count as int, clock);
    lemma_sweep_from_start(b.in_flight, b.expired_count as int, clock);
    lemma_alike_sweeps(a.in_flight, b.in_flight, 0, now, clock);
}

/// Taking the same id out of channels that are alike leaves entries that are alike.
proof fn lemma_alike_without(a: ChannelView, b: ChannelView, now: u32, id: u64)
    requires
        a.alike(b, now),
    ensures
        ({
            let x = in_flight::without_id(a.in_flight, id);
            let y = in_flight::without_id(b.in_flight, id);
            &&& x.len() == y.len()
            &&& forall|i: int| 0 <= i < x.len() ==> alike_entries(#[trigger] x[i], y[i], now)
        }),
{
    lemma_alike_index(a, b, now, id);
    let x = in_flight::without_id(a.in_flight, id);
    let y = in_flight::without_id(b.in_flight, id);
    if in_flight::has_id(a.in_flight, id) {
        let at = in_flight::index_of_id(a.in_flight, id);
        assert(a.in_flight[at].0 == id);
        assert forall|i: int| 0 <= i < x.len() implies alike_entries(
            #[trigger] x[i],
            y[i],
            now,
        ) by {
            let i0 = if i < at { i } else { i + 1 };
            assert(x[i] == a.in_flight[i0] && y[i] == b.in_flight[i0]);
        }
    } else {
        assert forall|i: int| 0 <= i < x.len() implies alike_entries(
            #[trigger] x[i],
            y[i],
            now,
        ) by {
            assert(x[i] == a.in_flight[i]);
        }
    }
}

/// Channels that are alike stay alike: handing out.
pub proof fn law_get_keeps_alike(
    a: ChannelView,
    b: ChannelView,
    now: u32,
    clock: u32,
    time_to_live: u32,
    fetched: Option<Message>,
)
    requires
        a.alike(b, now),
        now <= clock,
        b.accepts(clock, time_to_live, fetched),
        clock + time_to_live > 0,
    ensures
        a.after_get(clock, time_to_live, fetched).alike(
            b.after_get(clock, time_to_live, fetched),
            now,
        ),
{
    law_alike_channels_answer_alike(a, b, now, clock, time_to_live, fetched, 0);
    laws::law_get_keeps_marked(a, clock, time_to_live, fetched);
    laws::law_get_keeps_marked(b, clock, time_to_live, fetched);
    let x = a.after_get(clock, time_to_live, fetched);
    let y = b.after_get(clock, time_to_live, fetched);
    if a.due(clock) {
        assert(alike_entries(a.in_flight[0], b.in_flight[0], now));
        assert forall|i: int| 0 <= i < x.in_flight.len() implies alike_entries(
            #[trigger] x.in_flight[i],
            y.in_flight[i],
            now,
        ) by {
            if i < x.in_flight.len() - 1 {
                assert(x.in_flight[i] == a.in_flight[i + 1]);
                assert(y.in_flight[i] == b.in_flight[i + 1]);
            }
        }
    } else if let Some(message) = fetched {
        lemma_alike_without(a, b, now, message.id);
        let rest_a = in_flight::without_id(a.in_flight, message.id);
        let rest_b = in_flight::without_id(b.in_flight, message.id);
        assert forall|i: int| 0 <= i < x.in_flight.len() implies alike_entries(
            #[trigger] x.in_flight[i],
            y.in_flight[i],
            now,
        ) by {
            if i < rest_a.len() {
                assert(x.in_flight[i] == rest_a[i]);
                assert(y.in_flight[i] == rest_b[i]);
            }
        }
    }
}

/// Channels that are alike stay alike: acknowledging.
pub proof fn law_ack_keeps_alike(a: ChannelView, b: ChannelView, now: u32, id: u64, clock: u32)
    requires
        a.alike(b, now),
        now <= clock,
    ensures
        a.after_ack(id, clock).alike(b.after_ack(id, clock), now),
{
    law_alike_channels_answer_alike(a, b, now, clock, 0, None, id);
    laws::law_ack_keeps_marked(a, id, clock);
    laws::law_ack_keeps_marked(b, id, clock);
    if a.can_ack(id, clock) {
        lemma_alike_without(a, b, now, id);
        let x = a.after_ack(id, clock);
        let y = b.after_ack(id, clock);
        assert forall|other: u64| #[trigger] in_flight::has_id(x.in_flight, other)
            == in_flight::has_id(y.in_flight, other) by {
            lemma_alike_index(a, b, now, other);
            in_flight::lemma_without_id(a.in_flight, id);
            in_flight::lemma_without_id(b.in_flight, id);
        }
        assert forall|held: u64| channel::is_held_back(a.held, x.in_flight, held)
            == channel::is_held_back(b.held, y.in_flight, held) by {
            if channel::is_held_back(a.held, x.in_flight, held) {
                let floor = choose|floor: u64|
                    floor <= held && a.held.contains(floor) && #[trigger] in_flight::has_id(
                        x.in_flight,
                        floor,
                    );
                assert(in_flight::has_id(y.in_flight, floor));
            }
            if channel::is_held_back(b.held, y.in_flight, held) {
                let floor = choose|floor: u64|
                    floor <= held && b.held.contains(floor) && #[trigger] in_flight::has_id(
                        y.in_flight,
                        floor,
                    );
                assert(in_flight::has_id(x.in_flight, floor));
            }
        }
        assert(x.held =~= y.held);
    }
}

/// Channels that are alike stay alike: counting what is in flight.
pub proof fn law_sweep_keeps_alike(a: ChannelView, b: ChannelView, now: u32, clock: u32)
    requires
        a.alike(b, now),
        now <= clock,
    ensures
        a.swept(clock).alike(b.swept(clock), now),
{
    law_alike_channels_answer_alike(a, b, now, clock, 0, None, 0);
    laws::law_sweep_keeps_marked(a, clock);
    laws::law_sweep_keeps_marked(b, clock);
    channel::lemma_first_alive(a.in_flight, a.expired_count as int, clock);
    channel::lemma_first_alive(b.in_flight, b.expired_count as int, clock);
    let x = a.swept(clock);
    let y = b.swept(clock);
    assert forall|i: int| 0 <= i < x.in_flight.len() implies alike_entries(
        #[trigger] x.in_flight[i],
        y.in_flight[i],
        now,
    ) by {
        assert(alike_entries(a.in_flight[i], b.in_flight[i], now));
        if i < a.expired_at(clock) {
            assert(x.in_flight[i].1 == 0);
            assert(y.in_flight[i].1 == 0);
        }
    }
}

/// There is one smallest tail: what maintenance returns is what the run of calls says.
pub proof fn law_smallest_tail(queue: QueueView)
    ensures
        queue.is_smallest_tail(queue.smallest_tail()),
        forall|tail: u64| #[trigger] queue.is_smallest_tail(tail) ==> tail == queue.smallest_tail(),
{
    if queue.channels.dom() == Set::<Seq<char>>::empty() {
        assert(queue.is_smallest_tail(0));
    } else {
        assert(exists|name: Seq<char>| queue.channels.contains_key(name)) by {
            if forall|name: Seq<char>| !queue.channels.contains_key(name) {
                assert(queue.channels.dom() =~= Set::<Seq<char>>::empty());
            }
        }
        let some = choose|name: Seq<char>| queue.channels.contains_key(name);
        lemma_smallest_up_to(queue, some);
    }
}

proof fn lemma_smallest_up_to(queue: QueueView, some: Seq<char>)
    requires
        queue.channels.contains_key(some),
    ensures
        exists|tail: u64| queue.is_smallest_tail(tail),
    decreases queue.channels[some].real_tail(),
{
    let tail = queue.channels[some].real_tail();
    if exists|name: Seq<char>| #[trigger]
        queue.channels.contains_key(name) && queue.channels[name].real_tail() < tail {
        let name = choose|name: Seq<char>| #[trigger]
            queue.channels.contains_key(name) && queue.channels[name].real_tail() < tail;
        lemma_smallest_up_to(queue, name);
    } else {
        assert(queue.channels.dom().contains(some));
        assert(queue.is_smallest_tail(tail));
    }
}

proof fn lemma_same_smallest_tail(a: QueueView, b: QueueView)
    requires
        a.channels.dom() == b.channels.dom(),
        forall|name: Seq<char>| #[trigger]
            a.channels.contains_key(name) ==> queue::kept(a.channels[name]) == queue::kept(
                b.channels[name],
            ),
    ensures
        a.smallest_tail() == b.smallest_tail(),
{
    law_smallest_tail(a);
    law_smallest_tail(b);
    let tail = a.smallest_tail();
    if a.channels.dom() != Set::<Seq<char>>::empty() {
        let name = choose|name: Seq<char>| #[trigger]
            a.channels.contains_key(name) && a.channels[name].real_tail() == tail;
        assert(b.channels.dom().contains(name));
        assert forall|other: Seq<char>| #[trigger] b.channels.contains_key(other) implies tail
            <= b.channels[other].real_tail() by {
            assert(a.channels.dom().contains(other));
            assert(a.channels.contains_key(other));
        }
        assert(b.channels.contains_key(name) && b.channels[name].real_tail() == tail);
    }
    assert(b.is_smallest_tail(tail));
}

/// Queues that are alike answer a call alike, and stay alike.
pub proof fn law_alike_queues_answer_alike(a: QueueView, b: QueueView, now: u32, call: Call)
    requires
        a.alike(b, now),
        b.allows(call),
        call.not_before(now),
    ensures
        a.allows(call),
        a.reply(call) == b.reply(call),
        a.after(call).alike(b.after(call), now),
{
    assert forall|name: Seq<char>| a.channels.contains_key(name) == b.channels.contains_key(
        name,
    ) by {
        assert(a.channels.dom().contains(name) == b.channels.dom().contains(name));
    }
    let x = a.after(call);
    let y = b.after(call);
    assert(x.channels.dom() =~= y.channels.dom());
    match call {
        Call::Create { name, clock, head } => {
            laws::law_starting_channel(clock, head);
        },
        Call::Get { name, clock, fetched } => {
            if a.channels.contains_key(name) {
                let (c, d) = (a.channels[name], b.channels[name]);
                law_alike_channels_answer_alike(c, d, now, clock, a.time_to_live, fetched, 0);
                law_get_keeps_alike(c, d, now, clock, a.time_to_live, fetched);
            }
        },
        Call::Ack { name, id, clock } => {
            if a.channels.contains_key(name) {
                let (c, d) = (a.channels[name], b.channels[name]);
                law_alike_channels_answer_alike(c, d, now, clock, 0, None, id);
                law_ack_keeps_alike(c, d, now, id, clock);
            }
        },
        Call::Info { clock } => {
            assert forall|name: Seq<char>| #[trigger] a.channels.contains_key(name) implies
                queue::told(a.channels[name], clock) == queue::told(b.channels[name], clock)
                && x.channels[name].alike(y.channels[name], now) by {
                let (c, d) = (a.channels[name], b.channels[name]);
                law_alike_channels_answer_alike(c, d, now, clock, 0, None, 0);
                law_sweep_keeps_alike(c, d, now, clock);
            }
            assert(a.channels.map_values(|c: ChannelView| queue::told(c, clock))
                =~= b.channels.map_values(|c: ChannelView| queue::told(c, clock)));
        },
        Call::Purge { tail } => {
            assert forall|name: Seq<char>| #[trigger] a.channels.contains_key(name) implies
                x.channels[name] == y.channels[name] && x.channels[name].alike(
                y.channels[name],
                now,
            ) by {
                assert(a.channels[name].alike(b.channels[name], now));
                laws::law_purge_leaves_nothing_held(a.channels[name], tail);
            }
            assert(x.channels =~= y.channels);
        },
        Call::Checkpoint => {
            assert forall|name: Seq<char>| #[trigger] a.channels.contains_key(name) implies
                queue::kept(a.channels[name]) == queue::kept(b.channels[name]) by {
                let (c, d) = (a.channels[name], b.channels[name]);
                law_alike_channels_answer_alike(c, d, now, now, 0, None, 0);
            }
            assert(a.record().channels =~= b.record().channels);
        },
        Call::Maintenance => {
            assert forall|name: Seq<char>| #[trigger] a.channels.contains_key(name) implies
                queue::kept(a.channels[name]) == queue::kept(b.channels[name]) by {
                let (c, d) = (a.channels[name], b.channels[name]);
                law_alike_channels_answer_alike(c, d, now, now, 0, None, 0);
            }
            assert(a.record().channels =~= b.record().channels);
            lemma_same_smallest_tail(a, b);
        },
        Call::Recover { stored } => {
            if let Some(record) = stored {
                let kept = record@;
                assert forall|name: Seq<char>| #[trigger] x.channels.contains_key(name) implies
                    x.channels[name].alike(y.channels[name], now) by {
                    if kept.state == QueueState::Ready && kept.channels.contains_key(name) {
                        let of = kept.channels[name];
                        laws::law_starting_channel(of.last_touched, of.tail);
                    } else {
                        assert(a.channels.contains_key(name));
                    }
                }
            }
        },
        Call::Delete => {},
        Call::DeleteChannel { name } => {},
    }
    assert forall|name: Seq<char>| #[trigger] x.channels.contains_key(name) implies
        x.channels[name].alike(y.channels[name], now) by {
        assert(call is Create || call is Recover || a.channels.contains_key(name));
    }
}

/// Queues that are alike answer any run of calls alike, and are alike at its end.
pub proof fn law_alike_queues_stay_alike(a: QueueView, b: QueueView, now: u32, calls: Seq<Call>)
    requires
        a.alike(b, now),
        b.allows_all(calls),
        forall|k: int| 0 <= k < calls.len() ==> (#[trigger] calls[k]).not_before(now),
    ensures
        a.allows_all(calls),
        forall|k: int|
            0 <= k < calls.len() ==> (#[trigger] a.before(calls, k)).reply(calls[k]) == b.before(
                calls,
                k,
            ).reply(calls[k]),
        a.after_all(calls).alike(b.after_all(calls), now),
    decreases calls.len(),
{
    if calls.len() > 0 {
        let less = calls.drop_last();
        let last = calls.len() - 1;
        lemma_last_call(a, calls);
        lemma_last_call(b, calls);
        lemma_allowed_before_last(b, calls);
        law_alike_queues_stay_alike(a, b, now, less);
        assert(calls[last].not_before(now));
        law_alike_queues_answer_alike(a.after_all(less), b.after_all(less), now, calls.last());
        assert forall|k: int| 0 <= k < calls.len() implies (#[trigger] a.before(calls, k)).allows(
            calls[k],
        ) && a.before(calls, k).reply(calls[k]) == b.before(calls, k).reply(calls[k]) by {
            if k < last {
                assert(a.before(less, k).allows(less[k]));
                assert(a.before(less, k).reply(less[k]) == b.before(less, k).reply(less[k]));
            }
        }
    }
}

/// Asking what there is to tell changes nothing that any later call returns, as long as the
/// clock does not go back behind it: each call of a run returns what it would have returned,
/// later counts and checkpoints too, and can be made where it could have been made.
pub proof fn law_info_changes_no_later_answer(queue: QueueView, clock: u32, calls: Seq<Call>)
    requires
        queue.marked(),
        queue.allows_all(calls),
        forall|k: int| 0 <= k < calls.len() ==> (#[trigger] calls[k]).not_before(clock),
    ensures
        ({
            let asked = queue.after_info(clock);
            &&& asked.allows_all(calls)
            &&& forall|k: int|
                0 <= k < calls.len() ==> (#[trigger] asked.before(calls, k)).reply(calls[k])
                    == queue.before(calls, k).reply(calls[k])
            &&& asked.after_all(calls).alike(queue.after_all(calls), clock)
        }),
{
    let asked = queue.after_info(clock);
    assert(asked.channels.dom() =~= queue.channels.dom());
    assert forall|name: Seq<char>| #[trigger] asked.channels.contains_key(name) implies
        asked.channels[name].alike(queue.channels[name], clock) by {
        assert(queue.channels.contains_key(name));
        law_swept_is_alike(queue.channels[name], clock);
    }
    law_alike_queues_stay_alike(asked, queue, clock, calls);
}

} // verus!
