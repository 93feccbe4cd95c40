//! What becomes of a message, of a channel and of what is told of it, over any run of calls.

use crate::channel::ChannelView;
use crate::deliveries;
use crate::effects;
use crate::in_flight;
use crate::laws;
use crate::message::Message;
use crate::queue::{self, QueueState, QueueView};
use crate::runs::{self, Call, Reply};
use vstd::prelude::*;

verus! {

/// The call asks what there is to tell, at `clock` or later.
pub open spec fn asks_from(call: Call, clock: int) -> bool {
    call matches Call::Info { clock: at } && clock <= at
}

/// The deadline of a message in flight is the one that it was handed out with, or 0 once it was
/// past when the queue was asked what there is to tell.
pub open spec fn keeps_deadline(
    entry: (u64, u32),
    id: u64,
    deadline: int,
    calls: Seq<Call>,
    n: int,
) -> bool {
    &&& entry.0 == id
    &&& entry.1 == deadline || (entry.1 == 0 && exists|k: int|
        0 <= k < n && asks_from(#[trigger] calls[k], deadline))
}

/// An entry in flight stays after a call that neither hands the message out nor acknowledges
/// it, or is marked by one that asks what there is to tell once the deadline is past.
proof fn lemma_entry_stays(
    before: QueueView,
    call: Call,
    name: Seq<char>,
    id: u64,
    deadline: u32,
)
    requires
        before.orderly(),
        before.allows(call),
        before.is_answered_honestly(call),
        before.channels.contains_key(name),
        before.channels[name].in_flight.contains((id, deadline)),
        runs::keeps_channel(call, name),
        deliveries::is_get(call, name) ==> (before.reply(call) matches Reply::Handed(
            Some(Ok(message)),
        ) ==> message.id != id),
        runs::is_ack(call, name, id) ==> before.reply(call) != Reply::Acked(Some(true)),
    ensures
        before.after(call).channels.contains_key(name),
        before.after(call).channels[name].in_flight.contains((id, deadline)) || (asks_from(
            call,
            deadline as int,
        ) && before.after(call).channels[name].in_flight.contains((id, 0u32))),
{
    let c = before.channels[name];
    let d = before.after(call).channels[name];
    let at = c.in_flight.index_of((id, deadline));
    assert(c.in_flight[at] == (id, deadline));
    match call {
        Call::Get { name: to, clock, fetched } => {
            if to == name {
                effects::law_get_leaves_other_deadlines(
                    c,
                    clock,
                    before.time_to_live,
                    fetched,
                    id,
                    deadline,
                );
            }
        },
        Call::Ack { name: to, id: acked, clock } => {
            if to == name && c.can_ack(acked, clock) {
                let gap = in_flight::index_of_id(c.in_flight, acked);
                assert(c.in_flight[gap].0 == acked);
                effects::law_ack_takes_one_out(c, acked, clock, gap);
                if at < gap {
                    assert(d.in_flight[at] == (id, deadline));
                } else {
                    assert(d.in_flight[at - 1] == (id, deadline));
                }
            }
        },
        Call::Info { clock } => {
            effects::law_sweep_marks_the_past_at_the_front(c, clock);
            if at < d.expired_count {
                assert(d.in_flight[at] == (id, 0u32));
            } else {
                assert(d.in_flight[at] == (id, deadline));
            }
        },
        _ => {},
    }
}

/// A message in flight keeps its deadline, or has a mark once that is past, as long as it is
/// neither handed out again nor acknowledged, in any run that keeps the channel.
pub proof fn law_in_flight_keeps_its_deadline(
    queue: QueueView,
    calls: Seq<Call>,
    name: Seq<char>,
    id: u64,
    deadline: u32,
    n: int,
)
    requires
        queue.runs(calls),
        queue.channels.contains_key(name),
        queue.channels[name].in_flight.contains((id, deadline)),
        0 <= n <= calls.len(),
        forall|k: int| 0 <= k < n ==> runs::keeps_channel(#[trigger] calls[k], name),
        forall|k: int| 0 <= k < n ==> !#[trigger] queue.hands_out(calls, k, name, id),
        forall|k: int|
            0 <= k < n && runs::is_ack(calls[k], name, id) ==> (#[trigger] queue.before(
                calls,
                k,
            )).reply(calls[k]) != Reply::Acked(Some(true)),
    ensures
        queue.before(calls, n).channels.contains_key(name),
        ({
            let entries = queue.before(calls, n).channels[name].in_flight;
            exists|i: int|
                0 <= i < entries.len() && keeps_deadline(
                    #[trigger] entries[i],
                    id,
                    deadline as int,
                    calls,
                    n,
                )
        }),
    decreases n,
{
    if n == 0 {
        assert(calls.take(0) =~= Seq::<Call>::empty());
        assert(queue.before(calls, 0) == queue);
        let i = queue.channels[name].in_flight.index_of((id, deadline));
        assert(queue.channels[name].in_flight[i] == (id, deadline));
    } else {
        let last = n - 1;
        law_in_flight_keeps_its_deadline(queue, calls, name, id, deadline, last);
        deliveries::lemma_step(queue, calls, last);
        let before = queue.before(calls, last);
        let entries = before.channels[name].in_flight;
        let i = choose|i: int|
            0 <= i < entries.len() && keeps_deadline(
                #[trigger] entries[i],
                id,
                deadline as int,
                calls,
                last,
            );
        let now = entries[i].1;
        assert(entries.contains((id, now)));
        assert(runs::keeps_channel(calls[last], name));
        assert(!queue.hands_out(calls, last, name, id));
        lemma_entry_stays(before, calls[last], name, id, now);
        let next = queue.before(calls, n).channels[name].in_flight;
        if next.contains((id, now)) {
            let j = next.index_of((id, now));
            assert(next[j] == (id, now));
            assert(keeps_deadline(next[j], id, deadline as int, calls, n));
        } else {
            let j = next.index_of((id, 0u32));
            assert(next[j] == (id, 0u32));
            if now == deadline {
                assert(asks_from(calls[last], deadline as int));
            }
            assert(keeps_deadline(next[j], id, deadline as int, calls, n));
        }
    }
}

/// A message that was handed out at some clock and is neither acknowledged nor handed out again
/// has the deadline that comes its time to live after that clock, or a mark once the queue was
/// asked what there is to tell at that deadline or later.
pub proof fn law_handed_out_has_its_deadline(
    queue: QueueView,
    name: Seq<char>,
    clock: u32,
    message: Message,
    calls: Seq<Call>,
)
    requires
        queue.orderly(),
        queue.channels.contains_key(name),
        queue.allows(Call::Get { name, clock, fetched: Some(message) }),
        queue.is_answered_honestly(Call::Get { name, clock, fetched: Some(message) }),
        queue.after_get(name, clock, Some(message)).runs(calls),
        forall|k: int| 0 <= k < calls.len() ==> runs::keeps_channel(#[trigger] calls[k], name),
        forall|k: int|
            0 <= k < calls.len() ==> !#[trigger] queue.after_get(
                name,
                clock,
                Some(message),
            ).hands_out(calls, k, name, message.id),
        !queue.after_get(name, clock, Some(message)).acknowledges(calls, name, message.id),
    ensures
        ({
            let last = queue.after_get(name, clock, Some(message)).after_all(calls);
            let entries = last.channels[name].in_flight;
            &&& last.channels.contains_key(name)
            &&& exists|i: int|
                0 <= i < entries.len() && keeps_deadline(
                    #[trigger] entries[i],
                    message.id,
                    clock + queue.time_to_live,
                    calls,
                    calls.len() as int,
                )
        }),
{
    let handed = queue.after_get(name, clock, Some(message));
    let entries = handed.channels[name].in_flight;
    let deadline = (clock + queue.time_to_live) as u32;
    let end = entries.len() - 1;
    assert(entries[end] == (message.id, deadline));
    assert(calls.take(calls.len() as int) =~= calls);
    law_in_flight_keeps_its_deadline(
        handed,
        calls,
        name,
        message.id,
        deadline,
        calls.len() as int,
    );
}

/// A message that was handed out at some clock and is neither acknowledged nor handed out again
/// makes its channel due from the end of its time to live on, in any run in which no clock goes
/// back: asked then, the channel wants a message again that is past its deadline, and goes on
/// only once it is handed out.
pub proof fn law_unacknowledged_falls_due(
    queue: QueueView,
    name: Seq<char>,
    clock: u32,
    message: Message,
    calls: Seq<Call>,
    at: u32,
)
    requires
        queue.orderly(),
        queue.in_deadline_order(clock + queue.time_to_live),
        queue.channels.contains_key(name),
        queue.allows(Call::Get { name, clock, fetched: Some(message) }),
        queue.is_answered_honestly(Call::Get { name, clock, fetched: Some(message) }),
        queue.after_get(name, clock, Some(message)).runs(calls),
        runs::in_clock_order(calls, clock),
        forall|k: int| 0 <= k < calls.len() ==> runs::keeps_channel(#[trigger] calls[k], name),
        forall|k: int|
            0 <= k < calls.len() ==> !#[trigger] queue.after_get(
                name,
                clock,
                Some(message),
            ).hands_out(calls, k, name, message.id),
        !queue.after_get(name, clock, Some(message)).acknowledges(calls, name, message.id),
        clock + queue.time_to_live <= at,
    ensures
        ({
            let last = queue.after_get(name, clock, Some(message)).after_all(calls);
            let channel = last.channels[name];
            &&& last.channels.contains_key(name)
            &&& channel.in_flight.len() > 0
            &&& channel.in_flight[0].1 <= at
            &&& channel.wanted(at) == channel.in_flight[0].0
            &&& !last.accepts(name, at, None)
        }),
{
    let ttl = queue.time_to_live;
    let handed = queue.after_get(name, clock, Some(message));
    law_handed_out_has_its_deadline(queue, name, clock, message, calls);
    assert forall|other: Seq<char>| #[trigger] handed.channels.contains_key(other) implies
        handed.channels[other].in_deadline_order(clock + ttl) by {
        assert(queue.channels.contains_key(other));
        if other == name {
            laws::law_get_keeps_deadline_order(
                queue.channels[name],
                clock,
                ttl,
                Some(message),
                clock + ttl,
            );
        }
    }
    let n = calls.len() as int;
    assert(calls.take(n) =~= calls);
    deliveries::law_run_keeps_deadline_order(handed, calls, clock, n);
    runs::law_run_keeps_state(handed, calls);
    let last = handed.after_all(calls);
    let channel = last.channels[name];
    assert(last.channels.contains_key(name));
    let i = choose|i: int|
        0 <= i < channel.in_flight.len() && keeps_deadline(
            #[trigger] channel.in_flight[i],
            message.id,
            clock + ttl,
            calls,
            n,
        );
    assert(channel.in_flight[0].1 <= channel.in_flight[i].1);
    effects::law_what_is_wanted(channel, at);
}

/// The call brings a channel of that name.
pub open spec fn brings_channel(call: Call, channel: Seq<char>) -> bool {
    match call {
        Call::Create { name, .. } => name == channel,
        Call::Recover { stored: Some(record) } => record.state == QueueState::Ready
            && record.channels@.contains_key(channel),
        _ => false,
    }
}

/// What a call returns where there is no channel of that name: gets and acknowledgements on it
/// and its deletion find nothing, its creation does, and nothing is told or kept of it.
pub open spec fn knows_nothing_of(reply: Reply, call: Call, channel: Seq<char>) -> bool {
    match call {
        Call::Create { name, .. } => name == channel ==> reply == Reply::Created(true),
        Call::DeleteChannel { name } => name == channel ==> reply == Reply::Deleted(false),
        Call::Get { name, .. } => name == channel ==> reply == Reply::Handed(None),
        Call::Ack { name, .. } => name == channel ==> reply == Reply::Acked(None),
        Call::Recover { .. } => true,
        _ => match reply {
            Reply::Told(told) => !told.contains_key(channel),
            Reply::Kept(record) => !record.channels.contains_key(channel),
            Reply::Collected(_, record) => !record.channels.contains_key(channel),
            _ => false,
        },
    }
}

/// Where there is no channel of some name, there is none until a call brings one, and all calls
/// until then answer so.
pub proof fn law_no_channel_until_one_is_brought(
    queue: QueueView,
    calls: Seq<Call>,
    name: Seq<char>,
    n: int,
)
    requires
        !queue.channels.contains_key(name),
        0 <= n <= calls.len(),
        forall|k: int| 0 <= k < n ==> !brings_channel(#[trigger] calls[k], name),
    ensures
        !queue.before(calls, n).channels.contains_key(name),
        n < calls.len() ==> knows_nothing_of(
            queue.before(calls, n).reply(calls[n]),
            calls[n],
            name,
        ),
    decreases n,
{
    if n == 0 {
        assert(calls.take(0) =~= Seq::<Call>::empty());
    } else {
        law_no_channel_until_one_is_brought(queue, calls, name, n - 1);
        assert(calls.take(n).drop_last() =~= calls.take(n - 1));
        assert(calls.take(n).last() == calls[n - 1]);
        assert(!brings_channel(calls[n - 1], name));
    }
}

/// A channel that was deleted is gone, whatever it had in flight: until it is created again or
/// comes back from a checkpoint, there is no channel of that name, gets and acknowledgements on
/// it find none, and neither does its deletion; nothing is told of it, and no checkpoint keeps
/// it.
pub proof fn law_deleted_channel_stays_gone(
    queue: QueueView,
    name: Seq<char>,
    calls: Seq<Call>,
    n: int,
)
    requires
        0 <= n <= calls.len(),
        forall|k: int| 0 <= k < n ==> !brings_channel(#[trigger] calls[k], name),
    ensures
        ({
            let gone = queue.after_delete_channel(name);
            &&& !gone.before(calls, n).channels.contains_key(name)
            &&& n < calls.len() ==> knows_nothing_of(
                gone.before(calls, n).reply(calls[n]),
                calls[n],
                name,
            )
        }),
{
    effects::law_deleted_channel_is_gone(queue, name, name);
    law_no_channel_until_one_is_brought(queue.after_delete_channel(name), calls, name, n);
}

/// The call reads a new message for the channel: one is there from the tail on, and the front of
/// what is in flight is not past its deadline.
pub open spec fn reads_on(channel: ChannelView, call: Call, name: Seq<char>) -> bool {
    call matches Call::Get { name: to, clock, fetched } && to == name && fetched is Some
        && !effects::front_is_past(channel, clock)
}

/// A call that keeps a channel moves its tail only where it reads a new message for it, to one
/// past that message, and so moves what is told as its tail at any clock.
pub proof fn law_only_reading_moves_the_tail(
    queue: QueueView,
    call: Call,
    name: Seq<char>,
    clock: u32,
    later: u32,
)
    requires
        queue.orderly(),
        queue.allows(call),
        queue.is_answered_honestly(call),
        queue.channels.contains_key(name),
        runs::keeps_channel(call, name),
    ensures
        queue.after(call).channels.contains_key(name),
        ({
            let channel = queue.channels[name];
            let before = queue::told(channel, clock).tail;
            let after = queue::told(queue.after(call).channels[name], later).tail;
            &&& !reads_on(channel, call, name) ==> after == before
            &&& reads_on(channel, call, name) ==> {
                &&& call matches Call::Get { fetched: Some(message), .. }
                &&& after == message.id + 1
                &&& before <= message.id
            }
        }),
{
}

/// What is told as the tail of a channel does not go back between any two times of a run that
/// keeps the channel, whatever the clocks at which it is asked.
pub proof fn law_told_tail_does_not_go_back(
    queue: QueueView,
    calls: Seq<Call>,
    name: Seq<char>,
    j: int,
    k: int,
    clock: u32,
    later: u32,
)
    requires
        queue.runs(calls),
        0 <= j <= k <= calls.len(),
        queue.before(calls, j).channels.contains_key(name),
        forall|i: int| j <= i < k ==> runs::keeps_channel(#[trigger] calls[i], name),
    ensures
        queue.before(calls, k).channels.contains_key(name),
        queue::told(queue.before(calls, j).channels[name], clock).tail <= queue::told(
            queue.before(calls, k).channels[name],
            later,
        ).tail,
{
    deliveries::law_tail_does_not_go_back(queue, calls, name, j, k);
}

/// What is told as the tail of a channel is one past the last message that was read for it,
/// whatever is in flight or past its deadline since.
pub proof fn law_told_tail_is_past_the_last_read(
    queue: QueueView,
    calls: Seq<Call>,
    name: Seq<char>,
    j: int,
    k: int,
    clock: u32,
)
    requires
        queue.runs(calls),
        0 <= j < k <= calls.len(),
        queue.before(calls, j).channels.contains_key(name),
        reads_on(queue.before(calls, j).channels[name], calls[j], name),
        forall|i: int| j < i < k ==> runs::keeps_channel(#[trigger] calls[i], name),
        forall|i: int|
            j < i < k ==> !reads_on(
                (#[trigger] queue.before(calls, i)).channels[name],
                calls[i],
                name,
            ),
    ensures
        queue.before(calls, k).channels.contains_key(name),
        calls[j] matches Call::Get { fetched: Some(message), .. } && queue::told(
            queue.before(calls, k).channels[name],
            clock,
        ).tail == message.id + 1,
    decreases k - j,
{
    let last = k - 1;
    deliveries::lemma_step(queue, calls, last);
    if j < last {
        law_told_tail_is_past_the_last_read(queue, calls, name, j, last, clock);
        assert(runs::keeps_channel(calls[last], name));
    }
    law_only_reading_moves_the_tail(queue.before(calls, last), calls[last], name, clock, clock);
}

/// The call asks the channel for a message or acknowledges one on it.
pub open spec fn touches(call: Call, channel: Seq<char>) -> bool {
    match call {
        Call::Get { name, .. } => name == channel,
        Call::Ack { name, .. } => name == channel,
        _ => false,
    }
}

/// What is told as the last time that a channel was touched is the clock of the last get or
/// acknowledgement on it, done or not, and stays as it was where there was none.
pub proof fn law_told_last_touched(
    queue: QueueView,
    calls: Seq<Call>,
    name: Seq<char>,
    j: int,
    k: int,
    clock: u32,
    later: u32,
)
    requires
        queue.runs(calls),
        0 <= j <= k <= calls.len(),
        queue.before(calls, j).channels.contains_key(name),
        forall|i: int| j <= i < k ==> runs::keeps_channel(#[trigger] calls[i], name),
        forall|i: int| j < i < k ==> !touches(#[trigger] calls[i], name),
    ensures
        queue.before(calls, k).channels.contains_key(name),
        ({
            let told = queue::told(queue.before(calls, k).channels[name], later);
            if j < k && touches(calls[j], name) {
                calls[j].clock() == Some(told.last_touched)
            } else {
                told.last_touched == queue::told(
                    queue.before(calls, j).channels[name],
                    clock,
                ).last_touched
            }
        }),
    decreases k - j,
{
    if j < k {
        let last = k - 1;
        law_told_last_touched(queue, calls, name, j, last, clock, later);
        deliveries::lemma_step(queue, calls, last);
        assert(runs::keeps_channel(calls[last], name));
        assert(last > j ==> !touches(calls[last], name));
    }
}

} // verus!
