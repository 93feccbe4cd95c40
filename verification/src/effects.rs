//! What a single call changes, and what it leaves as it was.
//!
//! Each law says of one operation, in terms of what the channel or the queue held before and
//! holds after, which parts move, where they move to, and that the rest stays.

use crate::channel::{self, ChannelView};
use crate::heap;
use crate::in_flight;
use crate::laws;
use crate::message::Message;
use crate::queue::{self, CheckpointPlan, QueueCheckpoint, QueueState, QueueView};
use vstd::multiset::Multiset;
use vstd::prelude::*;

verus! {

/// The front of what is in flight is past its deadline at `clock`.
pub open spec fn front_is_past(channel: ChannelView, clock: u32) -> bool {
    channel.in_flight.len() > 0 && channel.in_flight[0].1 <= clock
}

/// A channel wants the id at the front again once the deadline there is past, and else reads on
/// from its tail.
pub proof fn law_what_is_wanted(channel: ChannelView, clock: u32)
    ensures
        front_is_past(channel, clock) ==> channel.wanted(clock) == channel.in_flight[0].0,
        !front_is_past(channel, clock) ==> channel.wanted(clock) == channel.tail,
{
}

/// What the store has is what the reader gets, and where it has nothing the reader is told the
/// id that it waits for, whatever the channel has in flight.
pub proof fn law_reader_gets_what_the_store_has(channel: ChannelView, message: Message)
    ensures
        channel.answer(Some(message)) == Ok::<Message, u64>(message),
        channel.answer(None) == Err::<Message, u64>(channel.tail),
{
}

/// A get that hands nothing out is always accepted while nothing is due, and leaves all but the
/// clock of the last call as it was: what is in flight, ids and deadlines, what is held, and
/// where the channel reads.
pub proof fn law_empty_get_leaves_all_in_flight(channel: ChannelView, clock: u32, time_to_live: u32)
    requires
        !front_is_past(channel, clock),
    ensures
        channel.accepts(clock, time_to_live, None),
        ({
            let next = channel.after_get(clock, time_to_live, None);
            &&& next.last_touched == clock
            &&& next.tail == channel.tail
            &&& next.in_flight == channel.in_flight
            &&& next.expired_count == channel.expired_count
            &&& next.held == channel.held
        }),
{
}

/// While the front is past its deadline, a get without a message is not accepted; one with a
/// message moves the front to the back, with a time to live that begins now, and leaves the
/// others as they were and in their order. Nothing new is read.
pub proof fn law_timed_out_goes_to_the_back(
    channel: ChannelView,
    clock: u32,
    time_to_live: u32,
    message: Message,
)
    requires
        front_is_past(channel, clock),
        clock + time_to_live <= u32::MAX,
        channel.wf(),
        channel.in_flight[0].1 == 0 ==> channel.expired_count > 0,
    ensures
        !channel.accepts(clock, time_to_live, None),
        channel.accepts(clock, time_to_live, Some(message)),
        ({
            let next = channel.after_get(clock, time_to_live, Some(message));
            let last = channel.in_flight.len() - 1;
            &&& next.last_touched == clock
            &&& next.tail == channel.tail
            &&& next.held == channel.held
            &&& next.in_flight.len() == channel.in_flight.len()
            &&& next.in_flight[last].0 == channel.in_flight[0].0
            &&& next.in_flight[last].1 == clock + time_to_live
            &&& forall|i: int|
                0 <= i < last ==> #[trigger] next.in_flight[i] == channel.in_flight[i + 1]
            &&& channel.in_flight[0].1 == 0 ==> next.expired_count == channel.expired_count - 1
            &&& channel.in_flight[0].1 > 0 ==> next.expired_count == channel.expired_count
        }),
{
}

/// While nothing is due, a message that the store has is accepted as long as no number outgrows
/// its type. It goes to the back with a time to live that begins now, it is held, and the
/// channel reads on just after it. The others stay as they were and in their order.
pub proof fn law_new_message_goes_to_the_back(
    channel: ChannelView,
    clock: u32,
    time_to_live: u32,
    message: Message,
)
    requires
        !front_is_past(channel, clock),
        clock + time_to_live <= u32::MAX,
        message.id < u64::MAX,
        channel.in_flight.len() < u32::MAX,
        forall|i: int|
            0 <= i < channel.in_flight.len() ==> (#[trigger] channel.in_flight[i]).0 != message.id,
    ensures
        channel.accepts(clock, time_to_live, Some(message)),
        ({
            let next = channel.after_get(clock, time_to_live, Some(message));
            let last = channel.in_flight.len() as int;
            &&& next.last_touched == clock
            &&& next.tail == message.id + 1
            &&& next.expired_count == channel.expired_count
            &&& next.in_flight.len() == channel.in_flight.len() + 1
            &&& next.in_flight[last].0 == message.id
            &&& next.in_flight[last].1 == clock + time_to_live
            &&& forall|i: int| 0 <= i < last ==> #[trigger] next.in_flight[i] == channel.in_flight[i]
            &&& forall|id: u64| #[trigger]
                next.held.count(id) == channel.held.count(id) + if id == message.id {
                    1nat
                } else {
                    0nat
                }
        }),
{
}

/// A message that the store has again under an id in flight takes the place of the earlier
/// one: that one leaves, and the new one stands at the back.
pub proof fn law_repeated_message_moves_to_the_back(
    channel: ChannelView,
    clock: u32,
    time_to_live: u32,
    message: Message,
    at: int,
)
    requires
        channel.wf(),
        !front_is_past(channel, clock),
        clock + time_to_live <= u32::MAX,
        message.id < u64::MAX,
        0 <= at < channel.in_flight.len(),
        channel.in_flight[at].0 == message.id,
    ensures
        channel.accepts(clock, time_to_live, Some(message)),
        ({
            let next = channel.after_get(clock, time_to_live, Some(message));
            let last = channel.in_flight.len() - 1;
            &&& next.last_touched == clock
            &&& next.tail == message.id + 1
            &&& next.expired_count == channel.expired_count
            &&& next.in_flight.len() == channel.in_flight.len()
            &&& next.in_flight[last].0 == message.id
            &&& next.in_flight[last].1 == clock + time_to_live
            &&& forall|i: int| 0 <= i < at ==> #[trigger] next.in_flight[i] == channel.in_flight[i]
            &&& forall|i: int|
                at <= i < last ==> #[trigger] next.in_flight[i] == channel.in_flight[i + 1]
            &&& forall|id: u64| #[trigger]
                next.held.count(id) == channel.held.count(id) + if id == message.id {
                    1nat
                } else {
                    0nat
                }
        }),
{
    in_flight::lemma_index_of_id(channel.in_flight, at);
}

/// A get moves no deadline but that of the message that it hands out.
pub proof fn law_get_leaves_other_deadlines(
    channel: ChannelView,
    clock: u32,
    time_to_live: u32,
    fetched: Option<Message>,
    id: u64,
    deadline: u32,
)
    requires
        channel.wf(),
        channel.accepts(clock, time_to_live, fetched),
        channel.honest(clock, fetched),
        channel.answer(fetched) matches Ok(message) ==> message.id != id,
    ensures
        channel.in_flight.contains((id, deadline)) <==> channel.after_get(
            clock,
            time_to_live,
            fetched,
        ).in_flight.contains((id, deadline)),
{
    let next = channel.after_get(clock, time_to_live, fetched);
    let entry = (id, deadline);
    if front_is_past(channel, clock) {
        if channel.in_flight.contains(entry) {
            let i = channel.in_flight.index_of(entry);
            assert(channel.in_flight[i] == entry);
            assert(next.in_flight[i - 1] == entry);
        }
        if next.in_flight.contains(entry) {
            let i = next.in_flight.index_of(entry);
            assert(next.in_flight[i] == entry);
            assert(channel.in_flight[i + 1] == entry);
        }
    } else if let Some(message) = fetched {
        if in_flight::has_id(channel.in_flight, message.id) {
            let at = in_flight::index_of_id(channel.in_flight, message.id);
            assert(channel.in_flight[at].0 == message.id);
            law_repeated_message_moves_to_the_back(channel, clock, time_to_live, message, at);
            if channel.in_flight.contains(entry) {
                let i = channel.in_flight.index_of(entry);
                assert(channel.in_flight[i] == entry);
                if i < at {
                    assert(next.in_flight[i] == entry);
                } else {
                    assert(next.in_flight[i - 1] == entry);
                }
            }
            if next.in_flight.contains(entry) {
                let i = next.in_flight.index_of(entry);
                assert(next.in_flight[i] == entry);
                if i < at {
                    assert(channel.in_flight[i] == entry);
                } else {
                    assert(channel.in_flight[i + 1] == entry);
                }
            }
        } else {
            law_new_message_goes_to_the_back(channel, clock, time_to_live, message);
            if channel.in_flight.contains(entry) {
                let i = channel.in_flight.index_of(entry);
                assert(channel.in_flight[i] == entry);
                assert(next.in_flight[i] == entry);
            }
            if next.in_flight.contains(entry) {
                let i = next.in_flight.index_of(entry);
                assert(next.in_flight[i] == entry);
                assert(channel.in_flight[i] == entry);
            }
        }
    }
}

/// An acknowledgement is done just where the id is in flight and its deadline comes after the
/// clock.
pub proof fn law_only_what_is_in_flight_is_acknowledged(channel: ChannelView, id: u64, clock: u32)
    requires
        channel.wf(),
    ensures
        channel.can_ack(id, clock) <==> exists|i: int|
            0 <= i < channel.in_flight.len() && (#[trigger] channel.in_flight[i]).0 == id && clock
                < channel.in_flight[i].1,
{
    if in_flight::has_id(channel.in_flight, id) {
        let at = in_flight::index_of_id(channel.in_flight, id);
        assert(channel.in_flight[at].0 == id);
    }
    assert forall|i: int|
        0 <= i < channel.in_flight.len() && (#[trigger] channel.in_flight[i]).0 == id && clock
            < channel.in_flight[i].1 implies channel.can_ack(id, clock) by {
        in_flight::lemma_index_of_id(channel.in_flight, i);
    }
}

/// What was not read yet cannot be acknowledged, nor what was read and is in flight no more.
pub proof fn law_unread_cannot_be_acknowledged(channel: ChannelView, id: u64, clock: u32)
    requires
        channel.orderly(),
        channel.tail <= id || forall|i: int|
            0 <= i < channel.in_flight.len() ==> (#[trigger] channel.in_flight[i]).0 != id,
    ensures
        !channel.can_ack(id, clock),
{
    law_only_what_is_in_flight_is_acknowledged(channel, id, clock);
    if channel.can_ack(id, clock) {
        let i = choose|i: int|
            0 <= i < channel.in_flight.len() && (#[trigger] channel.in_flight[i]).0 == id && clock
                < channel.in_flight[i].1;
        assert(channel.held.contains(channel.in_flight[i].0));
    }
}

/// No acknowledgement moves where the channel reads, nor how many are counted as past their
/// deadline. One that is not done leaves all in flight and all held as it was.
pub proof fn law_ack_does_not_move_the_tail(channel: ChannelView, id: u64, clock: u32)
    ensures
        ({
            let next = channel.after_ack(id, clock);
            &&& next.last_touched == clock
            &&& next.tail == channel.tail
            &&& next.expired_count == channel.expired_count
            &&& !channel.can_ack(id, clock) ==> next.in_flight == channel.in_flight && next.held
                == channel.held
        }),
{
}

/// An acknowledgement that is done takes out the one entry with the id and leaves the others as
/// they were and in their order. Of what is held, that stays which is at or above some held id
/// still in flight, as often as it was held; the rest is let go.
pub proof fn law_ack_takes_one_out(channel: ChannelView, id: u64, clock: u32, at: int)
    requires
        channel.wf(),
        0 <= at < channel.in_flight.len(),
        channel.in_flight[at].0 == id,
        clock < channel.in_flight[at].1,
    ensures
        channel.can_ack(id, clock),
        ({
            let next = channel.after_ack(id, clock);
            &&& next.in_flight.len() == channel.in_flight.len() - 1
            &&& forall|i: int| 0 <= i < at ==> #[trigger] next.in_flight[i] == channel.in_flight[i]
            &&& forall|i: int|
                at <= i < next.in_flight.len() ==> #[trigger] next.in_flight[i]
                    == channel.in_flight[i + 1]
            &&& forall|held: u64|
                (exists|j: int|
                    0 <= j < next.in_flight.len() && (#[trigger] next.in_flight[j]).0 <= held
                        && channel.held.contains(next.in_flight[j].0)) ==> #[trigger]
                    next.held.count(held) == channel.held.count(held)
            &&& forall|held: u64|
                (forall|j: int|
                    0 <= j < next.in_flight.len() && channel.held.contains(
                        (#[trigger] next.in_flight[j]).0,
                    ) ==> held < next.in_flight[j].0) ==> #[trigger] next.held.count(held) == 0
        }),
{
    in_flight::lemma_index_of_id(channel.in_flight, at);
    let next = channel.after_ack(id, clock);
    assert forall|held: u64|
        (exists|j: int|
            0 <= j < next.in_flight.len() && (#[trigger] next.in_flight[j]).0 <= held
                && channel.held.contains(next.in_flight[j].0)) implies #[trigger] next.held.count(
        held,
    ) == channel.held.count(held) by {
        let j = choose|j: int|
            0 <= j < next.in_flight.len() && (#[trigger] next.in_flight[j]).0 <= held
                && channel.held.contains(next.in_flight[j].0);
        assert(in_flight::has_id(next.in_flight, next.in_flight[j].0));
        assert(channel::is_held_back(channel.held, next.in_flight, held));
    }
    assert forall|held: u64|
        (forall|j: int|
            0 <= j < next.in_flight.len() && channel.held.contains(
                (#[trigger] next.in_flight[j]).0,
            ) ==> held < next.in_flight[j].0) implies #[trigger] next.held.count(held) == 0 by {
        if channel::is_held_back(channel.held, next.in_flight, held) {
            let floor = choose|floor: u64|
                floor <= held && channel.held.contains(floor) && #[trigger] in_flight::has_id(
                    next.in_flight,
                    floor,
                );
            let j = in_flight::index_of_id(next.in_flight, floor);
            assert(next.in_flight[j].0 == floor);
        }
    }
}

/// The real tail is the tail where nothing is held, and else the least that is held.
pub proof fn law_real_tail_is_the_least_held(channel: ChannelView)
    ensures
        (forall|id: u64| channel.held.count(id) == 0) ==> channel.real_tail() == channel.tail,
        forall|id: u64| #[trigger]
            channel.held.count(id) > 0 ==> channel.held.count(channel.real_tail()) > 0
                && channel.real_tail() <= id,
{
    laws::lemma_real_tail(channel);
    if forall|id: u64| channel.held.count(id) == 0 {
        assert(channel.held =~= Multiset::<u64>::empty());
    }
    assert forall|id: u64| #[trigger] channel.held.count(id) > 0 implies channel.held.count(
        channel.real_tail(),
    ) > 0 && channel.real_tail() <= id by {
        assert(channel.held != Multiset::<u64>::empty());
        assert(heap::is_least(channel.held, channel.real_tail()));
        assert(channel.held.contains(id));
    }
}

/// To be asked what there is to tell moves nothing but deadlines that are past: those at the
/// front, up to the first that is not past, become 0 and are counted. Ids, their order, what is
/// held, where the channel reads and the clock of its last call stay.
pub proof fn law_sweep_marks_the_past_at_the_front(channel: ChannelView, clock: u32)
    requires
        channel.wf(),
    ensures
        ({
            let next = channel.swept(clock);
            &&& next.last_touched == channel.last_touched
            &&& next.tail == channel.tail
            &&& next.held == channel.held
            &&& next.in_flight.len() == channel.in_flight.len()
            &&& next.expired_count <= channel.in_flight.len()
            &&& forall|i: int|
                0 <= i < next.expired_count ==> {
                    &&& (#[trigger] next.in_flight[i]).0 == channel.in_flight[i].0
                    &&& next.in_flight[i].1 == 0
                    &&& channel.in_flight[i].1 <= clock
                }
            &&& forall|i: int|
                next.expired_count <= i < channel.in_flight.len() ==> #[trigger] next.in_flight[i]
                    == channel.in_flight[i]
            &&& next.expired_count < channel.in_flight.len() ==> clock
                < channel.in_flight[next.expired_count as int].1
        }),
{
    channel::lemma_first_alive(channel.in_flight, channel.expired_count as int, clock);
}

/// What is told of a channel: its own tail and the clock of its last call, at whatever clock it
/// is asked and whatever is in flight or past its deadline; and as the count, how many are in
/// flight from the first on whose deadline is not past.
pub proof fn law_told_is_what_the_channel_holds(channel: ChannelView, clock: u32)
    requires
        channel.wf(),
    ensures
        queue::told(channel, clock).tail == channel.tail,
        queue::told(channel, clock).last_touched == channel.last_touched,
        ({
            let past = channel.in_flight.len() - queue::told(channel, clock).in_flight_count;
            &&& 0 <= past <= channel.in_flight.len()
            &&& forall|i: int| 0 <= i < past ==> (#[trigger] channel.in_flight[i]).1 <= clock
            &&& past < channel.in_flight.len() ==> clock < channel.in_flight[past].1
        }),
{
    channel::lemma_first_alive(channel.in_flight, channel.expired_count as int, clock);
}

/// A purge leaves a channel the clock of its last call, and nothing in flight or held; it reads
/// from where the store begins.
pub proof fn law_purged_channel(channel: ChannelView, tail: u64)
    ensures
        ({
            let next = channel.after_purge(tail);
            &&& next.last_touched == channel.last_touched
            &&& next.tail == tail
            &&& next.expired_count == 0
            &&& next.in_flight.len() == 0
            &&& forall|id: u64| #[trigger] next.held.count(id) == 0
            &&& next.real_tail() == tail
        }),
{
    law_real_tail_is_the_least_held(channel.after_purge(tail));
}

/// The channel has nothing in flight and nothing held, was last named at `clock`, and reads
/// from `tail`.
pub open spec fn is_fresh(channel: ChannelView, clock: u32, tail: u64) -> bool {
    &&& channel.last_touched == clock
    &&& channel.tail == tail
    &&& channel.expired_count == 0
    &&& channel.in_flight.len() == 0
    &&& forall|id: u64| #[trigger] channel.held.count(id) == 0
}

/// A queue begins ready and without channels, under its name and with its time to live.
pub proof fn law_queue_begins_empty(name: Seq<char>, time_to_live: u32, channel: Seq<char>)
    ensures
        QueueView::empty(name, time_to_live).name == name,
        QueueView::empty(name, time_to_live).time_to_live == time_to_live,
        QueueView::empty(name, time_to_live).state == QueueState::Ready,
        !QueueView::empty(name, time_to_live).channels.contains_key(channel),
{
}

/// After a channel was created there is one of that name. It is a fresh one that reads what is
/// pushed from then on, unless there was one before, which stays as it was; and so does each
/// other.
pub proof fn law_created_channel_is_there(
    queue: QueueView,
    name: Seq<char>,
    clock: u32,
    head: u64,
    other: Seq<char>,
)
    ensures
        ({
            let next = queue.after_create(name, clock, head);
            &&& next.channels.contains_key(name)
            &&& !queue.channels.contains_key(name) ==> is_fresh(next.channels[name], clock, head)
            &&& queue.channels.contains_key(name) ==> next.channels[name] == queue.channels[name]
            &&& other != name ==> next.same_channel(queue, other)
            &&& next.same_but_for_channels(queue)
        }),
{
}

/// After a channel was deleted there is none of that name, whatever it had in flight. Each other
/// stays as it was.
pub proof fn law_deleted_channel_is_gone(queue: QueueView, name: Seq<char>, other: Seq<char>)
    ensures
        ({
            let next = queue.after_delete_channel(name);
            &&& !next.channels.contains_key(name)
            &&& other != name ==> next.same_channel(queue, other)
            &&& next.same_but_for_channels(queue)
        }),
{
}

/// A get and an acknowledgement do on the queue what they do on the channel that they name, at
/// their own clock and with the time to live of the queue. Where there is no such channel they
/// change nothing, and a get is accepted with anything.
pub proof fn law_calls_reach_their_channel(
    queue: QueueView,
    name: Seq<char>,
    clock: u32,
    fetched: Option<Message>,
    id: u64,
)
    ensures
        queue.channels.contains_key(name) ==> {
            let ttl = queue.time_to_live;
            let channel = queue.channels[name];
            let got = queue.after_get(name, clock, fetched);
            let acked = queue.after_ack(name, id, clock);
            &&& got.channels.contains_key(name)
            &&& got.channels[name] == channel.after_get(clock, ttl, fetched)
            &&& acked.channels.contains_key(name)
            &&& acked.channels[name] == channel.after_ack(id, clock)
            &&& queue.accepts(name, clock, fetched) == channel.accepts(clock, ttl, fetched)
        },
        !queue.channels.contains_key(name) ==> {
            &&& queue.after_get(name, clock, fetched) == queue
            &&& queue.after_ack(name, id, clock) == queue
            &&& queue.accepts(name, clock, fetched)
        },
{
}

/// To be asked what there is to tell, and a purge, reach each channel alike and neither add one
/// nor take one away.
pub proof fn law_info_and_purge_reach_each_channel(
    queue: QueueView,
    name: Seq<char>,
    clock: u32,
    tail: u64,
)
    ensures
        ({
            let asked = queue.after_info(clock);
            let purged = queue.after_purge(tail);
            &&& asked.channels.contains_key(name) == queue.channels.contains_key(name)
            &&& purged.channels.contains_key(name) == queue.channels.contains_key(name)
            &&& queue.channels.contains_key(name) ==> {
                &&& asked.channels[name] == queue.channels[name].swept(clock)
                &&& purged.channels[name] == queue.channels[name].after_purge(tail)
            }
            &&& asked.same_but_for_channels(queue)
            &&& purged.same_but_for_channels(queue)
        }),
{
}

/// A checkpoint of a queue keeps the state. While the queue is ready it keeps each channel and
/// no other, with the clock of its last call, and as its tail the least that is held, or the
/// tail of the channel where nothing is; the store writes its own then, in full just where that
/// was asked for. Of a queue that is going away it keeps no channel, and the store writes
/// nothing.
pub proof fn law_what_a_checkpoint_keeps(
    plan: CheckpointPlan,
    queue: QueueView,
    full: bool,
    name: Seq<char>,
)
    requires
        plan.is_checkpoint_of(queue, full),
    ensures
        plan.record.channels.wf(),
        plan.record.state == queue.state,
        queue.state == QueueState::Ready ==> {
            &&& plan.store == Some(full)
            &&& plan.record.channels@.contains_key(name) == queue.channels.contains_key(name)
        },
        queue.state == QueueState::Deleting ==> {
            &&& plan.store is None
            &&& !plan.record.channels@.contains_key(name)
        },
        plan.record.channels@.contains_key(name) ==> {
            let kept = plan.record.channels@[name];
            let channel = queue.channels[name];
            &&& kept.last_touched == channel.last_touched
            &&& (forall|id: u64| channel.held.count(id) == 0) ==> kept.tail == channel.tail
            &&& forall|id: u64| #[trigger]
                channel.held.count(id) > 0 ==> channel.held.count(kept.tail) > 0 && kept.tail <= id
        },
{
    assert(plan.record@.channels == plan.record.channels@);
    if plan.record.channels@.contains_key(name) {
        law_real_tail_is_the_least_held(queue.channels[name]);
    }
}

/// What is read back for a queue, however many channels it keeps, gives the queue its state,
/// and where that is ready, a fresh channel for each name in it, with the clock and the tail
/// that were kept. Any other channel stays as it was, and so do all where the queue is going
/// away. Where nothing could be read, nothing changes.
pub proof fn law_recovery_takes_back_each_channel(
    queue: QueueView,
    stored: QueueCheckpoint,
    name: Seq<char>,
)
    ensures
        ({
            let next = queue.after_recover(Some(stored));
            let comes_back = stored.state == QueueState::Ready
                && stored.channels@.contains_key(name);
            &&& next.name == queue.name
            &&& next.time_to_live == queue.time_to_live
            &&& next.state == stored.state
            &&& comes_back ==> {
                &&& next.channels.contains_key(name)
                &&& is_fresh(
                    next.channels[name],
                    stored.channels@[name].last_touched,
                    stored.channels@[name].tail,
                )
            }
            &&& !comes_back ==> next.same_channel(queue, name)
        }),
        queue.after_recover(None) == queue,
{
}

/// To recover is to take back the record that was read, whatever it holds. So all that is said
/// of a queue that took a record back holds of one that recovers.
pub proof fn law_recover_takes_back_the_record(queue: QueueView, stored: QueueCheckpoint)
    ensures
        queue.after_recover(Some(stored)) == queue.recovered(stored@),
{
}

/// A queue that goes and comes back by its checkpoint: while it is ready it has the same
/// channels, each with the clock of its last call, and each reads from the least that it held,
/// or from its tail where it held nothing.
pub proof fn law_channels_come_back(
    queue: QueueView,
    plan: CheckpointPlan,
    full: bool,
    name: Seq<char>,
)
    requires
        queue.state == QueueState::Ready,
        plan.is_checkpoint_of(queue, full),
    ensures
        ({
            let back = QueueView::empty(queue.name, queue.time_to_live).after_recover(
                Some(plan.record),
            );
            let channel = queue.channels[name];
            &&& back.name == queue.name
            &&& back.time_to_live == queue.time_to_live
            &&& back.state == QueueState::Ready
            &&& back.channels.contains_key(name) == queue.channels.contains_key(name)
            &&& queue.channels.contains_key(name) ==> {
                &&& is_fresh(back.channels[name], channel.last_touched, channel.real_tail())
                &&& (forall|id: u64| channel.held.count(id) == 0) ==> back.channels[name].tail
                    == channel.tail
                &&& forall|id: u64| #[trigger]
                    channel.held.count(id) > 0 ==> back.channels[name].tail <= id
                        && channel.held.count(back.channels[name].tail) > 0
            }
        }),
{
    law_what_a_checkpoint_keeps(plan, queue, full, name);
    let begun = QueueView::empty(queue.name, queue.time_to_live);
    law_recovery_takes_back_each_channel(begun, plan.record, name);
    law_real_tail_is_the_least_held(queue.channels[name]);
}

/// Maintenance lets go of all that no channel needs: where there is no channel, it lets go of
/// nothing, and else some channel has the message at the smallest tail in flight, or has
/// nothing in flight and reads from there.
pub proof fn law_maintenance_lets_go_of_the_rest(queue: QueueView, smallest_tail: u64)
    requires
        queue.orderly(),
        queue.tight(),
        queue.is_smallest_tail(smallest_tail),
    ensures
        (forall|name: Seq<char>| !queue.channels.contains_key(name)) ==> smallest_tail == 0,
        (exists|name: Seq<char>| queue.channels.contains_key(name)) ==> exists|name: Seq<char>| #[trigger]
            queue.channels.contains_key(name) && {
                let channel = queue.channels[name];
                ||| channel.in_flight.len() == 0 && channel.tail == smallest_tail
                ||| exists|i: int|
                    0 <= i < channel.in_flight.len() && (#[trigger] channel.in_flight[i]).0
                        == smallest_tail
            },
{
    if forall|name: Seq<char>| !queue.channels.contains_key(name) {
        assert(queue.channels.dom() =~= Set::<Seq<char>>::empty());
    }
    if exists|name: Seq<char>| queue.channels.contains_key(name) {
        let some = choose|name: Seq<char>| queue.channels.contains_key(name);
        assert(queue.channels.dom().contains(some));
        let name = choose|name: Seq<char>| #[trigger]
            queue.channels.contains_key(name) && queue.channels[name].real_tail()
                == smallest_tail;
        let channel = queue.channels[name];
        laws::law_tight_real_tail(channel);
        if channel.in_flight.len() > 0 {
            let i = in_flight::index_of_id(channel.in_flight, smallest_tail);
            assert(channel.in_flight[i].0 == smallest_tail);
        }
    }
}

} // verus!
