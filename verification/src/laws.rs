//! What holds of a channel and of a queue from call to call.
//!
//! The store is outside. What the laws say of it is that it answers honestly: asked for an id
//! that a channel hands out again it answers with that message, and asked for the tail of a
//! channel it answers with a message from there on.

use crate::channel::{self, ChannelView};
use crate::heap;
use crate::in_flight;
use crate::message::Message;
use crate::queue::{self, ChannelCheckpoint, CheckpointView, QueueState, QueueView};
use vstd::multiset::Multiset;
use vstd::prelude::*;

verus! {

impl ChannelView {
    /// A deadline is 0 just where it was counted as past.
    pub open spec fn marked(self) -> bool {
        &&& self.wf()
        &&& forall|i: int|
            self.expired_count <= i < self.in_flight.len() ==> (#[trigger] self.in_flight[i]).1 > 0
    }

    /// All held ids were read, all ids in flight are held, and a deadline is 0 just where it
    /// was counted as past.
    pub open spec fn orderly(self) -> bool {
        &&& self.marked()
        &&& forall|id: u64| #[trigger] self.held.contains(id) ==> id < self.tail
        &&& forall|i: int|
            0 <= i < self.in_flight.len() ==> self.held.contains((#[trigger] self.in_flight[i]).0)
    }

    /// The least held id is in flight.
    pub open spec fn tight(self) -> bool {
        self.held == Multiset::<u64>::empty() || in_flight::has_id(
            self.in_flight,
            self.real_tail(),
        )
    }

    /// The deadlines stand in their order, and none is later than `latest`.
    pub open spec fn in_deadline_order(self, latest: int) -> bool {
        &&& forall|i: int, j: int|
            0 <= i < j < self.in_flight.len() ==> (#[trigger] self.in_flight[i]).1 <= (
            #[trigger] self.in_flight[j]).1
        &&& forall|i: int|
            0 <= i < self.in_flight.len() ==> (#[trigger] self.in_flight[i]).1 <= latest
    }

    /// What the store has answered is an answer to what the channel wanted.
    pub open spec fn honest(self, clock: u32, fetched: Option<Message>) -> bool {
        fetched matches Some(message) ==> if self.due(clock) {
            message.id == self.wanted(clock)
        } else {
            message.id >= self.tail
        }
    }

    /// The id is still to be handed out, or was handed out and is in flight.
    pub open spec fn owes(self, id: u64) -> bool {
        self.tail <= id || in_flight::has_id(self.in_flight, id)
    }

    /// The id was handed out and is in flight no more.
    pub open spec fn finished(self, id: u64) -> bool {
        id < self.tail && !in_flight::has_id(self.in_flight, id)
    }
}

impl QueueView {
    /// The queues differ in their channels at most.
    pub open spec fn same_but_for_channels(self, other: QueueView) -> bool {
        self == (QueueView { channels: self.channels, ..other })
    }

    /// The queues have the same channel of that name, or both have none.
    pub open spec fn same_channel(self, other: QueueView, name: Seq<char>) -> bool {
        &&& self.channels.contains_key(name) == other.channels.contains_key(name)
        &&& self.channels.contains_key(name) ==> self.channels[name] == other.channels[name]
    }

    /// Each channel has its past deadlines marked as counted.
    pub open spec fn marked(self) -> bool {
        forall|name: Seq<char>| #[trigger]
            self.channels.contains_key(name) ==> self.channels[name].marked()
    }

    /// Each channel is orderly.
    pub open spec fn orderly(self) -> bool {
        forall|name: Seq<char>| #[trigger]
            self.channels.contains_key(name) ==> self.channels[name].orderly()
    }

    /// Of each channel, the least held id is in flight.
    pub open spec fn tight(self) -> bool {
        forall|name: Seq<char>| #[trigger]
            self.channels.contains_key(name) ==> self.channels[name].tight()
    }
}

/// Some id is least where there is any.
proof fn lemma_least_exists(ids: Multiset<u64>)
    requires
        ids != Multiset::<u64>::empty(),
    ensures
        exists|id: u64| heap::is_least(ids, id),
{
    let some = ids.choose();
    assert(ids.contains(some)) by {
        if ids.len() == 0 {
            assert(ids =~= Multiset::<u64>::empty());
        }
    }
    lemma_least_up_to(ids, some);
}

proof fn lemma_least_up_to(ids: Multiset<u64>, some: u64)
    requires
        ids.contains(some),
    ensures
        exists|id: u64| heap::is_least(ids, id),
    decreases some,
{
    if exists|other: u64| ids.contains(other) && other < some {
        let other = choose|other: u64| ids.contains(other) && other < some;
        lemma_least_up_to(ids, other);
    } else {
        assert(heap::is_least(ids, some));
    }
}

/// The real tail is the least held id, where one is held.
pub proof fn lemma_real_tail(channel: ChannelView)
    ensures
        channel.held != Multiset::<u64>::empty() ==> heap::is_least(
            channel.held,
            channel.real_tail(),
        ),
{
    if channel.held != Multiset::<u64>::empty() {
        lemma_least_exists(channel.held);
    }
}

/// A channel that starts is orderly and tight.
pub proof fn law_starting_channel(clock: u32, tail: u64)
    ensures
        ChannelView::starting(clock, tail).orderly(),
        ChannelView::starting(clock, tail).tight(),
{
}

/// An orderly channel goes on with any answer of the store, as long as a message that is due
/// again is there and no number outgrows its type.
pub proof fn law_orderly_channel_goes_on(
    channel: ChannelView,
    clock: u32,
    time_to_live: u32,
    fetched: Option<Message>,
)
    requires
        channel.orderly(),
        channel.due(clock) ==> fetched is Some,
        clock + time_to_live <= u32::MAX,
        fetched matches Some(message) ==> message.id < u64::MAX,
        channel.in_flight.len() < u32::MAX,
    ensures
        channel.accepts(clock, time_to_live, fetched),
{
}

/// Handing out keeps the marks of a channel, whatever the store answers.
pub proof fn law_get_keeps_marked(
    channel: ChannelView,
    clock: u32,
    time_to_live: u32,
    fetched: Option<Message>,
)
    requires
        channel.marked(),
        channel.accepts(clock, time_to_live, fetched),
        clock + time_to_live > 0,
    ensures
        channel.after_get(clock, time_to_live, fetched).marked(),
{
    let next = channel.after_get(clock, time_to_live, fetched);
    if channel.due(clock) {
        assert(forall|i: int|
            0 <= i < next.in_flight.len() - 1 ==> #[trigger] next.in_flight[i]
                == channel.in_flight[i + 1]);
        assert forall|i: int, j: int| 0 <= i < j < next.in_flight.len() implies (
        #[trigger] next.in_flight[i]).0 != (#[trigger] next.in_flight[j]).0 by {
            assert(channel.in_flight[0].0 != channel.in_flight[i + 1].0);
        }
    } else if let Some(message) = fetched {
        let rest = in_flight::without_id(channel.in_flight, message.id);
        in_flight::lemma_without_id(channel.in_flight, message.id);
        assert(channel.expired_count > 0 ==> channel.in_flight[0].1 == 0);
        assert(forall|i: int|
            0 <= i < next.in_flight.len() - 1 ==> #[trigger] next.in_flight[i] == rest[i]);
        if in_flight::has_id(channel.in_flight, message.id) {
            let at = in_flight::index_of_id(channel.in_flight, message.id);
            assert(channel.in_flight[at].0 == message.id);
            assert forall|i: int| 0 <= i < rest.len() implies (#[trigger] rest[i]).1 > 0 by {
                assert(rest[i] == channel.in_flight[if i < at { i } else { i + 1 }]);
            }
        }
    }
}

/// Handing out keeps a channel orderly.
pub proof fn law_get_keeps_orderly(
    channel: ChannelView,
    clock: u32,
    time_to_live: u32,
    fetched: Option<Message>,
)
    requires
        channel.orderly(),
        channel.accepts(clock, time_to_live, fetched),
        channel.honest(clock, fetched),
        clock + time_to_live > 0,
    ensures
        channel.after_get(clock, time_to_live, fetched).orderly(),
{
    law_get_keeps_marked(channel, clock, time_to_live, fetched);
    let next = channel.after_get(clock, time_to_live, fetched);
    if channel.due(clock) {
        assert forall|i: int| 0 <= i < next.in_flight.len() implies next.held.contains(
            (#[trigger] next.in_flight[i]).0,
        ) by {
            if i < next.in_flight.len() - 1 {
                assert(next.in_flight[i] == channel.in_flight[i + 1]);
            } else {
                assert(next.in_flight[i].0 == channel.in_flight[0].0);
            }
        }
    } else if let Some(message) = fetched {
        lemma_new_id_is_not_in_flight(channel, message.id);
        assert forall|id: u64| #[trigger] next.held.contains(id) implies id < next.tail by {
            assert(id == message.id || channel.held.contains(id));
        }
        assert forall|i: int| 0 <= i < next.in_flight.len() implies next.held.contains(
            (#[trigger] next.in_flight[i]).0,
        ) by {
            if i < channel.in_flight.len() {
                assert(next.in_flight[i] == channel.in_flight[i]);
            }
        }
    }
}

/// What was not read yet is not in flight.
proof fn lemma_new_id_is_not_in_flight(channel: ChannelView, id: u64)
    requires
        channel.orderly(),
        channel.tail <= id,
    ensures
        !in_flight::has_id(channel.in_flight, id),
{
    if in_flight::has_id(channel.in_flight, id) {
        let at = in_flight::index_of_id(channel.in_flight, id);
        assert(channel.held.contains(channel.in_flight[at].0));
    }
}

/// Acknowledging keeps the marks of a channel.
pub proof fn law_ack_keeps_marked(channel: ChannelView, id: u64, clock: u32)
    requires
        channel.marked(),
    ensures
        channel.after_ack(id, clock).marked(),
{
    if channel.can_ack(id, clock) {
        let next = channel.after_ack(id, clock);
        let at = in_flight::index_of_id(channel.in_flight, id);
        assert(channel.in_flight[at].0 == id);
        in_flight::lemma_without_id(channel.in_flight, id);
        assert(forall|i: int|
            0 <= i < next.in_flight.len() ==> #[trigger] next.in_flight[i]
                == channel.in_flight[if i < at { i } else { i + 1 }]);
    }
}

/// Acknowledging keeps a channel orderly.
pub proof fn law_ack_keeps_orderly(channel: ChannelView, id: u64, clock: u32)
    requires
        channel.orderly(),
    ensures
        channel.after_ack(id, clock).orderly(),
{
    law_ack_keeps_marked(channel, id, clock);
    if channel.can_ack(id, clock) {
        let next = channel.after_ack(id, clock);
        let at = in_flight::index_of_id(channel.in_flight, id);
        assert(channel.in_flight[at].0 == id);
        assert forall|i: int| 0 <= i < next.in_flight.len() implies next.held.contains(
            (#[trigger] next.in_flight[i]).0,
        ) by {
            let left = next.in_flight[i].0;
            assert(next.in_flight[i] == channel.in_flight[if i < at { i } else { i + 1 }]);
            assert(channel.held.contains(left));
            assert(left <= left && in_flight::has_id(next.in_flight, left));
        }
        assert forall|other: u64| #[trigger] next.held.contains(other) implies other
            < next.tail by {
            assert(channel.held.contains(other));
        }
    }
}

/// Counting what is in flight keeps the marks of a channel.
pub proof fn law_sweep_keeps_marked(channel: ChannelView, clock: u32)
    requires
        channel.marked(),
    ensures
        channel.swept(clock).marked(),
{
    let next = channel.swept(clock);
    channel::lemma_first_alive(channel.in_flight, channel.expired_count as int, clock);
    assert forall|i: int, j: int| 0 <= i < j < next.in_flight.len() implies (
    #[trigger] next.in_flight[i]).0 != (#[trigger] next.in_flight[j]).0 by {
        assert(channel.in_flight[i].0 != channel.in_flight[j].0);
    }
}

/// Counting what is in flight keeps a channel orderly.
pub proof fn law_sweep_keeps_orderly(channel: ChannelView, clock: u32)
    requires
        channel.orderly(),
    ensures
        channel.swept(clock).orderly(),
{
    law_sweep_keeps_marked(channel, clock);
    let next = channel.swept(clock);
    assert forall|i: int| 0 <= i < next.in_flight.len() implies (#[trigger] next.in_flight[i]).0
        == channel.in_flight[i].0 by {}
}

/// Emptying the store leaves a channel that holds nothing: it is orderly and tight, and its
/// real tail is where the store begins.
pub proof fn law_purge_leaves_nothing_held(channel: ChannelView, tail: u64)
    ensures
        channel.after_purge(tail).orderly(),
        channel.after_purge(tail).tight(),
        channel.after_purge(tail).real_tail() == tail,
{
}

/// Any call keeps a queue orderly: moving it to a state.
pub proof fn law_state_keeps_queue_orderly(queue: QueueView, state: QueueState)
    requires
        queue.orderly(),
    ensures
        (QueueView { state, ..queue }).orderly(),
{
}

/// Any call keeps a queue orderly: creating a channel.
pub proof fn law_create_keeps_queue_orderly(
    queue: QueueView,
    name: Seq<char>,
    clock: u32,
    head: u64,
)
    requires
        queue.orderly(),
    ensures
        queue.after_create(name, clock, head).orderly(),
{
    law_starting_channel(clock, head);
}

/// Any call keeps a queue orderly: deleting a channel.
pub proof fn law_delete_channel_keeps_queue_orderly(queue: QueueView, name: Seq<char>)
    requires
        queue.orderly(),
    ensures
        queue.after_delete_channel(name).orderly(),
{
    let next = queue.after_delete_channel(name);
    assert forall|other: Seq<char>| #[trigger] next.channels.contains_key(other) implies
        next.channels[other].orderly() by {
        assert(queue.channels.contains_key(other));
    }
}

/// Any call keeps a queue orderly: handing out.
pub proof fn law_get_keeps_queue_orderly(
    queue: QueueView,
    name: Seq<char>,
    clock: u32,
    fetched: Option<Message>,
)
    requires
        queue.orderly(),
        queue.accepts(name, clock, fetched),
        queue.channels.contains_key(name) ==> queue.channels[name].honest(clock, fetched),
        clock + queue.time_to_live > 0,
    ensures
        queue.after_get(name, clock, fetched).orderly(),
{
    if queue.channels.contains_key(name) {
        law_get_keeps_orderly(queue.channels[name], clock, queue.time_to_live, fetched);
    }
}

/// Any call keeps a queue orderly: acknowledging.
pub proof fn law_ack_keeps_queue_orderly(queue: QueueView, name: Seq<char>, id: u64, clock: u32)
    requires
        queue.orderly(),
    ensures
        queue.after_ack(name, id, clock).orderly(),
{
    if queue.channels.contains_key(name) {
        law_ack_keeps_orderly(queue.channels[name], id, clock);
    }
}

/// Any call keeps a queue orderly: telling.
pub proof fn law_info_keeps_queue_orderly(queue: QueueView, clock: u32)
    requires
        queue.orderly(),
    ensures
        queue.after_info(clock).orderly(),
{
    let next = queue.after_info(clock);
    assert forall|name: Seq<char>| #[trigger] next.channels.contains_key(name) implies
        next.channels[name].orderly() by {
        assert(queue.channels.contains_key(name));
        law_sweep_keeps_orderly(queue.channels[name], clock);
    }
}

/// Any call keeps a queue orderly: emptying the store.
pub proof fn law_purge_keeps_queue_orderly(queue: QueueView, tail: u64)
    ensures
        queue.after_purge(tail).orderly(),
        queue.after_purge(tail).tight(),
{
    let next = queue.after_purge(tail);
    assert forall|name: Seq<char>| #[trigger] next.channels.contains_key(name) implies
        next.channels[name].orderly() && next.channels[name].tight() by {
        assert(queue.channels.contains_key(name));
        law_purge_leaves_nothing_held(queue.channels[name], tail);
    }
}

/// Any call keeps a queue orderly: recovering.
pub proof fn law_recover_keeps_queue_orderly(queue: QueueView, record: CheckpointView)
    requires
        queue.orderly(),
    ensures
        queue.recovered(record).orderly(),
{
    let next = queue.recovered(record);
    assert forall|name: Seq<char>| #[trigger] next.channels.contains_key(name) implies
        next.channels[name].orderly() by {
        if record.state == QueueState::Ready && record.channels.contains_key(name) {
            let kept = record.channels[name];
            law_starting_channel(kept.last_touched, kept.tail);
        } else {
            assert(queue.channels.contains_key(name));
        }
    }
}

/// The real tail of an orderly channel is not behind anything that the channel still needs: it
/// is below its tail where anything is held, and above neither the tail nor an id in flight.
pub proof fn law_real_tail_misses_nothing(channel: ChannelView)
    requires
        channel.orderly(),
    ensures
        channel.real_tail() <= channel.tail,
        channel.held != Multiset::<u64>::empty() ==> channel.real_tail() < channel.tail,
        forall|i: int|
            0 <= i < channel.in_flight.len() ==> channel.real_tail() <= (
            #[trigger] channel.in_flight[i]).0,
        forall|clock: u32| channel.real_tail() <= #[trigger] channel.wanted(clock),
{
    lemma_real_tail(channel);
    assert forall|i: int| 0 <= i < channel.in_flight.len() implies channel.real_tail() <= (
    #[trigger] channel.in_flight[i]).0 by {
        assert(channel.held.contains(channel.in_flight[i].0));
    }
}

/// Where the least held id is in flight, the real tail is the smallest id in flight, or the
/// tail where nothing is in flight.
pub proof fn law_tight_real_tail(channel: ChannelView)
    requires
        channel.orderly(),
        channel.tight(),
    ensures
        channel.in_flight.len() == 0 ==> channel.real_tail() == channel.tail,
        channel.in_flight.len() > 0 ==> in_flight::has_id(channel.in_flight, channel.real_tail()),
        forall|i: int|
            0 <= i < channel.in_flight.len() ==> channel.real_tail() <= (
            #[trigger] channel.in_flight[i]).0,
{
    law_real_tail_misses_nothing(channel);
    if channel.in_flight.len() > 0 {
        assert(channel.held.contains(channel.in_flight[0].0));
    }
}

/// An acknowledgement that is done moves the real tail up to the smallest id that is left in
/// flight, whatever held it back before; one that is not done leaves it.
pub proof fn law_ack_makes_tight(channel: ChannelView, id: u64, clock: u32)
    requires
        channel.orderly(),
        channel.can_ack(id, clock) || channel.tight(),
    ensures
        channel.after_ack(id, clock).tight(),
{
    let next = channel.after_ack(id, clock);
    lemma_real_tail(next);
    if !channel.can_ack(id, clock) {
        assert(next.real_tail() == channel.real_tail());
    } else if next.held != Multiset::<u64>::empty() {
        let top = next.real_tail();
        assert(next.held.contains(top));
        let floor = choose|floor: u64|
            floor <= top && channel.held.contains(floor) && #[trigger] in_flight::has_id(
                next.in_flight,
                floor,
            );
        assert(next.held.contains(floor));
        assert(top <= floor);
    }
}

/// Handing out keeps the least held id in flight.
pub proof fn law_get_keeps_tight(
    channel: ChannelView,
    clock: u32,
    time_to_live: u32,
    fetched: Option<Message>,
)
    requires
        channel.orderly(),
        channel.tight(),
        channel.accepts(clock, time_to_live, fetched),
        channel.honest(clock, fetched),
    ensures
        channel.after_get(clock, time_to_live, fetched).tight(),
{
    let next = channel.after_get(clock, time_to_live, fetched);
    lemma_real_tail(channel);
    lemma_real_tail(next);
    if channel.due(clock) {
        if channel.held != Multiset::<u64>::empty() {
            let at = in_flight::index_of_id(channel.in_flight, channel.real_tail());
            assert(channel.in_flight[at].0 == channel.real_tail());
            if at == 0 {
                assert(next.in_flight.last().0 == channel.real_tail());
                assert(next.in_flight[next.in_flight.len() - 1].0 == channel.real_tail());
            } else {
                assert(next.in_flight[at - 1] == channel.in_flight[at]);
            }
        }
    } else if let Some(message) = fetched {
        assert(next.held.contains(message.id));
        let top = next.real_tail();
        assert(next.in_flight[next.in_flight.len() - 1].0 == message.id);
        if channel.held != Multiset::<u64>::empty() {
            let least = channel.real_tail();
            assert(channel.held.contains(least));
            assert(next.held.contains(least));
            assert(top == message.id || channel.held.contains(top));
            assert(top == least);
            let at = in_flight::index_of_id(channel.in_flight, least);
            assert(channel.in_flight[at].0 == least);
            if in_flight::has_id(channel.in_flight, message.id) {
                let k = in_flight::index_of_id(channel.in_flight, message.id);
                assert(channel.held.contains(channel.in_flight[k].0));
            }
            assert(next.in_flight[at] == channel.in_flight[at]);
        } else {
            assert(top == message.id);
        }
    }
}

/// Counting what is in flight keeps the least held id in flight.
pub proof fn law_sweep_keeps_tight(channel: ChannelView, clock: u32)
    requires
        channel.wf(),
        channel.tight(),
    ensures
        channel.swept(clock).tight(),
{
    let next = channel.swept(clock);
    assert(next.real_tail() == channel.real_tail());
    if channel.held != Multiset::<u64>::empty() {
        let at = in_flight::index_of_id(channel.in_flight, channel.real_tail());
        assert(channel.in_flight[at].0 == channel.real_tail());
        assert(next.in_flight[at].0 == channel.real_tail());
    }
}

/// A queue that comes back from its checkpoint misses nothing: it has the same channels, and
/// each reads from no later than any id that was in flight, and than what it wanted next.
pub proof fn law_recovery_misses_nothing(queue: QueueView)
    requires
        queue.orderly(),
        queue.state == QueueState::Ready,
    ensures
        ({
            let back = QueueView::empty(queue.name, queue.time_to_live).recovered(queue.record());
            &&& back.state == QueueState::Ready
            &&& back.channels.dom() == queue.channels.dom()
            &&& forall|name: Seq<char>| #[trigger]
                queue.channels.contains_key(name) ==> {
                    let before = queue.channels[name];
                    let after = back.channels[name];
                    &&& after == ChannelView::starting(before.last_touched, before.real_tail())
                    &&& after.tail <= before.tail
                    &&& forall|i: int|
                        0 <= i < before.in_flight.len() ==> after.tail <= (
                        #[trigger] before.in_flight[i]).0
                }
        }),
{
    let back = QueueView::empty(queue.name, queue.time_to_live).recovered(queue.record());
    assert(back.channels.dom() =~= queue.channels.dom());
    assert forall|name: Seq<char>| #[trigger] queue.channels.contains_key(name) implies {
        let before = queue.channels[name];
        let after = back.channels[name];
        &&& after == ChannelView::starting(before.last_touched, before.real_tail())
        &&& after.tail <= before.tail
        &&& forall|i: int|
            0 <= i < before.in_flight.len() ==> after.tail <= (#[trigger] before.in_flight[i]).0
    } by {
        law_real_tail_misses_nothing(queue.channels[name]);
    }
}

/// What was written is what is written again: a new queue that took a checkpoint back has that
/// checkpoint, where the checkpoint keeps no channel of a queue that is going away.
pub proof fn law_checkpoint_round_trip(name: Seq<char>, time_to_live: u32, record: CheckpointView)
    requires
        record.state == QueueState::Deleting ==> record.channels == Map::<
            Seq<char>,
            ChannelCheckpoint,
        >::empty(),
    ensures
        QueueView::empty(name, time_to_live).recovered(record).record() == record,
{
    let back = QueueView::empty(name, time_to_live).recovered(record);
    assert(back.record().channels =~= record.channels);
}

/// A queue that is going away comes back as one that is going away, without channels.
pub proof fn law_deleted_queue_stays_deleted(queue: QueueView)
    requires
        queue.state == QueueState::Deleting,
    ensures
        queue.record().state == QueueState::Deleting,
        queue.record().channels == Map::<Seq<char>, ChannelCheckpoint>::empty(),
        ({
            let back = QueueView::empty(queue.name, queue.time_to_live).recovered(queue.record());
            back.state == QueueState::Deleting && back.channels == Map::<
                Seq<char>,
                ChannelView,
            >::empty()
        }),
{
}

/// No call on the channels moves the state of a queue, its name or its time to live.
pub proof fn law_state_is_kept(
    queue: QueueView,
    name: Seq<char>,
    clock: u32,
    id: u64,
    fetched: Option<Message>,
)
    ensures
        queue.after_create(name, clock, id).same_but_for_channels(queue),
        queue.after_delete_channel(name).same_but_for_channels(queue),
        queue.after_get(name, clock, fetched).same_but_for_channels(queue),
        queue.after_ack(name, id, clock).same_but_for_channels(queue),
        queue.after_purge(id).same_but_for_channels(queue),
        queue.after_info(clock).same_but_for_channels(queue),
{
}

/// A call on one channel leaves the others as they are.
pub proof fn law_channels_are_independent(
    queue: QueueView,
    name: Seq<char>,
    other: Seq<char>,
    clock: u32,
    id: u64,
    fetched: Option<Message>,
)
    requires
        name != other,
    ensures
        queue.after_create(name, clock, id).same_channel(queue, other),
        queue.after_delete_channel(name).same_channel(queue, other),
        queue.after_get(name, clock, fetched).same_channel(queue, other),
        queue.after_ack(name, id, clock).same_channel(queue, other),
{
}

/// Maintenance lets go of nothing that a channel still needs: the messages in flight and those
/// that are not read yet stand at or after the smallest tail.
pub proof fn law_maintenance_spares_what_is_needed(
    queue: QueueView,
    smallest_tail: u64,
    name: Seq<char>,
)
    requires
        queue.orderly(),
        queue.is_smallest_tail(smallest_tail),
        queue.channels.contains_key(name),
    ensures
        smallest_tail <= queue.channels[name].tail,
        forall|i: int|
            0 <= i < queue.channels[name].in_flight.len() ==> smallest_tail <= (
            #[trigger] queue.channels[name].in_flight[i]).0,
        forall|clock: u32| smallest_tail <= #[trigger] queue.channels[name].wanted(clock),
{
    assert(queue.channels.dom().contains(name));
    law_real_tail_misses_nothing(queue.channels[name]);
}

/// A message that is in flight is handed out again only once its deadline is past, and then
/// under its own id.
pub proof fn law_handed_out_again_only_when_due(
    channel: ChannelView,
    clock: u32,
    message: Message,
    i: int,
)
    requires
        channel.orderly(),
        channel.honest(clock, Some(message)),
        0 <= i < channel.in_flight.len(),
        channel.in_flight[i].0 == message.id,
    ensures
        clock >= channel.in_flight[i].1,
        i == 0,
{
    if channel.due(clock) {
        assert(!(0 < i));
    } else {
        assert(channel.held.contains(channel.in_flight[i].0));
    }
}

/// An acknowledged message is finished.
pub proof fn law_acked_is_finished(channel: ChannelView, id: u64, clock: u32)
    requires
        channel.orderly(),
        channel.can_ack(id, clock),
    ensures
        channel.after_ack(id, clock).finished(id),
{
    in_flight::lemma_without_id(channel.in_flight, id);
    let at = in_flight::index_of_id(channel.in_flight, id);
    assert(channel.held.contains(channel.in_flight[at].0));
}

/// A finished message is not handed out, cannot be acknowledged, and stays finished whatever is
/// asked of the channel, as long as the store does not begin again at or before it.
pub proof fn law_finished_stays_finished(
    channel: ChannelView,
    id: u64,
    clock: u32,
    time_to_live: u32,
    fetched: Option<Message>,
    other: u64,
    tail: u64,
)
    requires
        channel.orderly(),
        channel.finished(id),
        channel.honest(clock, fetched),
        channel.accepts(clock, time_to_live, fetched),
    ensures
        !channel.can_ack(id, clock),
        fetched matches Some(message) ==> message.id != id,
        channel.after_get(clock, time_to_live, fetched).finished(id),
        channel.after_ack(other, clock).finished(id),
        channel.swept(clock).finished(id),
        id < tail ==> channel.after_purge(tail).finished(id),
{
    if channel.due(clock) {
        assert(in_flight::has_id(channel.in_flight, channel.in_flight[0].0));
        let next = channel.after_get(clock, time_to_live, fetched);
        assert forall|i: int| 0 <= i < next.in_flight.len() implies (#[trigger] next.in_flight[i]).0
            != id by {
            if i < next.in_flight.len() - 1 {
                assert(next.in_flight[i] == channel.in_flight[i + 1]);
            }
        }
    } else if let Some(message) = fetched {
        let next = channel.after_get(clock, time_to_live, fetched);
        in_flight::lemma_without_id(channel.in_flight, message.id);
        let rest = in_flight::without_id(channel.in_flight, message.id);
        assert forall|i: int| 0 <= i < next.in_flight.len() implies (#[trigger] next.in_flight[i]).0
            != id by {
            if i < next.in_flight.len() - 1 {
                assert(next.in_flight[i] == rest[i]);
                assert(in_flight::has_id(rest, rest[i].0));
            }
        }
    }
    in_flight::lemma_without_id(channel.in_flight, other);
    let swept = channel.swept(clock);
    assert forall|i: int| 0 <= i < swept.in_flight.len() implies (#[trigger] swept.in_flight[i]).0
        != id by {
        assert(swept.in_flight[i].0 == channel.in_flight[i].0);
    }
}

/// A message can be acknowledged once.
pub proof fn law_ack_works_once(channel: ChannelView, id: u64, clock: u32, later: u32)
    requires
        channel.orderly(),
        channel.can_ack(id, clock),
    ensures
        !channel.after_ack(id, clock).can_ack(id, later),
{
    law_acked_is_finished(channel, id, clock);
}

/// A channel that is created reads what is pushed from then on, and owes it.
pub proof fn law_created_channel_reads_from_head(
    queue: QueueView,
    name: Seq<char>,
    clock: u32,
    head: u64,
    later: u32,
)
    requires
        !queue.channels.contains_key(name),
    ensures
        queue.after_create(name, clock, head).channels.contains_key(name),
        queue.after_create(name, clock, head).channels[name].wanted(later) == head,
        forall|id: u64|
            head <= id ==> #[trigger] queue.after_create(name, clock, head).channels[name].owes(id),
{
}

/// After a purge no channel wants anything from before it, nothing can be acknowledged, and the
/// real tail, which a checkpoint keeps, is where the store begins.
pub proof fn law_purge_forgets(
    queue: QueueView,
    tail: u64,
    name: Seq<char>,
    id: u64,
    later: u32,
)
    requires
        queue.channels.contains_key(name),
    ensures
        queue.after_purge(tail).channels.contains_key(name),
        queue.after_purge(tail).channels[name].wanted(later) == tail,
        !queue.after_purge(tail).channels[name].can_ack(id, later),
        queue.after_purge(tail).channels[name].real_tail() == tail,
        queue.state == QueueState::Ready ==> queue.after_purge(tail).record().channels[name].tail
            == tail,
{
    assert(queue.after_purge(tail).channels.contains_key(name));
}

/// Each message stands in the store under its own id.
pub open spec fn numbered(store: Map<u64, Message>) -> bool {
    forall|id: u64| #[trigger] store.contains_key(id) ==> store[id].id == id
}

/// `id` is the first one in the store from `from` on.
pub open spec fn is_next(store: Map<u64, Message>, from: u64, id: u64) -> bool {
    &&& store.contains_key(id)
    &&& from <= id
    &&& forall|other: u64| #[trigger] store.contains_key(other) && from <= other ==> id <= other
}

/// What the store answers for an id: its message, or else the next one that there is.
pub open spec fn stored(store: Map<u64, Message>, from: u64) -> Option<Message> {
    if exists|id: u64| is_next(store, from, id) {
        Some(store[choose|id: u64| is_next(store, from, id)])
    } else {
        None
    }
}

/// How many messages the store has from `from` on, and before `to`.
pub open spec fn count_between(store: Map<u64, Message>, from: int, to: int) -> nat
    decreases to - from,
{
    if from >= to {
        0
    } else {
        count_between(store, from + 1, to) + if store.contains_key(from as u64) {
            1nat
        } else {
            0nat
        }
    }
}

proof fn lemma_next_is_stored(store: Map<u64, Message>, from: u64, id: u64)
    requires
        is_next(store, from, id),
    ensures
        stored(store, from) == Some(store[id]),
{
    let chosen = choose|id: u64| is_next(store, from, id);
    assert(is_next(store, from, chosen));
    assert(chosen == id);
}

/// Where the store has anything from `from` on, it has a first one.
proof fn lemma_next_exists(store: Map<u64, Message>, from: u64, id: u64)
    requires
        store.contains_key(id),
        from <= id,
    ensures
        exists|next: u64| is_next(store, from, next) && next <= id,
    decreases id,
{
    if exists|other: u64| #[trigger] store.contains_key(other) && from <= other && other < id {
        let other = choose|other: u64| #[trigger]
            store.contains_key(other) && from <= other && other < id;
        lemma_next_exists(store, from, other);
    } else {
        assert(is_next(store, from, id));
    }
}

/// Before the first one there is nothing to count.
proof fn lemma_count_to_next(store: Map<u64, Message>, from: int, next: u64, to: int)
    requires
        0 <= from <= next,
        next <= to <= u64::MAX,
        forall|other: u64| #[trigger] store.contains_key(other) && from <= other ==> next <= other,
    ensures
        count_between(store, from, to) == count_between(store, next as int, to),
    decreases next - from,
{
    if from < next {
        lemma_count_to_next(store, from + 1, next, to);
        assert(!store.contains_key(from as u64));
    }
}

/// A channel after it was asked `n` times at `clock`, with the store's answers.
pub open spec fn after_gets(
    channel: ChannelView,
    clock: u32,
    time_to_live: u32,
    store: Map<u64, Message>,
    n: nat,
) -> ChannelView
    decreases n,
{
    if n == 0 {
        channel
    } else {
        let before = after_gets(channel, clock, time_to_live, store, (n - 1) as nat);
        before.after_get(clock, time_to_live, stored(store, before.wanted(clock)))
    }
}

/// What the channel answers when it is asked once more.
pub open spec fn nth_answer(
    channel: ChannelView,
    clock: u32,
    time_to_live: u32,
    store: Map<u64, Message>,
    n: nat,
) -> Result<Message, u64> {
    let before = after_gets(channel, clock, time_to_live, store, n);
    before.answer(stored(store, before.wanted(clock)))
}

/// A channel hands out what was pushed, in the order in which it was pushed: asked `n` times
/// while nothing is due, it answers with the messages that the store has from its tail on, one
/// after the other, and then wants the next one.
pub proof fn law_messages_come_in_order(
    channel: ChannelView,
    clock: u32,
    time_to_live: u32,
    store: Map<u64, Message>,
    n: nat,
)
    requires
        channel.orderly(),
        !channel.due(clock),
        0 < time_to_live,
        clock + time_to_live <= u32::MAX,
        channel.tail + n <= u64::MAX,
        channel.in_flight.len() + n <= u32::MAX,
        forall|i: int|
            0 <= i < n ==> #[trigger] store.contains_key((channel.tail + i) as u64) && store[(
            channel.tail + i) as u64].id == channel.tail + i,
    ensures
        forall|k: nat|
            k < n ==> #[trigger] nth_answer(channel, clock, time_to_live, store, k) == Ok::<
                Message,
                u64,
            >(store[(channel.tail + k) as u64]),
        ({
            let after = after_gets(channel, clock, time_to_live, store, n);
            &&& after.orderly()
            &&& after.wanted(clock) == channel.tail + n
            &&& after.tail == channel.tail + n
            &&& after.in_flight == channel.in_flight + Seq::new(
                n,
                |i: int| ((channel.tail + i) as u64, (clock + time_to_live) as u32),
            )
        }),
    decreases n,
{
    let deadline = (clock + time_to_live) as u32;
    let added = Seq::new(n, |i: int| ((channel.tail + i) as u64, deadline));
    let after = after_gets(channel, clock, time_to_live, store, n);
    if n == 0 {
        assert(channel.in_flight + added =~= channel.in_flight);
    } else {
        let m = (n - 1) as nat;
        law_messages_come_in_order(channel, clock, time_to_live, store, m);
        let before = after_gets(channel, clock, time_to_live, store, m);
        assert(store.contains_key((channel.tail + m) as u64));
        let message = store[(channel.tail + m) as u64];
        if before.due(clock) {
            if channel.in_flight.len() > 0 {
                assert(before.in_flight[0] == channel.in_flight[0]);
            } else {
                assert(before.in_flight[0].1 == deadline);
            }
        }
        lemma_next_is_stored(store, before.wanted(clock), before.wanted(clock));
        law_orderly_channel_goes_on(before, clock, time_to_live, Some(message));
        law_get_keeps_orderly(before, clock, time_to_live, Some(message));
        lemma_new_id_is_not_in_flight(before, message.id);
        assert(after.in_flight =~= channel.in_flight + added);
        if after.due(clock) {
            if channel.in_flight.len() > 0 {
                assert(after.in_flight[0] == channel.in_flight[0]);
            } else {
                assert(after.in_flight[0].1 == deadline);
            }
        }
    }
}

/// What is past its deadline is handed out again, the oldest first: where the `n` oldest ids
/// in flight are past their deadlines, a channel that is asked `n` times answers with those
/// messages, one after the other, and each has a new deadline then.
pub proof fn law_timed_out_come_again_in_order(
    channel: ChannelView,
    clock: u32,
    time_to_live: u32,
    store: Map<u64, Message>,
    n: nat,
)
    requires
        channel.orderly(),
        n <= channel.in_flight.len(),
        0 < time_to_live,
        clock + time_to_live <= u32::MAX,
        forall|i: int|
            0 <= i < n ==> {
                &&& clock >= (#[trigger] channel.in_flight[i]).1
                &&& store.contains_key(channel.in_flight[i].0)
                &&& store[channel.in_flight[i].0].id == channel.in_flight[i].0
            },
    ensures
        forall|k: nat|
            k < n ==> #[trigger] nth_answer(channel, clock, time_to_live, store, k) == Ok::<
                Message,
                u64,
            >(store[channel.in_flight[k as int].0]),
        ({
            let after = after_gets(channel, clock, time_to_live, store, n);
            &&& after.orderly()
            &&& after.tail == channel.tail
            &&& after.in_flight == channel.in_flight.skip(n as int) + Seq::new(
                n,
                |i: int| (channel.in_flight[i].0, (clock + time_to_live) as u32),
            )
        }),
    decreases n,
{
    let deadline = (clock + time_to_live) as u32;
    let again = Seq::new(n, |i: int| (channel.in_flight[i].0, deadline));
    let after = after_gets(channel, clock, time_to_live, store, n);
    if n == 0 {
        assert(channel.in_flight.skip(0) + again =~= channel.in_flight);
    } else {
        let m = (n - 1) as nat;
        law_timed_out_come_again_in_order(channel, clock, time_to_live, store, m);
        let before = after_gets(channel, clock, time_to_live, store, m);
        assert(before.in_flight[0] == channel.in_flight[m as int]);
        assert(before.due(clock));
        let message = store[channel.in_flight[m as int].0];
        lemma_next_is_stored(store, before.wanted(clock), before.wanted(clock));
        assert(before.accepts(clock, time_to_live, Some(message)));
        law_get_keeps_orderly(before, clock, time_to_live, Some(message));
        assert(after.in_flight =~= channel.in_flight.skip(n as int) + again);
    }
}

/// Asking once and then `n` times is asking `n + 1` times.
proof fn lemma_one_get_first(
    channel: ChannelView,
    clock: u32,
    time_to_live: u32,
    store: Map<u64, Message>,
    n: nat,
)
    ensures
        after_gets(channel, clock, time_to_live, store, n + 1) == after_gets(
            after_gets(channel, clock, time_to_live, store, 1),
            clock,
            time_to_live,
            store,
            n,
        ),
    decreases n,
{
    if n > 0 {
        lemma_one_get_first(channel, clock, time_to_live, store, (n - 1) as nat);
    }
}

/// Each message that the store has from the tail on is handed out: while nothing is due, the
/// channel answers with it once it has answered with those before it, and goes on up to there.
pub proof fn law_each_unread_message_comes(
    channel: ChannelView,
    clock: u32,
    time_to_live: u32,
    store: Map<u64, Message>,
    id: u64,
)
    requires
        channel.orderly(),
        !channel.due(clock),
        0 < time_to_live,
        clock + time_to_live <= u32::MAX,
        numbered(store),
        store.contains_key(id),
        channel.tail <= id < u64::MAX,
        channel.in_flight.len() + count_between(store, channel.tail as int, id as int) < u32::MAX,
    ensures
        ({
            let n = count_between(store, channel.tail as int, id as int);
            &&& nth_answer(channel, clock, time_to_live, store, n) == Ok::<Message, u64>(store[id])
            &&& forall|k: nat|
                k <= n ==> {
                    let at = #[trigger] after_gets(channel, clock, time_to_live, store, k);
                    at.accepts(clock, time_to_live, stored(store, at.wanted(clock)))
                }
        }),
    decreases id - channel.tail,
{
    lemma_next_exists(store, channel.tail, id);
    let next = choose|next: u64| is_next(store, channel.tail, next) && next <= id;
    let message = store[next];
    lemma_next_is_stored(store, channel.tail, next);
    lemma_count_to_next(store, channel.tail as int, next, id as int);
    law_orderly_channel_goes_on(channel, clock, time_to_live, Some(message));
    let n = count_between(store, channel.tail as int, id as int);
    assert(after_gets(channel, clock, time_to_live, store, 0) == channel);
    if next == id {
        assert(n == 0);
    } else {
        let after = after_gets(channel, clock, time_to_live, store, 1);
        assert(after == channel.after_get(clock, time_to_live, Some(message)));
        law_get_keeps_orderly(channel, clock, time_to_live, Some(message));
        lemma_new_id_is_not_in_flight(channel, next);
        if channel.in_flight.len() > 0 {
            assert(after.in_flight[0] == channel.in_flight[0]);
        }
        let m = count_between(store, next + 1, id as int);
        assert(n == m + 1);
        law_each_unread_message_comes(after, clock, time_to_live, store, id);
        lemma_one_get_first(channel, clock, time_to_live, store, m);
        assert forall|k: nat| k <= n implies {
            let at = #[trigger] after_gets(channel, clock, time_to_live, store, k);
            at.accepts(clock, time_to_live, stored(store, at.wanted(clock)))
        } by {
            if k > 0 {
                lemma_one_get_first(channel, clock, time_to_live, store, (k - 1) as nat);
                let at = after_gets(after, clock, time_to_live, store, (k - 1) as nat);
                assert(at.accepts(clock, time_to_live, stored(store, at.wanted(clock))));
            }
        }
    }
}

/// The real tail is at or below all that a channel owes.
pub proof fn law_real_tail_is_below_what_is_owed(channel: ChannelView, id: u64)
    requires
        channel.orderly(),
        channel.owes(id),
    ensures
        channel.real_tail() <= id,
{
    law_real_tail_misses_nothing(channel);
    if in_flight::has_id(channel.in_flight, id) {
        let at = in_flight::index_of_id(channel.in_flight, id);
        assert(channel.in_flight[at].0 == id);
    }
}

/// What a channel owed when its queue was checkpointed, in flight or unread, is handed out once
/// the queue came back: the channel answers with it once it has answered with what the store
/// has before it.
pub proof fn law_owed_messages_come_back(
    queue: QueueView,
    name: Seq<char>,
    id: u64,
    clock: u32,
    store: Map<u64, Message>,
)
    requires
        queue.orderly(),
        queue.state == QueueState::Ready,
        queue.channels.contains_key(name),
        queue.channels[name].owes(id),
        0 < queue.time_to_live,
        clock + queue.time_to_live <= u32::MAX,
        numbered(store),
        store.contains_key(id),
        id < u64::MAX,
        count_between(store, queue.channels[name].real_tail() as int, id as int) < u32::MAX,
    ensures
        ({
            let back = QueueView::empty(queue.name, queue.time_to_live).recovered(queue.record());
            let tail = queue.channels[name].real_tail();
            &&& back.channels.contains_key(name)
            &&& back.channels[name].tail == tail
            &&& tail <= id
            &&& nth_answer(
                back.channels[name],
                clock,
                queue.time_to_live,
                store,
                count_between(store, tail as int, id as int),
            ) == Ok::<Message, u64>(store[id])
        }),
{
    let back = QueueView::empty(queue.name, queue.time_to_live).recovered(queue.record());
    law_recovery_misses_nothing(queue);
    assert(back.channels.dom().contains(name));
    law_real_tail_is_below_what_is_owed(queue.channels[name], id);
    law_each_unread_message_comes(back.channels[name], clock, queue.time_to_live, store, id);
}

/// What is handed out is in flight.
pub proof fn law_handed_out_is_in_flight(
    channel: ChannelView,
    clock: u32,
    time_to_live: u32,
    message: Message,
)
    requires
        channel.accepts(clock, time_to_live, Some(message)),
        channel.honest(clock, Some(message)),
    ensures
        in_flight::has_id(
            channel.after_get(clock, time_to_live, Some(message)).in_flight,
            message.id,
        ),
{
    let next = channel.after_get(clock, time_to_live, Some(message));
    assert(next.in_flight[next.in_flight.len() - 1].0 == message.id);
}

/// What a channel owes it owes until it is acknowledged: handing out. The store must not skip
/// the id.
pub proof fn law_get_keeps_owing(
    channel: ChannelView,
    clock: u32,
    time_to_live: u32,
    fetched: Option<Message>,
    id: u64,
)
    requires
        channel.owes(id),
        channel.accepts(clock, time_to_live, fetched),
        channel.wf(),
        !channel.due(clock) && channel.tail <= id ==> (fetched matches Some(message) ==> message.id
            <= id),
    ensures
        channel.after_get(clock, time_to_live, fetched).owes(id),
{
    let next = channel.after_get(clock, time_to_live, fetched);
    if channel.due(clock) {
        if in_flight::has_id(channel.in_flight, id) {
            let at = in_flight::index_of_id(channel.in_flight, id);
            assert(channel.in_flight[at].0 == id);
            if at == 0 {
                assert(next.in_flight[next.in_flight.len() - 1].0 == id);
            } else {
                assert(next.in_flight[at - 1] == channel.in_flight[at]);
            }
        }
    } else if let Some(message) = fetched {
        let rest = in_flight::without_id(channel.in_flight, message.id);
        in_flight::lemma_without_id(channel.in_flight, message.id);
        assert(next.in_flight[next.in_flight.len() - 1].0 == message.id);
        if message.id != id && in_flight::has_id(channel.in_flight, id) {
            assert(in_flight::has_id(rest, id));
            let at = in_flight::index_of_id(rest, id);
            assert(rest[at].0 == id);
            assert(next.in_flight[at] == rest[at]);
        }
    }
}

/// What a channel owes it owes until it is acknowledged: acknowledging another id, or too late.
pub proof fn law_ack_keeps_owing(channel: ChannelView, other: u64, clock: u32, id: u64)
    requires
        channel.wf(),
        channel.owes(id),
        other != id || !channel.can_ack(id, clock),
    ensures
        channel.after_ack(other, clock).owes(id),
{
    in_flight::lemma_without_id(channel.in_flight, other);
}

/// What a channel owes it owes until it is acknowledged: counting what is in flight.
pub proof fn law_sweep_keeps_owing(channel: ChannelView, clock: u32, id: u64)
    requires
        channel.owes(id),
    ensures
        channel.swept(clock).owes(id),
{
    if in_flight::has_id(channel.in_flight, id) {
        let at = in_flight::index_of_id(channel.in_flight, id);
        assert(channel.in_flight[at].0 == id);
        assert(channel.swept(clock).in_flight[at].0 == id);
    }
}

/// As long as the clock does not go back, the deadlines stand in their order: handing out.
pub proof fn law_get_keeps_deadline_order(
    channel: ChannelView,
    clock: u32,
    time_to_live: u32,
    fetched: Option<Message>,
    latest: int,
)
    requires
        channel.wf(),
        channel.accepts(clock, time_to_live, fetched),
        channel.in_deadline_order(latest),
        latest <= clock + time_to_live,
    ensures
        channel.after_get(clock, time_to_live, fetched).in_deadline_order(clock + time_to_live),
{
    let next = channel.after_get(clock, time_to_live, fetched);
    if channel.due(clock) {
        let n = next.in_flight.len();
        assert(forall|i: int|
            0 <= i < n - 1 ==> #[trigger] next.in_flight[i] == channel.in_flight[i + 1]);
        assert forall|i: int, j: int| 0 <= i < j < n implies (#[trigger] next.in_flight[i]).1 <= (
        #[trigger] next.in_flight[j]).1 by {
            assert(channel.in_flight[i + 1].1 <= latest);
        }
    } else if let Some(message) = fetched {
        lemma_without_keeps_deadline_order(channel, message.id, latest);
        let rest = in_flight::without_id(channel.in_flight, message.id);
        let n = next.in_flight.len();
        assert(forall|i: int| 0 <= i < n - 1 ==> #[trigger] next.in_flight[i] == rest[i]);
        assert forall|i: int, j: int| 0 <= i < j < n implies (#[trigger] next.in_flight[i]).1 <= (
        #[trigger] next.in_flight[j]).1 by {
            assert(rest[i].1 <= latest);
        }
    }
}

proof fn lemma_without_keeps_deadline_order(channel: ChannelView, id: u64, latest: int)
    requires
        channel.in_deadline_order(latest),
    ensures
        (ChannelView {
            in_flight: in_flight::without_id(channel.in_flight, id),
            ..channel
        }).in_deadline_order(latest),
{
    let rest = in_flight::without_id(channel.in_flight, id);
    if in_flight::has_id(channel.in_flight, id) {
        let at = in_flight::index_of_id(channel.in_flight, id);
        assert(channel.in_flight[at].0 == id);
        assert forall|i: int, j: int| 0 <= i < j < rest.len() implies (#[trigger] rest[i]).1 <= (
        #[trigger] rest[j]).1 by {
            assert(rest[i] == channel.in_flight[if i < at { i } else { i + 1 }]);
            assert(rest[j] == channel.in_flight[if j < at { j } else { j + 1 }]);
        }
        assert forall|i: int| 0 <= i < rest.len() implies (#[trigger] rest[i]).1 <= latest by {
            assert(rest[i] == channel.in_flight[if i < at { i } else { i + 1 }]);
        }
    }
}

/// As long as the clock does not go back, the deadlines stand in their order: acknowledging.
pub proof fn law_ack_keeps_deadline_order(channel: ChannelView, id: u64, clock: u32, latest: int)
    requires
        channel.in_deadline_order(latest),
    ensures
        channel.after_ack(id, clock).in_deadline_order(latest),
{
    lemma_without_keeps_deadline_order(channel, id, latest);
}

/// As long as the clock does not go back, the deadlines stand in their order: telling.
pub proof fn law_sweep_keeps_deadline_order(channel: ChannelView, clock: u32, latest: int)
    requires
        channel.wf(),
        channel.in_deadline_order(latest),
    ensures
        channel.swept(clock).in_deadline_order(latest),
{
    channel::lemma_first_alive(channel.in_flight, channel.expired_count as int, clock);
    let next = channel.swept(clock);
    assert forall|i: int, j: int| 0 <= i < j < next.in_flight.len() implies (
    #[trigger] next.in_flight[i]).1 <= (#[trigger] next.in_flight[j]).1 by {
        assert(channel.in_flight[i].1 <= channel.in_flight[j].1);
    }
    assert forall|i: int| 0 <= i < next.in_flight.len() implies (#[trigger] next.in_flight[i]).1
        <= latest by {
        assert(channel.in_flight[i].1 <= latest);
    }
}

/// Where the deadlines stand in their order, what is counted as in flight are the messages
/// that can still be acknowledged.
pub proof fn law_count_is_of_the_alive(channel: ChannelView, clock: u32, latest: int)
    requires
        channel.wf(),
        channel.in_deadline_order(latest),
    ensures
        channel.alive_at(clock) == channel.in_flight.filter(
            |entry: (u64, u32)| clock < entry.1,
        ).len(),
{
    let end = channel.expired_at(clock);
    channel::lemma_first_alive(channel.in_flight, channel.expired_count as int, clock);
    assert forall|i: int| 0 <= i < channel.in_flight.len() implies (clock < (
    #[trigger] channel.in_flight[i]).1) == (end <= i) by {
        if end < i {
            assert(channel.in_flight[end].1 <= channel.in_flight[i].1);
        }
    }
    lemma_count_from(channel.in_flight, clock, end);
}

proof fn lemma_count_from(entries: Seq<(u64, u32)>, clock: u32, end: int)
    requires
        0 <= end <= entries.len(),
        forall|i: int| 0 <= i < entries.len() ==> (clock < (#[trigger] entries[i]).1) == (end <= i),
    ensures
        entries.filter(|entry: (u64, u32)| clock < entry.1).len() == entries.len() - end,
    decreases entries.len(),
{
    reveal(Seq::filter);
    if entries.len() > 0 {
        let less = entries.drop_last();
        if end == entries.len() {
            lemma_count_from(less, clock, end - 1);
        } else {
            lemma_count_from(less, clock, end);
        }
    }
}

/// What is told of a channel is the same when it is asked again at the same clock.
pub proof fn law_info_is_repeatable(channel: ChannelView, clock: u32)
    requires
        channel.wf(),
    ensures
        channel.swept(clock).swept(clock) == channel.swept(clock),
        queue::told(channel.swept(clock), clock) == queue::told(channel, clock),
{
    channel::lemma_first_alive(channel.in_flight, channel.expired_count as int, clock);
    let once = channel.swept(clock);
    let end = channel.expired_at(clock);
    assert(end < once.in_flight.len() ==> once.in_flight[end] == channel.in_flight[end]);
    assert(once.expired_at(clock) == end);
    assert(once.swept(clock).in_flight =~= once.in_flight);
}

} // verus!
