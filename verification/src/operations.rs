//! What can be relied on of each operation of a queue, said of its calls: of the queue before
//! and after, of what goes in and of what comes back.

use crate::channel::{self, ChannelView};
use crate::effects;
use crate::message::Message;
use crate::names::{self, NameOrder};
use crate::queue::{
    CheckpointPlan,
    MaintenancePlan,
    PushStep,
    Queue,
    QueueCheckpoint,
    QueueConfig,
    QueueInfo,
    QueueState,
    QueueView,
};
use vstd::prelude::*;

verus! {

/// Whatever is stored for it, a queue that is made has the name and the time to live that it
/// was told. One that does not recover begins ready and without channels, and a checkpoint is
/// to be written. One that recovers has the state that was read, and where that is ready, a
/// fresh channel for each name that was read and no other; where nothing could be read, it
/// begins empty.
pub proof fn law_new(
    config: QueueConfig,
    recover: bool,
    stored: Option<QueueCheckpoint>,
    name: Seq<char>,
)
    ensures
        forall|made: (Queue, Option<CheckpointPlan>)| #[trigger]
            call_ensures(Queue::new, (config, recover, stored), made) ==> {
                let queue = made.0@;
                &&& queue.name == config.name@
                &&& queue.time_to_live == config.time_to_live
                &&& made.1 is Some <==> !recover
                &&& !recover || stored is None ==> {
                    &&& queue.state == QueueState::Ready
                    &&& !queue.channels.contains_key(name)
                }
                &&& recover ==> (stored matches Some(record) ==> {
                    &&& queue.state == record.state
                    &&& queue.channels.contains_key(name) <==> {
                        &&& record.state == QueueState::Ready
                        &&& record.channels@.contains_key(name)
                    }
                    &&& queue.channels.contains_key(name) ==> effects::is_fresh(
                        queue.channels[name],
                        record.channels@[name].last_touched,
                        record.channels@[name].tail,
                    )
                })
            },
{
    if let Some(record) = stored {
        effects::law_recovery_takes_back_each_channel(
            QueueView::empty(config.name@, config.time_to_live),
            record,
            name,
        );
    }
}

/// A queue that recovers takes back all that was read, whatever it has and however much that
/// is: the state, and where that is ready, a fresh channel for each name that was read. Its
/// other channels stay as they were. Where nothing could be read, nothing changes.
pub proof fn law_recover(stored: Option<QueueCheckpoint>, name: Seq<char>)
    ensures
        forall|queue: &mut Queue| #[trigger]
            call_ensures(Queue::recover, (queue, stored), ()) ==> {
                let before = queue@;
                let after = final(queue)@;
                &&& stored is None ==> after == before
                &&& stored matches Some(record) ==> {
                    &&& after.name == before.name
                    &&& after.time_to_live == before.time_to_live
                    &&& after.state == record.state
                    &&& record.state == QueueState::Ready && record.channels@.contains_key(name)
                        ==> {
                        &&& after.channels.contains_key(name)
                        &&& effects::is_fresh(
                            after.channels[name],
                            record.channels@[name].last_touched,
                            record.channels@[name].tail,
                        )
                    }
                    &&& !(record.state == QueueState::Ready && record.channels@.contains_key(name))
                        ==> after.same_channel(before, name)
                }
            },
{
    assert forall|queue: &mut Queue| #[trigger]
        call_ensures(Queue::recover, (queue, stored), ()) implies {
        let before = queue@;
        let after = final(queue)@;
        &&& stored is None ==> after == before
        &&& stored matches Some(record) ==> {
            &&& after.name == before.name
            &&& after.time_to_live == before.time_to_live
            &&& after.state == record.state
            &&& record.state == QueueState::Ready && record.channels@.contains_key(name) ==> {
                &&& after.channels.contains_key(name)
                &&& effects::is_fresh(
                    after.channels[name],
                    record.channels@[name].last_touched,
                    record.channels@[name].tail,
                )
            }
            &&& !(record.state == QueueState::Ready && record.channels@.contains_key(name))
                ==> after.same_channel(before, name)
        }
    } by {
        if let Some(record) = stored {
            effects::law_recovery_takes_back_each_channel(queue@, record, name);
        }
    }
}

/// The name of a queue is the one that it was told when it was made.
pub proof fn law_name(queue: Queue)
    ensures
        forall|name: &str| #[trigger] call_ensures(Queue::name, (&queue,), name) ==> name@
            == queue@.name,
{
}

/// A channel that is created is there, and whether it is a new one comes back. A new one is
/// fresh, and reads what is pushed from then on; one that was there stays as it was, and so does
/// each other.
pub proof fn law_create_channel(name: &str, clock: u32, head: u64, other: Seq<char>)
    ensures
        forall|queue: &mut Queue, created: bool| #[trigger]
            call_ensures(Queue::create_channel, (queue, name, clock, head), created) ==> {
                let before = queue@;
                let after = final(queue)@;
                &&& created == !before.channels.contains_key(name@)
                &&& after.channels.contains_key(name@)
                &&& created ==> effects::is_fresh(after.channels[name@], clock, head)
                &&& !created ==> after.same_channel(before, name@)
                &&& other != name@ ==> after.same_channel(before, other)
                &&& after.same_but_for_channels(before)
            },
{
}

/// A channel that is deleted is there no more, whatever it had in flight. That it was deleted
/// comes back just where it was there. Each other stays as it was.
pub proof fn law_delete_channel(name: &str, other: Seq<char>)
    ensures
        forall|queue: &mut Queue, deleted: bool| #[trigger]
            call_ensures(Queue::delete_channel, (queue, name), deleted) ==> {
                let before = queue@;
                let after = final(queue)@;
                &&& deleted == before.channels.contains_key(name@)
                &&& !after.channels.contains_key(name@)
                &&& other != name@ ==> after.same_channel(before, other)
                &&& after.same_but_for_channels(before)
            },
{
}

/// What a channel wants is the id at the front of what is in flight, once the deadline there is
/// past, and else its tail; without a channel nothing is wanted.
pub proof fn law_wanted(queue: Queue, name: &str, clock: u32)
    ensures
        forall|id: Option<u64>| #[trigger]
            call_ensures(Queue::wanted, (&queue, name, clock), id) ==> {
                let channel = queue@.channels[name@];
                &&& id is Some <==> queue@.channels.contains_key(name@)
                &&& id is Some ==> id == Some(
                    if effects::front_is_past(channel, clock) {
                        channel.in_flight[0].0
                    } else {
                        channel.tail
                    },
                )
            },
{
}

/// A get can go on with anything where there is no channel of that name, and without a message
/// just where nothing is due. With a message it can go on as long as the deadline and the next
/// tail can be written as numbers and there is room for one more in flight.
pub proof fn law_accepts(queue: Queue, name: &str, clock: u32, fetched: Option<Message>)
    ensures
        forall|ok: bool| #[trigger]
            call_ensures(Queue::accepts, (&queue, name, clock, &fetched), ok) ==> {
                let channel = queue@.channels[name@];
                &&& ok == queue@.accepts(name@, clock, fetched)
                &&& !queue@.channels.contains_key(name@) ==> ok
                &&& queue@.channels.contains_key(name@) && fetched is None ==> ok
                    == !effects::front_is_past(channel, clock)
                &&& queue@.channels.contains_key(name@) && channel.marked() && clock
                    + queue@.time_to_live <= u32::MAX ==> (fetched matches Some(message) ==> (
                effects::front_is_past(channel, clock) || (message.id < u64::MAX
                    && channel.in_flight.len() < u32::MAX)) ==> ok)
            },
{
}

/// A get on a name without a channel finds nothing and changes nothing. On a channel, the
/// reader gets what the store has; where it has nothing, the reader is told the tail, and all
/// but the clock of the last call stays, above all the ids in flight and their deadlines.
pub proof fn law_get(name: &str, clock: u32, fetched: Option<Message>, other: Seq<char>)
    ensures
        forall|queue: &mut Queue, answer: Option<Result<Message, u64>>| #[trigger]
            call_ensures(Queue::get, (queue, name, clock, fetched), answer) ==> {
                let before = queue@;
                let after = final(queue)@;
                let channel = before.channels[name@];
                let next = after.channels[name@];
                &&& after == before.after_get(name@, clock, fetched)
                &&& after.same_but_for_channels(before)
                &&& other != name@ ==> after.same_channel(before, other)
                &&& !before.channels.contains_key(name@) ==> answer is None && after == before
                &&& before.channels.contains_key(name@) ==> {
                    &&& after.channels.contains_key(name@)
                    &&& next.last_touched == clock
                    &&& fetched matches Some(message) ==> answer == Some(
                        Ok::<Message, u64>(message),
                    )
                    &&& fetched is None ==> {
                        &&& answer == Some(Err::<Message, u64>(channel.tail))
                        &&& !effects::front_is_past(channel, clock) ==> {
                            &&& next.in_flight == channel.in_flight
                            &&& next.tail == channel.tail
                            &&& next.expired_count == channel.expired_count
                            &&& next.held == channel.held
                        }
                    }
                    &&& fetched is Some && effects::front_is_past(channel, clock) ==> next.tail
                        == channel.tail && next.held == channel.held
                }
            },
{
}

/// A message that a get hands out is in flight behind all others, with a deadline that comes
/// the time to live of the queue after the clock. Where it is new, the channel reads on just
/// after it.
pub proof fn law_get_hands_out(name: &str, clock: u32, message: Message)
    ensures
        forall|queue: &mut Queue, answer: Option<Result<Message, u64>>| #[trigger]
            call_ensures(Queue::get, (queue, name, clock, Some(message)), answer)
                && queue@.channels.contains_key(name@) && queue@.channels[name@].honest(
                clock,
                Some(message),
            ) && clock + queue@.time_to_live <= u32::MAX && message.id < u64::MAX ==> {
                let channel = queue@.channels[name@];
                let next = final(queue)@.channels[name@];
                &&& next.in_flight.len() > 0
                &&& next.in_flight.last().0 == message.id
                &&& next.in_flight.last().1 == clock + queue@.time_to_live
                &&& !effects::front_is_past(channel, clock) ==> next.tail == message.id + 1
            },
{
}

/// An acknowledgement on a name without a channel finds nothing and changes nothing. On a
/// channel, it is done just where the id is in flight with a deadline after the clock; then
/// that one leaves. Where the channel reads does not move, and nothing else leaves or comes.
pub proof fn law_ack(name: &str, id: u64, clock: u32, entry: (u64, u32), other: Seq<char>)
    ensures
        forall|queue: &mut Queue, done: Option<bool>| #[trigger]
            call_ensures(Queue::ack, (queue, name, id, clock), done) ==> {
                let before = queue@;
                let after = final(queue)@;
                let channel = before.channels[name@];
                let next = after.channels[name@];
                &&& after == before.after_ack(name@, id, clock)
                &&& after.same_but_for_channels(before)
                &&& other != name@ ==> after.same_channel(before, other)
                &&& !before.channels.contains_key(name@) ==> done is None && after == before
                &&& before.channels.contains_key(name@) && channel.wf() ==> {
                    &&& after.channels.contains_key(name@)
                    &&& next.last_touched == clock
                    &&& next.tail == channel.tail
                    &&& done == Some(
                        exists|i: int|
                            0 <= i < channel.in_flight.len() && (#[trigger] channel.in_flight[i]).0
                                == id && clock < channel.in_flight[i].1,
                    )
                    &&& done == Some(false) ==> next.in_flight == channel.in_flight && next.held
                        == channel.held
                    &&& done == Some(true) ==> {
                        &&& next.in_flight.len() == channel.in_flight.len() - 1
                        &&& next.in_flight.contains(entry) <==> {
                            &&& channel.in_flight.contains(entry)
                            &&& entry.0 != id
                        }
                    }
                }
            },
{
    assert forall|queue: &mut Queue, done: Option<bool>| #[trigger]
        call_ensures(Queue::ack, (queue, name, id, clock), done) && queue@.channels.contains_key(
            name@,
        ) && queue@.channels[name@].wf() implies {
        let channel = queue@.channels[name@];
        let next = final(queue)@.channels[name@];
        &&& done == Some(
            exists|i: int|
                0 <= i < channel.in_flight.len() && (#[trigger] channel.in_flight[i]).0 == id
                    && clock < channel.in_flight[i].1,
        )
        &&& done == Some(true) ==> {
            &&& next.in_flight.len() == channel.in_flight.len() - 1
            &&& next.in_flight.contains(entry) <==> {
                &&& channel.in_flight.contains(entry)
                &&& entry.0 != id
            }
        }
    } by {
        let channel = queue@.channels[name@];
        let next = final(queue)@.channels[name@];
        effects::law_only_what_is_in_flight_is_acknowledged(channel, id, clock);
        if channel.can_ack(id, clock) {
            let at = choose|i: int|
                0 <= i < channel.in_flight.len() && (#[trigger] channel.in_flight[i]).0 == id
                    && clock < channel.in_flight[i].1;
            effects::law_ack_takes_one_out(channel, id, clock, at);
            lemma_one_less(channel.in_flight, next.in_flight, at, entry);
        }
    }
}

/// Of entries with distinct ids, the others are left when one is taken out.
proof fn lemma_one_less(a: Seq<(u64, u32)>, b: Seq<(u64, u32)>, at: int, entry: (u64, u32))
    requires
        crate::in_flight::distinct_ids(a),
        0 <= at < a.len(),
        b.len() == a.len() - 1,
        forall|i: int| 0 <= i < at ==> #[trigger] b[i] == a[i],
        forall|i: int| at <= i < b.len() ==> #[trigger] b[i] == a[i + 1],
    ensures
        b.contains(entry) <==> a.contains(entry) && entry.0 != a[at].0,
{
    if b.contains(entry) {
        let i = b.index_of(entry);
        assert(b[i] == entry);
        if i < at {
            assert(a[i] == entry);
        } else {
            assert(a[i + 1] == entry);
        }
    }
    if a.contains(entry) && entry.0 != a[at].0 {
        let i = a.index_of(entry);
        assert(a[i] == entry);
        if i < at {
            assert(b[i] == entry);
        } else {
            assert(b[i - 1] == entry);
        }
    }
}

/// A purge leaves each channel there, with the clock of its last call, nothing in flight and
/// nothing held, to read from where the store begins; what is to be written says so.
pub proof fn law_purge(tail: u64, name: Seq<char>)
    ensures
        forall|queue: &mut Queue, plan: CheckpointPlan| #[trigger]
            call_ensures(Queue::purge, (queue, tail), plan) ==> {
                let before = queue@;
                let after = final(queue)@;
                &&& after.same_but_for_channels(before)
                &&& after.channels.contains_key(name) == before.channels.contains_key(name)
                &&& after.channels.contains_key(name) ==> effects::is_fresh(
                    after.channels[name],
                    before.channels[name].last_touched,
                    tail,
                )
                &&& plan.record.state == before.state
                &&& plan.store == if before.state == QueueState::Ready {
                    Some(false)
                } else {
                    None
                }
                &&& plan.record.channels@.contains_key(name) <==> {
                    &&& before.state == QueueState::Ready
                    &&& before.channels.contains_key(name)
                }
                &&& plan.record.channels@.contains_key(name) ==> {
                    &&& plan.record.channels@[name].tail == tail
                    &&& plan.record.channels@[name].last_touched
                        == before.channels[name].last_touched
                }
            },
{
    assert forall|queue: &mut Queue, plan: CheckpointPlan| #[trigger]
        call_ensures(Queue::purge, (queue, tail), plan) && plan.record.channels@.contains_key(
            name,
        ) implies plan.record.channels@[name].tail == tail by {
        effects::law_what_a_checkpoint_keeps(plan, final(queue)@, false, name);
        effects::law_purged_channel(queue@.channels[name], tail);
    }
}

/// What is told is where the store begins and ends, and of each channel and no other: its tail,
/// the clock of its last call, and how many are in flight from the first on whose deadline is
/// not past. To be asked moves no id, no tail and no clock, nothing that is held, and no
/// deadline that is not past.
pub proof fn law_info(clock: u32, tail: u64, head: u64, name: Seq<char>)
    ensures
        forall|queue: &mut Queue, info: QueueInfo| #[trigger]
            call_ensures(Queue::info, (queue, clock, tail, head), info) ==> {
                let before = queue@;
                let after = final(queue)@;
                let channel = before.channels[name];
                let next = after.channels[name];
                let told = info.channels@[name];
                let past = channel.in_flight.len() - told.in_flight_count;
                &&& info.tail == tail
                &&& info.head == head
                &&& after.same_but_for_channels(before)
                &&& after.channels.contains_key(name) == before.channels.contains_key(name)
                &&& info.channels@.contains_key(name) == before.channels.contains_key(name)
                &&& before.channels.contains_key(name) && channel.wf() ==> {
                    &&& told.tail == channel.tail
                    &&& told.last_touched == channel.last_touched
                    &&& 0 <= past <= channel.in_flight.len()
                    &&& forall|i: int|
                        0 <= i < past ==> (#[trigger] channel.in_flight[i]).1 <= clock
                    &&& past < channel.in_flight.len() ==> clock < channel.in_flight[past].1
                    &&& next.tail == channel.tail
                    &&& next.last_touched == channel.last_touched
                    &&& next.held == channel.held
                    &&& next.expired_count == past
                    &&& next.in_flight.len() == channel.in_flight.len()
                    &&& forall|i: int|
                        0 <= i < channel.in_flight.len() ==> {
                            &&& (#[trigger] next.in_flight[i]).0 == channel.in_flight[i].0
                            &&& next.in_flight[i].1 == if i < past {
                                0
                            } else {
                                channel.in_flight[i].1
                            }
                        }
                }
            },
{
    assert forall|queue: &mut Queue, info: QueueInfo| #[trigger]
        call_ensures(Queue::info, (queue, clock, tail, head), info) && queue@.channels.contains_key(
            name,
        ) && queue@.channels[name].wf() implies {
        let channel = queue@.channels[name];
        let next = final(queue)@.channels[name];
        let past = channel.in_flight.len() - info.channels@[name].in_flight_count;
        &&& 0 <= past <= channel.in_flight.len()
        &&& forall|i: int| 0 <= i < past ==> (#[trigger] channel.in_flight[i]).1 <= clock
        &&& past < channel.in_flight.len() ==> clock < channel.in_flight[past].1
        &&& next.expired_count == past
        &&& forall|i: int|
            0 <= i < channel.in_flight.len() ==> {
                &&& (#[trigger] next.in_flight[i]).0 == channel.in_flight[i].0
                &&& next.in_flight[i].1 == if i < past {
                    0
                } else {
                    channel.in_flight[i].1
                }
            }
    } by {
        let channel = queue@.channels[name];
        channel::lemma_first_alive(channel.in_flight, channel.expired_count as int, clock);
        effects::law_told_is_what_the_channel_holds(channel, clock);
        effects::law_sweep_marks_the_past_at_the_front(channel, clock);
    }
}

/// A checkpoint of a ready queue keeps each channel and no other, with the clock of its last
/// call and, as its tail, the least that is held, or the tail of the channel where nothing is.
/// Of a queue that is going away it keeps that and no channel.
pub proof fn law_checkpoint(queue: Queue, full: bool, name: Seq<char>)
    ensures
        forall|plan: CheckpointPlan| #[trigger]
            call_ensures(Queue::checkpoint, (&queue, full), plan) ==> {
                let channel = queue@.channels[name];
                let kept = plan.record.channels@[name];
                let ready = queue@.state == QueueState::Ready;
                &&& plan.record.state == queue@.state
                &&& plan.store == if ready {
                    Some(full)
                } else {
                    None
                }
                &&& plan.record.channels@.contains_key(name) <==> ready
                    && queue@.channels.contains_key(name)
                &&& plan.record.channels@.contains_key(name) ==> {
                    &&& kept.last_touched == channel.last_touched
                    &&& (forall|id: u64| channel.held.count(id) == 0) ==> kept.tail == channel.tail
                    &&& forall|id: u64| #[trigger]
                        channel.held.count(id) > 0 ==> channel.held.count(kept.tail) > 0
                            && kept.tail <= id
                }
            },
{
    effects::law_real_tail_is_the_least_held(queue@.channels[name]);
}

/// A queue that is sent away is going away from then on, with all else as it was, and what is to
/// be written says that and keeps no channel.
pub proof fn law_delete(name: Seq<char>)
    ensures
        forall|queue: &mut Queue, plan: CheckpointPlan| #[trigger]
            call_ensures(Queue::delete, (queue,), plan) ==> {
                let before = queue@;
                let after = final(queue)@;
                &&& after.state == QueueState::Deleting
                &&& after.name == before.name
                &&& after.time_to_live == before.time_to_live
                &&& after.channels == before.channels
                &&& plan.record.state == QueueState::Deleting
                &&& plan.store is None
                &&& !plan.record.channels@.contains_key(name)
            },
{
}

/// Maintenance lets go of nothing that a channel holds or has still to read, and of all else:
/// what it goes up to is the tail of some channel that holds nothing, or the least that some
/// channel holds, unless there is no channel.
pub proof fn law_maintenance(queue: Queue, name: Seq<char>)
    ensures
        forall|plan: MaintenancePlan| #[trigger]
            call_ensures(Queue::maintenance, (&queue,), plan) ==> {
                let channel = queue@.channels[name];
                let up_to = plan.smallest_tail;
                &&& queue@.channels.contains_key(name) ==> {
                    &&& (forall|id: u64| channel.held.count(id) == 0) ==> up_to <= channel.tail
                    &&& forall|id: u64| #[trigger] channel.held.count(id) > 0 ==> up_to <= id
                }
                &&& (forall|some: Seq<char>| !queue@.channels.contains_key(some)) ==> up_to == 0
                &&& queue@.channels.contains_key(name) ==> exists|some: Seq<char>| #[trigger]
                    queue@.channels.contains_key(some) && goes_up_to(queue@.channels[some], up_to)
                &&& plan.checkpoint.is_checkpoint_of(queue@, false)
            },
{
    assert forall|plan: MaintenancePlan| #[trigger]
        call_ensures(Queue::maintenance, (&queue,), plan) implies {
        let channel = queue@.channels[name];
        let up_to = plan.smallest_tail;
        &&& queue@.channels.contains_key(name) ==> {
            &&& (forall|id: u64| channel.held.count(id) == 0) ==> up_to <= channel.tail
            &&& forall|id: u64| #[trigger] channel.held.count(id) > 0 ==> up_to <= id
        }
        &&& (forall|some: Seq<char>| !queue@.channels.contains_key(some)) ==> up_to == 0
        &&& queue@.channels.contains_key(name) ==> exists|some: Seq<char>| #[trigger]
            queue@.channels.contains_key(some) && goes_up_to(queue@.channels[some], up_to)
    } by {
        effects::law_real_tail_is_the_least_held(queue@.channels[name]);
        if queue@.channels.contains_key(name) {
            assert(queue@.channels.dom().contains(name));
            let some = choose|some: Seq<char>| #[trigger]
                queue@.channels.contains_key(some) && queue@.channels[some].real_tail()
                    == plan.smallest_tail;
            lemma_goes_up_to(queue@.channels[some]);
        }
        if forall|some: Seq<char>| !queue@.channels.contains_key(some) {
            assert(queue@.channels.dom() =~= Set::<Seq<char>>::empty());
        }
    }
}

/// `id` is the least that the channel holds, or its tail where it holds nothing.
pub open spec fn goes_up_to(channel: ChannelView, id: u64) -> bool {
    ||| channel.held.count(id) > 0 && forall|held: u64| #[trigger]
        channel.held.count(held) > 0 ==> id <= held
    ||| id == channel.tail && forall|held: u64| #[trigger] channel.held.count(held) == 0
}

proof fn lemma_goes_up_to(channel: ChannelView)
    ensures
        goes_up_to(channel, channel.real_tail()),
{
    effects::law_real_tail_is_the_least_held(channel);
    if !(forall|id: u64| channel.held.count(id) == 0) {
        let id = choose|id: u64| channel.held.count(id) != 0;
        assert(channel.held.count(id) > 0);
    }
}

/// A queue that is let go of is written in full, unless it is going away.
pub proof fn law_close(queue: Queue)
    ensures
        forall|plan: Option<CheckpointPlan>| #[trigger]
            call_ensures(Queue::close, (&queue,), plan) ==> {
                &&& plan is Some <==> queue@.state == QueueState::Ready
                &&& plan matches Some(p) ==> {
                    &&& p.store == Some(true)
                    &&& p.is_checkpoint_of(queue@, true)
                }
            },
{
}

/// A state that is set is the state, and all else stays.
pub proof fn law_set_state(state: QueueState)
    ensures
        forall|queue: &mut Queue| #[trigger]
            call_ensures(Queue::set_state, (queue, state), ()) ==> {
                &&& final(queue)@.state == state
                &&& final(queue)@.name == queue@.name
                &&& final(queue)@.time_to_live == queue@.time_to_live
                &&& final(queue)@.channels == queue@.channels
            },
{
}

/// Pushing several messages goes on, one message after the other and each once, until as many
/// results have come as there are messages; what the last one brought is what the call returns.
pub proof fn law_push_many(count: usize, results: Vec<Option<u64>>)
    requires
        0 < count,
        results@.len() <= count,
    ensures
        forall|step: PushStep| #[trigger]
            call_ensures(Queue::push_many, (count, &results), step) ==> {
                &&& step is Done <==> results@.len() == count
                &&& step matches PushStep::Push(at) ==> at == results@.len()
                &&& step matches PushStep::Done(result) ==> result == results@[count - 1]
            },
{
}

/// Two names compare as the same just where they are, and else as their order says.
pub proof fn law_compare_names(a: &str, b: &str)
    ensures
        forall|order: NameOrder| #[trigger]
            call_ensures(names::compare_names, (a, b), order) ==> {
                &&& order == NameOrder::Same <==> a@ == b@
                &&& order == NameOrder::Before <==> names::name_before(a@, b@)
                &&& order == NameOrder::After <==> names::name_before(b@, a@)
            },
{
}

} // verus!
