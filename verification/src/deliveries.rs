//! What a channel hands out, and when, over any run of calls.

use crate::channel::{self, ChannelView};
use crate::in_flight;
use crate::laws;
use crate::message::Message;
use crate::queue::{self, QueueView};
use crate::runs::{self, Call, Reply};
use vstd::prelude::*;

verus! {

/// The call asks the channel for a message.
pub open spec fn is_get(call: Call, channel: Seq<char>) -> bool {
    call matches Call::Get { name, .. } && name == channel
}

impl QueueView {
    /// The queue is orderly, and each call of the run can be made and is answered honestly.
    pub open spec fn runs(self, calls: Seq<Call>) -> bool {
        &&& self.orderly()
        &&& self.tight()
        &&& self.allows_all(calls)
        &&& self.is_always_answered_honestly(calls)
    }

    /// The call at `k` hands the message with the id out to the channel.
    pub open spec fn hands_out(self, calls: Seq<Call>, k: int, name: Seq<char>, id: u64) -> bool {
        &&& is_get(calls[k], name)
        &&& self.before(calls, k).reply(calls[k]) matches Reply::Handed(Some(Ok(message)))
        &&& message.id == id
    }

    /// The deadlines of each channel stand in their order, and none is later than `latest`.
    pub open spec fn in_deadline_order(self, latest: int) -> bool {
        forall|name: Seq<char>| #[trigger]
            self.channels.contains_key(name) ==> self.channels[name].in_deadline_order(latest)
    }
}

/// Where a run stands before its call at `k`, and after it.
pub proof fn lemma_step(queue: QueueView, calls: Seq<Call>, k: int)
    requires
        queue.runs(calls),
        0 <= k < calls.len(),
    ensures
        queue.before(calls, 0) == queue,
        queue.before(calls, calls.len() as int) == queue.after_all(calls),
        queue.before(calls, k + 1) == queue.before(calls, k).after(calls[k]),
        queue.before(calls, k).orderly(),
        queue.before(calls, k).tight(),
        queue.before(calls, k).allows(calls[k]),
        queue.before(calls, k).is_answered_honestly(calls[k]),
        queue.before(calls, k).time_to_live == queue.time_to_live,
{
    runs::lemma_prefix(queue, calls, k);
    runs::law_run_keeps_order(queue, calls.take(k));
    runs::law_run_keeps_state(queue, calls.take(k));
    assert(calls.take(calls.len() as int) =~= calls);
    assert(calls.take(k + 1).drop_last() =~= calls.take(k));
    assert(calls.take(k + 1).last() == calls[k]);
}

/// The tail of a channel does not go back in a run that keeps the channel.
pub proof fn law_tail_does_not_go_back(
    queue: QueueView,
    calls: Seq<Call>,
    name: Seq<char>,
    j: int,
    k: int,
)
    requires
        queue.runs(calls),
        0 <= j <= k <= calls.len(),
        queue.before(calls, j).channels.contains_key(name),
        forall|i: int| j <= i < k ==> runs::keeps_channel(#[trigger] calls[i], name),
    ensures
        queue.before(calls, k).channels.contains_key(name),
        queue.before(calls, j).channels[name].tail <= queue.before(calls, k).channels[name].tail,
    decreases k - j,
{
    if j < k {
        law_tail_does_not_go_back(queue, calls, name, j, k - 1);
        lemma_step(queue, calls, k - 1);
        assert(runs::keeps_channel(calls[k - 1], name));
        let before = queue.before(calls, k - 1);
        assert(before.after(calls[k - 1]).channels.contains_key(name));
    }
}

/// What a channel has in flight, and had not when the run began, was handed out to it.
pub proof fn law_in_flight_was_handed_out(
    queue: QueueView,
    calls: Seq<Call>,
    name: Seq<char>,
    id: u64,
    k: int,
)
    requires
        queue.runs(calls),
        0 <= k <= calls.len(),
        queue.channels.contains_key(name),
        forall|i: int| 0 <= i < k ==> runs::keeps_channel(#[trigger] calls[i], name),
        in_flight::has_id(queue.before(calls, k).channels[name].in_flight, id),
    ensures
        queue.before(calls, k).channels.contains_key(name),
        in_flight::has_id(queue.channels[name].in_flight, id) || exists|j: int|
            0 <= j < k && #[trigger] queue.hands_out(calls, j, name, id),
    decreases k,
{
    if k == 0 {
        assert(queue.before(calls, 0) == queue);
    } else {
        let last = k - 1;
        lemma_step(queue, calls, last);
        assert(queue.before(calls, 0) == queue);
        law_tail_does_not_go_back(queue, calls, name, 0, last);
        law_tail_does_not_go_back(queue, calls, name, 0, k);
        assert(runs::keeps_channel(calls[last], name));
        let before = queue.before(calls, last);
        let call = calls[last];
        let c = before.channels[name];
        let d = queue.before(calls, k).channels[name];
        if in_flight::has_id(c.in_flight, id) {
            law_in_flight_was_handed_out(queue, calls, name, id, last);
        } else {
            let at = in_flight::index_of_id(d.in_flight, id);
            assert(d.in_flight[at].0 == id);
            lemma_new_in_flight(before, call, name, id);
            assert(queue.hands_out(calls, last, name, id));
        }
    }
}

/// What is in flight after a call and was not before is handed out by the call.
proof fn lemma_new_in_flight(before: QueueView, call: Call, name: Seq<char>, id: u64)
    requires
        before.orderly(),
        before.channels.contains_key(name),
        runs::keeps_channel(call, name),
        before.allows(call),
        before.is_answered_honestly(call),
        !in_flight::has_id(before.channels[name].in_flight, id),
        in_flight::has_id(before.after(call).channels[name].in_flight, id),
    ensures
        is_get(call, name),
        before.reply(call) matches Reply::Handed(Some(Ok(message))) && message.id == id,
{
    let c = before.channels[name];
    let d = before.after(call).channels[name];
    let at = in_flight::index_of_id(d.in_flight, id);
    assert(d.in_flight[at].0 == id);
    match call {
        Call::Get { name: to, clock, fetched } => {
            if to == name {
                if c.due(clock) {
                    if at < d.in_flight.len() - 1 {
                        assert(d.in_flight[at] == c.in_flight[at + 1]);
                    } else {
                        assert(c.in_flight[0].0 == id);
                    }
                } else if let Some(message) = fetched {
                    let rest = in_flight::without_id(c.in_flight, message.id);
                    in_flight::lemma_without_id(c.in_flight, message.id);
                    if at < rest.len() {
                        assert(d.in_flight[at] == rest[at]);
                        assert(in_flight::has_id(rest, id));
                        assert(id != message.id);
                    }
                }
            }
        },
        Call::Ack { name: to, id: acked, clock } => {
            if to == name {
                in_flight::lemma_without_id(c.in_flight, acked);
            }
        },
        Call::Info { clock } => {
            assert(d.in_flight[at].0 == c.in_flight[at].0);
        },
        _ => {},
    }
}

/// What a channel is handed while nothing is due is new to it: it has a greater id than all
/// that was handed out to it before.
pub proof fn law_new_messages_have_greater_ids(
    queue: QueueView,
    calls: Seq<Call>,
    name: Seq<char>,
    j: int,
    id: u64,
    k: int,
    next: u64,
)
    requires
        queue.runs(calls),
        0 <= j < k < calls.len(),
        forall|i: int| 0 <= i < k ==> runs::keeps_channel(#[trigger] calls[i], name),
        queue.hands_out(calls, j, name, id),
        queue.hands_out(calls, k, name, next),
        calls[k].clock() matches Some(clock) ==> !queue.before(calls, k).channels[name].due(clock),
    ensures
        id < next,
{
    lemma_step(queue, calls, j);
    lemma_step(queue, calls, k);
    let before = queue.before(calls, j);
    let after = queue.before(calls, j + 1);
    if let Call::Get { clock, fetched, .. } = calls[j] {
        let message = fetched->0;
        laws::law_handed_out_is_in_flight(
            before.channels[name],
            clock,
            queue.time_to_live,
            message,
        );
        runs::law_call_keeps_order(before, calls[j]);
        let channel = after.channels[name];
        assert(after.channels.contains_key(name));
        let at = in_flight::index_of_id(channel.in_flight, id);
        assert(channel.in_flight[at].0 == id);
        assert(channel.held.contains(id));
    }
    law_tail_does_not_go_back(queue, calls, name, j + 1, k);
}

/// Messages are handed out to a channel for the first time in the order of their ids, which is
/// that in which they were pushed: one that is handed out to it for the first time has a
/// greater id than all that were handed out to it before.
pub proof fn law_first_deliveries_come_in_order(
    queue: QueueView,
    calls: Seq<Call>,
    name: Seq<char>,
    j: int,
    id: u64,
    k: int,
    next: u64,
)
    requires
        queue.runs(calls),
        queue.channels.contains_key(name),
        0 <= j < k < calls.len(),
        forall|i: int| 0 <= i < k ==> runs::keeps_channel(#[trigger] calls[i], name),
        queue.hands_out(calls, j, name, id),
        queue.hands_out(calls, k, name, next),
        !in_flight::has_id(queue.channels[name].in_flight, next),
        forall|i: int| 0 <= i < k ==> !#[trigger] queue.hands_out(calls, i, name, next),
    ensures
        id < next,
{
    lemma_step(queue, calls, k);
    let before = queue.before(calls, k);
    if let Call::Get { clock, fetched, .. } = calls[k] {
        let channel = before.channels[name];
        if channel.due(clock) {
            assert(channel.in_flight[0].0 == next);
            assert(in_flight::has_id(channel.in_flight, next));
            law_in_flight_was_handed_out(queue, calls, name, next, k);
        }
        law_new_messages_have_greater_ids(queue, calls, name, j, id, k, next);
    }
}

impl ChannelView {
    /// The id was read, and if it is in flight, its deadline is not before `until`.
    pub open spec fn rests(self, id: u64, until: int) -> bool {
        &&& id < self.tail
        &&& in_flight::has_id(self.in_flight, id) ==> {
            until <= self.in_flight[in_flight::index_of_id(self.in_flight, id)].1
        }
    }
}

/// A message that rests is not handed out before its time, and rests on after a call that is
/// made before.
proof fn lemma_rests(before: QueueView, call: Call, name: Seq<char>, id: u64, until: int)
    requires
        before.orderly(),
        before.allows(call),
        before.is_answered_honestly(call),
        before.channels.contains_key(name),
        before.channels[name].rests(id, until),
        runs::keeps_channel(call, name),
        call.clock() matches Some(clock) ==> clock < until,
    ensures
        before.after(call).channels.contains_key(name),
        before.after(call).channels[name].rests(id, until),
        is_get(call, name) ==> (before.reply(call) matches Reply::Handed(Some(Ok(message)))
            ==> message.id != id),
{
    let c = before.channels[name];
    let d = before.after(call).channels[name];
    match call {
        Call::Get { name: to, clock, fetched } => {
            if to == name {
                laws::law_get_keeps_marked(c, clock, before.time_to_live, fetched);
                if c.due(clock) {
                    in_flight::lemma_index_of_id(c.in_flight, 0);
                }
                if in_flight::has_id(d.in_flight, id) {
                    let at = in_flight::index_of_id(d.in_flight, id);
                    assert(d.in_flight[at].0 == id);
                    if c.due(clock) {
                        if at < d.in_flight.len() - 1 {
                            assert(d.in_flight[at] == c.in_flight[at + 1]);
                            in_flight::lemma_index_of_id(c.in_flight, at + 1);
                        } else {
                            assert(c.in_flight[0].0 == id);
                        }
                    } else if let Some(message) = fetched {
                        let rest = in_flight::without_id(c.in_flight, message.id);
                        lemma_entry_without(c, message.id, id);
                        assert(at < rest.len());
                        assert(d.in_flight[at] == rest[at]);
                        in_flight::lemma_without_id(c.in_flight, message.id);
                        in_flight::lemma_index_of_id(rest, at);
                    }
                }
            }
        },
        Call::Ack { name: to, id: acked, clock } => {
            if to == name && c.can_ack(acked, clock) && in_flight::has_id(d.in_flight, id) {
                in_flight::lemma_without_id(c.in_flight, acked);
                lemma_entry_without(c, acked, id);
            }
        },
        Call::Info { clock } => {
            laws::law_sweep_keeps_marked(c, clock);
            channel::lemma_first_alive(c.in_flight, c.expired_count as int, clock);
            if in_flight::has_id(d.in_flight, id) {
                let at = in_flight::index_of_id(d.in_flight, id);
                assert(d.in_flight[at].0 == id);
                assert(c.in_flight[at].0 == id);
                in_flight::lemma_index_of_id(c.in_flight, at);
            }
        },
        _ => {},
    }
}

/// Taking another id out leaves the entry of an id as it is.
proof fn lemma_entry_without(channel: ChannelView, other: u64, id: u64)
    requires
        channel.wf(),
        in_flight::has_id(in_flight::without_id(channel.in_flight, other), id) || (
        in_flight::has_id(channel.in_flight, id) && other != id),
    ensures
        ({
            let rest = in_flight::without_id(channel.in_flight, other);
            &&& in_flight::has_id(rest, id)
            &&& in_flight::has_id(channel.in_flight, id)
            &&& rest[in_flight::index_of_id(rest, id)]
                == channel.in_flight[in_flight::index_of_id(channel.in_flight, id)]
        }),
{
    let rest = in_flight::without_id(channel.in_flight, other);
    in_flight::lemma_without_id(channel.in_flight, other);
    assert(in_flight::has_id(rest, id));
    let at = in_flight::index_of_id(rest, id);
    assert(rest[at].0 == id);
    if in_flight::has_id(channel.in_flight, other) {
        let gap = in_flight::index_of_id(channel.in_flight, other);
        assert(channel.in_flight[gap].0 == other);
        let from = if at < gap { at } else { at + 1 };
        assert(rest[at] == channel.in_flight[from]);
        in_flight::lemma_index_of_id(channel.in_flight, from);
    }
}

/// A message that rests until some time is not handed out before it, in any run that keeps the
/// channel and in which no clock goes back.
pub proof fn law_resting_is_not_handed_out(
    queue: QueueView,
    calls: Seq<Call>,
    name: Seq<char>,
    id: u64,
    until: int,
    from: u32,
    k: int,
)
    requires
        queue.runs(calls),
        queue.channels.contains_key(name),
        queue.channels[name].rests(id, until),
        runs::in_clock_order(calls, from),
        0 <= k < calls.len(),
        forall|i: int| 0 <= i < k ==> runs::keeps_channel(#[trigger] calls[i], name),
        queue.hands_out(calls, k, name, id),
    ensures
        calls[k].clock() matches Some(clock) && until <= clock,
{
    let clock = calls[k].clock()->0;
    if clock < until {
        assert forall|i: int| 0 <= i < k implies ((#[trigger] calls[i]).clock() matches Some(at)
            ==> at < until) by {
            assert(calls[k].not_before(calls[i].clock()->0) || calls[i].clock() is None);
        }
        lemma_rests_up_to(queue, calls, name, id, until, k);
        lemma_step(queue, calls, k);
        lemma_rests(queue.before(calls, k), calls[k], name, id, until);
    }
}

proof fn lemma_rests_up_to(
    queue: QueueView,
    calls: Seq<Call>,
    name: Seq<char>,
    id: u64,
    until: int,
    k: int,
)
    requires
        queue.runs(calls),
        queue.channels.contains_key(name),
        queue.channels[name].rests(id, until),
        0 <= k <= calls.len(),
        forall|i: int| 0 <= i < k ==> runs::keeps_channel(#[trigger] calls[i], name),
        forall|i: int|
            0 <= i < k ==> ((#[trigger] calls[i]).clock() matches Some(at) ==> at < until),
    ensures
        queue.before(calls, k).channels.contains_key(name),
        queue.before(calls, k).channels[name].rests(id, until),
    decreases k,
{
    if k == 0 {
        assert(queue.before(calls, 0) == queue);
    } else {
        lemma_rests_up_to(queue, calls, name, id, until, k - 1);
        lemma_step(queue, calls, k - 1);
        assert(runs::keeps_channel(calls[k - 1], name));
        assert(calls[k - 1].clock() matches Some(at) ==> at < until);
        lemma_rests(queue.before(calls, k - 1), calls[k - 1], name, id, until);
    }
}

/// A message that is handed out to a channel is not handed out to it again before its time to
/// live is over, in any run from then on that keeps the channel and in which no clock goes
/// back.
pub proof fn law_handed_out_rests(
    queue: QueueView,
    name: Seq<char>,
    clock: u32,
    message: Message,
    calls: Seq<Call>,
    k: int,
)
    requires
        queue.orderly(),
        queue.tight(),
        queue.channels.contains_key(name),
        queue.allows(Call::Get { name, clock, fetched: Some(message) }),
        queue.is_answered_honestly(Call::Get { name, clock, fetched: Some(message) }),
        queue.after_get(name, clock, Some(message)).runs(calls),
        runs::in_clock_order(calls, clock),
        0 <= k < calls.len(),
        forall|i: int| 0 <= i < k ==> runs::keeps_channel(#[trigger] calls[i], name),
        queue.after_get(name, clock, Some(message)).hands_out(calls, k, name, message.id),
    ensures
        calls[k].clock() matches Some(again) && clock + queue.time_to_live <= again,
{
    let before = queue.channels[name];
    let handed = queue.after_get(name, clock, Some(message));
    let channel = handed.channels[name];
    laws::law_get_keeps_orderly(before, clock, queue.time_to_live, Some(message));
    let last = channel.in_flight.len() - 1;
    assert(channel.in_flight[last] == (message.id, (clock + queue.time_to_live) as u32));
    in_flight::lemma_index_of_id(channel.in_flight, last);
    assert(channel.held.contains(message.id));
    law_resting_is_not_handed_out(
        handed,
        calls,
        name,
        message.id,
        clock + queue.time_to_live,
        clock,
        k,
    );
}

/// A message that is finished stays so after a call, which does not hand it out and does not
/// acknowledge it.
proof fn lemma_finished(before: QueueView, call: Call, name: Seq<char>, id: u64)
    requires
        before.orderly(),
        before.allows(call),
        before.is_answered_honestly(call),
        before.channels.contains_key(name),
        before.channels[name].finished(id),
        runs::keeps_channel(call, name),
    ensures
        before.after(call).channels.contains_key(name),
        before.after(call).channels[name].finished(id),
        is_get(call, name) ==> (before.reply(call) matches Reply::Handed(Some(Ok(message)))
            ==> message.id != id),
        runs::is_ack(call, name, id) ==> before.reply(call) == Reply::Acked(Some(false)),
{
    let channel = before.channels[name];
    match call {
        Call::Get { name: to, clock, fetched } => {
            if to == name {
                laws::law_finished_stays_finished(
                    channel,
                    id,
                    clock,
                    before.time_to_live,
                    fetched,
                    0,
                    0,
                );
            }
        },
        Call::Ack { name: to, id: acked, clock } => {
            if to == name {
                in_flight::lemma_without_id(channel.in_flight, acked);
            }
        },
        Call::Info { clock } => {
            let swept = channel.swept(clock);
            assert forall|i: int| 0 <= i < swept.in_flight.len() implies (
            #[trigger] swept.in_flight[i]).0 != id by {
                assert(swept.in_flight[i].0 == channel.in_flight[i].0);
            }
        },
        _ => {},
    }
}

proof fn lemma_finished_up_to(
    queue: QueueView,
    calls: Seq<Call>,
    name: Seq<char>,
    id: u64,
    n: int,
)
    requires
        queue.runs(calls),
        0 <= n <= calls.len(),
        queue.channels.contains_key(name),
        queue.channels[name].finished(id),
        forall|i: int| 0 <= i < n ==> runs::keeps_channel(#[trigger] calls[i], name),
    ensures
        queue.before(calls, n).channels.contains_key(name),
        queue.before(calls, n).channels[name].finished(id),
    decreases n,
{
    if n == 0 {
        assert(queue.before(calls, 0) == queue);
    } else {
        lemma_finished_up_to(queue, calls, name, id, n - 1);
        lemma_step(queue, calls, n - 1);
        assert(runs::keeps_channel(calls[n - 1], name));
        lemma_finished(queue.before(calls, n - 1), calls[n - 1], name, id);
    }
}

/// A message that is finished on a channel stays so in any run that keeps the channel: no call
/// hands it out, and each acknowledgement of it is answered that it is not done.
pub proof fn law_run_keeps_finished(
    queue: QueueView,
    calls: Seq<Call>,
    name: Seq<char>,
    id: u64,
)
    requires
        queue.runs(calls),
        queue.channels.contains_key(name),
        queue.channels[name].finished(id),
        forall|i: int| 0 <= i < calls.len() ==> runs::keeps_channel(#[trigger] calls[i], name),
    ensures
        queue.after_all(calls).channels.contains_key(name),
        queue.after_all(calls).channels[name].finished(id),
        forall|k: int| 0 <= k < calls.len() ==> !#[trigger] queue.hands_out(calls, k, name, id),
        forall|k: int|
            0 <= k < calls.len() && runs::is_ack(#[trigger] calls[k], name, id) ==> queue.before(
                calls,
                k,
            ).reply(calls[k]) == Reply::Acked(Some(false)),
{
    assert forall|k: int| 0 <= k < calls.len() implies !#[trigger] queue.hands_out(
        calls,
        k,
        name,
        id,
    ) by {
        lemma_finished_up_to(queue, calls, name, id, k);
        lemma_step(queue, calls, k);
        lemma_finished(queue.before(calls, k), calls[k], name, id);
    }
    assert forall|k: int|
        0 <= k < calls.len() && runs::is_ack(#[trigger] calls[k], name, id) implies queue.before(
        calls,
        k,
    ).reply(calls[k]) == Reply::Acked(Some(false)) by {
        lemma_finished_up_to(queue, calls, name, id, k);
        lemma_step(queue, calls, k);
        lemma_finished(queue.before(calls, k), calls[k], name, id);
    }
    lemma_finished_up_to(queue, calls, name, id, calls.len() as int);
    assert(calls.take(calls.len() as int) =~= calls);
}

/// An acknowledged message is gone from its channel: in any run from then on that keeps the
/// channel, at whatever clocks, no call hands it out, and each further acknowledgement of it is
/// answered that it is not done.
pub proof fn law_acknowledged_is_gone(
    queue: QueueView,
    name: Seq<char>,
    id: u64,
    clock: u32,
    calls: Seq<Call>,
)
    requires
        queue.orderly(),
        queue.channels.contains_key(name),
        queue.reply(Call::Ack { name, id, clock }) == Reply::Acked(Some(true)),
        queue.after_ack(name, id, clock).runs(calls),
        forall|i: int| 0 <= i < calls.len() ==> runs::keeps_channel(#[trigger] calls[i], name),
    ensures
        ({
            let acked = queue.after_ack(name, id, clock);
            &&& acked.after_all(calls).channels.contains_key(name)
            &&& acked.after_all(calls).channels[name].finished(id)
            &&& forall|k: int|
                0 <= k < calls.len() ==> !#[trigger] acked.hands_out(calls, k, name, id)
            &&& forall|k: int|
                0 <= k < calls.len() && runs::is_ack(#[trigger] calls[k], name, id)
                    ==> acked.before(calls, k).reply(calls[k]) == Reply::Acked(Some(false))
        }),
{
    let acked = queue.after_ack(name, id, clock);
    laws::law_acked_is_finished(queue.channels[name], id, clock);
    law_run_keeps_finished(acked, calls, name, id);
}

/// A run may begin with a queue without channels: it is orderly and tight, and its deadlines
/// stand in their order.
pub proof fn law_empty_queue_begins_in_order(name: Seq<char>, time_to_live: u32, latest: int)
    ensures
        QueueView::empty(name, time_to_live).orderly(),
        QueueView::empty(name, time_to_live).tight(),
        QueueView::empty(name, time_to_live).in_deadline_order(latest),
{
}

/// As long as no clock goes back, the deadlines of each channel stand in their order.
pub proof fn law_run_keeps_deadline_order(queue: QueueView, calls: Seq<Call>, from: u32, n: int)
    requires
        queue.runs(calls),
        runs::in_clock_order(calls, from),
        queue.in_deadline_order(from + queue.time_to_live),
        0 <= n <= calls.len(),
    ensures
        queue.before(calls, n).in_deadline_order(
            runs::latest_clock(calls.take(n), from) + queue.time_to_live,
        ),
        from <= runs::latest_clock(calls.take(n), from),
        forall|k: int|
            n <= k < calls.len() ==> (#[trigger] calls[k]).not_before(
                runs::latest_clock(calls.take(n), from),
            ),
    decreases n,
{
    if n == 0 {
        assert(queue.before(calls, 0) == queue);
    } else {
        let last = n - 1;
        let call = calls[last];
        let ttl = queue.time_to_live;
        law_run_keeps_deadline_order(queue, calls, from, last);
        lemma_step(queue, calls, last);
        assert(calls.take(n).drop_last() =~= calls.take(last));
        assert(calls.take(n).last() == call);
        let before = queue.before(calls, last);
        let next = queue.before(calls, n);
        let earlier = runs::latest_clock(calls.take(last), from);
        let now = runs::latest_clock(calls.take(n), from);
        assert(call.not_before(earlier));
        assert(earlier <= now);
        assert forall|k: int| n <= k < calls.len() implies (#[trigger] calls[k]).not_before(
            now,
        ) by {
            assert(calls[last].clock() matches Some(clock) ==> calls[k].not_before(clock));
            assert(calls[k].not_before(earlier));
        }
        assert forall|name: Seq<char>| #[trigger] next.channels.contains_key(name) implies
            next.channels[name].in_deadline_order(now + ttl) by {
            if before.channels.contains_key(name) {
                let channel = before.channels[name];
                assert(channel.in_deadline_order(earlier + ttl));
                assert(channel.in_deadline_order(now + ttl));
                match call {
                    Call::Get { name: to, clock, fetched } => {
                        if to == name {
                            laws::law_get_keeps_deadline_order(
                                channel,
                                clock,
                                ttl,
                                fetched,
                                earlier + ttl,
                            );
                        }
                    },
                    Call::Ack { name: to, id, clock } => {
                        laws::law_ack_keeps_deadline_order(channel, id, clock, now + ttl);
                    },
                    Call::Info { clock } => {
                        laws::law_sweep_keeps_deadline_order(channel, clock, now + ttl);
                    },
                    _ => {},
                }
            }
        }
    }
}

/// Where the deadlines of a channel stand in their order: what is told as in flight is the
/// number of messages that can still be acknowledged; a message is due just where some deadline
/// is past; and the channel answers that there is nothing just where no deadline is past and
/// the store has nothing from the tail on.
pub proof fn law_answers_in_deadline_order(
    channel: ChannelView,
    clock: u32,
    time_to_live: u32,
    fetched: Option<Message>,
    latest: int,
)
    requires
        channel.wf(),
        channel.in_deadline_order(latest),
        channel.accepts(clock, time_to_live, fetched),
    ensures
        queue::told(channel, clock).in_flight_count == channel.in_flight.filter(
            |entry: (u64, u32)| clock < entry.1,
        ).len(),
        forall|i: int|
            0 <= i < channel.in_flight.len() ==> channel.can_ack(
                (#[trigger] channel.in_flight[i]).0,
                clock,
            ) == (clock < channel.in_flight[i].1),
        channel.due(clock) <==> exists|i: int|
            0 <= i < channel.in_flight.len() && clock >= (#[trigger] channel.in_flight[i]).1,
        channel.answer(fetched) is Err <==> {
            &&& forall|i: int|
                0 <= i < channel.in_flight.len() ==> clock < (#[trigger] channel.in_flight[i]).1
            &&& fetched is None
            &&& channel.wanted(clock) == channel.tail
        },
{
    laws::law_count_is_of_the_alive(channel, clock, latest);
    channel::lemma_first_alive(channel.in_flight, channel.expired_count as int, clock);
    assert forall|i: int| 0 <= i < channel.in_flight.len() implies channel.can_ack(
        (#[trigger] channel.in_flight[i]).0,
        clock,
    ) == (clock < channel.in_flight[i].1) by {
        in_flight::lemma_index_of_id(channel.in_flight, i);
    }
    assert forall|i: int|
        0 <= i < channel.in_flight.len() && clock >= (
        #[trigger] channel.in_flight[i]).1 implies channel.due(clock) by {
        assert(i == 0 || channel.in_flight[0].1 <= channel.in_flight[i].1);
    }
}

/// After any run in which no clock goes back: what a queue tells as in flight on a channel is
/// the number of messages that can still be acknowledged there, and the channel answers that
/// there is nothing just where no deadline is past and the store has nothing from its tail on.
pub proof fn law_run_counts_and_answers(
    queue: QueueView,
    calls: Seq<Call>,
    from: u32,
    name: Seq<char>,
    clock: u32,
    fetched: Option<Message>,
)
    requires
        queue.runs(calls),
        runs::in_clock_order(calls, from),
        queue.in_deadline_order(from + queue.time_to_live),
        queue.after_all(calls).channels.contains_key(name),
        queue.after_all(calls).accepts(name, clock, fetched),
    ensures
        ({
            let channel = queue.after_all(calls).channels[name];
            &&& queue::told(channel, clock).in_flight_count == channel.in_flight.filter(
                |entry: (u64, u32)| clock < entry.1,
            ).len()
            &&& forall|i: int|
                0 <= i < channel.in_flight.len() ==> channel.can_ack(
                    (#[trigger] channel.in_flight[i]).0,
                    clock,
                ) == (clock < channel.in_flight[i].1)
            &&& channel.answer(fetched) is Err <==> {
                &&& forall|i: int|
                    0 <= i < channel.in_flight.len() ==> clock < (#[trigger] channel.in_flight[i]).1
                &&& fetched is None
                &&& channel.wanted(clock) == channel.tail
            }
        }),
{
    let n = calls.len() as int;
    let after = queue.after_all(calls);
    assert(calls.take(n) =~= calls);
    law_run_keeps_deadline_order(queue, calls, from, n);
    runs::law_run_keeps_order(queue, calls);
    runs::law_run_keeps_state(queue, calls);
    law_answers_in_deadline_order(
        after.channels[name],
        clock,
        queue.time_to_live,
        fetched,
        runs::latest_clock(calls, from) + queue.time_to_live,
    );
}

} // verus!
